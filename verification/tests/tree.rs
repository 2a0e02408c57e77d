use hid_descriptor::collections::{append_bracket, collection_main_items};
use hid_descriptor::descriptor::{ordered_child_lists, reconstruct_descriptor};
use hid_descriptor::fields::{find_collection_item, insert_fields, insertion_point, make_cap_item};
use hid_descriptor::hierarchy::{
    check_links, check_node, check_tree, child_lists, level_of, list_contains, sibling_list,
};
use hid_descriptor::list::MainItemList;
use hid_descriptor::order::{earliest_bit_of, earliest_bits_of, ordered_children, sort_children};
use hid_descriptor::ranges::{check_caps, collection_bit_ranges, widen_upwards, BitRangeTable};
use hid_descriptor::typedefs::{Caps, CapsInfo, HidpPreparsedData, LinkCollectionNode};
use hid_descriptor::types::{
    BitRange, DescriptorError, ItemNodeType, MainItemNode, MainItems, ReportType,
};

fn node(parent: u16, children: u16, next_sibling: u16, first_child: u16) -> LinkCollectionNode {
    LinkCollectionNode {
        link_usage: 0,
        link_usage_page: 0,
        parent,
        number_of_children: children,
        next_sibling,
        first_child,
        bits: 0,
    }
}

fn caps(id: u8, byte_position: u16, bit_position: u8, size: u16, count: u16, coll: u16) -> Caps {
    let mut c = Caps::parse(&[0u8; 104], 0);
    c.report_id = id;
    c.byte_position = byte_position;
    c.bit_position = bit_position;
    c.report_size = size;
    c.report_count = count;
    c.link_collection = coll;
    c
}

fn header(ranges: [(u16, u16); 3], nodes: u16) -> HidpPreparsedData {
    let info = |r: (u16, u16)| CapsInfo {
        first_cap: r.0,
        number_of_caps: r.1 - r.0,
        last_cap: r.1,
        report_byte_length: 0,
    };
    HidpPreparsedData {
        magic_key: *b"HidP KDR",
        usage: 0,
        usage_page: 0,
        caps_info: [info(ranges[0]), info(ranges[1]), info(ranges[2])],
        first_byte_of_link_collection_array: 0,
        number_link_collection_nodes: nodes,
    }
}

/// Root 0 with the children 1 and 4; 1 with the children 2 and 3.
fn five_nodes() -> Vec<LinkCollectionNode> {
    vec![
        node(0, 2, 0, 4),
        node(0, 2, 0, 3),
        node(1, 0, 0, 0),
        node(1, 0, 2, 0),
        node(0, 0, 1, 0),
    ]
}

/// Input: report 1 in the collections 2 and 3, report 2 in collection 4.
/// Output: report 1 in the root.
fn four_caps() -> (HidpPreparsedData, Vec<Caps>) {
    (
        header([(0, 3), (3, 4), (4, 4)], 5),
        vec![
            caps(1, 2, 0, 8, 1, 2),
            caps(1, 1, 0, 1, 4, 3),
            caps(2, 3, 0, 2, 1, 4),
            caps(1, 1, 0, 8, 1, 0),
        ],
    )
}

fn coll(index: usize, kind: MainItems) -> MainItemNode {
    MainItemNode::new(0, 0, ItemNodeType::Collection, None, index, kind, 0)
}

fn field(first: u64, last: u64, k: usize, c: usize, kind: MainItems, id: u8) -> MainItemNode {
    MainItemNode::new(first, last, ItemNodeType::Cap, Some(k), c, kind, id)
}

fn pad(first: u64, last: u64, kind: MainItems, id: u8) -> MainItemNode {
    MainItemNode::new(first, last, ItemNodeType::Padding, None, 0, kind, id)
}

fn range(first: u64, last: u64) -> BitRange {
    BitRange { first_bit: Some(first), last_bit: Some(last) }
}

#[test]
fn tree_is_accepted_with_its_child_lists() {
    let nodes = five_nodes();
    assert!(check_links(&nodes));
    let lists = check_tree(&nodes).unwrap();
    assert_eq!(lists, vec![vec![4, 1], vec![3, 2], vec![], vec![], vec![]]);
    assert_eq!(child_lists(&nodes), Some(lists.clone()));
    for c in 0..5 {
        assert!(check_node(&nodes, &lists, c));
    }
    assert_eq!(sibling_list(&nodes, 4), Some(vec![4, 1]));
    assert_eq!(sibling_list(&nodes, 2), Some(vec![2]));
    assert_eq!(sibling_list(&nodes, 0), Some(vec![]));
    let levels: Vec<Option<usize>> = (0..5).map(|c| level_of(&nodes, c)).collect();
    assert_eq!(levels, vec![Some(0), Some(1), Some(2), Some(2), Some(1)]);
    assert!(list_contains(&lists[0], 4));
    assert!(!list_contains(&lists[0], 2));
    assert!(!list_contains(&lists[2], 0));
}

#[test]
fn single_root_is_a_tree() {
    assert_eq!(check_tree(&[node(0, 0, 0, 0)]), Some(vec![vec![]]));
    // the parent of the root is not looked at
    assert_eq!(check_tree(&[node(7, 0, 0, 0)]), None);
    assert!(!check_links(&[node(7, 0, 0, 0)]));
}

#[test]
fn broken_trees_are_refused() {
    assert_eq!(check_tree(&[]), None);
    assert!(!check_links(&[]));

    let mut n = five_nodes();
    n[2].first_child = 5;
    assert!(!check_links(&n));
    assert_eq!(check_tree(&n), None);

    // siblings that never end
    let mut n = five_nodes();
    n[1].next_sibling = 4;
    assert!(check_links(&n));
    assert_eq!(sibling_list(&n, 4), None);
    assert_eq!(child_lists(&n), None);
    assert_eq!(check_tree(&n), None);

    // a child that names another parent
    let mut n = five_nodes();
    n[2].parent = 0;
    assert_eq!(check_tree(&n), None);

    // a count of children that is not the length of the list
    let mut n = five_nodes();
    n[0].number_of_children = 3;
    assert_eq!(check_tree(&n), None);
    let mut n = five_nodes();
    n[4].number_of_children = 1;
    assert_eq!(check_tree(&n), None);

    // a sibling of the root
    let mut n = five_nodes();
    n[0].next_sibling = 4;
    assert_eq!(check_tree(&n), None);

    // a node that is in no child list
    let mut n = five_nodes();
    n[3].next_sibling = 0;
    n[1].number_of_children = 1;
    assert_eq!(check_tree(&n), None);

    // two nodes that are each other's parent
    let n = vec![node(0, 0, 0, 0), node(2, 1, 0, 2), node(1, 1, 0, 1)];
    assert!(check_links(&n));
    assert_eq!(level_of(&n, 1), None);
    assert_eq!(check_tree(&n), None);
}

#[test]
fn capabilities_must_fit_the_arrays() {
    let nodes = five_nodes();
    let (h, c) = four_caps();
    assert!(check_caps(&h, &c, &nodes));
    assert!(reconstruct_descriptor(h, &c, &nodes).is_ok());

    // a range past the end of the array
    let far = header([(0, 3), (3, 5), (5, 5)], 5);
    assert!(!check_caps(&far, &c, &nodes));
    assert_eq!(
        reconstruct_descriptor(far, &c, &nodes).err(),
        Some(DescriptorError::CorruptPreparsedData)
    );

    // a field in the byte of the report id
    let mut bad = c.clone();
    bad[1].byte_position = 0;
    assert!(!check_caps(&h, &bad, &nodes));
    assert_eq!(
        reconstruct_descriptor(h, &bad, &nodes).err(),
        Some(DescriptorError::CorruptPreparsedData)
    );

    // a field without bits
    let mut bad = c.clone();
    bad[3].report_count = 0;
    assert!(!check_caps(&h, &bad, &nodes));
    let mut bad = c.clone();
    bad[0].report_size = 0;
    assert!(!check_caps(&h, &bad, &nodes));

    // a field in a collection that is not there
    let mut bad = c.clone();
    bad[2].link_collection = 5;
    assert!(!check_caps(&h, &bad, &nodes));
    assert_eq!(
        reconstruct_descriptor(h, &bad, &nodes).err(),
        Some(DescriptorError::CorruptPreparsedData)
    );

    // capabilities outside the three ranges are not looked at
    let gaps = header([(0, 1), (2, 3), (4, 4)], 5);
    let mut some = c.clone();
    some[1] = Caps::parse(&[0u8; 104], 0);
    some[3] = Caps::parse(&[0xffu8; 104], 0);
    assert!(check_caps(&gaps, &some, &nodes));
    assert!(reconstruct_descriptor(gaps, &some, &nodes).is_ok());
}

#[test]
fn ranges_reach_up_to_the_root() {
    let nodes = five_nodes();
    let (h, c) = four_caps();
    let table = collection_bit_ranges(&h, &c, &nodes);
    assert_eq!(table.collections(), 5);
    let input = ReportType::Input;
    assert_eq!(table.range(2, 1, input), range(8, 15));
    assert_eq!(table.range(3, 1, input), range(0, 3));
    assert_eq!(table.range(1, 1, input), range(0, 15));
    assert_eq!(table.range(0, 1, input), range(0, 15));
    assert_eq!(table.range(4, 1, input), BitRange::empty());
    assert_eq!(table.range(4, 2, input), range(16, 17));
    assert_eq!(table.range(0, 2, input), range(16, 17));
    assert_eq!(table.range(1, 2, input), BitRange::empty());
    assert_eq!(table.range(0, 1, ReportType::Output), range(0, 7));
    assert_eq!(table.range(1, 1, ReportType::Output), BitRange::empty());
    for c in 0..5 {
        assert_eq!(table.range(c, 1, ReportType::Feature), BitRange::empty());
        assert_eq!(table.range(c, 0, input), BitRange::empty());
        assert_eq!(table.range(c, 255, ReportType::Output), BitRange::empty());
    }
    assert_eq!(earliest_bit_of(&table, &h, &c, &nodes, 2), Some(8));
    assert_eq!(
        earliest_bits_of(&table, &h, &c, &nodes),
        vec![Some(0), Some(0), Some(8), Some(0), Some(16)]
    );
}

#[test]
fn table_keeps_one_range_for_each_report() {
    let mut table = BitRangeTable::new(3);
    assert_eq!(table.collections(), 3);
    table.widen(2, 255, ReportType::Feature, 5, 9);
    table.widen(0, 0, ReportType::Input, 1, 2);
    table.widen(2, 255, ReportType::Feature, 7, 20);
    for c in 0..3 {
        for id in [0u8, 1, 254, 255] {
            for rt in ReportType::values() {
                let expected = if (c, id, rt) == (2, 255, ReportType::Feature) {
                    range(5, 20)
                } else if (c, id, rt) == (0, 0, ReportType::Input) {
                    range(1, 2)
                } else {
                    BitRange::empty()
                };
                assert_eq!(table.range(c, id, rt), expected);
            }
        }
    }
    let nodes = five_nodes();
    let mut table = BitRangeTable::new(5);
    widen_upwards(&mut table, &nodes, caps(7, 2, 4, 3, 2, 3), ReportType::Output);
    for c in 0..5 {
        let expected = if c == 3 || c == 1 || c == 0 { range(12, 17) } else { BitRange::empty() };
        assert_eq!(table.range(c, 7, ReportType::Output), expected);
        assert_eq!(table.range(c, 7, ReportType::Input), BitRange::empty());
        assert_eq!(table.range(c, 6, ReportType::Output), BitRange::empty());
    }
}

#[test]
fn children_are_sorted_by_their_earliest_bit() {
    let sorted = |children: &[usize], keys: &[Option<u64>]| {
        let mut v = children.to_vec();
        sort_children(&mut v, &keys.to_vec());
        v
    };
    assert_eq!(sorted(&[], &[]), Vec::<usize>::new());
    assert_eq!(sorted(&[0], &[Some(9)]), vec![0]);
    assert_eq!(sorted(&[0, 1, 2, 3], &[Some(3), Some(2), Some(1), Some(0)]), vec![3, 2, 1, 0]);
    assert_eq!(sorted(&[0, 1, 2, 3], &[Some(0), Some(2), Some(1), Some(3)]), vec![0, 2, 1, 3]);
    // equal bits keep their order
    assert_eq!(sorted(&[0, 1, 2], &[Some(1), Some(1), Some(0)]), vec![2, 0, 1]);
    assert_eq!(sorted(&[1, 0, 2], &[Some(1), Some(1), Some(0)]), vec![2, 1, 0]);
    assert_eq!(sorted(&[2, 1, 0], &[Some(1), Some(1), Some(0)]), vec![2, 1, 0]);
    // a child without bits keeps its place and parts the list
    assert_eq!(sorted(&[0, 1, 2], &[Some(5), None, Some(1)]), vec![0, 1, 2]);
    assert_eq!(sorted(&[0, 1, 2, 3], &[Some(5), Some(1), None, Some(0)]), vec![1, 0, 2, 3]);
    assert_eq!(sorted(&[0, 1, 2, 3], &[None, Some(9), Some(4), Some(4)]), vec![0, 2, 3, 1]);
    assert_eq!(sorted(&[0, 1, 2], &[None, None, None]), vec![0, 1, 2]);
    // the written order is the reverse of the links, then sorted
    let keys = vec![None, Some(0), Some(8), Some(0), Some(16)];
    assert_eq!(ordered_children(&vec![4, 1], &keys), vec![1, 4]);
    assert_eq!(ordered_children(&vec![3, 2], &keys), vec![3, 2]);
    assert_eq!(ordered_children(&vec![2, 3], &keys), vec![3, 2]);
    assert_eq!(ordered_children(&vec![], &keys), Vec::<usize>::new());
}

#[test]
fn collections_are_written_in_the_order_of_the_tree() {
    let nodes = five_nodes();
    let orders = vec![vec![1, 4], vec![3, 2], vec![], vec![], vec![]];
    let list = collection_main_items(&nodes, &orders);
    let open = MainItems::Collection;
    let end = MainItems::CollectionEnd;
    assert_eq!(
        list.to_vec(),
        vec![
            coll(0, open),
            coll(1, open),
            coll(3, open),
            coll(3, end),
            coll(2, open),
            coll(2, end),
            coll(1, end),
            coll(4, open),
            coll(4, end),
            coll(0, end),
        ]
    );
    assert_eq!(find_collection_item(&list, 0, open), Some(0));
    assert_eq!(find_collection_item(&list, 2, open), Some(4));
    assert_eq!(find_collection_item(&list, 2, end), Some(5));
    assert_eq!(find_collection_item(&list, 1, end), Some(6));
    assert_eq!(find_collection_item(&list, 5, open), None);
    assert_eq!(find_collection_item(&list, 0, MainItems::DelimiterOpen), None);
}

#[test]
fn bracket_lists_the_run_from_its_end() {
    let mut list = MainItemList::new();
    append_bracket(&mut list, &vec![]);
    assert_eq!(list.len(), 0);
    append_bracket(&mut list, &vec![7]);
    append_bracket(&mut list, &vec![1, 2, 3]);
    assert_eq!(
        list.to_vec(),
        vec![
            coll(7, MainItems::DelimiterOpen),
            coll(7, MainItems::DelimiterUsage),
            coll(7, MainItems::DelimiterClose),
            coll(3, MainItems::DelimiterOpen),
            coll(3, MainItems::DelimiterUsage),
            coll(2, MainItems::DelimiterUsage),
            coll(1, MainItems::DelimiterUsage),
            coll(1, MainItems::DelimiterClose),
        ]
    );
}

#[test]
fn fields_go_to_their_collections() {
    let nodes = five_nodes();
    let (h, c) = four_caps();
    let lists = check_tree(&nodes).unwrap();
    let table = collection_bit_ranges(&h, &c, &nodes);
    let keys = earliest_bits_of(&table, &h, &c, &nodes);
    let orders = ordered_child_lists(&h, &c, &nodes, &lists, &keys);
    assert_eq!(orders, vec![vec![1, 4], vec![3, 2], vec![], vec![], vec![]]);
    let mut list = collection_main_items(&nodes, &orders);
    // the output field of the root passes both children and rests in front of the root's end
    let at = insertion_point(&list, &h, &c, &nodes, &orders, &table, c[3], ReportType::Output);
    assert_eq!(list.node(at), coll(4, MainItems::CollectionEnd));
    // an input field of report 1 in the root that begins at bit 4 passes child 1, whose
    // bits begin at 0, and child 4, which has no bits of the report
    let probe = caps(1, 1, 4, 1, 1, 0);
    let at = insertion_point(&list, &h, &c, &nodes, &orders, &table, probe, ReportType::Input);
    assert_eq!(list.node(at), coll(4, MainItems::CollectionEnd));
    // one of report 2 that begins at bit 0 stops at child 4, whose bits begin at 16
    let probe = caps(2, 1, 0, 1, 1, 0);
    let at = insertion_point(&list, &h, &c, &nodes, &orders, &table, probe, ReportType::Input);
    assert_eq!(list.node(at), coll(1, MainItems::CollectionEnd));
    // a field of collection 1 that begins at bit 0 passes child 3 and stops at child 2
    let probe = caps(1, 1, 0, 1, 1, 1);
    let at = insertion_point(&list, &h, &c, &nodes, &orders, &table, probe, ReportType::Input);
    assert_eq!(list.node(at), coll(3, MainItems::CollectionEnd));
    assert_eq!(
        make_cap_item(c[0], 0, MainItems::Input),
        field(8, 15, 0, 2, MainItems::Input, 1)
    );
    insert_fields(&mut list, &h, &c, &nodes, &orders, &table);
    let open = MainItems::Collection;
    let end = MainItems::CollectionEnd;
    assert_eq!(
        list.to_vec(),
        vec![
            coll(0, open),
            coll(1, open),
            coll(3, open),
            field(0, 3, 1, 3, MainItems::Input, 1),
            coll(3, end),
            coll(2, open),
            field(8, 15, 0, 2, MainItems::Input, 1),
            coll(2, end),
            coll(1, end),
            coll(4, open),
            field(16, 17, 2, 4, MainItems::Input, 2),
            coll(4, end),
            field(0, 7, 3, 0, MainItems::Output, 1),
            coll(0, end),
        ]
    );
}

#[test]
fn reconstruction_of_a_tree_with_three_reports() {
    let nodes = five_nodes();
    let (h, c) = four_caps();
    let list = reconstruct_descriptor(h, &c, &nodes).unwrap();
    let open = MainItems::Collection;
    let end = MainItems::CollectionEnd;
    assert_eq!(
        list.to_vec(),
        vec![
            coll(0, open),
            coll(1, open),
            coll(3, open),
            field(0, 3, 1, 3, MainItems::Input, 1),
            coll(3, end),
            coll(2, open),
            pad(4, 7, MainItems::Input, 1),
            field(8, 15, 0, 2, MainItems::Input, 1),
            coll(2, end),
            coll(1, end),
            coll(4, open),
            field(16, 17, 2, 4, MainItems::Input, 2),
            pad(18, 23, MainItems::Input, 2),
            coll(4, end),
            field(0, 7, 3, 0, MainItems::Output, 1),
            coll(0, end),
        ]
    );
}

#[test]
fn fields_of_one_collection_stand_in_the_order_of_their_bits() {
    // stored from the last bits to the first, as three reports of each type
    let nodes = vec![node(0, 0, 0, 0)];
    let h = header([(0, 3), (3, 5), (5, 6)], 1);
    let c = vec![
        caps(0, 3, 0, 8, 1, 0),
        caps(0, 2, 0, 8, 1, 0),
        caps(0, 1, 0, 8, 1, 0),
        caps(0, 1, 4, 4, 1, 0),
        caps(0, 1, 0, 4, 1, 0),
        caps(3, 1, 0, 16, 2, 0),
    ];
    let list = reconstruct_descriptor(h, &c, &nodes).unwrap();
    assert_eq!(
        list.to_vec(),
        vec![
            coll(0, MainItems::Collection),
            field(0, 7, 2, 0, MainItems::Input, 0),
            field(8, 15, 1, 0, MainItems::Input, 0),
            field(16, 23, 0, 0, MainItems::Input, 0),
            field(0, 3, 4, 0, MainItems::Output, 0),
            field(4, 7, 3, 0, MainItems::Output, 0),
            field(0, 31, 5, 0, MainItems::Feature, 3),
            coll(0, MainItems::CollectionEnd),
        ]
    );
}

#[test]
fn unended_run_of_aliased_capabilities_is_closed_at_the_end() {
    let nodes = vec![node(0, 0, 0, 0)];
    let h = header([(0, 2), (2, 2), (2, 2)], 1);
    let mut c = vec![caps(0, 1, 0, 8, 1, 0), caps(0, 1, 0, 8, 1, 0)];
    c[0].flags = 0x20;
    c[1].flags = 0x20;
    let list = reconstruct_descriptor(h, &c, &nodes).unwrap();
    assert_eq!(
        list.to_vec(),
        vec![
            coll(0, MainItems::Collection),
            field(0, 7, 1, 0, MainItems::DelimiterOpen, 0),
            field(0, 7, 1, 0, MainItems::DelimiterUsage, 0),
            field(0, 7, 0, 0, MainItems::DelimiterUsage, 0),
            field(0, 7, 0, 0, MainItems::DelimiterClose, 0),
            coll(0, MainItems::CollectionEnd),
        ]
    );
}

#[test]
fn aliased_collection_is_a_usage_and_nothing_else() {
    // child 1 is aliased and has a child of its own; child 2 ends the run
    let mut nodes = vec![node(0, 2, 0, 2), node(0, 1, 0, 3), node(0, 0, 1, 0), node(1, 0, 0, 0)];
    nodes[1].bits = 0x100;
    let h = header([(0, 0), (0, 0), (0, 0)], 4);
    let list = reconstruct_descriptor(h, &[], &nodes).unwrap();
    assert_eq!(
        list.to_vec(),
        vec![
            coll(0, MainItems::Collection),
            coll(2, MainItems::DelimiterOpen),
            coll(2, MainItems::DelimiterUsage),
            coll(1, MainItems::DelimiterUsage),
            coll(1, MainItems::DelimiterClose),
            coll(2, MainItems::Collection),
            coll(2, MainItems::CollectionEnd),
            coll(0, MainItems::CollectionEnd),
        ]
    );
}

#[test]
fn field_of_the_parent_stands_between_its_children() {
    let nodes = vec![node(0, 2, 0, 2), node(0, 0, 0, 0), node(0, 0, 1, 0)];
    let h = header([(0, 3), (3, 3), (3, 3)], 3);
    let c = vec![caps(5, 1, 0, 8, 1, 1), caps(5, 2, 0, 8, 1, 0), caps(5, 3, 0, 8, 1, 2)];
    let list = reconstruct_descriptor(h, &c, &nodes).unwrap();
    let open = MainItems::Collection;
    let end = MainItems::CollectionEnd;
    assert_eq!(
        list.to_vec(),
        vec![
            coll(0, open),
            coll(1, open),
            field(0, 7, 0, 1, MainItems::Input, 5),
            coll(1, end),
            field(8, 15, 1, 0, MainItems::Input, 5),
            coll(2, open),
            field(16, 23, 2, 2, MainItems::Input, 5),
            coll(2, end),
            coll(0, end),
        ]
    );
}

#[test]
fn field_of_the_parent_in_front_of_its_children() {
    let nodes = vec![node(0, 1, 0, 1), node(0, 0, 0, 0)];
    let h = header([(0, 0), (0, 2), (2, 2)], 2);
    let c = vec![caps(0, 2, 0, 4, 1, 1), caps(0, 1, 0, 8, 1, 0)];
    let list = reconstruct_descriptor(h, &c, &nodes).unwrap();
    assert_eq!(
        list.to_vec(),
        vec![
            coll(0, MainItems::Collection),
            field(0, 7, 1, 0, MainItems::Output, 0),
            coll(1, MainItems::Collection),
            field(8, 11, 0, 1, MainItems::Output, 0),
            pad(12, 15, MainItems::Output, 0),
            coll(1, MainItems::CollectionEnd),
            coll(0, MainItems::CollectionEnd),
        ]
    );
}

#[test]
fn deep_tree_is_walked_to_the_bottom() {
    // a chain of collections, each the only child of the one before it
    let depth: u16 = 1200;
    let mut nodes = Vec::new();
    for i in 0..depth {
        let parent = if i == 0 { 0 } else { i - 1 };
        let child = if i + 1 < depth { i + 1 } else { 0 };
        nodes.push(node(parent, if child == 0 { 0 } else { 1 }, 0, child));
    }
    let h = header([(0, 1), (1, 1), (1, 1)], depth);
    let c = vec![caps(0, 1, 0, 8, 1, depth - 1)];
    let items = reconstruct_descriptor(h, &c, &nodes).unwrap().to_vec();
    let n = depth as usize;
    assert_eq!(items.len(), 2 * n + 1);
    for i in 0..n {
        assert_eq!(items[i], coll(i, MainItems::Collection));
        assert_eq!(items[2 * n - i], coll(i, MainItems::CollectionEnd));
    }
    assert_eq!(items[n], field(0, 7, 0, n - 1, MainItems::Input, 0));
    assert_eq!(level_of(&nodes, n - 1), Some(n - 1));
}

#[test]
fn wide_tree_keeps_the_order_of_declaration() {
    // children 1..=300 of the root, linked from the last to the first
    let width: u16 = 300;
    let mut nodes = vec![node(0, width, 0, width)];
    for i in 1..=width {
        nodes.push(node(0, 0, i - 1, 0));
    }
    let h = header([(0, 0), (0, 0), (0, 0)], width + 1);
    let items = reconstruct_descriptor(h, &[], &nodes).unwrap().to_vec();
    assert_eq!(items.len(), 2 * width as usize + 2);
    for i in 1..=width as usize {
        assert_eq!(items[2 * i - 1], coll(i, MainItems::Collection));
        assert_eq!(items[2 * i], coll(i, MainItems::CollectionEnd));
    }
}
