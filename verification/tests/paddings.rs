use hid_descriptor::descriptor::get_descriptor;
use hid_descriptor::list::{append_main_item_node, MainItemList};
use hid_descriptor::padding::{add_padding, has_later_field};
use hid_descriptor::types::{ItemNodeType, MainItemNode, MainItems};

fn coll(index: usize, kind: MainItems) -> MainItemNode {
    MainItemNode::new(0, 0, ItemNodeType::Collection, None, index, kind, 0)
}

fn field(first: u64, last: u64, kind: MainItems, id: u8) -> MainItemNode {
    MainItemNode::new(first, last, ItemNodeType::Cap, Some(0), 0, kind, id)
}

fn pad(first: u64, last: u64, kind: MainItems, id: u8) -> MainItemNode {
    MainItemNode::new(first, last, ItemNodeType::Padding, None, 0, kind, id)
}

fn padded(items: &[MainItemNode]) -> Vec<MainItemNode> {
    let mut list = MainItemList::new();
    for item in items {
        append_main_item_node(*item, &mut list);
    }
    add_padding(&mut list);
    assert_eq!(list.len(), list.to_vec().len());
    list.to_vec()
}

const IN: MainItems = MainItems::Input;
const OUT: MainItems = MainItems::Output;
const FEA: MainItems = MainItems::Feature;

#[test]
fn empty_list_stays_empty() {
    assert_eq!(padded(&[]), vec![]);
}

#[test]
fn gap_and_end_of_a_report_are_filled() {
    let open = coll(0, MainItems::Collection);
    let end = coll(0, MainItems::CollectionEnd);
    assert_eq!(
        padded(&[open, field(0, 3, IN, 0), field(8, 10, IN, 0), end]),
        vec![
            open,
            field(0, 3, IN, 0),
            pad(4, 7, IN, 0),
            field(8, 10, IN, 0),
            pad(11, 15, IN, 0),
            end,
        ]
    );
}

#[test]
fn gap_padding_stands_directly_in_front_of_its_field() {
    let items = [
        coll(0, MainItems::Collection),
        coll(1, MainItems::Collection),
        field(0, 0, FEA, 4),
        coll(1, MainItems::CollectionEnd),
        coll(2, MainItems::Collection),
        field(2, 7, FEA, 4),
        coll(2, MainItems::CollectionEnd),
        coll(0, MainItems::CollectionEnd),
    ];
    let mut expected = items.to_vec();
    expected.insert(5, pad(1, 1, FEA, 4));
    assert_eq!(padded(&items), expected);
}

#[test]
fn fields_that_touch_need_no_padding() {
    let items = [field(0, 7, OUT, 1), field(8, 15, OUT, 1), field(16, 31, OUT, 1)];
    assert_eq!(padded(&items), items.to_vec());
}

#[test]
fn every_length_of_the_last_byte() {
    for last in 0..24u64 {
        let items = [field(0, last, IN, 0)];
        let mut expected = items.to_vec();
        if (last + 1) % 8 != 0 {
            expected.push(pad(last + 1, last / 8 * 8 + 7, IN, 0));
        }
        assert_eq!(padded(&items), expected, "last bit {}", last);
    }
}

#[test]
fn fields_on_the_same_bits_get_no_gap() {
    let items = [field(0, 7, IN, 0), field(0, 7, IN, 0), field(0, 7, IN, 0)];
    assert_eq!(padded(&items), items.to_vec());
    let items = [field(0, 2, IN, 0), field(0, 2, IN, 0)];
    assert_eq!(
        padded(&items),
        vec![field(0, 2, IN, 0), field(0, 2, IN, 0), pad(3, 7, IN, 0)]
    );
    // a field that begins in front of the end of the one before it
    let items = [field(8, 15, IN, 0), field(0, 7, IN, 0)];
    assert_eq!(padded(&items), items.to_vec());
    let items = [field(0, 9, IN, 0), field(4, 5, IN, 0)];
    assert_eq!(
        padded(&items),
        vec![field(0, 9, IN, 0), field(4, 5, IN, 0), pad(6, 7, IN, 0)]
    );
}

#[test]
fn first_field_of_a_report_gets_no_padding_in_front() {
    let items = [field(8, 15, IN, 0)];
    assert_eq!(padded(&items), items.to_vec());
    let items = [field(3, 4, IN, 0)];
    assert_eq!(padded(&items), vec![field(3, 4, IN, 0), pad(5, 7, IN, 0)]);
}

#[test]
fn every_report_is_padded_by_itself() {
    let items = [
        field(0, 3, IN, 1),
        field(0, 1, OUT, 1),
        field(0, 0, IN, 2),
        field(4, 7, IN, 1),
        field(9, 9, IN, 2),
        field(0, 4, FEA, 1),
    ];
    assert_eq!(
        padded(&items),
        vec![
            field(0, 3, IN, 1),
            field(0, 1, OUT, 1),
            pad(2, 7, OUT, 1),
            field(0, 0, IN, 2),
            field(4, 7, IN, 1),
            pad(1, 8, IN, 2),
            field(9, 9, IN, 2),
            pad(10, 15, IN, 2),
            field(0, 4, FEA, 1),
            pad(5, 7, FEA, 1),
        ]
    );
}

#[test]
fn delimiters_and_paddings_are_no_fields() {
    let usage = MainItemNode::new(0, 2, ItemNodeType::Cap, Some(0), 0, MainItems::DelimiterUsage, 0);
    let items = [usage, pad(0, 2, IN, 0), coll(0, MainItems::Collection)];
    assert_eq!(padded(&items), items.to_vec());
    let items = [field(0, 7, IN, 0), usage, pad(8, 9, IN, 0), field(16, 23, IN, 0)];
    assert_eq!(
        padded(&items),
        vec![field(0, 7, IN, 0), usage, pad(8, 9, IN, 0), pad(8, 15, IN, 0), field(16, 23, IN, 0)]
    );
}

#[test]
fn later_field_of_the_same_report() {
    let mut list = MainItemList::new();
    for item in [
        field(0, 7, IN, 0),
        field(0, 7, OUT, 0),
        field(0, 7, IN, 1),
        pad(8, 15, FEA, 0),
        field(8, 15, IN, 0),
    ] {
        append_main_item_node(item, &mut list);
    }
    assert!(has_later_field(&list, 0, IN, 0));
    assert!(has_later_field(&list, 3, IN, 0));
    assert!(!has_later_field(&list, 4, IN, 0));
    assert!(has_later_field(&list, 0, OUT, 0));
    assert!(!has_later_field(&list, 1, OUT, 0));
    assert!(!has_later_field(&list, 0, FEA, 0));
    assert!(has_later_field(&list, 1, IN, 1));
    assert!(!has_later_field(&list, 2, IN, 1));
    assert!(!has_later_field(&list, 0, MainItems::Collection, 0));
}

#[test]
fn paddings_leave_the_nodes_of_the_list_where_they_are() {
    let mut list = MainItemList::new();
    let a = append_main_item_node(field(0, 3, IN, 0), &mut list);
    let b = append_main_item_node(field(8, 10, IN, 0), &mut list);
    let c = append_main_item_node(coll(0, MainItems::CollectionEnd), &mut list);
    add_padding(&mut list);
    assert_eq!(list.len(), 5);
    assert_eq!(list.first(), Some(a));
    assert_eq!(list.node(a), field(0, 3, IN, 0));
    assert_eq!(list.node(b), field(8, 10, IN, 0));
    assert_eq!(list.node(c), coll(0, MainItems::CollectionEnd));
    let gap = list.next(a).unwrap();
    assert_eq!(list.node(gap), pad(4, 7, IN, 0));
    assert_eq!(list.next(gap), Some(b));
    let end = list.next(b).unwrap();
    assert_eq!(list.node(end), pad(11, 15, IN, 0));
    assert_eq!(list.next(end), Some(c));
    assert_eq!(list.next(c), None);
}

fn depth_is_balanced(items: &[MainItemNode]) -> bool {
    let mut depth: i64 = 0;
    for item in items {
        match item.main_item_type {
            MainItems::Collection => depth += 1,
            MainItems::CollectionEnd => depth -= 1,
            _ => {}
        }
        if depth < 0 {
            return false;
        }
    }
    depth == 0
}

/// The bit behind the fields and paddings of the report, if they follow each other from bit 0.
fn span(items: &[MainItemNode], kind: MainItems, id: u8) -> Option<u64> {
    let mut next = 0;
    for item in items {
        let part = matches!(item.node_type, ItemNodeType::Cap | ItemNodeType::Padding)
            && item.main_item_type == kind
            && item.report_id == id;
        if part {
            if item.first_bit != next || item.first_bit > item.last_bit {
                return None;
            }
            next = item.last_bit + 1;
        }
    }
    Some(next)
}

fn device() -> Vec<u8> {
    // a root with two children; buttons and axes of report 1 in the first child,
    // a feature of report 2 in the second
    let mut b = vec![0u8; 44];
    b[..8].copy_from_slice(b"HidP KDR");
    let infos: [(u16, u16); 3] = [(0, 3), (3, 3), (3, 4)];
    for (t, (first, last)) in infos.into_iter().enumerate() {
        b[16 + 8 * t] = first as u8;
        b[16 + 8 * t + 4] = last as u8;
    }
    b[42] = 3;
    let cap = |id: u8, byte: u8, bit: u8, size: u8, count: u8, coll: u8| {
        let mut c = vec![0u8; 104];
        c[2] = id;
        c[3] = bit;
        c[4] = size;
        c[6] = count;
        c[8] = byte;
        c[18] = coll;
        c
    };
    b.extend(cap(1, 2, 0, 8, 2, 1)); // axes: bits 8..=23
    b.extend(cap(1, 1, 0, 1, 3, 1)); // buttons: bits 0..=2
    b.extend(cap(1, 4, 0, 4, 1, 1)); // wheel: bits 24..=27
    b.extend(cap(2, 1, 0, 9, 1, 2)); // feature: bits 0..=8
    let node = |parent: u8, children: u8, next: u8, first: u8| {
        let mut n = vec![0u8; 16];
        n[4] = parent;
        n[6] = children;
        n[8] = next;
        n[10] = first;
        n
    };
    b.extend(node(0, 2, 0, 2));
    b.extend(node(0, 0, 0, 0));
    b.extend(node(0, 0, 1, 0));
    b
}

#[test]
fn reconstruction_is_balanced_and_covers_each_report() {
    let d = get_descriptor(&device()).unwrap();
    let cap = |first: u64, last: u64, k: usize, c: usize, kind: MainItems, id: u8| {
        MainItemNode::new(first, last, ItemNodeType::Cap, Some(k), c, kind, id)
    };
    assert_eq!(
        d.main_items,
        vec![
            coll(0, MainItems::Collection),
            coll(1, MainItems::Collection),
            cap(0, 2, 1, 1, IN, 1),
            pad(3, 7, IN, 1),
            cap(8, 23, 0, 1, IN, 1),
            cap(24, 27, 2, 1, IN, 1),
            pad(28, 31, IN, 1),
            coll(1, MainItems::CollectionEnd),
            coll(2, MainItems::Collection),
            cap(0, 8, 3, 2, FEA, 2),
            pad(9, 15, FEA, 2),
            coll(2, MainItems::CollectionEnd),
            coll(0, MainItems::CollectionEnd),
        ]
    );
    assert!(depth_is_balanced(&d.main_items));
    assert_eq!(span(&d.main_items, IN, 1), Some(32));
    assert_eq!(span(&d.main_items, FEA, 2), Some(16));
    assert_eq!(span(&d.main_items, OUT, 1), Some(0));
}

#[test]
fn reconstruction_gives_the_same_items_each_time() {
    let data = device();
    let first = get_descriptor(&data).unwrap();
    let again = get_descriptor(&data).unwrap();
    assert_eq!(first.main_items, again.main_items);
    assert_eq!(first.caps_list, again.caps_list);
    assert_eq!(first.link_collection_nodes, again.link_collection_nodes);
    let wrong = &data[1..];
    assert_eq!(get_descriptor(wrong).err(), get_descriptor(wrong).err());
}
