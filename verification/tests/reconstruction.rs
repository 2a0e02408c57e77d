use hid_descriptor::descriptor::{get_descriptor, reconstruct_descriptor};
use hid_descriptor::extract::extract_structures;
use hid_descriptor::typedefs::{Caps, CapsInfo, HidpPreparsedData, LinkCollectionNode};
use hid_descriptor::types::{DescriptorError, ItemNodeType, MainItemNode, MainItems};

const ALIAS_FLAG: u8 = 32;
const ALIAS_BIT: u32 = 256;

fn put_u16(bytes: &mut Vec<u8>, at: usize, v: u16) {
    bytes[at] = (v & 0xff) as u8;
    bytes[at + 1] = (v >> 8) as u8;
}

fn cap_bytes(
    report_id: u8,
    byte_position: u16,
    bit_position: u8,
    report_size: u16,
    report_count: u16,
    link_collection: u16,
    flags: u8,
) -> Vec<u8> {
    let mut b = vec![0u8; 104];
    b[2] = report_id;
    b[3] = bit_position;
    put_u16(&mut b, 4, report_size);
    put_u16(&mut b, 6, report_count);
    put_u16(&mut b, 8, byte_position);
    put_u16(&mut b, 18, link_collection);
    b[24] = flags;
    b
}

fn node_bytes(parent: u16, children: u16, next_sibling: u16, first_child: u16, bits: u32) -> Vec<u8> {
    let mut b = vec![0u8; 16];
    put_u16(&mut b, 4, parent);
    put_u16(&mut b, 6, children);
    put_u16(&mut b, 8, next_sibling);
    put_u16(&mut b, 10, first_child);
    b[12] = (bits & 0xff) as u8;
    b[13] = ((bits >> 8) & 0xff) as u8;
    b[14] = ((bits >> 16) & 0xff) as u8;
    b[15] = ((bits >> 24) & 0xff) as u8;
    b
}

/// A blob with `ranges` as the capability ranges of input, output and feature.
fn blob(ranges: [(u16, u16); 3], caps: &[Vec<u8>], gap: u16, nodes: &[Vec<u8>]) -> Vec<u8> {
    let mut b = vec![0u8; 44];
    b[..8].copy_from_slice(b"HidP KDR");
    for t in 0..3 {
        put_u16(&mut b, 16 + 8 * t, ranges[t].0);
        put_u16(&mut b, 16 + 8 * t + 2, ranges[t].1 - ranges[t].0);
        put_u16(&mut b, 16 + 8 * t + 4, ranges[t].1);
    }
    put_u16(&mut b, 40, gap);
    put_u16(&mut b, 42, nodes.len() as u16);
    for c in caps {
        b.extend_from_slice(c);
    }
    for _ in 0..gap {
        b.push(0xee);
    }
    for n in nodes {
        b.extend_from_slice(n);
    }
    b
}

fn collection(index: usize, kind: MainItems) -> MainItemNode {
    MainItemNode::new(0, 0, ItemNodeType::Collection, None, index, kind, 0)
}

fn cap(first: u64, last: u64, caps_index: usize, coll: usize, kind: MainItems, id: u8) -> MainItemNode {
    MainItemNode::new(first, last, ItemNodeType::Cap, Some(caps_index), coll, kind, id)
}

fn padding(first: u64, last: u64, kind: MainItems, id: u8) -> MainItemNode {
    MainItemNode::new(first, last, ItemNodeType::Padding, None, 0, kind, id)
}

#[test]
fn single_byte_field_needs_no_padding() {
    let data = blob(
        [(0, 1), (1, 1), (1, 1)],
        &[cap_bytes(0, 1, 0, 8, 1, 0, 0)],
        0,
        &[node_bytes(0, 0, 0, 0, 1)],
    );
    let d = get_descriptor(&data).unwrap();
    assert_eq!(
        d.main_items,
        vec![
            collection(0, MainItems::Collection),
            cap(0, 7, 0, 0, MainItems::Input, 0),
            collection(0, MainItems::CollectionEnd),
        ]
    );
    assert_eq!(d.caps_list.len(), 1);
    assert_eq!(d.link_collection_nodes.len(), 1);
}

#[test]
fn three_bit_field_is_padded_to_the_byte() {
    let data = blob(
        [(0, 1), (1, 1), (1, 1)],
        &[cap_bytes(0, 1, 0, 1, 3, 0, 0)],
        0,
        &[node_bytes(0, 0, 0, 0, 1)],
    );
    let d = get_descriptor(&data).unwrap();
    assert_eq!(
        d.main_items,
        vec![
            collection(0, MainItems::Collection),
            cap(0, 2, 0, 0, MainItems::Input, 0),
            padding(3, 7, MainItems::Input, 0),
            collection(0, MainItems::CollectionEnd),
        ]
    );
}

#[test]
fn children_are_ordered_by_first_bit() {
    // Child 1 holds the bits 8..=15, child 2 the bits 0..=7 of the same report.
    let data = blob(
        [(0, 2), (2, 2), (2, 2)],
        &[cap_bytes(0, 2, 0, 8, 1, 1, 0), cap_bytes(0, 1, 0, 8, 1, 2, 0)],
        0,
        &[
            node_bytes(0, 2, 0, 2, 1),
            node_bytes(0, 0, 0, 0, 0),
            node_bytes(0, 0, 1, 0, 0),
        ],
    );
    let d = get_descriptor(&data).unwrap();
    assert_eq!(
        d.main_items,
        vec![
            collection(0, MainItems::Collection),
            collection(2, MainItems::Collection),
            cap(0, 7, 1, 2, MainItems::Input, 0),
            collection(2, MainItems::CollectionEnd),
            collection(1, MainItems::Collection),
            cap(8, 15, 0, 1, MainItems::Input, 0),
            collection(1, MainItems::CollectionEnd),
            collection(0, MainItems::CollectionEnd),
        ]
    );
}

#[test]
fn children_keep_declaration_order_without_bits() {
    let data = blob(
        [(0, 0), (0, 0), (0, 0)],
        &[],
        0,
        &[
            node_bytes(0, 2, 0, 2, 1),
            node_bytes(0, 0, 0, 0, 0),
            node_bytes(0, 0, 1, 0, 0),
        ],
    );
    let d = get_descriptor(&data).unwrap();
    assert_eq!(
        d.main_items,
        vec![
            collection(0, MainItems::Collection),
            collection(1, MainItems::Collection),
            collection(1, MainItems::CollectionEnd),
            collection(2, MainItems::Collection),
            collection(2, MainItems::CollectionEnd),
            collection(0, MainItems::CollectionEnd),
        ]
    );
}

#[test]
fn three_aliased_collections_make_one_bracket() {
    let data = blob(
        [(0, 0), (0, 0), (0, 0)],
        &[],
        0,
        &[
            node_bytes(0, 3, 0, 3, 1),
            node_bytes(0, 0, 0, 0, ALIAS_BIT),
            node_bytes(0, 0, 1, 0, ALIAS_BIT),
            node_bytes(0, 0, 2, 0, ALIAS_BIT),
        ],
    );
    let d = get_descriptor(&data).unwrap();
    assert_eq!(
        d.main_items,
        vec![
            collection(0, MainItems::Collection),
            collection(3, MainItems::DelimiterOpen),
            collection(3, MainItems::DelimiterUsage),
            collection(2, MainItems::DelimiterUsage),
            collection(1, MainItems::DelimiterUsage),
            collection(1, MainItems::DelimiterClose),
            collection(0, MainItems::CollectionEnd),
        ]
    );
}

#[test]
fn aliased_collections_end_with_the_collection_that_is_not_aliased() {
    let data = blob(
        [(0, 0), (0, 0), (0, 0)],
        &[],
        0,
        &[
            node_bytes(0, 3, 0, 3, 1),
            node_bytes(0, 0, 0, 0, ALIAS_BIT),
            node_bytes(0, 0, 1, 0, ALIAS_BIT),
            node_bytes(0, 0, 2, 0, 2),
        ],
    );
    let d = get_descriptor(&data).unwrap();
    assert_eq!(
        d.main_items,
        vec![
            collection(0, MainItems::Collection),
            collection(3, MainItems::DelimiterOpen),
            collection(3, MainItems::DelimiterUsage),
            collection(2, MainItems::DelimiterUsage),
            collection(1, MainItems::DelimiterUsage),
            collection(1, MainItems::DelimiterClose),
            collection(3, MainItems::Collection),
            collection(3, MainItems::CollectionEnd),
            collection(0, MainItems::CollectionEnd),
        ]
    );
}

#[test]
fn aliased_capabilities_make_one_bracket_in_front_of_the_field() {
    // Three usages of one byte: the first two are flagged, the third ends the run.
    let data = blob(
        [(0, 3), (3, 3), (3, 3)],
        &[
            cap_bytes(0, 1, 0, 8, 1, 0, ALIAS_FLAG),
            cap_bytes(0, 1, 0, 8, 1, 0, ALIAS_FLAG),
            cap_bytes(0, 1, 0, 8, 1, 0, 0),
        ],
        0,
        &[node_bytes(0, 0, 0, 0, 1)],
    );
    let d = get_descriptor(&data).unwrap();
    assert_eq!(
        d.main_items,
        vec![
            collection(0, MainItems::Collection),
            cap(0, 7, 2, 0, MainItems::DelimiterOpen, 0),
            cap(0, 7, 2, 0, MainItems::DelimiterUsage, 0),
            cap(0, 7, 1, 0, MainItems::DelimiterUsage, 0),
            cap(0, 7, 0, 0, MainItems::DelimiterUsage, 0),
            cap(0, 7, 0, 0, MainItems::DelimiterClose, 0),
            cap(0, 7, 2, 0, MainItems::Input, 0),
            collection(0, MainItems::CollectionEnd),
        ]
    );
}

#[test]
fn wrong_signature_is_invalid() {
    let mut data = blob(
        [(0, 1), (1, 1), (1, 1)],
        &[cap_bytes(0, 1, 0, 8, 1, 0, 0)],
        0,
        &[node_bytes(0, 0, 0, 0, 1)],
    );
    for at in 0..8 {
        let mut wrong = data.clone();
        wrong[at] ^= 1;
        assert_eq!(get_descriptor(&wrong).err(), Some(DescriptorError::InvalidPreparsedData));
        assert_eq!(extract_structures(&wrong).err(), Some(DescriptorError::InvalidPreparsedData));
    }
    data.truncate(7);
    assert_eq!(get_descriptor(&data).err(), Some(DescriptorError::InvalidPreparsedData));
    assert_eq!(get_descriptor(&[]).err(), Some(DescriptorError::InvalidPreparsedData));
}

#[test]
fn data_that_ends_too_early_is_corrupt() {
    let data = blob(
        [(0, 1), (1, 1), (1, 1)],
        &[cap_bytes(0, 1, 0, 8, 1, 0, 0)],
        0,
        &[node_bytes(0, 0, 0, 0, 1)],
    );
    assert!(get_descriptor(&data).is_ok());
    for len in 8..data.len() {
        assert_eq!(
            get_descriptor(&data[..len]).err(),
            Some(DescriptorError::CorruptPreparsedData),
            "length {}",
            len
        );
    }
}

#[test]
fn the_node_array_lies_behind_the_gap() {
    let data = blob(
        [(0, 1), (1, 1), (1, 1)],
        &[cap_bytes(0, 1, 0, 8, 1, 0, 0)],
        5,
        &[node_bytes(0, 0, 0, 0, 7)],
    );
    let (header, caps, nodes) = extract_structures(&data).unwrap();
    assert_eq!(header.first_byte_of_link_collection_array, 5);
    assert_eq!(header.number_link_collection_nodes, 1);
    assert_eq!(caps.len(), 1);
    assert_eq!(caps[0].report_size, 8);
    assert_eq!(nodes.len(), 1);
    assert_eq!(nodes[0].bits, 7);
    assert_eq!(nodes[0].collection_type(), 7);
}

#[test]
fn structures_that_do_not_fit_are_corrupt() {
    let node = LinkCollectionNode {
        link_usage: 0,
        link_usage_page: 0,
        parent: 0,
        number_of_children: 0,
        next_sibling: 0,
        first_child: 0,
        bits: 0,
    };
    let none = CapsInfo { first_cap: 0, number_of_caps: 0, last_cap: 0, report_byte_length: 0 };
    let header = HidpPreparsedData {
        magic_key: *b"HidP KDR",
        usage: 0,
        usage_page: 0,
        caps_info: [none, none, none],
        first_byte_of_link_collection_array: 0,
        number_link_collection_nodes: 1,
    };
    let caps: Vec<Caps> = Vec::new();
    assert!(reconstruct_descriptor(header, &caps, &[node]).is_ok());
    // no root
    assert_eq!(
        reconstruct_descriptor(header, &caps, &[]).err(),
        Some(DescriptorError::CorruptPreparsedData)
    );
    // a link past the end of the array
    let mut far = node;
    far.first_child = 1;
    far.number_of_children = 1;
    assert_eq!(
        reconstruct_descriptor(header, &caps, &[far]).err(),
        Some(DescriptorError::CorruptPreparsedData)
    );
    // the header counts another number of nodes
    assert_eq!(
        reconstruct_descriptor(header, &caps, &[node, node]).err(),
        Some(DescriptorError::CorruptPreparsedData)
    );
}
