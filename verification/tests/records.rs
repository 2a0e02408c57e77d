use hid_descriptor::extract::{check_signature, extract_structures};
use hid_descriptor::typedefs::{
    u16_le, u32_le, Caps, CapsInfo, HidpPreparsedData, LinkCollectionNode, CAPS_SIZE, HEADER_SIZE,
    LINK_COLLECTION_NODE_SIZE,
};
use hid_descriptor::types::{
    BitRange, DescriptorError, ItemNodeType, MainItemNode, MainItems, ReportType,
};

fn counted(len: usize) -> Vec<u8> {
    (0..len).map(|i| (i % 251) as u8 + 1).collect()
}

#[test]
fn numbers_are_little_endian() {
    let bytes = [0x34u8, 0x12, 0x78, 0x56, 0xff, 0xff, 0xff, 0xff];
    assert_eq!(u16_le(&bytes, 0), 0x1234);
    assert_eq!(u16_le(&bytes, 1), 0x7812);
    assert_eq!(u16_le(&bytes, 4), 0xffff);
    assert_eq!(u32_le(&bytes, 0), 0x5678_1234);
    assert_eq!(u32_le(&bytes, 4), 0xffff_ffff);
}

#[test]
fn record_sizes() {
    assert_eq!(HEADER_SIZE, 44);
    assert_eq!(CAPS_SIZE, 104);
    assert_eq!(LINK_COLLECTION_NODE_SIZE, 16);
}

#[test]
fn header_fields_lie_at_their_offsets() {
    let bytes = counted(44);
    let at = |o: usize| u16_le(&bytes, o);
    let h = HidpPreparsedData::parse(&bytes);
    assert_eq!(h.magic_key, [1, 2, 3, 4, 5, 6, 7, 8]);
    assert_eq!(h.usage, at(8));
    assert_eq!(h.usage_page, at(10));
    for t in 0..3 {
        let o = 16 + 8 * t;
        assert_eq!(
            h.caps_info[t],
            CapsInfo {
                first_cap: at(o),
                number_of_caps: at(o + 2),
                last_cap: at(o + 4),
                report_byte_length: at(o + 6),
            }
        );
        assert_eq!(CapsInfo::parse(&bytes, o), h.caps_info[t]);
    }
    assert_eq!(h.first_byte_of_link_collection_array, at(40));
    assert_eq!(h.number_link_collection_nodes, at(42));
}

#[test]
fn caps_len_is_the_largest_last_cap() {
    let info = |last: u16| CapsInfo { first_cap: 0, number_of_caps: 0, last_cap: last, report_byte_length: 0 };
    let mut h = HidpPreparsedData {
        magic_key: *b"HidP KDR",
        usage: 0,
        usage_page: 0,
        caps_info: [info(3), info(9), info(5)],
        first_byte_of_link_collection_array: 0,
        number_link_collection_nodes: 0,
    };
    assert_eq!(h.caps_len(), 9);
    h.caps_info = [info(12), info(9), info(5)];
    assert_eq!(h.caps_len(), 12);
    h.caps_info = [info(1), info(1), info(65535)];
    assert_eq!(h.caps_len(), 65535);
    h.caps_info = [info(0), info(0), info(0)];
    assert_eq!(h.caps_len(), 0);
}

#[test]
fn node_fields_lie_at_their_offsets() {
    let mut bytes = vec![0u8; 3];
    bytes.extend(counted(16));
    let at = |o: usize| u16_le(&bytes, 3 + o);
    let n = LinkCollectionNode::parse(&bytes, 3);
    assert_eq!(n.link_usage, at(0));
    assert_eq!(n.link_usage_page, at(2));
    assert_eq!(n.parent, at(4));
    assert_eq!(n.number_of_children, at(6));
    assert_eq!(n.next_sibling, at(8));
    assert_eq!(n.first_child, at(10));
    assert_eq!(n.bits, u32_le(&bytes, 15));
    assert_eq!(n.collection_type(), 13);
    assert!(!n.is_alias()); // byte 13 of the record is 14
}

#[test]
fn alias_flag_of_a_node_is_bit_eight() {
    let mut n = LinkCollectionNode {
        link_usage: 0,
        link_usage_page: 0,
        parent: 0,
        number_of_children: 0,
        next_sibling: 0,
        first_child: 0,
        bits: 0x0000_0100,
    };
    assert!(n.is_alias());
    assert_eq!(n.collection_type(), 0);
    n.bits = 0xffff_feff;
    assert!(!n.is_alias());
    assert_eq!(n.collection_type(), 0xff);
    n.bits = 0x0000_0302;
    assert!(n.is_alias());
    assert_eq!(n.collection_type(), 2);
}

#[test]
fn caps_fields_lie_at_their_offsets() {
    let mut bytes = vec![0u8; 5];
    bytes.extend(counted(104));
    let o = 5;
    let w = |at: usize| u16_le(&bytes, o + at);
    let d = |at: usize| u32_le(&bytes, o + at);
    let c = Caps::parse(&bytes, o);
    assert_eq!(c.usage_page, w(0));
    assert_eq!(c.report_id, 3);
    assert_eq!(c.bit_position, 4);
    assert_eq!(c.report_size, w(4));
    assert_eq!(c.report_count, w(6));
    assert_eq!(c.byte_position, w(8));
    assert_eq!(c.bit_count, w(10));
    assert_eq!(c.bit_field, d(12));
    assert_eq!(c.next_byte_position, w(16));
    assert_eq!(c.link_collection, w(18));
    assert_eq!(c.link_usage_page, w(20));
    assert_eq!(c.link_usage, w(22));
    assert_eq!(c.flags, 25);
    assert_eq!(c.usage_min, w(60));
    assert_eq!(c.usage_max, w(62));
    assert_eq!(c.string_min, w(64));
    assert_eq!(c.string_max, w(66));
    assert_eq!(c.designator_min, w(68));
    assert_eq!(c.designator_max, w(70));
    assert_eq!(c.data_index_min, w(72));
    assert_eq!(c.data_index_max, w(74));
    assert_eq!(c.limits, [d(76), d(80), d(84), d(88), d(92)]);
    assert_eq!(c.units, d(96));
    assert_eq!(c.units_exp, d(100));
}

fn plain_caps() -> Caps {
    Caps::parse(&[0u8; 104], 0)
}

#[test]
fn alias_flag_of_a_capability_is_bit_five() {
    let mut c = plain_caps();
    assert!(!c.is_alias());
    c.flags = 0x20;
    assert!(c.is_alias());
    c.flags = 0xdf;
    assert!(!c.is_alias());
    c.flags = 0xff;
    assert!(c.is_alias());
}

#[test]
fn bits_of_a_capability() {
    let mut c = plain_caps();
    assert!(!c.has_bits());
    c.byte_position = 3;
    c.bit_position = 2;
    c.report_size = 4;
    c.report_count = 3;
    assert!(c.has_bits());
    assert_eq!(c.first_bit(), 18);
    assert_eq!(c.last_bit(), 29);
    c.byte_position = 1;
    c.bit_position = 0;
    c.report_size = 1;
    c.report_count = 1;
    assert_eq!((c.first_bit(), c.last_bit()), (0, 0));
    c.byte_position = 65535;
    c.bit_position = 255;
    c.report_size = 65535;
    c.report_count = 65535;
    assert_eq!(c.first_bit(), 65534 * 8 + 255);
    assert_eq!(c.last_bit(), 65534 * 8 + 255 + 65535 * 65535 - 1);
    c.report_count = 0;
    assert!(!c.has_bits());
    c.report_count = 1;
    c.report_size = 0;
    assert!(!c.has_bits());
    c.report_size = 1;
    c.byte_position = 0;
    assert!(!c.has_bits());
}

#[test]
fn bit_range_widens_to_both_sides() {
    let empty = BitRange::empty();
    assert_eq!(empty, BitRange { first_bit: None, last_bit: None });
    let r = empty.widen(8, 15);
    assert_eq!(r, BitRange { first_bit: Some(8), last_bit: Some(15) });
    assert_eq!(r.widen(10, 12), r);
    assert_eq!(r.widen(0, 3), BitRange { first_bit: Some(0), last_bit: Some(15) });
    assert_eq!(r.widen(12, 40), BitRange { first_bit: Some(8), last_bit: Some(40) });
    assert_eq!(r.widen(1, 99), BitRange { first_bit: Some(1), last_bit: Some(99) });
}

#[test]
fn report_types_and_item_kinds() {
    assert_eq!(
        ReportType::values(),
        [ReportType::Input, ReportType::Output, ReportType::Feature]
    );
    for (i, rt) in ReportType::values().into_iter().enumerate() {
        assert_eq!(rt.index(), i);
        assert_eq!(ReportType::from_index(i), rt);
        assert_eq!(rt.main_item().report_type(), Some(rt));
        assert!(!rt.main_item().is_collection_boundary());
    }
    assert_eq!(ReportType::Input.main_item(), MainItems::Input);
    assert_eq!(ReportType::Output.main_item(), MainItems::Output);
    assert_eq!(ReportType::Feature.main_item(), MainItems::Feature);
    for kind in [
        MainItems::Collection,
        MainItems::CollectionEnd,
        MainItems::DelimiterOpen,
        MainItems::DelimiterUsage,
        MainItems::DelimiterClose,
    ] {
        assert_eq!(kind.report_type(), None);
    }
    assert!(MainItems::Collection.is_collection_boundary());
    assert!(MainItems::CollectionEnd.is_collection_boundary());
    assert!(!MainItems::DelimiterOpen.is_collection_boundary());
}

#[test]
fn item_constructors() {
    let c = MainItemNode::collection(4, MainItems::CollectionEnd);
    assert_eq!(c, MainItemNode::new(0, 0, ItemNodeType::Collection, None, 4, MainItems::CollectionEnd, 0));
    assert_eq!(c.field_type(), None);
    let p = MainItemNode::padding(3, 7, ReportType::Feature, 9);
    assert_eq!(p, MainItemNode::new(3, 7, ItemNodeType::Padding, None, 0, MainItems::Feature, 9));
    assert_eq!(p.field_type(), None);
    let f = MainItemNode::new(0, 7, ItemNodeType::Cap, Some(2), 1, MainItems::Output, 5);
    assert_eq!(f.field_type(), Some(ReportType::Output));
    let u = MainItemNode::new(0, 7, ItemNodeType::Cap, Some(2), 1, MainItems::DelimiterUsage, 5);
    assert_eq!(u.field_type(), None);
}

#[test]
fn signature_is_tested_byte_by_byte() {
    assert!(check_signature(b"HidP KDR"));
    assert!(check_signature(b"HidP KDR and more"));
    assert!(!check_signature(b"HidP KD"));
    assert!(!check_signature(b""));
    assert!(!check_signature(b"hidP KDR"));
    assert!(!check_signature(b"HidP KDS"));
    assert!(!check_signature(b"HidP_KDR"));
}

#[test]
fn extraction_needs_the_whole_header() {
    let mut data = vec![0u8; 44];
    data[..8].copy_from_slice(b"HidP KDR");
    let (h, caps, nodes) = extract_structures(&data).unwrap();
    assert_eq!(h.magic_key, *b"HidP KDR");
    assert!(caps.is_empty());
    assert!(nodes.is_empty());
    assert_eq!(
        extract_structures(&data[..43]).err(),
        Some(DescriptorError::CorruptPreparsedData)
    );
    assert_eq!(
        extract_structures(&data[..8]).err(),
        Some(DescriptorError::CorruptPreparsedData)
    );
}

#[test]
fn extraction_reads_both_arrays() {
    // two capabilities, a gap of three bytes, two nodes
    let mut data = vec![0u8; 44];
    data[..8].copy_from_slice(b"HidP KDR");
    data[20] = 1; // input: last_cap 1
    data[24] = 1; // output: first_cap 1
    data[28] = 2; // output: last_cap 2
    data[40] = 3;
    data[42] = 2;
    let caps_bytes = counted(208);
    data.extend_from_slice(&caps_bytes);
    data.extend_from_slice(&[0xaa, 0xbb, 0xcc]);
    let node_bytes = counted(32);
    data.extend_from_slice(&node_bytes);
    let (h, caps, nodes) = extract_structures(&data).unwrap();
    assert_eq!(h.caps_len(), 2);
    assert_eq!(caps, vec![Caps::parse(&caps_bytes, 0), Caps::parse(&caps_bytes, 104)]);
    assert_eq!(
        nodes,
        vec![LinkCollectionNode::parse(&node_bytes, 0), LinkCollectionNode::parse(&node_bytes, 16)]
    );
    let short = &data[..data.len() - 1];
    assert_eq!(extract_structures(short).err(), Some(DescriptorError::CorruptPreparsedData));
    data.push(0);
    assert!(extract_structures(&data).is_ok());
}
