//! The records of preparsed data as Windows lays them out in memory: a header,
//! an array of capabilities and an array of collection nodes, all little
//! endian.

use vstd::prelude::*;

verus! {

/// Bytes of the header in front of the capability array.
pub const HEADER_SIZE: usize = 44;

/// Bytes of one capability.
pub const CAPS_SIZE: usize = 104;

/// Bytes of one collection node.
pub const LINK_COLLECTION_NODE_SIZE: usize = 16;

/// The signature that preparsed data begins with: the letters `HidP KDR`.
pub open spec fn magic_key() -> Seq<u8> {
    seq![72u8, 105u8, 100u8, 80u8, 32u8, 75u8, 68u8, 82u8]
}

/// The 16 bit number whose low byte is at `off`.
pub open spec fn spec_u16_le(bytes: Seq<u8>, off: int) -> u16 {
    (bytes[off] as int + 256 * (bytes[off + 1] as int)) as u16
}

/// The 32 bit number whose lowest byte is at `off`.
pub open spec fn spec_u32_le(bytes: Seq<u8>, off: int) -> u32 {
    (bytes[off] as int + 256 * (bytes[off + 1] as int) + 65536 * (bytes[off + 2] as int) + 16777216
        * (bytes[off + 3] as int)) as u32
}

/// Reads the 16 bit number whose low byte is at `off`.
pub fn u16_le(bytes: &[u8], off: usize) -> (v: u16)
    requires
        off + 2 <= bytes.len(),
    ensures
        v == spec_u16_le(bytes@, off as int),
{
    let lo: u16 = bytes[off] as u16;
    let hi: u16 = bytes[off + 1] as u16;
    lo + 256 * hi
}

/// Reads the 32 bit number whose lowest byte is at `off`.
pub fn u32_le(bytes: &[u8], off: usize) -> (v: u32)
    requires
        off + 4 <= bytes.len(),
    ensures
        v == spec_u32_le(bytes@, off as int),
{
    let b0: u32 = bytes[off] as u32;
    let b1: u32 = bytes[off + 1] as u32;
    let b2: u32 = bytes[off + 2] as u32;
    let b3: u32 = bytes[off + 3] as u32;
    b0 + 256 * b1 + 65536 * b2 + 16777216 * b3
}

/// Where the capabilities of one report type lie in the capability array.
#[derive(Clone, Copy, Debug, PartialEq, Eq)]
pub struct CapsInfo {
    pub first_cap: u16,
    /// Counts the unused capabilities behind `last_cap` too.
    pub number_of_caps: u16,
    /// One past the last capability of the report type.
    pub last_cap: u16,
    pub report_byte_length: u16,
}

/// The header of preparsed data.
#[derive(Clone, Copy, Debug, PartialEq, Eq)]
pub struct HidpPreparsedData {
    pub magic_key: [u8; 8],
    pub usage: u16,
    pub usage_page: u16,
    /// One entry for input, output and feature reports, in this order.
    pub caps_info: [CapsInfo; 3],
    /// Bytes between the end of the capability array and the first
    /// collection node.
    pub first_byte_of_link_collection_array: u16,
    pub number_link_collection_nodes: u16,
}

/// One node of the collection tree. The tree is held by indices into the
/// node array; index 0 is the root and stands for "none" in the links.
#[derive(Clone, Copy, Debug, PartialEq, Eq)]
pub struct LinkCollectionNode {
    pub link_usage: u16,
    pub link_usage_page: u16,
    pub parent: u16,
    pub number_of_children: u16,
    pub next_sibling: u16,
    pub first_child: u16,
    /// The collection type in the low byte, the alias flag in the bit above.
    pub bits: u32,
}

/// One capability: a field of a report, or one usage of it.
#[derive(Clone, Copy, Debug, PartialEq, Eq)]
pub struct Caps {
    pub usage_page: u16,
    pub report_id: u8,
    pub bit_position: u8,
    /// Bits of one element.
    pub report_size: u16,
    /// Number of elements.
    pub report_count: u16,
    /// Byte of the report in which the field begins; byte 0 is the report id.
    pub byte_position: u16,
    pub bit_count: u16,
    pub bit_field: u32,
    pub next_byte_position: u16,
    /// Index of the collection that holds the field.
    pub link_collection: u16,
    pub link_usage_page: u16,
    pub link_usage: u16,
    pub flags: u8,
    /// Usage, string, designator and data index: each a minimum and a
    /// maximum for a range, else the value and a reserved word.
    pub usage_min: u16,
    pub usage_max: u16,
    pub string_min: u16,
    pub string_max: u16,
    pub designator_min: u16,
    pub designator_max: u16,
    pub data_index_min: u16,
    pub data_index_max: u16,
    /// The five words of limits. A button keeps its logical minimum and
    /// maximum in the first two; a value keeps the null flag in the first,
    /// then the logical and the physical minimum and maximum.
    pub limits: [u32; 5],
    pub units: u32,
    pub units_exp: u32,
}

impl CapsInfo {
    pub open spec fn spec_parse(bytes: Seq<u8>, off: int) -> CapsInfo {
        CapsInfo {
            first_cap: spec_u16_le(bytes, off),
            number_of_caps: spec_u16_le(bytes, off + 2),
            last_cap: spec_u16_le(bytes, off + 4),
            report_byte_length: spec_u16_le(bytes, off + 6),
        }
    }

    pub fn parse(bytes: &[u8], off: usize) -> (info: CapsInfo)
        requires
            off + 8 <= bytes.len(),
        ensures
            info == CapsInfo::spec_parse(bytes@, off as int),
    {
        CapsInfo {
            first_cap: u16_le(bytes, off),
            number_of_caps: u16_le(bytes, off + 2),
            last_cap: u16_le(bytes, off + 4),
            report_byte_length: u16_le(bytes, off + 6),
        }
    }
}

impl HidpPreparsedData {
    /// The header that the first 44 bytes hold.
    pub open spec fn spec_parse(bytes: Seq<u8>) -> HidpPreparsedData {
        HidpPreparsedData {
            magic_key: [
                bytes[0],
                bytes[1],
                bytes[2],
                bytes[3],
                bytes[4],
                bytes[5],
                bytes[6],
                bytes[7],
            ],
            usage: spec_u16_le(bytes, 8),
            usage_page: spec_u16_le(bytes, 10),
            caps_info: [
                CapsInfo::spec_parse(bytes, 16),
                CapsInfo::spec_parse(bytes, 24),
                CapsInfo::spec_parse(bytes, 32),
            ],
            first_byte_of_link_collection_array: spec_u16_le(bytes, 40),
            number_link_collection_nodes: spec_u16_le(bytes, 42),
        }
    }

    pub fn parse(bytes: &[u8]) -> (header: HidpPreparsedData)
        requires
            bytes.len() >= HEADER_SIZE,
        ensures
            header == HidpPreparsedData::spec_parse(bytes@),
    {
        HidpPreparsedData {
            magic_key: [
                bytes[0],
                bytes[1],
                bytes[2],
                bytes[3],
                bytes[4],
                bytes[5],
                bytes[6],
                bytes[7],
            ],
            usage: u16_le(bytes, 8),
            usage_page: u16_le(bytes, 10),
            caps_info: [
                CapsInfo::parse(bytes, 16),
                CapsInfo::parse(bytes, 24),
                CapsInfo::parse(bytes, 32),
            ],
            first_byte_of_link_collection_array: u16_le(bytes, 40),
            number_link_collection_nodes: u16_le(bytes, 42),
        }
    }

    /// The entry of report type number `i`.
    pub open spec fn info(self, i: int) -> CapsInfo {
        self.caps_info@[i]
    }

    /// Length of the capability array: the largest `last_cap` of the three
    /// report types.
    pub open spec fn spec_caps_len(self) -> usize {
        let a = self.info(0).last_cap;
        let b = self.info(1).last_cap;
        let c = self.info(2).last_cap;
        let ab = if a >= b { a } else { b };
        (if ab >= c { ab } else { c }) as usize
    }

    #[verifier::when_used_as_spec(spec_caps_len)]
    pub fn caps_len(self) -> (n: usize)
        ensures
            n == self.spec_caps_len(),
            n <= u16::MAX,
    {
        let a = self.caps_info[0].last_cap;
        let b = self.caps_info[1].last_cap;
        let c = self.caps_info[2].last_cap;
        let ab = if a >= b { a } else { b };
        (if ab >= c { ab } else { c }) as usize
    }
}

impl LinkCollectionNode {
    /// The node that the 16 bytes from `off` hold.
    pub open spec fn spec_parse(bytes: Seq<u8>, off: int) -> LinkCollectionNode {
        LinkCollectionNode {
            link_usage: spec_u16_le(bytes, off),
            link_usage_page: spec_u16_le(bytes, off + 2),
            parent: spec_u16_le(bytes, off + 4),
            number_of_children: spec_u16_le(bytes, off + 6),
            next_sibling: spec_u16_le(bytes, off + 8),
            first_child: spec_u16_le(bytes, off + 10),
            bits: spec_u32_le(bytes, off + 12),
        }
    }

    pub fn parse(bytes: &[u8], off: usize) -> (node: LinkCollectionNode)
        requires
            off + LINK_COLLECTION_NODE_SIZE <= bytes.len(),
        ensures
            node == LinkCollectionNode::spec_parse(bytes@, off as int),
    {
        LinkCollectionNode {
            link_usage: u16_le(bytes, off),
            link_usage_page: u16_le(bytes, off + 2),
            parent: u16_le(bytes, off + 4),
            number_of_children: u16_le(bytes, off + 6),
            next_sibling: u16_le(bytes, off + 8),
            first_child: u16_le(bytes, off + 10),
            bits: u32_le(bytes, off + 12),
        }
    }

    /// Whether the node is one more usage of the collection that ends its
    /// run of siblings.
    pub open spec fn spec_is_alias(self) -> bool {
        (self.bits / 256) % 2 == 1
    }

    #[verifier::when_used_as_spec(spec_is_alias)]
    pub fn is_alias(self) -> (b: bool)
        ensures
            b == self.spec_is_alias(),
    {
        (self.bits / 256) % 2 == 1
    }

    pub open spec fn spec_collection_type(self) -> u8 {
        (self.bits % 256) as u8
    }

    #[verifier::when_used_as_spec(spec_collection_type)]
    pub fn collection_type(self) -> (t: u8)
        ensures
            t == self.spec_collection_type(),
    {
        (self.bits % 256) as u8
    }
}

impl Caps {
    /// The capability that the 104 bytes from `off` hold.
    pub open spec fn spec_parse(bytes: Seq<u8>, off: int) -> Caps {
        Caps {
            usage_page: spec_u16_le(bytes, off),
            report_id: bytes[off + 2],
            bit_position: bytes[off + 3],
            report_size: spec_u16_le(bytes, off + 4),
            report_count: spec_u16_le(bytes, off + 6),
            byte_position: spec_u16_le(bytes, off + 8),
            bit_count: spec_u16_le(bytes, off + 10),
            bit_field: spec_u32_le(bytes, off + 12),
            next_byte_position: spec_u16_le(bytes, off + 16),
            link_collection: spec_u16_le(bytes, off + 18),
            link_usage_page: spec_u16_le(bytes, off + 20),
            link_usage: spec_u16_le(bytes, off + 22),
            flags: bytes[off + 24],
            usage_min: spec_u16_le(bytes, off + 60),
            usage_max: spec_u16_le(bytes, off + 62),
            string_min: spec_u16_le(bytes, off + 64),
            string_max: spec_u16_le(bytes, off + 66),
            designator_min: spec_u16_le(bytes, off + 68),
            designator_max: spec_u16_le(bytes, off + 70),
            data_index_min: spec_u16_le(bytes, off + 72),
            data_index_max: spec_u16_le(bytes, off + 74),
            limits: [
                spec_u32_le(bytes, off + 76),
                spec_u32_le(bytes, off + 80),
                spec_u32_le(bytes, off + 84),
                spec_u32_le(bytes, off + 88),
                spec_u32_le(bytes, off + 92),
            ],
            units: spec_u32_le(bytes, off + 96),
            units_exp: spec_u32_le(bytes, off + 100),
        }
    }

    pub fn parse(bytes: &[u8], off: usize) -> (caps: Caps)
        requires
            off + CAPS_SIZE <= bytes.len(),
        ensures
            caps == Caps::spec_parse(bytes@, off as int),
    {
        Caps {
            usage_page: u16_le(bytes, off),
            report_id: bytes[off + 2],
            bit_position: bytes[off + 3],
            report_size: u16_le(bytes, off + 4),
            report_count: u16_le(bytes, off + 6),
            byte_position: u16_le(bytes, off + 8),
            bit_count: u16_le(bytes, off + 10),
            bit_field: u32_le(bytes, off + 12),
            next_byte_position: u16_le(bytes, off + 16),
            link_collection: u16_le(bytes, off + 18),
            link_usage_page: u16_le(bytes, off + 20),
            link_usage: u16_le(bytes, off + 22),
            flags: bytes[off + 24],
            usage_min: u16_le(bytes, off + 60),
            usage_max: u16_le(bytes, off + 62),
            string_min: u16_le(bytes, off + 64),
            string_max: u16_le(bytes, off + 66),
            designator_min: u16_le(bytes, off + 68),
            designator_max: u16_le(bytes, off + 70),
            data_index_min: u16_le(bytes, off + 72),
            data_index_max: u16_le(bytes, off + 74),
            limits: [
                u32_le(bytes, off + 76),
                u32_le(bytes, off + 80),
                u32_le(bytes, off + 84),
                u32_le(bytes, off + 88),
                u32_le(bytes, off + 92),
            ],
            units: u32_le(bytes, off + 96),
            units_exp: u32_le(bytes, off + 100),
        }
    }

    /// Whether the capability is one more usage of the field that ends its
    /// run in the capability array.
    pub open spec fn spec_is_alias(self) -> bool {
        (self.flags / 32) % 2 == 1
    }

    #[verifier::when_used_as_spec(spec_is_alias)]
    pub fn is_alias(self) -> (b: bool)
        ensures
            b == self.spec_is_alias(),
    {
        (self.flags / 32) % 2 == 1
    }

    /// Whether the field lies behind the report id and has at least one bit.
    pub open spec fn spec_has_bits(self) -> bool {
        self.byte_position >= 1 && self.report_size >= 1 && self.report_count >= 1
    }

    #[verifier::when_used_as_spec(spec_has_bits)]
    pub fn has_bits(self) -> (b: bool)
        ensures
            b == self.spec_has_bits(),
    {
        self.byte_position >= 1 && self.report_size >= 1 && self.report_count >= 1
    }

    /// First bit of the field in its report, counted behind the report id.
    pub open spec fn spec_first_bit(self) -> u64 {
        ((self.byte_position - 1) * 8 + self.bit_position) as u64
    }

    /// Last bit of the field in its report.
    pub open spec fn spec_last_bit(self) -> u64 {
        (self.spec_first_bit() + self.report_size * self.report_count - 1) as u64
    }

    /// A capability with bits begins at or in front of its last bit, and
    /// its bits are counted without overflow.
    pub proof fn lemma_bits(self)
        requires
            self.spec_has_bits(),
        ensures
            self.spec_first_bit() == (self.byte_position - 1) * 8 + self.bit_position,
            self.spec_last_bit() == self.spec_first_bit() + self.report_size * self.report_count
                - 1,
            self.spec_first_bit() <= self.spec_last_bit() < 0x1_0000_0000_0000,
    {
        assert(1 <= self.report_size * self.report_count <= 0xffff * 0xffff) by (nonlinear_arith)
            requires
                1 <= self.report_size <= 0xffff,
                1 <= self.report_count <= 0xffff,
        ;
    }

    #[verifier::when_used_as_spec(spec_first_bit)]
    pub fn first_bit(self) -> (bit: u64)
        requires
            self.has_bits(),
        ensures
            bit == self.spec_first_bit(),
            bit == (self.byte_position - 1) * 8 + self.bit_position,
    {
        (self.byte_position as u64 - 1) * 8 + self.bit_position as u64
    }

    #[verifier::when_used_as_spec(spec_last_bit)]
    pub fn last_bit(self) -> (bit: u64)
        requires
            self.has_bits(),
        ensures
            bit == self.spec_last_bit(),
            bit == self.spec_first_bit() + self.report_size * self.report_count - 1,
            bit >= self.spec_first_bit(),
            bit < 0x1_0000_0000_0000,
    {
        assert(1 <= self.report_size * self.report_count <= 0xffff * 0xffff) by (nonlinear_arith)
            requires
                1 <= self.report_size <= 0xffff,
                1 <= self.report_count <= 0xffff,
        ;
        let bits: u64 = (self.report_size as u64) * (self.report_count as u64);
        self.first_bit() + bits - 1
    }
}

} // verus!
