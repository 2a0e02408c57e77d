//! The values the reconstruction produces: report types, item kinds, bit
//! ranges and the main item itself.

use vstd::prelude::*;

verus! {

/// Why a reconstruction was refused.
#[derive(Clone, Copy, Debug, PartialEq, Eq, Structural)]
pub enum DescriptorError {
    /// The data does not begin with the signature of preparsed data.
    InvalidPreparsedData,
    /// The signature is right, but a count, an offset or an index in the data
    /// does not fit the data.
    CorruptPreparsedData,
}

/// The three independent categories of fields in a report descriptor.
#[derive(Clone, Copy, Debug, PartialEq, Eq, Structural)]
pub enum ReportType {
    Input,
    Output,
    Feature,
}

/// The kind of a main item as it will be written to the descriptor.
#[derive(Clone, Copy, Debug, PartialEq, Eq, Structural)]
pub enum MainItems {
    Input,
    Output,
    Feature,
    Collection,
    CollectionEnd,
    DelimiterOpen,
    DelimiterUsage,
    DelimiterClose,
}

/// What a main item stands for: a capability, a padding, or a collection.
#[derive(Clone, Copy, Debug, PartialEq, Eq, Structural)]
pub enum ItemNodeType {
    Cap,
    Padding,
    Collection,
}

impl ReportType {
    /// The position of the report type in the header's table: 0, 1 or 2.
    pub open spec fn spec_index(self) -> usize {
        match self {
            ReportType::Input => 0,
            ReportType::Output => 1,
            ReportType::Feature => 2,
        }
    }

    /// The report type at position `i` of the header's table.
    pub open spec fn spec_from_index(i: int) -> ReportType {
        if i == 0 {
            ReportType::Input
        } else if i == 1 {
            ReportType::Output
        } else {
            ReportType::Feature
        }
    }

    /// The kind of main item that carries a field of this report type.
    pub open spec fn spec_main_item(self) -> MainItems {
        match self {
            ReportType::Input => MainItems::Input,
            ReportType::Output => MainItems::Output,
            ReportType::Feature => MainItems::Feature,
        }
    }

    #[verifier::when_used_as_spec(spec_index)]
    pub fn index(self) -> (i: usize)
        ensures
            i == self.spec_index(),
            i < 3,
    {
        match self {
            ReportType::Input => 0,
            ReportType::Output => 1,
            ReportType::Feature => 2,
        }
    }

    pub fn from_index(i: usize) -> (rt: ReportType)
        ensures
            rt == ReportType::spec_from_index(i as int),
            i < 3 ==> rt.spec_index() == i,
    {
        if i == 0 {
            ReportType::Input
        } else if i == 1 {
            ReportType::Output
        } else {
            ReportType::Feature
        }
    }

    #[verifier::when_used_as_spec(spec_main_item)]
    pub fn main_item(self) -> (kind: MainItems)
        ensures
            kind == self.spec_main_item(),
    {
        match self {
            ReportType::Input => MainItems::Input,
            ReportType::Output => MainItems::Output,
            ReportType::Feature => MainItems::Feature,
        }
    }

    /// The three report types in the order of the header's table.
    pub fn values() -> (all: [ReportType; 3])
        ensures
            all@ == seq![ReportType::Input, ReportType::Output, ReportType::Feature],
    {
        [ReportType::Input, ReportType::Output, ReportType::Feature]
    }
}

impl MainItems {
    /// The report type of a field kind; nothing for the other kinds.
    pub open spec fn spec_report_type(self) -> Option<ReportType> {
        match self {
            MainItems::Input => Some(ReportType::Input),
            MainItems::Output => Some(ReportType::Output),
            MainItems::Feature => Some(ReportType::Feature),
            _ => None,
        }
    }

    #[verifier::when_used_as_spec(spec_report_type)]
    pub fn report_type(self) -> (rt: Option<ReportType>)
        ensures
            rt == self.spec_report_type(),
    {
        match self {
            MainItems::Input => Some(ReportType::Input),
            MainItems::Output => Some(ReportType::Output),
            MainItems::Feature => Some(ReportType::Feature),
            _ => None,
        }
    }

    /// Whether the kind opens or closes a collection.
    pub open spec fn spec_is_collection_boundary(self) -> bool {
        self == MainItems::Collection || self == MainItems::CollectionEnd
    }

    #[verifier::when_used_as_spec(spec_is_collection_boundary)]
    pub fn is_collection_boundary(self) -> (b: bool)
        ensures
            b == self.spec_is_collection_boundary(),
    {
        match self {
            MainItems::Collection => true,
            MainItems::CollectionEnd => true,
            _ => false,
        }
    }
}

/// The bits that the fields of one report occupy below one collection:
/// the first and the last of them, or nothing where there is no field.
#[derive(Clone, Copy, Debug, PartialEq, Eq)]
pub struct BitRange {
    pub first_bit: Option<u64>,
    pub last_bit: Option<u64>,
}

impl BitRange {
    /// Both ends are there or neither is, and the first is not after the last.
    pub open spec fn wf(self) -> bool {
        match (self.first_bit, self.last_bit) {
            (None, None) => true,
            (Some(first), Some(last)) => first <= last,
            _ => false,
        }
    }

    /// The range with nothing in it.
    pub open spec fn spec_empty() -> BitRange {
        BitRange { first_bit: None, last_bit: None }
    }

    /// The smallest range that holds `self` and the bits `first..=last`.
    pub open spec fn spec_widen(self, first: u64, last: u64) -> BitRange {
        BitRange {
            first_bit: Some(
                match self.first_bit {
                    Some(f) => if f <= first { f } else { first },
                    None => first,
                },
            ),
            last_bit: Some(
                match self.last_bit {
                    Some(l) => if l >= last { l } else { last },
                    None => last,
                },
            ),
        }
    }

    #[verifier::when_used_as_spec(spec_empty)]
    pub fn empty() -> (r: BitRange)
        ensures
            r == BitRange::spec_empty(),
            r.wf(),
    {
        BitRange { first_bit: None, last_bit: None }
    }

    #[verifier::when_used_as_spec(spec_widen)]
    pub fn widen(self, first: u64, last: u64) -> (r: BitRange)
        ensures
            r == self.spec_widen(first, last),
            self.wf() && first <= last ==> r.wf(),
    {
        let f = match self.first_bit {
            Some(f) => if f <= first { f } else { first },
            None => first,
        };
        let l = match self.last_bit {
            Some(l) => if l >= last { l } else { last },
            None => last,
        };
        BitRange { first_bit: Some(f), last_bit: Some(l) }
    }
}

/// One unit of the reconstructed descriptor, before it is encoded.
#[derive(Clone, Copy, Debug, PartialEq, Eq)]
pub struct MainItemNode {
    /// First bit that the item occupies in its report; 0 for a collection.
    pub first_bit: u64,
    /// Last bit that the item occupies in its report; 0 for a collection.
    pub last_bit: u64,
    pub node_type: ItemNodeType,
    /// Index of the capability that the item was made from.
    pub caps_index: Option<usize>,
    /// Index of the collection that the item belongs to; 0 for a padding.
    pub collection_index: usize,
    pub main_item_type: MainItems,
    pub report_id: u8,
}

impl MainItemNode {
    pub fn new(
        first_bit: u64,
        last_bit: u64,
        node_type: ItemNodeType,
        caps_index: Option<usize>,
        collection_index: usize,
        main_item_type: MainItems,
        report_id: u8,
    ) -> (node: MainItemNode)
        ensures
            node == (MainItemNode {
                first_bit,
                last_bit,
                node_type,
                caps_index,
                collection_index,
                main_item_type,
                report_id,
            }),
    {
        MainItemNode {
            first_bit,
            last_bit,
            node_type,
            caps_index,
            collection_index,
            main_item_type,
            report_id,
        }
    }

    /// An item that stands for collection `collection_index`: its opening,
    /// its end, or its entry in a delimiter bracket.
    pub open spec fn spec_collection(collection_index: usize, kind: MainItems) -> MainItemNode {
        MainItemNode {
            first_bit: 0,
            last_bit: 0,
            node_type: ItemNodeType::Collection,
            caps_index: None,
            collection_index,
            main_item_type: kind,
            report_id: 0,
        }
    }

    #[verifier::when_used_as_spec(spec_collection)]
    pub fn collection(collection_index: usize, kind: MainItems) -> (node: MainItemNode)
        ensures
            node == MainItemNode::spec_collection(collection_index, kind),
    {
        MainItemNode::new(0, 0, ItemNodeType::Collection, None, collection_index, kind, 0)
    }

    /// A padding of report `report_id` of type `rt` over the bits
    /// `first_bit..=last_bit`.
    pub open spec fn spec_padding(first_bit: u64, last_bit: u64, rt: ReportType, report_id: u8)
        -> MainItemNode {
        MainItemNode {
            first_bit,
            last_bit,
            node_type: ItemNodeType::Padding,
            caps_index: None,
            collection_index: 0,
            main_item_type: rt.spec_main_item(),
            report_id,
        }
    }

    #[verifier::when_used_as_spec(spec_padding)]
    pub fn padding(first_bit: u64, last_bit: u64, rt: ReportType, report_id: u8) -> (node:
        MainItemNode)
        ensures
            node == MainItemNode::spec_padding(first_bit, last_bit, rt, report_id),
    {
        MainItemNode::new(
            first_bit,
            last_bit,
            ItemNodeType::Padding,
            None,
            0,
            rt.main_item(),
            report_id,
        )
    }

    /// The report type of an item that is a field made from a capability.
    pub open spec fn spec_field_type(self) -> Option<ReportType> {
        if self.node_type == ItemNodeType::Cap {
            self.main_item_type.spec_report_type()
        } else {
            None
        }
    }

    #[verifier::when_used_as_spec(spec_field_type)]
    pub fn field_type(self) -> (rt: Option<ReportType>)
        ensures
            rt == self.spec_field_type(),
    {
        match self.node_type {
            ItemNodeType::Cap => self.main_item_type.report_type(),
            _ => None,
        }
    }
}

} // verus!
