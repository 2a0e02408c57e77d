//! The reconstruction as a whole: from the bytes of preparsed data to the
//! ordered list of main items.

use vstd::prelude::*;
use crate::types::{DescriptorError, MainItemNode};
use crate::typedefs::{Caps, HidpPreparsedData, LinkCollectionNode};
use crate::list::MainItemList;
use crate::extract::{extract_structures, extraction_of, has_signature};
use crate::hierarchy::{check_tree, child_chain, is_tree, lemma_chain_in_bounds, sibling_chain};
use crate::ranges::{caps_fit, check_caps, collection_bit_ranges};
use crate::order::{
    child_order,
    child_orders,
    earliest_bits,
    earliest_bits_of,
    ordered_children,
};
use crate::collections::{
    all_collection_items,
    collection_main_items,
    is_collection_node,
    lemma_collection_items_kind,
    lists_view,
};
use crate::fields::{bits_below, insert_fields, with_fields, LAST_BIT_LIMIT};
use crate::padding::{add_padding, with_padding};

verus! {

/// The three structures fit each other: the nodes are a tree of as many
/// collections as the header counts, and the capabilities that the header
/// assigns to the report types fit the two arrays.
pub open spec fn is_well_formed(
    header: HidpPreparsedData,
    caps: Seq<Caps>,
    nodes: Seq<LinkCollectionNode>,
) -> bool {
    &&& is_tree(nodes)
    &&& header.number_link_collection_nodes == nodes.len()
    &&& caps_fit(header, caps, nodes)
}

/// The collections in the order of the tree with the fields put into them,
/// before the paddings.
pub open spec fn assembled_items_of(
    header: HidpPreparsedData,
    caps: Seq<Caps>,
    nodes: Seq<LinkCollectionNode>,
) -> Seq<MainItemNode> {
    with_fields(
        all_collection_items(nodes, child_orders(header, caps, nodes)),
        header,
        caps,
        nodes,
        child_orders(header, caps, nodes),
    )
}

/// The main items of the descriptor: the collections in the order of the
/// tree, the fields put into them, and the paddings.
pub open spec fn main_items_of(
    header: HidpPreparsedData,
    caps: Seq<Caps>,
    nodes: Seq<LinkCollectionNode>,
) -> Seq<MainItemNode> {
    with_padding(assembled_items_of(header, caps, nodes))
}

/// What the reconstruction hands to the encoder: the main items in order,
/// and the two arrays that the items refer to.
#[derive(Debug, PartialEq, Eq)]
pub struct ReconstructedDescriptor {
    pub main_items: Vec<MainItemNode>,
    pub caps_list: Vec<Caps>,
    pub link_collection_nodes: Vec<LinkCollectionNode>,
}

/// What `get_descriptor` returns for the data `bytes`: the error of the
/// extraction, the corrupt-data error for structures that do not fit each
/// other, else the main items with the two arrays.
pub open spec fn descriptor_of(bytes: Seq<u8>) -> Result<
    (Seq<MainItemNode>, Seq<Caps>, Seq<LinkCollectionNode>),
    DescriptorError,
> {
    match extraction_of(bytes) {
        Err(e) => Err(e),
        Ok((header, caps, nodes)) => if is_well_formed(header, caps, nodes) {
            Ok((main_items_of(header, caps, nodes), caps, nodes))
        } else {
            Err(DescriptorError::CorruptPreparsedData)
        },
    }
}

/// Whether `r` is the outcome of the reconstruction for the data `bytes`.
pub open spec fn is_outcome_of(
    r: Result<ReconstructedDescriptor, DescriptorError>,
    bytes: Seq<u8>,
) -> bool {
    match descriptor_of(bytes) {
        Ok((main_items, caps_list, link_collection_nodes)) => r matches Ok(d) && d.main_items@
            == main_items && d.caps_list@ == caps_list && d.link_collection_nodes@
            == link_collection_nodes,
        Err(e) => r matches Err(f) && f == e,
    }
}

/// Determinism: two outcomes of the reconstruction for the same data are
/// the same error, or hold the same main items and the same two arrays.
pub proof fn lemma_outcome_is_determined(
    bytes: Seq<u8>,
    r1: Result<ReconstructedDescriptor, DescriptorError>,
    r2: Result<ReconstructedDescriptor, DescriptorError>,
)
    requires
        is_outcome_of(r1, bytes),
        is_outcome_of(r2, bytes),
    ensures
        match (r1, r2) {
            (Ok(d1), Ok(d2)) => d1.main_items@ == d2.main_items@ && d1.caps_list@ == d2.caps_list@
                && d1.link_collection_nodes@ == d2.link_collection_nodes@,
            (Err(e1), Err(e2)) => e1 == e2,
            _ => false,
        },
{
}

/// Signature rejection: data whose first 8 bytes are not the signature,
/// or that has no 8 bytes, gives the invalid-data error and nothing else.
pub proof fn lemma_wrong_signature_is_invalid(bytes: Seq<u8>)
    requires
        !has_signature(bytes),
    ensures
        descriptor_of(bytes) == Err::<
            (Seq<MainItemNode>, Seq<Caps>, Seq<LinkCollectionNode>),
            DescriptorError,
        >(DescriptorError::InvalidPreparsedData),
{
}

/// The written order of the children of every collection.
pub fn ordered_child_lists(
    header: &HidpPreparsedData,
    caps: &[Caps],
    nodes: &[LinkCollectionNode],
    lists: &Vec<Vec<usize>>,
    keys: &Vec<Option<u64>>,
) -> (orders: Vec<Vec<usize>>)
    requires
        is_tree(nodes@),
        lists@.len() == nodes@.len(),
        forall|c: int|
            0 <= c < nodes@.len() ==> child_chain(nodes@, c) == Some((#[trigger] lists@[c])@),
        keys@ == earliest_bits(*header, caps@, nodes@),
    ensures
        lists_view(orders@) == child_orders(*header, caps@, nodes@),
        orders@.len() == nodes@.len(),
        forall|c: int, k: int|
            0 <= c < orders@.len() && 0 <= k < orders@[c]@.len() ==> (#[trigger] orders@[c]@[k])
                < nodes@.len(),
{
    let n = nodes.len();
    let mut orders: Vec<Vec<usize>> = Vec::new();
    let mut c: usize = 0;
    while c < n
        invariant
            n == nodes@.len(),
            c <= n,
            is_tree(nodes@),
            lists@.len() == n,
            forall|k: int|
                0 <= k < nodes@.len() ==> child_chain(nodes@, k) == Some((#[trigger] lists@[k])@),
            keys@ == earliest_bits(*header, caps@, nodes@),
            orders@.len() == c,
            forall|k: int|
                0 <= k < c ==> (#[trigger] orders@[k])@ == child_order(*header, caps@, nodes@, k),
            forall|i: int, k: int|
                0 <= i < c && 0 <= k < orders@[i]@.len() ==> (#[trigger] orders@[i]@[k]) < n,
        decreases n - c,
    {
        let chain = &lists[c];
        proof {
            assert(child_chain(nodes@, c as int) == Some(chain@));
            lemma_chain_in_bounds(nodes@, nodes@[c as int].first_child as usize, nodes@.len());
            let links = sibling_chain(nodes@, nodes@[c as int].first_child as usize, nodes@.len());
            assert(links == Some(chain@));
            assert forall|k: int| 0 <= k < chain@.len() implies (#[trigger] chain@[k])
                < keys@.len() by {
                assert(0 < links->0[k] < nodes@.len());
            }
        }
        let order = ordered_children(chain, keys);
        orders.push(order);
        c += 1;
    }
    assert(lists_view(orders@) =~= child_orders(*header, caps@, nodes@));
    orders
}

/// Rebuilds the ordered list of main items from the header, the capability
/// array and the collection nodes.
///
/// Structures that do not fit each other are refused as corrupt.
pub fn reconstruct_descriptor(
    header: HidpPreparsedData,
    caps_list: &[Caps],
    link_collection_nodes: &[LinkCollectionNode],
) -> (r: Result<MainItemList, DescriptorError>)
    ensures
        is_well_formed(header, caps_list@, link_collection_nodes@) ==> (r matches Ok(list)
            && list.wf() && list@ == main_items_of(header, caps_list@, link_collection_nodes@)),
        !is_well_formed(header, caps_list@, link_collection_nodes@) ==> (r matches Err(e) && e
            == DescriptorError::CorruptPreparsedData),
{
    let lists = match check_tree(link_collection_nodes) {
        None => {
            return Err(DescriptorError::CorruptPreparsedData);
        },
        Some(lists) => lists,
    };
    if header.number_link_collection_nodes as usize != link_collection_nodes.len() {
        return Err(DescriptorError::CorruptPreparsedData);
    }
    if !check_caps(&header, caps_list, link_collection_nodes) {
        return Err(DescriptorError::CorruptPreparsedData);
    }
    let table = collection_bit_ranges(&header, caps_list, link_collection_nodes);
    let keys = earliest_bits_of(&table, &header, caps_list, link_collection_nodes);
    let orders = ordered_child_lists(&header, caps_list, link_collection_nodes, &lists, &keys);
    let mut list = collection_main_items(link_collection_nodes, &orders);
    proof {
        lemma_collection_items_kind(
            link_collection_nodes@,
            lists_view(orders@),
            0,
            link_collection_nodes@.len(),
        );
        assert(bits_below(list@, LAST_BIT_LIMIT)) by {
            assert forall|i: int| 0 <= i < list@.len() implies (#[trigger] list@[i]).last_bit
                < LAST_BIT_LIMIT by {
                assert(is_collection_node(list@[i]));
            }
        }
    }
    insert_fields(&mut list, &header, caps_list, link_collection_nodes, &orders, &table);
    add_padding(&mut list);
    Ok(list)
}

/// Rebuilds the descriptor from the bytes of preparsed data.
///
/// Data without the signature is invalid. Data with the signature whose
/// counts, offsets or indices do not fit it is corrupt. For all other data
/// the result holds the main items in order, with the capability array and
/// the collection nodes that the items refer to.
pub fn get_descriptor(pp_data: &[u8]) -> (r: Result<ReconstructedDescriptor, DescriptorError>)
    ensures
        is_outcome_of(r, pp_data@),
        !has_signature(pp_data@) ==> (r matches Err(e) && e
            == DescriptorError::InvalidPreparsedData),
{
    let (header, caps_list, link_collection_nodes) = match extract_structures(pp_data) {
        Err(e) => {
            return Err(e);
        },
        Ok(parts) => parts,
    };
    let list = match reconstruct_descriptor(
        header,
        caps_list.as_slice(),
        link_collection_nodes.as_slice(),
    ) {
        Err(e) => {
            return Err(e);
        },
        Ok(list) => list,
    };
    Ok(ReconstructedDescriptor { main_items: list.to_vec(), caps_list, link_collection_nodes })
}

} // verus!
