//! Carves the header, the capability array and the collection nodes out of
//! the bytes of preparsed data, and refuses data that is too short for what
//! its header announces.

use vstd::prelude::*;
use crate::types::DescriptorError;
use crate::typedefs::{
    magic_key,
    Caps,
    HidpPreparsedData,
    LinkCollectionNode,
    CAPS_SIZE,
    HEADER_SIZE,
    LINK_COLLECTION_NODE_SIZE,
};

verus! {

/// Whether the data begins with the signature of preparsed data.
pub open spec fn has_signature(bytes: Seq<u8>) -> bool {
    bytes.len() >= 8 && bytes.subrange(0, 8) == magic_key()
}

/// Offset of capability `i`: the capability array follows the header.
pub open spec fn caps_offset(i: int) -> int {
    HEADER_SIZE + CAPS_SIZE * i
}

/// Offset of the first collection node: the header gives its distance from
/// the end of the capability array.
pub open spec fn link_collection_start(header: HidpPreparsedData) -> int {
    caps_offset(header.spec_caps_len() as int) + header.first_byte_of_link_collection_array
}

/// Offset of collection node `i`.
pub open spec fn link_collection_offset(header: HidpPreparsedData, i: int) -> int {
    link_collection_start(header) + LINK_COLLECTION_NODE_SIZE * i
}

/// Whether the data is long enough for its header and for the two arrays
/// that the header announces.
pub open spec fn holds_structures(bytes: Seq<u8>) -> bool {
    &&& bytes.len() >= HEADER_SIZE
    &&& link_collection_offset(
        HidpPreparsedData::spec_parse(bytes),
        HidpPreparsedData::spec_parse(bytes).number_link_collection_nodes as int,
    ) <= bytes.len()
}

/// The capability array of the data.
pub open spec fn caps_list_of(bytes: Seq<u8>) -> Seq<Caps> {
    Seq::new(
        HidpPreparsedData::spec_parse(bytes).spec_caps_len() as nat,
        |i: int| Caps::spec_parse(bytes, caps_offset(i)),
    )
}

/// The collection nodes of the data.
pub open spec fn link_collection_nodes_of(bytes: Seq<u8>) -> Seq<LinkCollectionNode> {
    Seq::new(
        HidpPreparsedData::spec_parse(bytes).number_link_collection_nodes as nat,
        |i: int|
            LinkCollectionNode::spec_parse(
                bytes,
                link_collection_offset(HidpPreparsedData::spec_parse(bytes), i),
            ),
    )
}

/// What `extract_structures` returns for the data `bytes`.
pub open spec fn extraction_of(bytes: Seq<u8>) -> Result<
    (HidpPreparsedData, Seq<Caps>, Seq<LinkCollectionNode>),
    DescriptorError,
> {
    if !has_signature(bytes) {
        Err(DescriptorError::InvalidPreparsedData)
    } else if !holds_structures(bytes) {
        Err(DescriptorError::CorruptPreparsedData)
    } else {
        Ok(
            (
                HidpPreparsedData::spec_parse(bytes),
                caps_list_of(bytes),
                link_collection_nodes_of(bytes),
            ),
        )
    }
}

/// Tests the signature byte by byte.
pub fn check_signature(pp_data: &[u8]) -> (ok: bool)
    ensures
        ok == has_signature(pp_data@),
{
    if pp_data.len() < 8 {
        return false;
    }
    let ok = pp_data[0] == 72 && pp_data[1] == 105 && pp_data[2] == 100 && pp_data[3] == 80
        && pp_data[4] == 32 && pp_data[5] == 75 && pp_data[6] == 68 && pp_data[7] == 82;
    proof {
        let head = pp_data@.subrange(0, 8);
        let key = magic_key();
        assert(key.len() == 8);
        assert(key[0] == 72 && key[1] == 105 && key[2] == 100 && key[3] == 80 && key[4] == 32
            && key[5] == 75 && key[6] == 68 && key[7] == 82);
        assert(head[0] == pp_data@[0] && head[1] == pp_data@[1] && head[2] == pp_data@[2]
            && head[3] == pp_data@[3] && head[4] == pp_data@[4] && head[5] == pp_data@[5]
            && head[6] == pp_data@[6] && head[7] == pp_data@[7]);
        if ok {
            assert(head =~= key);
        }
    }
    ok
}

/// Reads the header, the capability array and the collection nodes.
///
/// Data that does not begin with the signature is invalid; data with the
/// signature that ends before its header or before the end of the node array
/// that the header announces is corrupt.
pub fn extract_structures(pp_data: &[u8]) -> (r: Result<
    (HidpPreparsedData, Vec<Caps>, Vec<LinkCollectionNode>),
    DescriptorError,
>)
    ensures
        match extraction_of(pp_data@) {
            Ok((header, caps_list, link_collection_nodes)) => r matches Ok((h, c, n)) && h
                == header && c@ == caps_list && n@ == link_collection_nodes,
            Err(e) => r == Err::<(HidpPreparsedData, Vec<Caps>, Vec<LinkCollectionNode>), _>(e),
        },
        !has_signature(pp_data@) ==> r == Err::<
            (HidpPreparsedData, Vec<Caps>, Vec<LinkCollectionNode>),
            _,
        >(DescriptorError::InvalidPreparsedData),
{
    if !check_signature(pp_data) {
        return Err(DescriptorError::InvalidPreparsedData);
    }
    if pp_data.len() < HEADER_SIZE {
        return Err(DescriptorError::CorruptPreparsedData);
    }
    let header = HidpPreparsedData::parse(pp_data);
    let caps_len = header.caps_len();
    let link_len = header.number_link_collection_nodes as usize;
    let link_start: u64 = HEADER_SIZE as u64 + (CAPS_SIZE as u64) * (caps_len as u64)
        + header.first_byte_of_link_collection_array as u64;
    let link_end: u64 = link_start + (LINK_COLLECTION_NODE_SIZE as u64) * (link_len as u64);
    if link_end > pp_data.len() as u64 {
        return Err(DescriptorError::CorruptPreparsedData);
    }
    let mut caps_list: Vec<Caps> = Vec::new();
    let mut i: usize = 0;
    while i < caps_len
        invariant
            i <= caps_len,
            caps_len == header.spec_caps_len(),
            header == HidpPreparsedData::spec_parse(pp_data@),
            caps_offset(caps_len as int) <= pp_data.len(),
            caps_list@ == Seq::new(i as nat, |k: int| Caps::spec_parse(pp_data@, caps_offset(k))),
        decreases caps_len - i,
    {
        let caps = Caps::parse(pp_data, HEADER_SIZE + CAPS_SIZE * i);
        caps_list.push(caps);
        i += 1;
        assert(caps_list@ =~= Seq::new(
            i as nat,
            |k: int| Caps::spec_parse(pp_data@, caps_offset(k)),
        ));
    }
    let mut link_collection_nodes: Vec<LinkCollectionNode> = Vec::new();
    let mut j: usize = 0;
    while j < link_len
        invariant
            j <= link_len,
            link_len == header.number_link_collection_nodes,
            header == HidpPreparsedData::spec_parse(pp_data@),
            link_start == link_collection_start(header),
            link_collection_offset(header, link_len as int) <= pp_data.len(),
            link_collection_nodes@ == Seq::new(
                j as nat,
                |k: int|
                    LinkCollectionNode::spec_parse(pp_data@, link_collection_offset(header, k)),
            ),
        decreases link_len - j,
    {
        let node = LinkCollectionNode::parse(
            pp_data,
            link_start as usize + LINK_COLLECTION_NODE_SIZE * j,
        );
        link_collection_nodes.push(node);
        j += 1;
        assert(link_collection_nodes@ =~= Seq::new(
            j as nat,
            |k: int| LinkCollectionNode::spec_parse(pp_data@, link_collection_offset(header, k)),
        ));
    }
    Ok((header, caps_list, link_collection_nodes))
}

} // verus!
