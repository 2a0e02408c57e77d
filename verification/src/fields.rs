//! The fields: every capability is put into the list at the place that its
//! collection and its bits give it, and runs of aliased capabilities are put
//! into delimiter brackets.

use vstd::prelude::*;
use crate::types::{ItemNodeType, MainItemNode, MainItems, ReportType};
use crate::typedefs::{Caps, HidpPreparsedData, LinkCollectionNode};
use crate::list::{
    insert_main_item_node,
    search_from,
    search_list,
    stops_search,
    MainItemList,
};
use crate::ranges::{bit_range, cap_fits, caps_fit, BitRangeTable};
use crate::order::table_holds;
use crate::collections::lists_view;

verus! {

/// No field ends at or behind this bit: a field begins within 65535 bytes
/// and has at most 65535 elements of 65535 bits.
pub const LAST_BIT_LIMIT: u64 = 0x1_0000_0000_0000;

/// Every item of the list ends in front of bit `limit`.
pub open spec fn bits_below(items: Seq<MainItemNode>, limit: u64) -> bool {
    forall|i: int| 0 <= i < items.len() ==> (#[trigger] items[i]).last_bit < limit
}

/// An item that ends in front of the limit keeps a list in front of it.
pub proof fn lemma_insert_bits_below(items: Seq<MainItemNode>, at: int, item: MainItemNode, limit: u64)
    requires
        0 <= at <= items.len(),
        bits_below(items, limit),
        item.last_bit < limit,
    ensures
        bits_below(items.insert(at, item), limit),
{
    let after = items.insert(at, item);
    assert forall|i: int| 0 <= i < after.len() implies (#[trigger] after[i]).last_bit < limit by {
        if i < at {
            assert(after[i] == items[i]);
        } else if i > at {
            assert(after[i] == items[i - 1]);
        }
    }
}

/// Puts the item made from a capability behind the node `after`.
fn insert_cap_item(item: MainItemNode, list: &mut MainItemList, after: usize) -> (h: usize)
    requires
        old(list).wf(),
        after < old(list)@.len(),
        item.last_bit < LAST_BIT_LIMIT,
    ensures
        final(list).wf(),
        final(list)@ == old(list)@.insert(old(list).position(after) + 1, item),
        h == old(list)@.len(),
        forall|k: usize|
            k < old(list)@.len() ==> final(list).position(k) == (if old(list).position(k) <= old(
                list,
            ).position(after) {
                old(list).position(k)
            } else {
                old(list).position(k) + 1
            }),
        final(list).position(h) == old(list).position(after) + 1,
        0 <= old(list).position(after) < old(list)@.len(),
        bits_below(old(list)@, LAST_BIT_LIMIT) ==> bits_below(final(list)@, LAST_BIT_LIMIT),
{
    proof {
        list.lemma_handles();
        if bits_below(list@, LAST_BIT_LIMIT) {
            lemma_insert_bits_below(list@, list.position(after) + 1, item, LAST_BIT_LIMIT);
        }
    }
    insert_main_item_node(item, list, after)
}

/// Whether `item` is the item of kind `kind` that stands for collection `c`.
pub open spec fn is_collection_item(item: MainItemNode, c: usize, kind: MainItems) -> bool {
    item.node_type == ItemNodeType::Collection && item.main_item_type == kind
        && item.collection_index == c
}

/// The first position from `from` on that holds the item of kind `kind` of
/// collection `c`.
pub open spec fn find_item(items: Seq<MainItemNode>, c: usize, kind: MainItems, from: int)
    -> Option<int>
    decreases items.len() - from,
{
    if from < 0 || from >= items.len() {
        None
    } else if is_collection_item(items[from], c, kind) {
        Some(from)
    } else {
        find_item(items, c, kind, from + 1)
    }
}

/// Whether a field that begins at `first_bit` belongs behind a child
/// collection whose report begins at `range_first`: it does unless the child
/// has bits of the report and they begin later.
pub open spec fn passes_child(range_first: Option<u64>, first_bit: u64) -> bool {
    match range_first {
        Some(f) => first_bit >= f,
        None => true,
    }
}

/// The position behind which the search for the place of `cap` begins, after
/// the children from the `j`-th on were looked at: each child that the field
/// passes moves the position to the end of that child, if it has one in the
/// list; the first child that the field does not pass ends the scan.
pub open spec fn anchor_behind_children(
    items: Seq<MainItemNode>,
    header: HidpPreparsedData,
    caps: Seq<Caps>,
    nodes: Seq<LinkCollectionNode>,
    children: Seq<usize>,
    j: int,
    anchor: int,
    cap: Caps,
    rt: ReportType,
) -> int
    decreases children.len() - j,
{
    if j < 0 || j >= children.len() {
        anchor
    } else if !passes_child(
        bit_range(header, caps, nodes, children[j] as int, cap.report_id, rt).first_bit,
        cap.spec_first_bit(),
    ) {
        anchor
    } else {
        anchor_behind_children(
            items,
            header,
            caps,
            nodes,
            children,
            j + 1,
            match find_item(items, children[j], MainItems::CollectionEnd, 0) {
                Some(p) => p,
                None => anchor,
            },
            cap,
            rt,
        )
    }
}

/// The position behind which the field of `cap` is put: from the opening of
/// its collection (from the head of the list if that has none), behind the
/// children that it passes, and on to where the search for its bits rests.
#[verifier::opaque]
pub open spec fn insertion_anchor(
    items: Seq<MainItemNode>,
    header: HidpPreparsedData,
    caps: Seq<Caps>,
    nodes: Seq<LinkCollectionNode>,
    orders: Seq<Seq<usize>>,
    cap: Caps,
    rt: ReportType,
) -> int {
    search_from(
        items,
        anchor_behind_children(
            items,
            header,
            caps,
            nodes,
            orders[cap.link_collection as int],
            0,
            match find_item(items, cap.link_collection as usize, MainItems::Collection, 0) {
                Some(p) => p,
                None => 0,
            },
            cap,
            rt,
        ),
        cap.spec_first_bit(),
        rt.spec_main_item(),
        cap.report_id,
    )
}

/// The item of kind `kind` made from capability number `k`.
pub open spec fn cap_item(cap: Caps, k: usize, kind: MainItems) -> MainItemNode {
    MainItemNode {
        first_bit: cap.spec_first_bit(),
        last_bit: cap.spec_last_bit(),
        node_type: ItemNodeType::Cap,
        caps_index: Some(k),
        collection_index: cap.link_collection as usize,
        main_item_type: kind,
        report_id: cap.report_id,
    }
}

/// The list and the open bracket after capability `k` of type `rt` was put
/// in. The bracket is given by the position in front of it and the position
/// of its close.
///
/// An aliased capability opens a bracket at its own place, with its usage
/// and the close, or puts its usage at the front of the open bracket. A
/// capability that is not aliased ends an open bracket: its usage and the
/// opening go to the front, and its field goes behind the close. Without a
/// bracket its field goes to its own place.
#[verifier::opaque]
pub open spec fn field_step(
    state: (Seq<MainItemNode>, Option<(int, int)>),
    header: HidpPreparsedData,
    caps: Seq<Caps>,
    nodes: Seq<LinkCollectionNode>,
    orders: Seq<Seq<usize>>,
    k: int,
    rt: ReportType,
) -> (Seq<MainItemNode>, Option<(int, int)>) {
    let items = state.0;
    let cap = caps[k];
    let usage = cap_item(cap, k as usize, MainItems::DelimiterUsage);
    if cap.spec_is_alias() {
        match state.1 {
            None => {
                let a = insertion_anchor(items, header, caps, nodes, orders, cap, rt);
                (
                    items.insert(a + 1, usage).insert(
                        a + 2,
                        cap_item(cap, k as usize, MainItems::DelimiterClose),
                    ),
                    Some((a, a + 2)),
                )
            },
            Some((a, close)) => (items.insert(a + 1, usage), Some((a, close + 1))),
        }
    } else {
        let field = cap_item(cap, k as usize, rt.spec_main_item());
        match state.1 {
            None => {
                let a = insertion_anchor(items, header, caps, nodes, orders, cap, rt);
                (items.insert(a + 1, field), None)
            },
            Some((a, close)) => (
                items.insert(a + 1, usage).insert(
                    a + 1,
                    cap_item(cap, k as usize, MainItems::DelimiterOpen),
                ).insert(close + 3, field),
                None,
            ),
        }
    }
}

/// The list and the open bracket after the capabilities of type `rt` with an
/// index below `k` were put into `items`, in the order of the array.
pub open spec fn fields_upto(
    items: Seq<MainItemNode>,
    header: HidpPreparsedData,
    caps: Seq<Caps>,
    nodes: Seq<LinkCollectionNode>,
    orders: Seq<Seq<usize>>,
    rt: ReportType,
    k: int,
) -> (Seq<MainItemNode>, Option<(int, int)>)
    decreases k,
{
    if k <= header.info(rt.spec_index() as int).first_cap || k <= 0 {
        (items, None)
    } else {
        field_step(
            fields_upto(items, header, caps, nodes, orders, rt, k - 1),
            header,
            caps,
            nodes,
            orders,
            k - 1,
            rt,
        )
    }
}

/// The list after all capabilities of type `rt` were put into `items`. A
/// bracket that the last capability left open gets its opening from that
/// capability.
pub open spec fn with_fields_of_type(
    items: Seq<MainItemNode>,
    header: HidpPreparsedData,
    caps: Seq<Caps>,
    nodes: Seq<LinkCollectionNode>,
    orders: Seq<Seq<usize>>,
    rt: ReportType,
) -> Seq<MainItemNode> {
    let last = header.info(rt.spec_index() as int).last_cap as int;
    let state = fields_upto(items, header, caps, nodes, orders, rt, last);
    match state.1 {
        None => state.0,
        Some((a, close)) => state.0.insert(
            a + 1,
            cap_item(caps[last - 1], (last - 1) as usize, MainItems::DelimiterOpen),
        ),
    }
}

/// The list after the capabilities of all three report types were put in:
/// input first, then output, then feature.
pub open spec fn with_fields(
    items: Seq<MainItemNode>,
    header: HidpPreparsedData,
    caps: Seq<Caps>,
    nodes: Seq<LinkCollectionNode>,
    orders: Seq<Seq<usize>>,
) -> Seq<MainItemNode> {
    with_fields_of_type(
        with_fields_of_type(
            with_fields_of_type(items, header, caps, nodes, orders, ReportType::Input),
            header,
            caps,
            nodes,
            orders,
            ReportType::Output,
        ),
        header,
        caps,
        nodes,
        orders,
        ReportType::Feature,
    )
}

/// A search rests at its start or behind it, inside the list.
pub proof fn lemma_search_in_list(
    items: Seq<MainItemNode>,
    pos: int,
    search_bit: u64,
    main_item_type: MainItems,
    report_id: u8,
)
    requires
        0 <= pos < items.len(),
    ensures
        pos <= search_from(items, pos, search_bit, main_item_type, report_id) < items.len(),
    decreases items.len() - pos,
{
    if pos + 1 < items.len() && !stops_search(
        items[pos + 1],
        search_bit,
        main_item_type,
        report_id,
    ) {
        lemma_search_in_list(items, pos + 1, search_bit, main_item_type, report_id);
    }
}

/// An item that was found lies inside the list and is the item looked for.
pub proof fn lemma_found_in_list(items: Seq<MainItemNode>, c: usize, kind: MainItems, from: int)
    requires
        0 <= from,
    ensures
        find_item(items, c, kind, from) matches Some(p) ==> from <= p < items.len()
            && is_collection_item(items[p], c, kind),
    decreases items.len() - from,
{
    if from < items.len() && !is_collection_item(items[from], c, kind) {
        lemma_found_in_list(items, c, kind, from + 1);
    }
}

/// The scan of the children keeps the position inside the list.
pub proof fn lemma_anchor_in_list(
    items: Seq<MainItemNode>,
    header: HidpPreparsedData,
    caps: Seq<Caps>,
    nodes: Seq<LinkCollectionNode>,
    children: Seq<usize>,
    j: int,
    anchor: int,
    cap: Caps,
    rt: ReportType,
)
    requires
        0 <= anchor < items.len(),
    ensures
        0 <= anchor_behind_children(items, header, caps, nodes, children, j, anchor, cap, rt)
            < items.len(),
    decreases children.len() - j,
{
    if 0 <= j < children.len() && passes_child(
        bit_range(header, caps, nodes, children[j] as int, cap.report_id, rt).first_bit,
        cap.spec_first_bit(),
    ) {
        lemma_found_in_list(items, children[j], MainItems::CollectionEnd, 0);
        lemma_anchor_in_list(
            items,
            header,
            caps,
            nodes,
            children,
            j + 1,
            match find_item(items, children[j], MainItems::CollectionEnd, 0) {
                Some(p) => p,
                None => anchor,
            },
            cap,
            rt,
        );
    }
}

/// The place of a field lies inside the list.
pub proof fn lemma_insertion_anchor_in_list(
    items: Seq<MainItemNode>,
    header: HidpPreparsedData,
    caps: Seq<Caps>,
    nodes: Seq<LinkCollectionNode>,
    orders: Seq<Seq<usize>>,
    cap: Caps,
    rt: ReportType,
)
    requires
        items.len() > 0,
    ensures
        0 <= insertion_anchor(items, header, caps, nodes, orders, cap, rt) < items.len(),
{
    reveal(insertion_anchor);
    let start = match find_item(items, cap.link_collection as usize, MainItems::Collection, 0) {
        Some(p) => p,
        None => 0,
    };
    lemma_found_in_list(items, cap.link_collection as usize, MainItems::Collection, 0);
    lemma_anchor_in_list(
        items,
        header,
        caps,
        nodes,
        orders[cap.link_collection as int],
        0,
        start,
        cap,
        rt,
    );
    let anchor = anchor_behind_children(
        items,
        header,
        caps,
        nodes,
        orders[cap.link_collection as int],
        0,
        start,
        cap,
        rt,
    );
    lemma_search_in_list(items, anchor, cap.spec_first_bit(), rt.spec_main_item(), cap.report_id);
}

/// Whether `item` can come from a capability of report type `rt`: a field of
/// that type, or the opening, a usage or the close of a delimiter bracket.
pub open spec fn is_made_for(item: MainItemNode, rt: ReportType) -> bool {
    item.node_type == ItemNodeType::Cap && (item.main_item_type == rt.spec_main_item()
        || item.main_item_type == MainItems::DelimiterOpen || item.main_item_type
        == MainItems::DelimiterUsage || item.main_item_type == MainItems::DelimiterClose)
}

/// The list is not empty, and an open bracket lies inside it, with its close
/// behind its front.
pub open spec fn bracket_fits(state: (Seq<MainItemNode>, Option<(int, int)>)) -> bool {
    &&& state.0.len() > 0
    &&& state.1 matches Some((front, close)) ==> 0 <= front < close < state.0.len()
}

/// What holds of a list and still holds when an item made for report type
/// `rt` is put in behind its head, holds of the list with one more capability
/// of that type.
pub proof fn lemma_field_step_keeps(
    holds: spec_fn(Seq<MainItemNode>) -> bool,
    state: (Seq<MainItemNode>, Option<(int, int)>),
    header: HidpPreparsedData,
    caps: Seq<Caps>,
    nodes: Seq<LinkCollectionNode>,
    orders: Seq<Seq<usize>>,
    k: int,
    rt: ReportType,
)
    requires
        forall|s: Seq<MainItemNode>, at: int, item: MainItemNode|
            holds(s) && 1 <= at <= s.len() && is_made_for(item, rt) ==> #[trigger] holds(
                s.insert(at, item),
            ),
        holds(state.0),
        bracket_fits(state),
    ensures
        holds(field_step(state, header, caps, nodes, orders, k, rt).0),
        bracket_fits(field_step(state, header, caps, nodes, orders, k, rt)),
{
    reveal(field_step);
    let items = state.0;
    let cap = caps[k];
    let usage = cap_item(cap, k as usize, MainItems::DelimiterUsage);
    let close_item = cap_item(cap, k as usize, MainItems::DelimiterClose);
    let open_item = cap_item(cap, k as usize, MainItems::DelimiterOpen);
    let field = cap_item(cap, k as usize, rt.spec_main_item());
    lemma_insertion_anchor_in_list(items, header, caps, nodes, orders, cap, rt);
    let a = insertion_anchor(items, header, caps, nodes, orders, cap, rt);
    match state.1 {
        None => {
            if cap.spec_is_alias() {
                assert(holds(items.insert(a + 1, usage)));
                assert(holds(items.insert(a + 1, usage).insert(a + 2, close_item)));
            } else {
                assert(holds(items.insert(a + 1, field)));
            }
        },
        Some((front, close)) => {
            assert(holds(items.insert(front + 1, usage)));
            if !cap.spec_is_alias() {
                assert(holds(items.insert(front + 1, usage).insert(front + 1, open_item)));
                assert(holds(
                    items.insert(front + 1, usage).insert(front + 1, open_item).insert(
                        close + 3,
                        field,
                    ),
                ));
            }
        },
    }
}

/// What holds of a list and still holds when an item made for report type
/// `rt` is put in behind its head, holds of the list with the capabilities of
/// that type below `k`.
pub proof fn lemma_fields_upto_keep(
    holds: spec_fn(Seq<MainItemNode>) -> bool,
    items: Seq<MainItemNode>,
    header: HidpPreparsedData,
    caps: Seq<Caps>,
    nodes: Seq<LinkCollectionNode>,
    orders: Seq<Seq<usize>>,
    rt: ReportType,
    k: int,
)
    requires
        forall|s: Seq<MainItemNode>, at: int, item: MainItemNode|
            holds(s) && 1 <= at <= s.len() && is_made_for(item, rt) ==> #[trigger] holds(
                s.insert(at, item),
            ),
        holds(items),
        items.len() > 0,
    ensures
        holds(fields_upto(items, header, caps, nodes, orders, rt, k).0),
        bracket_fits(fields_upto(items, header, caps, nodes, orders, rt, k)),
    decreases k,
{
    if !(k <= header.info(rt.spec_index() as int).first_cap || k <= 0) {
        lemma_fields_upto_keep(holds, items, header, caps, nodes, orders, rt, k - 1);
        lemma_field_step_keeps(
            holds,
            fields_upto(items, header, caps, nodes, orders, rt, k - 1),
            header,
            caps,
            nodes,
            orders,
            k - 1,
            rt,
        );
    }
}

/// What holds of a list and still holds when an item made for report type
/// `rt` is put in behind its head, holds of the list with the capabilities of
/// that type.
pub proof fn lemma_fields_of_type_keep(
    holds: spec_fn(Seq<MainItemNode>) -> bool,
    items: Seq<MainItemNode>,
    header: HidpPreparsedData,
    caps: Seq<Caps>,
    nodes: Seq<LinkCollectionNode>,
    orders: Seq<Seq<usize>>,
    rt: ReportType,
)
    requires
        forall|s: Seq<MainItemNode>, at: int, item: MainItemNode|
            holds(s) && 1 <= at <= s.len() && is_made_for(item, rt) ==> #[trigger] holds(
                s.insert(at, item),
            ),
        holds(items),
        items.len() > 0,
    ensures
        holds(with_fields_of_type(items, header, caps, nodes, orders, rt)),
        with_fields_of_type(items, header, caps, nodes, orders, rt).len() > 0,
{
    let last = header.info(rt.spec_index() as int).last_cap as int;
    lemma_fields_upto_keep(holds, items, header, caps, nodes, orders, rt, last);
    let state = fields_upto(items, header, caps, nodes, orders, rt, last);
    match state.1 {
        None => {},
        Some((front, close)) => {
            assert(holds(
                state.0.insert(
                    front + 1,
                    cap_item(caps[last - 1], (last - 1) as usize, MainItems::DelimiterOpen),
                ),
            ));
        },
    }
}

/// What holds of a list and still holds when an item made for any report
/// type is put in behind its head, holds of the list with all its fields.
pub proof fn lemma_fields_keep(
    holds: spec_fn(Seq<MainItemNode>) -> bool,
    items: Seq<MainItemNode>,
    header: HidpPreparsedData,
    caps: Seq<Caps>,
    nodes: Seq<LinkCollectionNode>,
    orders: Seq<Seq<usize>>,
)
    requires
        forall|s: Seq<MainItemNode>, at: int, item: MainItemNode, rt: ReportType|
            #![trigger holds(s.insert(at, item)), is_made_for(item, rt)]
            holds(s) && 1 <= at <= s.len() && is_made_for(item, rt) ==> holds(s.insert(at, item)),
        holds(items),
        items.len() > 0,
    ensures
        holds(with_fields(items, header, caps, nodes, orders)),
{
    lemma_fields_of_type_keep(holds, items, header, caps, nodes, orders, ReportType::Input);
    let first = with_fields_of_type(items, header, caps, nodes, orders, ReportType::Input);
    lemma_fields_of_type_keep(holds, first, header, caps, nodes, orders, ReportType::Output);
    let second = with_fields_of_type(first, header, caps, nodes, orders, ReportType::Output);
    lemma_fields_of_type_keep(holds, second, header, caps, nodes, orders, ReportType::Feature);
}

/// Looks from the head of the list for the item of kind `kind` that stands
/// for collection `c`.
pub fn find_collection_item(list: &MainItemList, c: usize, kind: MainItems) -> (r: Option<usize>)
    requires
        list.wf(),
    ensures
        match find_item(list@, c, kind, 0) {
            Some(p) => r matches Some(h) && h < list@.len() && list.position(h) == p,
            None => r is None,
        },
{
    let mut cur = list.first();
    let ghost mut p: int = 0;
    proof {
        list.lemma_handles();
    }
    loop
        invariant
            list.wf(),
            0 <= p <= list@.len(),
            cur == (if p < list@.len() {
                Some(list.handles()[p])
            } else {
                None
            }),
            find_item(list@, c, kind, 0) == find_item(list@, c, kind, p),
        ensures
            match find_item(list@, c, kind, 0) {
                Some(q) => cur matches Some(h) && h < list@.len() && list.position(h) == q,
                None => cur is None,
            },
        decreases list@.len() - p,
    {
        proof {
            list.lemma_handles();
        }
        match cur {
            None => {
                break ;
            },
            Some(h) => {
                let item = list.node(h);
                let is_it = match item.node_type {
                    ItemNodeType::Collection => item.main_item_type == kind
                        && item.collection_index == c,
                    _ => false,
                };
                assert(is_it == is_collection_item(list@[p], c, kind));
                if is_it {
                    break ;
                }
                cur = list.next(h);
                proof {
                    p = p + 1;
                }
            },
        }
    }
    cur
}

/// Finds the node behind which the field of `cap` is put.
pub fn insertion_point(
    list: &MainItemList,
    header: &HidpPreparsedData,
    caps: &[Caps],
    nodes: &[LinkCollectionNode],
    orders: &Vec<Vec<usize>>,
    table: &BitRangeTable,
    cap: Caps,
    rt: ReportType,
) -> (h: usize)
    requires
        list.wf(),
        list@.len() > 0,
        table_holds(table, *header, caps@, nodes@),
        orders@.len() == nodes@.len(),
        forall|c: int, k: int|
            0 <= c < orders@.len() && 0 <= k < orders@[c]@.len() ==> (#[trigger] orders@[c]@[k])
                < nodes@.len(),
        cap.spec_has_bits(),
        cap.link_collection < nodes@.len(),
    ensures
        h < list@.len(),
        0 <= list.position(h) < list@.len(),
        list.position(h) == insertion_anchor(
            list@,
            *header,
            caps@,
            nodes@,
            lists_view(orders@),
            cap,
            rt,
        ),
{
    let c = cap.link_collection as usize;
    let first_bit = cap.first_bit();
    proof {
        reveal(insertion_anchor);
        list.lemma_handles();
    }
    let mut anchor: usize = match find_collection_item(list, c, MainItems::Collection) {
        Some(h) => h,
        None => list.first().unwrap(),
    };
    let children = &orders[c];
    assert(children@ == lists_view(orders@)[c as int]);
    let mut j: usize = 0;
    while j < children.len()
        invariant
            list.wf(),
            j <= children@.len(),
            anchor < list@.len(),
            table_holds(table, *header, caps@, nodes@),
            forall|k: int| 0 <= k < children@.len() ==> (#[trigger] children@[k]) < nodes@.len(),
            first_bit == cap.spec_first_bit(),
            anchor_behind_children(
                list@,
                *header,
                caps@,
                nodes@,
                children@,
                0,
                match find_item(list@, cap.link_collection as usize, MainItems::Collection, 0) {
                    Some(p) => p,
                    None => 0,
                },
                cap,
                rt,
            ) == anchor_behind_children(
                list@,
                *header,
                caps@,
                nodes@,
                children@,
                j as int,
                list.position(anchor),
                cap,
                rt,
            ),
        ensures
            anchor < list@.len(),
            anchor_behind_children(
                list@,
                *header,
                caps@,
                nodes@,
                children@,
                0,
                match find_item(list@, cap.link_collection as usize, MainItems::Collection, 0) {
                    Some(p) => p,
                    None => 0,
                },
                cap,
                rt,
            ) == list.position(anchor),
        decreases children@.len() - j,
    {
        let child = children[j];
        let range = table.range(child, cap.report_id, rt);
        assert(range == bit_range(*header, caps@, nodes@, child as int, cap.report_id, rt));
        let passes = match range.first_bit {
            Some(f) => first_bit >= f,
            None => true,
        };
        if !passes {
            break ;
        }
        match find_collection_item(list, child, MainItems::CollectionEnd) {
            Some(h) => {
                anchor = h;
            },
            None => {},
        }
        j += 1;
    }
    let found = search_list(first_bit, rt.main_item(), cap.report_id, list, anchor);
    proof {
        list.lemma_handles();
    }
    found
}

/// The item of kind `kind` made from capability number `k`.
pub fn make_cap_item(cap: Caps, k: usize, kind: MainItems) -> (item: MainItemNode)
    requires
        cap.spec_has_bits(),
    ensures
        item == cap_item(cap, k, kind),
        item.last_bit < LAST_BIT_LIMIT,
{
    MainItemNode::new(
        cap.first_bit(),
        cap.last_bit(),
        ItemNodeType::Cap,
        Some(k),
        cap.link_collection as usize,
        kind,
        cap.report_id,
    )
}

/// Puts the capabilities of report type `rt` into the list, in the order of
/// the capability array.
pub fn insert_fields_of_type(
    list: &mut MainItemList,
    header: &HidpPreparsedData,
    caps: &[Caps],
    nodes: &[LinkCollectionNode],
    orders: &Vec<Vec<usize>>,
    table: &BitRangeTable,
    rt: ReportType,
)
    requires
        old(list).wf(),
        old(list)@.len() > 0,
        table_holds(table, *header, caps@, nodes@),
        caps_fit(*header, caps@, nodes@),
        orders@.len() == nodes@.len(),
        forall|c: int, k: int|
            0 <= c < orders@.len() && 0 <= k < orders@[c]@.len() ==> (#[trigger] orders@[c]@[k])
                < nodes@.len(),
    ensures
        final(list).wf(),
        final(list)@.len() >= old(list)@.len(),
        final(list)@ == with_fields_of_type(
            old(list)@,
            *header,
            caps@,
            nodes@,
            lists_view(orders@),
            rt,
        ),
        bits_below(old(list)@, LAST_BIT_LIMIT) ==> bits_below(final(list)@, LAST_BIT_LIMIT),
{
    let t = rt.index();
    let info = header.caps_info[t];
    let ghost ord = lists_view(orders@);
    let ghost start = list@;
    assert(info == header.info(t as int));
    let mut bracket: Option<(usize, usize)> = None;
    let mut k: usize = info.first_cap as usize;
    while k < info.last_cap as usize
        invariant
            t == rt.spec_index(),
            t < 3,
            info == header.info(t as int),
            ord == lists_view(orders@),
            info.first_cap <= k,
            k <= info.last_cap || k == info.first_cap,
            list.wf(),
            list@.len() >= start.len(),
            start.len() > 0,
            start == old(list)@,
            bits_below(start, LAST_BIT_LIMIT) ==> bits_below(list@, LAST_BIT_LIMIT),
            table_holds(table, *header, caps@, nodes@),
            caps_fit(*header, caps@, nodes@),
            orders@.len() == nodes@.len(),
            forall|c: int, i: int|
                0 <= c < orders@.len() && 0 <= i < orders@[c]@.len() ==> (
                #[trigger] orders@[c]@[i]) < nodes@.len(),
            list@ == fields_upto(start, *header, caps@, nodes@, ord, rt, k as int).0,
            match bracket {
                Some((front, close)) => front < list@.len() && close < list@.len()
                    && list.position(front) < list.position(close) && k > info.first_cap
                    && fields_upto(start, *header, caps@, nodes@, ord, rt, k as int).1 == Some(
                    (list.position(front), list.position(close)),
                ),
                None => fields_upto(start, *header, caps@, nodes@, ord, rt, k as int).1 is None,
            },
        decreases info.last_cap - k,
    {
        assert(cap_fits(header.info(t as int), caps@[k as int], nodes@));
        let cap = caps[k];
        let ghost state = fields_upto(start, *header, caps@, nodes@, ord, rt, k as int);
        assert(fields_upto(start, *header, caps@, nodes@, ord, rt, k + 1) == field_step(
            state,
            *header,
            caps@,
            nodes@,
            ord,
            k as int,
            rt,
        ));
        proof {
            reveal(field_step);
            list.lemma_handles();
        }
        if cap.is_alias() {
            match bracket {
                None => {
                    let at = insertion_point(list, header, caps, nodes, orders, table, cap, rt);
                    let usage = insert_cap_item(
                        make_cap_item(cap, k, MainItems::DelimiterUsage),
                        list,
                        at,
                    );
                    let close = insert_cap_item(
                        make_cap_item(cap, k, MainItems::DelimiterClose),
                        list,
                        usage,
                    );
                    bracket = Some((at, close));
                },
                Some((front, close)) => {
                    insert_cap_item(
                        make_cap_item(cap, k, MainItems::DelimiterUsage),
                        list,
                        front,
                    );
                },
            }
        } else {
            match bracket {
                None => {
                    let at = insertion_point(list, header, caps, nodes, orders, table, cap, rt);
                    insert_cap_item(make_cap_item(cap, k, rt.main_item()), list, at);
                },
                Some((front, close)) => {
                    insert_cap_item(
                        make_cap_item(cap, k, MainItems::DelimiterUsage),
                        list,
                        front,
                    );
                    insert_cap_item(
                        make_cap_item(cap, k, MainItems::DelimiterOpen),
                        list,
                        front,
                    );
                    insert_cap_item(make_cap_item(cap, k, rt.main_item()), list, close);
                    bracket = None;
                },
            }
        }
        k += 1;
    }
    match bracket {
        None => {},
        Some((front, close)) => {
            proof {
                list.lemma_handles();
            }
            assert(k == info.last_cap);
            assert(cap_fits(header.info(t as int), caps@[k - 1], nodes@));
            let cap = caps[k - 1];
            insert_cap_item(make_cap_item(cap, k - 1, MainItems::DelimiterOpen), list, front);
        },
    }
}

/// Puts the capabilities of all report types into the list of the
/// collections.
pub fn insert_fields(
    list: &mut MainItemList,
    header: &HidpPreparsedData,
    caps: &[Caps],
    nodes: &[LinkCollectionNode],
    orders: &Vec<Vec<usize>>,
    table: &BitRangeTable,
)
    requires
        old(list).wf(),
        old(list)@.len() > 0,
        table_holds(table, *header, caps@, nodes@),
        caps_fit(*header, caps@, nodes@),
        orders@.len() == nodes@.len(),
        forall|c: int, k: int|
            0 <= c < orders@.len() && 0 <= k < orders@[c]@.len() ==> (#[trigger] orders@[c]@[k])
                < nodes@.len(),
    ensures
        final(list).wf(),
        final(list)@ == with_fields(old(list)@, *header, caps@, nodes@, lists_view(orders@)),
        bits_below(old(list)@, LAST_BIT_LIMIT) ==> bits_below(final(list)@, LAST_BIT_LIMIT),
{
    insert_fields_of_type(list, header, caps, nodes, orders, table, ReportType::Input);
    insert_fields_of_type(list, header, caps, nodes, orders, table, ReportType::Output);
    insert_fields_of_type(list, header, caps, nodes, orders, table, ReportType::Feature);
}

} // verus!
