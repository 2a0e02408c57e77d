//! Descriptors with a single collection: the fields of a report whose
//! capabilities do not overlap come to stand in the order of their bits, so
//! that the report is covered without gap or overlap.

use vstd::prelude::*;
use crate::types::{ItemNodeType, MainItemNode, MainItems, ReportType};
use crate::typedefs::{Caps, CapsInfo, HidpPreparsedData, LinkCollectionNode};
use crate::list::{search_from, stops_search};
use crate::padding::{is_field_of, last_field_before};
use crate::hierarchy::child_chain;
use crate::ranges::cap_fits;
use crate::order::child_orders;
use crate::collections::{all_collection_items, children_items, collection_bracket};
use crate::fields::{
    cap_item,
    field_step,
    fields_upto,
    insertion_anchor,
    is_collection_item,
    is_made_for,
    lemma_fields_of_type_keep,
    lemma_search_in_list,
    with_fields_of_type,
};
use crate::contiguity::{
    field_in_order,
    fields_in_order,
    is_contiguous,
    lemma_last_field_is_last,
    lemma_report_is_contiguous,
};
use crate::descriptor::{assembled_items_of, is_well_formed, main_items_of};

verus! {

/// The bits of two capabilities do not overlap.
pub open spec fn caps_apart(a: Caps, b: Caps) -> bool {
    a.spec_last_bit() < b.spec_first_bit() || b.spec_last_bit() < a.spec_first_bit()
}

/// Whether `item` has the bits of one of the capabilities of report `id`
/// with an index from `info.first_cap` up to `k`.
pub open spec fn has_bits_of_cap(item: MainItemNode, caps: Seq<Caps>, info: CapsInfo, id: u8, k: int)
    -> bool {
    exists|m: int|
        info.first_cap <= m < k && (#[trigger] caps[m]).report_id == id && item.first_bit
            == caps[m].spec_first_bit() && item.last_bit == caps[m].spec_last_bit()
}

/// Whether a field of the report in the list has the first bit `bit`.
pub open spec fn has_field_at(items: Seq<MainItemNode>, kind: MainItems, id: u8, bit: u64) -> bool {
    exists|i: int|
        0 <= i < items.len() && is_field_of(#[trigger] items[i], kind, id) && items[i].first_bit
            == bit
}

/// Whether `item` is a field, or an item of a collection that is not of a
/// kind that fields have.
pub open spec fn is_plain(item: MainItemNode) -> bool {
    item.node_type == ItemNodeType::Cap || (item.node_type == ItemNodeType::Collection
        && item.main_item_type.spec_report_type() is None)
}

/// The fields of report `id` and kind `kind` in the list are those of the
/// capabilities of the report below `k`, in the order of their bits; the
/// list begins with the opening of the root, and no field of the report
/// stands behind the opening or the end of a collection behind that.
pub open spec fn report_in_order(
    items: Seq<MainItemNode>,
    caps: Seq<Caps>,
    info: CapsInfo,
    kind: MainItems,
    id: u8,
    k: int,
) -> bool {
    &&& items.len() >= 1
    &&& items[0] == MainItemNode::spec_collection(0, MainItems::Collection)
    &&& forall|i: int| 0 <= i < items.len() ==> is_plain(#[trigger] items[i])
    &&& forall|i: int, j: int|
        #![trigger items[i], items[j]]
        0 < i < j < items.len() && items[i].main_item_type.spec_is_collection_boundary()
            ==> !is_field_of(items[j], kind, id)
    &&& forall|i: int, j: int|
        #![trigger items[i], items[j]]
        0 <= i < j < items.len() && is_field_of(items[i], kind, id) && is_field_of(
            items[j],
            kind,
            id,
        ) ==> items[i].last_bit < items[j].first_bit
    &&& forall|i: int|
        0 <= i < items.len() && is_field_of(#[trigger] items[i], kind, id) ==> has_bits_of_cap(
            items[i],
            caps,
            info,
            id,
            k,
        )
    &&& forall|m: int|
        info.first_cap <= m < k && (#[trigger] caps[m]).report_id == id ==> has_field_at(
            items,
            kind,
            id,
            caps[m].spec_first_bit(),
        )
}

/// An item that is no field of the report and neither opens nor ends a
/// collection can be put in behind the head of the list.
pub proof fn lemma_other_item_keeps_order(
    items: Seq<MainItemNode>,
    at: int,
    item: MainItemNode,
    caps: Seq<Caps>,
    info: CapsInfo,
    kind: MainItems,
    id: u8,
    k: int,
)
    requires
        report_in_order(items, caps, info, kind, id, k),
        1 <= at <= items.len(),
        item.node_type == ItemNodeType::Cap,
        !is_field_of(item, kind, id),
        !item.main_item_type.spec_is_collection_boundary(),
    ensures
        report_in_order(items.insert(at, item), caps, info, kind, id, k),
{
    let after = items.insert(at, item);
    assert forall|i: int| 0 <= i < after.len() implies (#[trigger] after[i]) == (if i < at {
        items[i]
    } else if i == at {
        item
    } else {
        items[i - 1]
    }) by {}
    assert forall|i: int, j: int|
        #![trigger after[i], after[j]]
        0 < i < j < after.len()
            && after[i].main_item_type.spec_is_collection_boundary() implies !is_field_of(
        after[j],
        kind,
        id,
    ) by {
        let oi = if i < at { i } else { i - 1 };
        let oj = if j < at { j } else { j - 1 };
        if j != at {
            assert(after[i] == items[oi]);
            assert(after[j] == items[oj]);
        }
    }
    assert forall|i: int, j: int|
        #![trigger after[i], after[j]]
        0 <= i < j < after.len() && is_field_of(after[i], kind, id) && is_field_of(
            after[j],
            kind,
            id,
        ) implies after[i].last_bit < after[j].first_bit by {
        let oi = if i < at { i } else { i - 1 };
        let oj = if j < at { j } else { j - 1 };
        assert(after[i] == items[oi]);
        assert(after[j] == items[oj]);
    }
    assert forall|i: int| 0 <= i < after.len() && is_field_of(
        #[trigger] after[i],
        kind,
        id,
    ) implies has_bits_of_cap(after[i], caps, info, id, k) by {
        let oi = if i < at { i } else { i - 1 };
        assert(after[i] == items[oi]);
    }
    assert forall|m: int|
        info.first_cap <= m < k && (#[trigger] caps[m]).report_id == id implies has_field_at(
        after,
        kind,
        id,
        caps[m].spec_first_bit(),
    ) by {
        assert(has_field_at(items, kind, id, caps[m].spec_first_bit()));
        let i = choose|i: int|
            0 <= i < items.len() && is_field_of(#[trigger] items[i], kind, id)
                && items[i].first_bit == caps[m].spec_first_bit();
        let ni = if i < at { i } else { i + 1 };
        assert(after[ni] == items[i]);
    }
}

/// What a search passes does not stop it, and what it rests in front of
/// does.
pub proof fn lemma_search_passes(
    items: Seq<MainItemNode>,
    pos: int,
    search_bit: u64,
    main_item_type: MainItems,
    report_id: u8,
)
    requires
        0 <= pos < items.len(),
    ensures
        ({
            let rest = search_from(items, pos, search_bit, main_item_type, report_id);
            &&& pos <= rest < items.len()
            &&& forall|i: int|
                pos < i <= rest ==> !stops_search(
                    #[trigger] items[i],
                    search_bit,
                    main_item_type,
                    report_id,
                )
            &&& rest + 1 < items.len() ==> stops_search(
                items[rest + 1],
                search_bit,
                main_item_type,
                report_id,
            )
        }),
    decreases items.len() - pos,
{
    if pos + 1 < items.len() && !stops_search(
        items[pos + 1],
        search_bit,
        main_item_type,
        report_id,
    ) {
        lemma_search_passes(items, pos + 1, search_bit, main_item_type, report_id);
    }
}

/// The fields of the report that stand behind the place of a new field
/// begin behind its end.
proof fn lemma_fields_behind_begin_later(
    items: Seq<MainItemNode>,
    caps: Seq<Caps>,
    info: CapsInfo,
    kind: MainItems,
    id: u8,
    k: int,
    field: MainItemNode,
)
    requires
        report_in_order(items, caps, info, kind, id, k),
        info.first_cap <= k,
        field.first_bit == caps[k].spec_first_bit(),
        field.last_bit == caps[k].spec_last_bit(),
        kind.spec_report_type() is Some,
        forall|m: int|
            info.first_cap <= m < k && (#[trigger] caps[m]).report_id == id ==> caps_apart(
                caps[m],
                caps[k],
            ) && caps[m].spec_has_bits(),
    ensures
        forall|oj: int|
            search_from(items, 0, field.first_bit, kind, id) + 1 <= oj < items.len() && is_field_of(
                #[trigger] items[oj],
                kind,
                id,
            ) ==> field.last_bit < items[oj].first_bit,
{
    let f = field.first_bit;
    let a = search_from(items, 0, f, kind, id);
    lemma_search_passes(items, 0, f, kind, id);
    let at = a + 1;
    assert forall|oj: int| at <= oj < items.len() && is_field_of(
        #[trigger] items[oj],
        kind,
        id,
    ) implies field.last_bit < items[oj].first_bit by {
        let next = items[at];
        assert(stops_search(next, f, kind, id));
        if next.main_item_type.spec_is_collection_boundary() {
            if oj > at {
                assert(!is_field_of(items[oj], kind, id));
            }
        } else {
            assert(is_plain(next));
            assert(is_field_of(next, kind, id));
            assert(has_bits_of_cap(next, caps, info, id, k));
            let m = choose|m: int|
                info.first_cap <= m < k && (#[trigger] caps[m]).report_id == id && next.first_bit
                    == caps[m].spec_first_bit() && next.last_bit == caps[m].spec_last_bit();
            assert(caps_apart(caps[m], caps[k]));
            caps[m].lemma_bits();
            if oj > at {
                assert(items[at].last_bit < items[oj].first_bit);
            }
        }
    }
}

/// A field of the report whose bits are apart from those of the fields in
/// the list comes to stand among them in the order of the bits.
pub proof fn lemma_field_keeps_order(
    items: Seq<MainItemNode>,
    caps: Seq<Caps>,
    info: CapsInfo,
    kind: MainItems,
    id: u8,
    k: int,
    field: MainItemNode,
)
    requires
        report_in_order(items, caps, info, kind, id, k),
        info.first_cap <= k,
        caps[k].report_id == id,
        field.node_type == ItemNodeType::Cap,
        field.main_item_type == kind,
        field.report_id == id,
        field.first_bit == caps[k].spec_first_bit(),
        field.last_bit == caps[k].spec_last_bit(),
        kind.spec_report_type() is Some,
        forall|m: int|
            info.first_cap <= m < k && (#[trigger] caps[m]).report_id == id ==> caps_apart(
                caps[m],
                caps[k],
            ) && caps[m].spec_has_bits(),
    ensures
        report_in_order(
            items.insert(search_from(items, 0, field.first_bit, kind, id) + 1, field),
            caps,
            info,
            kind,
            id,
            k + 1,
        ),
{
    let f = field.first_bit;
    let a = search_from(items, 0, f, kind, id);
    lemma_search_passes(items, 0, f, kind, id);
    let at = a + 1;
    let after = items.insert(at, field);
    assert forall|i: int| 0 <= i < after.len() implies (#[trigger] after[i]) == (if i < at {
        items[i]
    } else if i == at {
        field
    } else {
        items[i - 1]
    }) by {}
    lemma_fields_behind_begin_later(items, caps, info, kind, id, k, field);
    assert forall|i: int, j: int|
        #![trigger after[i], after[j]]
        0 < i < j < after.len()
            && after[i].main_item_type.spec_is_collection_boundary() implies !is_field_of(
        after[j],
        kind,
        id,
    ) by {
        let oi = if i < at { i } else { i - 1 };
        let oj = if j < at { j } else { j - 1 };
        if j == at {
            assert(after[i] == items[i]);
            assert(!stops_search(items[i], f, kind, id));
        } else if i != at {
            assert(after[i] == items[oi]);
            assert(after[j] == items[oj]);
        }
    }
    assert forall|i: int, j: int|
        #![trigger after[i], after[j]]
        0 <= i < j < after.len() && is_field_of(after[i], kind, id) && is_field_of(
            after[j],
            kind,
            id,
        ) implies after[i].last_bit < after[j].first_bit by {
        let oi = if i < at { i } else { i - 1 };
        let oj = if j < at { j } else { j - 1 };
        if j == at {
            assert(after[i] == items[i]);
            if i > 0 {
                assert(!stops_search(items[i], f, kind, id));
            }
        } else if i == at {
            assert(after[j] == items[oj]);
        } else {
            assert(after[i] == items[oi]);
            assert(after[j] == items[oj]);
        }
    }
    assert forall|i: int| 0 <= i < after.len() && is_field_of(
        #[trigger] after[i],
        kind,
        id,
    ) implies has_bits_of_cap(after[i], caps, info, id, k + 1) by {
        if i == at {
            assert(caps[k].report_id == id);
        } else {
            let oi = if i < at { i } else { i - 1 };
            assert(after[i] == items[oi]);
            assert(has_bits_of_cap(items[oi], caps, info, id, k));
            let m = choose|m: int|
                info.first_cap <= m < k && (#[trigger] caps[m]).report_id == id
                    && items[oi].first_bit == caps[m].spec_first_bit() && items[oi].last_bit
                    == caps[m].spec_last_bit();
            assert(caps[m].report_id == id);
        }
    }
    assert forall|m: int|
        info.first_cap <= m < k + 1 && (#[trigger] caps[m]).report_id == id implies has_field_at(
        after,
        kind,
        id,
        caps[m].spec_first_bit(),
    ) by {
        if m == k {
            assert(after[at] == field);
        } else {
            assert(has_field_at(items, kind, id, caps[m].spec_first_bit()));
            let i = choose|i: int|
                0 <= i < items.len() && is_field_of(#[trigger] items[i], kind, id)
                    && items[i].first_bit == caps[m].spec_first_bit();
            let ni = if i < at { i } else { i + 1 };
            assert(after[ni] == items[i]);
        }
    }
}

/// A capability of another report leaves the order of the report as it is.
proof fn lemma_order_reaches_further(
    items: Seq<MainItemNode>,
    caps: Seq<Caps>,
    info: CapsInfo,
    kind: MainItems,
    id: u8,
    k: int,
)
    requires
        report_in_order(items, caps, info, kind, id, k),
        caps[k].report_id != id || k < info.first_cap,
    ensures
        report_in_order(items, caps, info, kind, id, k + 1),
{
    assert forall|i: int| 0 <= i < items.len() && is_field_of(
        #[trigger] items[i],
        kind,
        id,
    ) implies has_bits_of_cap(items[i], caps, info, id, k + 1) by {
        assert(has_bits_of_cap(items[i], caps, info, id, k));
        let m = choose|m: int|
            info.first_cap <= m < k && (#[trigger] caps[m]).report_id == id && items[i].first_bit
                == caps[m].spec_first_bit() && items[i].last_bit == caps[m].spec_last_bit();
        assert(caps[m].report_id == id);
    }
}

/// The capabilities of type `rt` lie in the root, none of them is aliased,
/// and those of report `id` have bits that do not overlap.
pub open spec fn report_is_apart(
    header: HidpPreparsedData,
    caps: Seq<Caps>,
    rt: ReportType,
    id: u8,
) -> bool {
    let info = header.info(rt.spec_index() as int);
    &&& forall|m: int|
        info.first_cap <= m < info.last_cap ==> !(#[trigger] caps[m]).spec_is_alias()
            && caps[m].spec_has_bits() && caps[m].link_collection == 0
    &&& forall|m: int, n: int|
        #![trigger caps[m], caps[n]]
        info.first_cap <= m < info.last_cap && info.first_cap <= n < info.last_cap && m != n
            && caps[m].report_id == id && caps[n].report_id == id ==> caps_apart(caps[m], caps[n])
}

/// With the capabilities of type `rt` below `k` put in, the fields of the
/// report stand in the order of their bits, and no bracket is open.
pub proof fn lemma_fields_upto_in_order(
    items: Seq<MainItemNode>,
    header: HidpPreparsedData,
    caps: Seq<Caps>,
    nodes: Seq<LinkCollectionNode>,
    orders: Seq<Seq<usize>>,
    rt: ReportType,
    id: u8,
    k: int,
)
    requires
        report_in_order(
            items,
            caps,
            header.info(rt.spec_index() as int),
            rt.spec_main_item(),
            id,
            header.info(rt.spec_index() as int).first_cap as int,
        ),
        report_is_apart(header, caps, rt, id),
        orders[0].len() == 0,
        k <= header.info(rt.spec_index() as int).last_cap,
    ensures
        fields_upto(items, header, caps, nodes, orders, rt, k).1 is None,
        report_in_order(
            fields_upto(items, header, caps, nodes, orders, rt, k).0,
            caps,
            header.info(rt.spec_index() as int),
            rt.spec_main_item(),
            id,
            if k >= header.info(rt.spec_index() as int).first_cap {
                k
            } else {
                header.info(rt.spec_index() as int).first_cap as int
            },
        ),
    decreases k,
{
    let info = header.info(rt.spec_index() as int);
    let kind = rt.spec_main_item();
    if !(k <= info.first_cap || k <= 0) {
        lemma_fields_upto_in_order(items, header, caps, nodes, orders, rt, id, k - 1);
        let state = fields_upto(items, header, caps, nodes, orders, rt, k - 1);
        let list = state.0;
        let cap = caps[k - 1];
        let field = cap_item(cap, (k - 1) as usize, kind);
        assert(!cap.spec_is_alias() && cap.spec_has_bits() && cap.link_collection == 0);
        let a = insertion_anchor(list, header, caps, nodes, orders, cap, rt);
        assert(a == search_from(list, 0, cap.spec_first_bit(), kind, cap.report_id)) by {
            reveal(insertion_anchor);
            assert(is_collection_item(list[0], 0, MainItems::Collection));
        }
        assert(fields_upto(items, header, caps, nodes, orders, rt, k) == (
            list.insert(a + 1, field),
            None::<(int, int)>,
        )) by {
            reveal(field_step);
        }
        if cap.report_id == id {
            lemma_field_keeps_order(list, caps, info, kind, id, k - 1, field);
        } else {
            lemma_search_in_list(list, 0, cap.spec_first_bit(), kind, cap.report_id);
            lemma_other_item_keeps_order(list, a + 1, field, caps, info, kind, id, k - 1);
            lemma_order_reaches_further(list.insert(a + 1, field), caps, info, kind, id, k - 1);
        }
    }
}

/// The report has no capability of type `rt`, or one of them begins at
/// bit 0.
pub open spec fn report_begins_at_zero(
    header: HidpPreparsedData,
    caps: Seq<Caps>,
    rt: ReportType,
    id: u8,
) -> bool {
    let info = header.info(rt.spec_index() as int);
    forall|m: int|
        info.first_cap <= m < info.last_cap && (#[trigger] caps[m]).report_id == id
            ==> exists|z: int|
            info.first_cap <= z < info.last_cap && (#[trigger] caps[z]).report_id == id
                && caps[z].spec_first_bit() == 0
}

/// Fields that are those of the capabilities of the report, in the order of
/// their bits, begin each behind the one before it, and the first at bit 0
/// if one of the capabilities begins there.
pub proof fn lemma_order_is_fields_in_order(
    items: Seq<MainItemNode>,
    header: HidpPreparsedData,
    caps: Seq<Caps>,
    rt: ReportType,
    id: u8,
    k: int,
)
    requires
        report_in_order(
            items,
            caps,
            header.info(rt.spec_index() as int),
            rt.spec_main_item(),
            id,
            k,
        ),
        k <= header.info(rt.spec_index() as int).last_cap || k <= header.info(
            rt.spec_index() as int,
        ).first_cap,
        k >= header.info(rt.spec_index() as int).last_cap,
        report_is_apart(header, caps, rt, id),
        report_begins_at_zero(header, caps, rt, id),
    ensures
        fields_in_order(items, rt.spec_main_item(), id),
{
    let info = header.info(rt.spec_index() as int);
    let kind = rt.spec_main_item();
    assert forall|i: int| 0 <= i < items.len() implies #[trigger] field_in_order(
        items,
        kind,
        id,
        i,
    ) by {
        if is_field_of(items[i], kind, id) {
            assert(has_bits_of_cap(items[i], caps, info, id, k));
            let m = choose|m: int|
                info.first_cap <= m < k && (#[trigger] caps[m]).report_id == id
                    && items[i].first_bit == caps[m].spec_first_bit() && items[i].last_bit
                    == caps[m].spec_last_bit();
            assert(info.first_cap <= m < info.last_cap);
            caps[m].lemma_bits();
            lemma_last_field_is_last(items, kind, id, i);
            if last_field_before(items, kind, id, i) is None {
                // the capability that begins at bit 0 has its field at `i` or behind it,
                // and no field of the report ends in front of bit 0
                let z = choose|z: int|
                    info.first_cap <= z < info.last_cap && (#[trigger] caps[z]).report_id == id
                        && caps[z].spec_first_bit() == 0;
                assert(has_field_at(items, kind, id, caps[z].spec_first_bit()));
            }
        }
    }
    assert forall|i: int| 0 <= i < items.len() implies !((#[trigger] items[i]).node_type
        == ItemNodeType::Padding && items[i].main_item_type == kind && items[i].report_id
        == id) by {
        assert(is_plain(items[i]));
    }
}

/// The capabilities of another report type leave the order of the report
/// as it is.
pub proof fn lemma_other_type_keeps_order(
    items: Seq<MainItemNode>,
    header: HidpPreparsedData,
    caps: Seq<Caps>,
    nodes: Seq<LinkCollectionNode>,
    orders: Seq<Seq<usize>>,
    rt: ReportType,
    id: u8,
    k: int,
    other: ReportType,
)
    requires
        other != rt,
        report_in_order(
            items,
            caps,
            header.info(rt.spec_index() as int),
            rt.spec_main_item(),
            id,
            k,
        ),
    ensures
        report_in_order(
            with_fields_of_type(items, header, caps, nodes, orders, other),
            caps,
            header.info(rt.spec_index() as int),
            rt.spec_main_item(),
            id,
            k,
        ),
{
    let info = header.info(rt.spec_index() as int);
    let kind = rt.spec_main_item();
    let holds = |s: Seq<MainItemNode>| report_in_order(s, caps, info, kind, id, k);
    assert forall|s: Seq<MainItemNode>, at: int, item: MainItemNode|
        holds(s) && 1 <= at <= s.len() && is_made_for(item, other) implies #[trigger] holds(
        s.insert(at, item),
    ) by {
        lemma_other_item_keeps_order(s, at, item, caps, info, kind, id, k);
    }
    lemma_fields_of_type_keep(holds, items, header, caps, nodes, orders, other);
}

/// With all capabilities of its own type put in, the fields of the report
/// stand in the order of their bits.
pub proof fn lemma_own_type_in_order(
    items: Seq<MainItemNode>,
    header: HidpPreparsedData,
    caps: Seq<Caps>,
    nodes: Seq<LinkCollectionNode>,
    orders: Seq<Seq<usize>>,
    rt: ReportType,
    id: u8,
)
    requires
        report_in_order(
            items,
            caps,
            header.info(rt.spec_index() as int),
            rt.spec_main_item(),
            id,
            header.info(rt.spec_index() as int).first_cap as int,
        ),
        report_is_apart(header, caps, rt, id),
        orders[0].len() == 0,
    ensures
        report_in_order(
            with_fields_of_type(items, header, caps, nodes, orders, rt),
            caps,
            header.info(rt.spec_index() as int),
            rt.spec_main_item(),
            id,
            slice_end(header.info(rt.spec_index() as int)),
        ),
{
    let info = header.info(rt.spec_index() as int);
    lemma_fields_upto_in_order(items, header, caps, nodes, orders, rt, id, info.last_cap as int);
}

/// The index behind the capabilities of a report type: `last_cap`, or
/// `first_cap` where the range is empty.
pub open spec fn slice_end(info: CapsInfo) -> int {
    if info.last_cap >= info.first_cap {
        info.last_cap as int
    } else {
        info.first_cap as int
    }
}

/// What has to hold of the capabilities of report `id` of type `rt` for its
/// fields to come out in the order of their bits: no capability of the type
/// is aliased, the bits of those of the report do not overlap, and one of
/// them begins at bit 0.
pub open spec fn report_is_laid_out(
    header: HidpPreparsedData,
    caps: Seq<Caps>,
    rt: ReportType,
    id: u8,
) -> bool {
    let info = header.info(rt.spec_index() as int);
    &&& forall|m: int|
        info.first_cap <= m < info.last_cap ==> !(#[trigger] caps[m]).spec_is_alias()
    &&& forall|m: int, n: int|
        #![trigger caps[m], caps[n]]
        info.first_cap <= m < info.last_cap && info.first_cap <= n < info.last_cap && m != n
            && caps[m].report_id == id && caps[n].report_id == id ==> caps_apart(caps[m], caps[n])
    &&& report_begins_at_zero(header, caps, rt, id)
}

/// Contiguity for a descriptor with a single collection: if no capability
/// of type `rt` is aliased and the capabilities of report `id` of that type
/// have bits that do not overlap, one of them beginning at bit 0, the main
/// items cover the report in one span from bit 0 without gap or overlap, and
/// the span is a whole number of bytes.
pub proof fn lemma_single_collection_report_is_contiguous(
    header: HidpPreparsedData,
    caps: Seq<Caps>,
    nodes: Seq<LinkCollectionNode>,
    rt: ReportType,
    id: u8,
)
    requires
        is_well_formed(header, caps, nodes),
        nodes.len() == 1,
        report_is_laid_out(header, caps, rt, id),
    ensures
        is_contiguous(main_items_of(header, caps, nodes), rt.spec_main_item(), id),
{
    let info = header.info(rt.spec_index() as int);
    let kind = rt.spec_main_item();
    let orders = child_orders(header, caps, nodes);
    assert(orders[0].len() == 0) by {
        assert(nodes[0].first_child == 0);
        assert(child_chain(nodes, 0) == Some(Seq::<usize>::empty()));
        assert(Seq::<usize>::empty().reverse().len() == 0);
    }
    let open = MainItemNode::spec_collection(0, MainItems::Collection);
    let end = MainItemNode::spec_collection(0, MainItems::CollectionEnd);
    let start = all_collection_items(nodes, orders);
    assert(start =~= seq![open, end]) by {
        reveal(collection_bracket);
        let kids = children_items(nodes, orders, 0, 0, Seq::empty(), 0);
        assert(kids =~= Seq::<MainItemNode>::empty());
        assert(start == seq![open] + kids + seq![end]);
    }
    assert(report_in_order(start, caps, info, kind, id, info.first_cap as int));
    assert(report_is_apart(header, caps, rt, id)) by {
        assert forall|m: int| info.first_cap <= m < info.last_cap implies !(
        #[trigger] caps[m]).spec_is_alias() && caps[m].spec_has_bits() && caps[m].link_collection
            == 0 by {
            assert(cap_fits(header.info(rt.spec_index() as int), caps[m], nodes));
        }
    }
    let k = slice_end(info);
    let a = with_fields_of_type(start, header, caps, nodes, orders, ReportType::Input);
    let b = with_fields_of_type(a, header, caps, nodes, orders, ReportType::Output);
    let c = with_fields_of_type(b, header, caps, nodes, orders, ReportType::Feature);
    assert(c == assembled_items_of(header, caps, nodes));
    match rt {
        ReportType::Input => {
            lemma_own_type_in_order(start, header, caps, nodes, orders, rt, id);
            lemma_other_type_keeps_order(
                a,
                header,
                caps,
                nodes,
                orders,
                rt,
                id,
                k,
                ReportType::Output,
            );
            lemma_other_type_keeps_order(
                b,
                header,
                caps,
                nodes,
                orders,
                rt,
                id,
                k,
                ReportType::Feature,
            );
        },
        ReportType::Output => {
            lemma_other_type_keeps_order(
                start,
                header,
                caps,
                nodes,
                orders,
                rt,
                id,
                info.first_cap as int,
                ReportType::Input,
            );
            lemma_own_type_in_order(a, header, caps, nodes, orders, rt, id);
            lemma_other_type_keeps_order(
                b,
                header,
                caps,
                nodes,
                orders,
                rt,
                id,
                k,
                ReportType::Feature,
            );
        },
        ReportType::Feature => {
            lemma_other_type_keeps_order(
                start,
                header,
                caps,
                nodes,
                orders,
                rt,
                id,
                info.first_cap as int,
                ReportType::Input,
            );
            lemma_other_type_keeps_order(
                a,
                header,
                caps,
                nodes,
                orders,
                rt,
                id,
                info.first_cap as int,
                ReportType::Output,
            );
            lemma_own_type_in_order(b, header, caps, nodes, orders, rt, id);
        },
    }
    lemma_order_is_fields_in_order(c, header, caps, rt, id, k);
    lemma_report_is_contiguous(header, caps, nodes, rt, id);
}

} // verus!
