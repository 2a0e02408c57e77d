//! Contiguity: with its paddings, a report whose fields stand in the order
//! of their bits covers its bits from the first one to the end of a byte,
//! each of them once.

use vstd::prelude::*;
use crate::types::{ItemNodeType, MainItemNode, MainItems, ReportType};
use crate::typedefs::{Caps, HidpPreparsedData, LinkCollectionNode};
use crate::descriptor::{assembled_items_of, main_items_of};
use crate::padding::{
    end_padding,
    gap_padding,
    has_field_from,
    is_field_of,
    last_field_before,
    padded_upto,
    with_padding,
};

verus! {

/// Whether `item` is a field or a padding of report `id` and kind `kind`.
pub open spec fn is_part_of(item: MainItemNode, kind: MainItems, id: u8) -> bool {
    (item.node_type == ItemNodeType::Cap || item.node_type == ItemNodeType::Padding)
        && item.main_item_type == kind && item.report_id == id
}

/// The bit behind the parts of the report among the first `k` items, where
/// the first of them begins at bit `start` and each of the others directly
/// behind the one before it. Nothing if one of them does not.
pub open spec fn span_end(items: Seq<MainItemNode>, kind: MainItems, id: u8, start: int, k: int)
    -> Option<int>
    decreases k,
{
    if k <= 0 {
        Some(start)
    } else {
        match span_end(items, kind, id, start, k - 1) {
            None => None,
            Some(next) => if is_part_of(items[k - 1], kind, id) {
                if items[k - 1].first_bit == next && items[k - 1].first_bit <= items[k
                    - 1].last_bit {
                    Some(items[k - 1].last_bit + 1)
                } else {
                    None
                }
            } else {
                Some(next)
            },
        }
    }
}

/// The fields and paddings of the report cover one span from bit 0 without
/// a gap and without a bit covered twice, and the span ends with a byte.
pub open spec fn is_contiguous(items: Seq<MainItemNode>, kind: MainItems, id: u8) -> bool {
    span_end(items, kind, id, 0, items.len() as int) matches Some(end) && end % 8 == 0
}

/// The item at position `i`, if it is a field of the report, begins behind
/// the end of the field of the report before it, or at bit 0 if it is the
/// first; it has at least one bit and does not end within the last byte that
/// a 64 bit number can count.
pub open spec fn field_in_order(items: Seq<MainItemNode>, kind: MainItems, id: u8, i: int) -> bool {
    is_field_of(items[i], kind, id) ==> items[i].first_bit <= items[i].last_bit
        && items[i].last_bit <= u64::MAX - 8 && (match last_field_before(items, kind, id, i) {
        Some(p) => items[i].first_bit > items[p].last_bit,
        None => items[i].first_bit == 0,
    })
}

/// The fields of the report stand in the order of their bits, the first one
/// at bit 0, and the list holds no padding of the report yet.
pub open spec fn fields_in_order(items: Seq<MainItemNode>, kind: MainItems, id: u8) -> bool {
    &&& forall|i: int| 0 <= i < items.len() ==> #[trigger] field_in_order(items, kind, id, i)
    &&& forall|i: int|
        0 <= i < items.len() ==> !((#[trigger] items[i]).node_type == ItemNodeType::Padding
            && items[i].main_item_type == kind && items[i].report_id == id)
}

/// The first multiple of 8 that is not below `bit`.
pub open spec fn round_up(bit: int) -> int {
    if bit % 8 == 0 {
        bit
    } else {
        bit + 8 - bit % 8
    }
}

/// The bit that the report has reached behind the first `k` items and their
/// paddings: behind its last field so far, and on to the end of the byte if
/// no field of the report follows.
pub open spec fn reached(items: Seq<MainItemNode>, kind: MainItems, id: u8, k: int) -> int {
    match last_field_before(items, kind, id, k) {
        None => 0,
        Some(p) => if has_field_from(items, kind, id, p + 1) {
            items[p].last_bit + 1
        } else {
            round_up(items[p].last_bit + 1)
        },
    }
}

/// The span over two joined lists is the span over the second, begun where
/// the span over the first ends.
pub proof fn lemma_span_join(
    a: Seq<MainItemNode>,
    b: Seq<MainItemNode>,
    kind: MainItems,
    id: u8,
    start: int,
    j: int,
)
    requires
        0 <= j <= b.len(),
    ensures
        span_end(a + b, kind, id, start, a.len() + j) == (match span_end(
            a,
            kind,
            id,
            start,
            a.len() as int,
        ) {
            None => None,
            Some(middle) => span_end(b, kind, id, middle, j),
        }),
    decreases j,
{
    if j > 0 {
        lemma_span_join(a, b, kind, id, start, j - 1);
        assert((a + b)[a.len() + j - 1] == b[j - 1]);
    } else {
        lemma_span_in_front(a, b, kind, id, start, a.len() as int);
    }
}

proof fn lemma_span_in_front(
    a: Seq<MainItemNode>,
    b: Seq<MainItemNode>,
    kind: MainItems,
    id: u8,
    start: int,
    k: int,
)
    requires
        0 <= k <= a.len(),
    ensures
        span_end(a + b, kind, id, start, k) == span_end(a, kind, id, start, k),
    decreases k,
{
    if k > 0 {
        lemma_span_in_front(a, b, kind, id, start, k - 1);
        assert((a + b)[k - 1] == a[k - 1]);
    }
}

/// The span over a list of at most one item.
pub proof fn lemma_span_short(items: Seq<MainItemNode>, kind: MainItems, id: u8, start: int)
    requires
        items.len() <= 1,
    ensures
        span_end(items, kind, id, start, items.len() as int) == (if items.len() == 1 && is_part_of(
            items[0],
            kind,
            id,
        ) {
            if items[0].first_bit == start && items[0].first_bit <= items[0].last_bit {
                Some(items[0].last_bit + 1)
            } else {
                None
            }
        } else {
            Some(start)
        }),
{
    if items.len() == 1 {
        assert(span_end(items, kind, id, start, 0) == Some(start));
    }
}

/// The last field in front of a position is a field of the report, and no
/// field of the report stands between it and the position.
pub proof fn lemma_last_field_is_last(items: Seq<MainItemNode>, kind: MainItems, id: u8, k: int)
    requires
        0 <= k <= items.len(),
    ensures
        match last_field_before(items, kind, id, k) {
            Some(p) => 0 <= p < k && is_field_of(items[p], kind, id) && forall|j: int|
                p < j < k ==> !is_field_of(#[trigger] items[j], kind, id),
            None => forall|j: int| 0 <= j < k ==> !is_field_of(#[trigger] items[j], kind, id),
        },
    decreases k,
{
    if k > 0 && !is_field_of(items[k - 1], kind, id) {
        lemma_last_field_is_last(items, kind, id, k - 1);
    }
}

/// The span over a list of at most one item that begins at `start`.
pub open spec fn short_span(items: Seq<MainItemNode>, kind: MainItems, id: u8, start: int)
    -> Option<int> {
    if items.len() == 1 && is_part_of(items[0], kind, id) {
        if items[0].first_bit == start && items[0].first_bit <= items[0].last_bit {
            Some(items[0].last_bit + 1)
        } else {
            None
        }
    } else {
        Some(start)
    }
}

/// The span over an item between two lists of at most one item each.
pub proof fn lemma_span_three(
    gap: Seq<MainItemNode>,
    x: MainItemNode,
    end: Seq<MainItemNode>,
    kind: MainItems,
    id: u8,
    begin: int,
    first: int,
    last: int,
)
    requires
        gap.len() <= 1,
        end.len() <= 1,
        short_span(gap, kind, id, begin) == Some(first),
        short_span(seq![x], kind, id, first) == Some(last),
    ensures
        span_end(gap + seq![x] + end, kind, id, begin, (gap + seq![x] + end).len() as int)
            == short_span(end, kind, id, last),
{
    let own = seq![x];
    lemma_span_short(gap, kind, id, begin);
    lemma_span_short(own, kind, id, first);
    lemma_span_short(end, kind, id, last);
    lemma_span_join(gap, own, kind, id, begin, 1);
    lemma_span_join(gap + own, end, kind, id, begin, end.len() as int);
}

/// In front of a field of the report, the gap padding takes the span from
/// the bit reached so far to the first bit of the field.
pub proof fn lemma_gap_leads_to_field(items: Seq<MainItemNode>, rt: ReportType, id: u8, k: int)
    requires
        0 <= k < items.len(),
        fields_in_order(items, rt.spec_main_item(), id),
        is_field_of(items[k], rt.spec_main_item(), id),
    ensures
        gap_padding(items, k).len() <= 1,
        short_span(
            gap_padding(items, k),
            rt.spec_main_item(),
            id,
            reached(items, rt.spec_main_item(), id, k),
        ) == Some(items[k].first_bit as int),
        short_span(seq![items[k]], rt.spec_main_item(), id, items[k].first_bit as int) == Some(
            items[k].last_bit + 1,
        ),
{
    let kind = rt.spec_main_item();
    let x = items[k];
    assert(x.spec_field_type() == Some(rt));
    assert(field_in_order(items, kind, id, k));
    lemma_last_field_is_last(items, kind, id, k);
    match last_field_before(items, kind, id, k) {
        Some(p) => {
            assert(is_field_of(items[k], kind, id));
            assert(has_field_from(items, kind, id, p + 1));
            assert(field_in_order(items, kind, id, p));
        },
        None => {},
    }
}

/// Behind a field of the report, the end padding takes the span from the
/// end of the field to the bit reached behind it.
pub proof fn lemma_end_closes_field(items: Seq<MainItemNode>, rt: ReportType, id: u8, k: int)
    requires
        0 <= k < items.len(),
        fields_in_order(items, rt.spec_main_item(), id),
        is_field_of(items[k], rt.spec_main_item(), id),
    ensures
        end_padding(items, k).len() <= 1,
        short_span(end_padding(items, k), rt.spec_main_item(), id, items[k].last_bit + 1) == Some(
            reached(items, rt.spec_main_item(), id, k + 1),
        ),
{
    let kind = rt.spec_main_item();
    let x = items[k];
    assert(x.spec_field_type() == Some(rt));
    assert(field_in_order(items, kind, id, k));
    assert(last_field_before(items, kind, id, k + 1) == Some(k));
    let b = x.last_bit + 1;
    if !has_field_from(items, kind, id, k + 1) && b % 8 != 0 {
        let end = end_padding(items, k);
        assert(end[0].first_bit == b);
        assert(end[0].last_bit == b + 7 - b % 8);
    }
}

/// An item that is no field of the report, and its paddings, leave the span
/// of the report where it is.
pub proof fn lemma_other_item_keeps_span(items: Seq<MainItemNode>, rt: ReportType, id: u8, k: int)
    requires
        0 <= k < items.len(),
        fields_in_order(items, rt.spec_main_item(), id),
        !is_field_of(items[k], rt.spec_main_item(), id),
    ensures
        gap_padding(items, k).len() <= 1,
        end_padding(items, k).len() <= 1,
        forall|begin: int|
            #[trigger] short_span(gap_padding(items, k), rt.spec_main_item(), id, begin) == Some(
                begin,
            ) && short_span(seq![items[k]], rt.spec_main_item(), id, begin) == Some(begin)
                && short_span(end_padding(items, k), rt.spec_main_item(), id, begin) == Some(
                begin,
            ),
        reached(items, rt.spec_main_item(), id, k + 1) == reached(
            items,
            rt.spec_main_item(),
            id,
            k,
        ),
{
    let kind = rt.spec_main_item();
    let x = items[k];
    let gap = gap_padding(items, k);
    let end = end_padding(items, k);
    assert(last_field_before(items, kind, id, k + 1) == last_field_before(items, kind, id, k));
    assert(gap.len() == 1 ==> !is_part_of(gap[0], kind, id));
    assert(end.len() == 1 ==> !is_part_of(end[0], kind, id));
    assert(!is_part_of(x, kind, id));
}

/// One more item of the list, with its paddings, takes the span of the
/// report from the bit reached before it to the bit reached behind it.
pub proof fn lemma_span_step(items: Seq<MainItemNode>, rt: ReportType, id: u8, k: int)
    requires
        0 <= k < items.len(),
        fields_in_order(items, rt.spec_main_item(), id),
    ensures
        span_end(
            gap_padding(items, k) + seq![items[k]] + end_padding(items, k),
            rt.spec_main_item(),
            id,
            reached(items, rt.spec_main_item(), id, k),
            (gap_padding(items, k) + seq![items[k]] + end_padding(items, k)).len() as int,
        ) == Some(reached(items, rt.spec_main_item(), id, k + 1)),
{
    let kind = rt.spec_main_item();
    let begin = reached(items, kind, id, k);
    if is_field_of(items[k], kind, id) {
        lemma_gap_leads_to_field(items, rt, id, k);
        lemma_end_closes_field(items, rt, id, k);
        lemma_span_three(
            gap_padding(items, k),
            items[k],
            end_padding(items, k),
            kind,
            id,
            begin,
            items[k].first_bit as int,
            items[k].last_bit + 1,
        );
    } else {
        lemma_other_item_keeps_span(items, rt, id, k);
        assert(short_span(gap_padding(items, k), kind, id, begin) == Some(begin));
        lemma_span_three(
            gap_padding(items, k),
            items[k],
            end_padding(items, k),
            kind,
            id,
            begin,
            begin,
            begin,
        );
    }
}

/// The span of the report over the first `k` items and their paddings ends
/// at the bit reached behind them.
pub proof fn lemma_padded_span(items: Seq<MainItemNode>, rt: ReportType, id: u8, k: int)
    requires
        0 <= k <= items.len(),
        fields_in_order(items, rt.spec_main_item(), id),
    ensures
        span_end(
            padded_upto(items, k),
            rt.spec_main_item(),
            id,
            0,
            padded_upto(items, k).len() as int,
        ) == Some(reached(items, rt.spec_main_item(), id, k)),
    decreases k,
{
    let kind = rt.spec_main_item();
    if k > 0 {
        lemma_padded_span(items, rt, id, k - 1);
        lemma_span_step(items, rt, id, k - 1);
        let done = padded_upto(items, k - 1);
        let more = gap_padding(items, k - 1) + seq![items[k - 1]] + end_padding(items, k - 1);
        assert(padded_upto(items, k) =~= done + more);
        lemma_span_join(done, more, kind, id, 0, more.len() as int);
    }
}

/// Contiguity of a report: if the fields of report `id` of type `rt` stand
/// in the order of their bits, the first at bit 0, then with the paddings
/// the fields and paddings of the report cover one span from bit 0 without
/// gap or overlap, and the span is a whole number of bytes.
pub proof fn lemma_padded_report_is_contiguous(items: Seq<MainItemNode>, rt: ReportType, id: u8)
    requires
        fields_in_order(items, rt.spec_main_item(), id),
    ensures
        is_contiguous(with_padding(items), rt.spec_main_item(), id),
{
    let kind = rt.spec_main_item();
    lemma_padded_span(items, rt, id, items.len() as int);
    lemma_last_field_is_last(items, kind, id, items.len() as int);
    match last_field_before(items, kind, id, items.len() as int) {
        Some(p) => {
            assert(!has_field_from(items, kind, id, p + 1));
            let b = items[p].last_bit + 1;
            assert(round_up(b) % 8 == 0) by {
                if b % 8 != 0 {
                    assert((b + 8 - b % 8) % 8 == 0) by (nonlinear_arith)
                        requires
                            b >= 0,
                    ;
                }
            }
        },
        None => {},
    }
}

/// Contiguity of the reconstruction: if in the assembled list the fields of
/// report `id` of type `rt` stand in the order of their bits, the first at
/// bit 0, the main items cover the report in one span of whole bytes.
pub proof fn lemma_report_is_contiguous(
    header: HidpPreparsedData,
    caps: Seq<Caps>,
    nodes: Seq<LinkCollectionNode>,
    rt: ReportType,
    id: u8,
)
    requires
        fields_in_order(assembled_items_of(header, caps, nodes), rt.spec_main_item(), id),
    ensures
        is_contiguous(main_items_of(header, caps, nodes), rt.spec_main_item(), id),
{
    lemma_padded_report_is_contiguous(assembled_items_of(header, caps, nodes), rt, id);
}

} // verus!
