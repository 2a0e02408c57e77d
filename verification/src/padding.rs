//! The paddings: where the fields of a report leave bits out, and where a
//! report ends inside a byte, an item that fills the bits is put in.

use vstd::prelude::*;
use crate::types::{ItemNodeType, MainItemNode, MainItems, ReportType};
use crate::list::{insert_main_item_node, MainItemList};

verus! {

/// Whether `item` is a field of report `id` whose kind is `kind`.
pub open spec fn is_field_of(item: MainItemNode, kind: MainItems, id: u8) -> bool {
    item.node_type == ItemNodeType::Cap && item.main_item_type == kind && item.report_id == id
}

/// The position of the last field of report `id` and kind `kind` in front
/// of position `upto`.
pub open spec fn last_field_before(items: Seq<MainItemNode>, kind: MainItems, id: u8, upto: int)
    -> Option<int>
    decreases upto,
{
    if upto <= 0 {
        None
    } else if is_field_of(items[upto - 1], kind, id) {
        Some(upto - 1)
    } else {
        last_field_before(items, kind, id, upto - 1)
    }
}

/// Whether a field of report `id` and kind `kind` stands at position `from`
/// or behind it.
pub open spec fn has_field_from(items: Seq<MainItemNode>, kind: MainItems, id: u8, from: int)
    -> bool {
    exists|j: int| from <= j < items.len() && is_field_of(#[trigger] items[j], kind, id)
}

/// The last bit of the byte in which `bit` lies.
pub open spec fn end_of_byte(bit: u64) -> u64 {
    (bit + 7 - bit % 8) as u64
}

/// The padding in front of the item at position `i`: if the item is a field
/// and the field of the same report before it ends more than one bit before
/// it begins, a padding over the bits between them.
pub open spec fn gap_padding(items: Seq<MainItemNode>, i: int) -> Seq<MainItemNode> {
    match items[i].spec_field_type() {
        Some(rt) => match last_field_before(items, items[i].main_item_type, items[i].report_id, i) {
            Some(p) => if items[i].first_bit > items[p].last_bit + 1 {
                seq![
                    MainItemNode::spec_padding(
                        (items[p].last_bit + 1) as u64,
                        (items[i].first_bit - 1) as u64,
                        rt,
                        items[i].report_id,
                    ),
                ]
            } else {
                Seq::empty()
            },
            None => Seq::empty(),
        },
        None => Seq::empty(),
    }
}

/// The padding behind the item at position `i`: if the item is the last
/// field of its report and does not end with a byte, a padding up to the end
/// of the byte.
pub open spec fn end_padding(items: Seq<MainItemNode>, i: int) -> Seq<MainItemNode> {
    match items[i].spec_field_type() {
        Some(rt) => if !has_field_from(items, items[i].main_item_type, items[i].report_id, i + 1)
            && (items[i].last_bit + 1) % 8 != 0 {
            seq![
                MainItemNode::spec_padding(
                    (items[i].last_bit + 1) as u64,
                    end_of_byte((items[i].last_bit + 1) as u64),
                    rt,
                    items[i].report_id,
                ),
            ]
        } else {
            Seq::empty()
        },
        None => Seq::empty(),
    }
}

/// The first `k` items with their paddings.
pub open spec fn padded_upto(items: Seq<MainItemNode>, k: int) -> Seq<MainItemNode>
    decreases k,
{
    if k <= 0 {
        Seq::empty()
    } else {
        padded_upto(items, k - 1) + gap_padding(items, k - 1) + seq![items[k - 1]] + end_padding(
            items,
            k - 1,
        )
    }
}

/// The list with its paddings: every item keeps its place among the others,
/// a gap padding stands directly in front of the field that it leads to, and
/// the padding at the end of a report directly behind its last field.
pub open spec fn with_padding(items: Seq<MainItemNode>) -> Seq<MainItemNode> {
    padded_upto(items, items.len() as int)
}

/// Place of a report in a table with an entry for every report.
pub open spec fn report_slot(rt: ReportType, id: u8) -> int {
    rt.spec_index() * 256 + id
}

/// With its paddings a list is not shorter.
pub proof fn lemma_padded_len(items: Seq<MainItemNode>, k: int)
    requires
        0 <= k,
    ensures
        padded_upto(items, k).len() >= k,
    decreases k,
{
    if k > 0 {
        lemma_padded_len(items, k - 1);
    }
}

/// An item put in between two joined lists.
proof fn lemma_insert_between(a: Seq<MainItemNode>, b: Seq<MainItemNode>, item: MainItemNode)
    ensures
        (a + b).insert(a.len() as int, item) == a + seq![item] + b,
{
    assert((a + b).insert(a.len() as int, item) =~= a + seq![item] + b);
}

/// Whether a field stands at a position or behind it depends on the items
/// from that position on only.
proof fn lemma_later_field_in_rest(
    a: Seq<MainItemNode>,
    from_a: int,
    b: Seq<MainItemNode>,
    from_b: int,
    kind: MainItems,
    id: u8,
)
    requires
        0 <= from_a <= a.len(),
        0 <= from_b <= b.len(),
        a.skip(from_a) == b.skip(from_b),
    ensures
        has_field_from(a, kind, id, from_a) == has_field_from(b, kind, id, from_b),
{
    let tail = a.skip(from_a);
    assert(tail.len() == a.len() - from_a);
    assert(tail.len() == b.len() - from_b);
    if has_field_from(a, kind, id, from_a) {
        let j = choose|j: int| from_a <= j < a.len() && is_field_of(#[trigger] a[j], kind, id);
        assert(tail[j - from_a] == a[j]);
        assert(b.skip(from_b)[j - from_a] == b[j - from_a + from_b]);
        assert(is_field_of(b[j - from_a + from_b], kind, id));
    }
    if has_field_from(b, kind, id, from_b) {
        let j = choose|j: int| from_b <= j < b.len() && is_field_of(#[trigger] b[j], kind, id);
        assert(b.skip(from_b)[j - from_b] == b[j]);
        assert(tail[j - from_b] == a[j - from_b + from_a]);
        assert(is_field_of(a[j - from_b + from_a], kind, id));
    }
}

/// Whether a field of report `id` and kind `kind` stands behind the node `h`.
pub fn has_later_field(list: &MainItemList, h: usize, kind: MainItems, id: u8) -> (found: bool)
    requires
        list.wf(),
        h < list@.len(),
    ensures
        found == has_field_from(list@, kind, id, list.position(h) + 1),
{
    proof {
        list.lemma_handles();
    }
    let ghost from = list.position(h) + 1;
    let ghost mut p: int = from;
    let mut cur = list.next(h);
    loop
        invariant
            list.wf(),
            0 < from <= p <= list@.len(),
            from == list.position(h) + 1,
            cur matches Some(n) ==> n < list@.len() && list.position(n) == p && p < list@.len(),
            cur is None ==> p == list@.len(),
            forall|j: int| from <= j < p ==> !is_field_of(#[trigger] list@[j], kind, id),
        ensures
            cur is Some == has_field_from(list@, kind, id, from),
        decreases list@.len() - p,
    {
        match cur {
            None => {
                break ;
            },
            Some(n) => {
                let item = list.node(n);
                let is_it = match item.node_type {
                    ItemNodeType::Cap => item.main_item_type == kind && item.report_id == id,
                    _ => false,
                };
                assert(is_it == is_field_of(list@[p], kind, id));
                if is_it {
                    break ;
                }
                proof {
                    list.lemma_handles();
                }
                cur = list.next(n);
                proof {
                    p = p + 1;
                }
            },
        }
    }
    cur.is_some()
}

/// Puts the paddings of the item in the node `h` into the list: the gap
/// padding behind the node `before`, which stands in front of `h`, and the
/// end padding behind `h`. Returns the last node of the item and its
/// paddings.
fn pad_item(
    list: &mut MainItemList,
    h: usize,
    before: Option<usize>,
    last_bit: Option<u64>,
    Ghost(items): Ghost<Seq<MainItemNode>>,
    Ghost(i): Ghost<int>,
) -> (last: usize)
    requires
        old(list).wf(),
        0 <= i < items.len(),
        forall|j: int| 0 <= j < items.len() ==> (#[trigger] items[j]).last_bit <= u64::MAX - 8,
        old(list)@ == padded_upto(items, i) + items.skip(i),
        h < old(list)@.len(),
        old(list).position(h) == padded_upto(items, i).len(),
        before matches Some(b) ==> b < old(list)@.len() && old(list).position(b) + 1
            == padded_upto(items, i).len(),
        padded_upto(items, i).len() > 0 ==> before is Some,
        items[i].spec_field_type() is Some ==> last_bit == (match last_field_before(
            items,
            items[i].main_item_type,
            items[i].report_id,
            i,
        ) {
            Some(p) => Some(items[p].last_bit),
            None => None,
        }),
    ensures
        final(list).wf(),
        final(list)@ == padded_upto(items, i + 1) + items.skip(i + 1),
        last < final(list)@.len(),
        final(list).position(last) + 1 == padded_upto(items, i + 1).len(),
{
    let ghost done = padded_upto(items, i);
    let ghost rest = items.skip(i + 1);
    let ghost gap = gap_padding(items, i);
    let ghost end = end_padding(items, i);
    let item = list.node(h);
    proof {
        list.lemma_handles();
        lemma_padded_len(items, i);
        assert(items.skip(i) =~= seq![items[i]] + rest);
        assert(list@[done.len() as int] == items.skip(i)[0]);
        assert(padded_upto(items, i + 1) == done + gap + seq![item] + end);
    }
    let rt = match item.field_type() {
        None => {
            proof {
                assert(done + gap + seq![item] + end + rest =~= done + (seq![item] + rest));
            }
            return h;
        },
        Some(rt) => rt,
    };
    let id = item.report_id;
    let kind = item.main_item_type;
    proof {
        lemma_last_field_in_bounds(items, kind, id, i);
    }
    let gap_from = match last_bit {
        None => None,
        Some(last_bit) => if item.first_bit > last_bit + 1 {
            Some(last_bit + 1)
        } else {
            None
        },
    };
    match gap_from {
        None => {
            assert(done + gap + (seq![item] + rest) =~= done + (seq![item] + rest));
        },
        Some(first) => {
            let padding = MainItemNode::padding(first, item.first_bit - 1, rt, id);
            assert(gap == seq![padding]);
            proof {
                lemma_insert_between(done, seq![item] + rest, padding);
            }
            insert_main_item_node(padding, list, before.unwrap());
        },
    }
    assert(list@ == done + gap + (seq![item] + rest));
    assert(list.position(h) == (done + gap).len());
    let later = has_later_field(list, h, kind, id);
    proof {
        let at = (done + gap).len() as int;
        assert(list@.skip(at + 1) =~= rest);
        lemma_later_field_in_rest(list@, at + 1, items, i + 1, kind, id);
        assert(done + gap + (seq![item] + rest) =~= (done + gap + seq![item]) + rest);
    }
    if !later && (item.last_bit + 1) % 8 != 0 {
        let first = item.last_bit + 1;
        let padding = MainItemNode::padding(first, first + 7 - first % 8, rt, id);
        assert(end == seq![padding]);
        proof {
            list.lemma_handles();
            lemma_insert_between(done + gap + seq![item], rest, padding);
        }
        insert_main_item_node(padding, list, h)
    } else {
        proof {
            assert(done + gap + seq![item] + end + rest =~= (done + gap + seq![item]) + rest);
        }
        h
    }
}

/// Puts the paddings into the list: one forward walk that remembers for
/// every report where its last field ended, and puts a padding in front of
/// or behind the field that it belongs to.
pub fn add_padding(list: &mut MainItemList)
    requires
        old(list).wf(),
        forall|i: int|
            0 <= i < old(list)@.len() ==> (#[trigger] old(list)@[i]).last_bit <= u64::MAX - 8,
    ensures
        final(list).wf(),
        final(list)@ == with_padding(old(list)@),
{
    let ghost items = list@;
    let mut last_bits: Vec<Option<u64>> = Vec::new();
    let mut s: usize = 0;
    while s < 768
        invariant
            s <= 768,
            last_bits@.len() == s,
            forall|k: int| 0 <= k < s ==> last_bits@[k] is None,
        decreases 768 - s,
    {
        last_bits.push(None);
        s += 1;
    }
    let mut before: Option<usize> = None;
    let mut cur = list.first();
    let ghost mut i: int = 0;
    proof {
        list.lemma_handles();
        assert(padded_upto(items, 0) + items.skip(0) =~= items);
    }
    loop
        invariant
            list.wf(),
            items == old(list)@,
            forall|j: int| 0 <= j < items.len() ==> (#[trigger] items[j]).last_bit <= u64::MAX - 8,
            0 <= i <= items.len(),
            list@ == padded_upto(items, i) + items.skip(i),
            cur matches Some(h) ==> h < list@.len() && list.position(h) == padded_upto(
                items,
                i,
            ).len(),
            cur is Some <==> i < items.len(),
            before matches Some(b) ==> b < list@.len() && list.position(b) + 1 == padded_upto(
                items,
                i,
            ).len(),
            padded_upto(items, i).len() > 0 ==> before is Some,
            last_bits@.len() == 768,
            forall|rt: ReportType, id: u8| #[trigger]
                last_bits@[report_slot(rt, id)] == (match last_field_before(
                    items,
                    rt.spec_main_item(),
                    id,
                    i,
                ) {
                    Some(p) => Some(items[p].last_bit),
                    None => None,
                }),
        ensures
            list.wf(),
            list@ == with_padding(items),
        decreases items.len() - i,
    {
        let h = match cur {
            None => {
                proof {
                    assert(items.skip(i) =~= Seq::<MainItemNode>::empty());
                    assert(list@ =~= padded_upto(items, i));
                }
                break ;
            },
            Some(h) => h,
        };
        let item = list.node(h);
        proof {
            assert(list@[padded_upto(items, i).len() as int] == items.skip(i)[0]);
        }
        let (slot, last_bit): (Option<usize>, Option<u64>) = match item.field_type() {
            None => (None, None),
            Some(rt) => {
                let at: usize = rt.index() * 256 + item.report_id as usize;
                proof {
                    assert(at == report_slot(rt, item.report_id));
                    assert(item.main_item_type == rt.spec_main_item());
                    assert(last_bits@[report_slot(rt, item.report_id)] == (match last_field_before(
                        items,
                        rt.spec_main_item(),
                        item.report_id,
                        i,
                    ) {
                        Some(p) => Some(items[p].last_bit),
                        None => None,
                    }));
                }
                (Some(at), last_bits[at])
            },
        };
        let last = pad_item(list, h, before, last_bit, Ghost(items), Ghost(i));
        match slot {
            None => {
                proof {
                    assert forall|rt: ReportType, id: u8|
                        last_field_before(items, rt.spec_main_item(), id, i + 1)
                            == #[trigger] last_field_before(items, rt.spec_main_item(), id, i) by {}
                }
            },
            Some(at) => {
                last_bits.set(at, Some(item.last_bit));
                proof {
                    let rt = item.spec_field_type()->0;
                    assert forall|rt2: ReportType, id2: u8| #[trigger]
                        last_bits@[report_slot(rt2, id2)] == (match last_field_before(
                            items,
                            rt2.spec_main_item(),
                            id2,
                            i + 1,
                        ) {
                            Some(p) => Some(items[p].last_bit),
                            None => None,
                        }) by {
                        if report_slot(rt2, id2) == at {
                            assert(rt2 == rt && id2 == item.report_id);
                        } else {
                            assert(!is_field_of(items[i], rt2.spec_main_item(), id2));
                        }
                    }
                }
            },
        }
        proof {
            list.lemma_handles();
        }
        before = Some(last);
        cur = list.next(last);
        proof {
            i = i + 1;
        }
    }
}

/// The last field in front of a position lies in front of it.
pub proof fn lemma_last_field_in_bounds(items: Seq<MainItemNode>, kind: MainItems, id: u8, upto: int)
    requires
        upto <= items.len(),
    ensures
        last_field_before(items, kind, id, upto) matches Some(p) ==> 0 <= p < upto && is_field_of(
            items[p],
            kind,
            id,
        ),
    decreases upto,
{
    if upto > 0 && !is_field_of(items[upto - 1], kind, id) {
        lemma_last_field_in_bounds(items, kind, id, upto - 1);
    }
}

} // verus!
