//! The order in which the children of a collection are written: the reverse
//! of the order of their links, then sorted by the first bit that each of
//! them occupies.

use vstd::prelude::*;
use crate::types::{BitRange, ReportType};
use crate::typedefs::{Caps, HidpPreparsedData, LinkCollectionNode};
use crate::hierarchy::child_chain;
use crate::ranges::{bit_range, BitRangeTable};

verus! {

/// The smaller of two bits, where a missing one does not count.
pub open spec fn min_bit(a: Option<u64>, b: Option<u64>) -> Option<u64> {
    match (a, b) {
        (Some(x), Some(y)) => Some(if x <= y { x } else { y }),
        (Some(x), None) => Some(x),
        (None, y) => y,
    }
}

/// The earliest first bit among the first `j` ranges of collection `c`,
/// counted report id by report id and, within one id, type by type.
pub open spec fn earliest_upto(
    header: HidpPreparsedData,
    caps: Seq<Caps>,
    nodes: Seq<LinkCollectionNode>,
    c: int,
    j: int,
) -> Option<u64>
    decreases j,
{
    if j <= 0 {
        None
    } else {
        min_bit(
            earliest_upto(header, caps, nodes, c, j - 1),
            bit_range(
                header,
                caps,
                nodes,
                c,
                ((j - 1) / 3) as u8,
                ReportType::spec_from_index((j - 1) % 3),
            ).first_bit,
        )
    }
}

/// The earliest bit that any report of any type occupies below collection
/// `c`; nothing if no field lies below it.
pub open spec fn earliest_bit(
    header: HidpPreparsedData,
    caps: Seq<Caps>,
    nodes: Seq<LinkCollectionNode>,
    c: int,
) -> Option<u64> {
    earliest_upto(header, caps, nodes, c, 768)
}

/// The earliest bit of every collection.
pub open spec fn earliest_bits(
    header: HidpPreparsedData,
    caps: Seq<Caps>,
    nodes: Seq<LinkCollectionNode>,
) -> Seq<Option<u64>> {
    Seq::new(nodes.len(), |c: int| earliest_bit(header, caps, nodes, c))
}

/// Whether a child with the earliest bit `key` belongs in front of one with
/// the earliest bit `other` that stands before it: only if both have bits and
/// those of the other begin later.
pub open spec fn goes_before(key: Option<u64>, other: Option<u64>) -> bool {
    match (key, other) {
        (Some(k), Some(o)) => o > k,
        _ => false,
    }
}

/// `sorted` with `x` put in from the back: `x` passes every child that it
/// goes before and rests behind the first one that it does not.
pub open spec fn insert_by_key(sorted: Seq<usize>, x: usize, keys: Seq<Option<u64>>) -> Seq<usize>
    decreases sorted.len(),
{
    if sorted.len() > 0 && goes_before(keys[x as int], keys[sorted.last() as int]) {
        insert_by_key(sorted.drop_last(), x, keys).push(sorted.last())
    } else {
        sorted.push(x)
    }
}

/// The children `s` sorted by their earliest bits: children with equal bits
/// keep their order, and a child without bits keeps its place, with the
/// children on each side of it sorted among themselves.
pub open spec fn sort_by_key(s: Seq<usize>, keys: Seq<Option<u64>>) -> Seq<usize>
    decreases s.len(),
{
    if s.len() == 0 {
        s
    } else {
        insert_by_key(sort_by_key(s.drop_last(), keys), s.last(), keys)
    }
}

/// The direct children of collection `c` in the order in which they are
/// written.
pub open spec fn child_order(
    header: HidpPreparsedData,
    caps: Seq<Caps>,
    nodes: Seq<LinkCollectionNode>,
    c: int,
) -> Seq<usize> {
    match child_chain(nodes, c) {
        Some(chain) => sort_by_key(chain.reverse(), earliest_bits(header, caps, nodes)),
        None => Seq::empty(),
    }
}

/// The written order of the children of every collection.
pub open spec fn child_orders(
    header: HidpPreparsedData,
    caps: Seq<Caps>,
    nodes: Seq<LinkCollectionNode>,
) -> Seq<Seq<usize>> {
    Seq::new(nodes.len(), |c: int| child_order(header, caps, nodes, c))
}

/// The table holds the range of every report below every collection.
pub open spec fn table_holds(
    table: &BitRangeTable,
    header: HidpPreparsedData,
    caps: Seq<Caps>,
    nodes: Seq<LinkCollectionNode>,
) -> bool {
    &&& table.wf()
    &&& table.spec_collections() == nodes.len()
    &&& forall|c: int, id: u8, rt: ReportType|
        0 <= c < nodes.len() ==> #[trigger] table.spec_range(c, id, rt) == bit_range(
            header,
            caps,
            nodes,
            c,
            id,
            rt,
        )
}

/// Sorting keeps the members of a list.
pub proof fn lemma_sort_keeps_members(s: Seq<usize>, keys: Seq<Option<u64>>)
    ensures
        sort_by_key(s, keys).len() == s.len(),
        forall|x: usize| #[trigger] sort_by_key(s, keys).contains(x) <==> s.contains(x),
    decreases s.len(),
{
    if s.len() > 0 {
        let front = s.drop_last();
        lemma_sort_keeps_members(front, keys);
        lemma_insert_keeps_members(sort_by_key(front, keys), s.last(), keys);
        assert forall|x: usize| #[trigger] sort_by_key(s, keys).contains(x) <==> s.contains(x) by {
            assert(insert_by_key(sort_by_key(front, keys), s.last(), keys).contains(x) <==> (x
                == s.last() || sort_by_key(front, keys).contains(x)));
            if s.contains(x) {
                let i = choose|i: int| 0 <= i < s.len() && s[i] == x;
                if i < s.len() - 1 {
                    assert(front[i] == x);
                }
            }
            if front.contains(x) {
                let i = choose|i: int| 0 <= i < front.len() && front[i] == x;
                assert(s[i] == x);
            }
            if x == s.last() {
                assert(s[s.len() - 1] == x);
            }
        }
    }
}

/// Putting `x` into a list adds `x` and nothing else.
pub proof fn lemma_insert_keeps_members(sorted: Seq<usize>, x: usize, keys: Seq<Option<u64>>)
    ensures
        insert_by_key(sorted, x, keys).len() == sorted.len() + 1,
        forall|y: usize|
            #[trigger] insert_by_key(sorted, x, keys).contains(y) <==> (y == x || sorted.contains(
                y,
            )),
    decreases sorted.len(),
{
    let r = insert_by_key(sorted, x, keys);
    if sorted.len() > 0 && goes_before(keys[x as int], keys[sorted.last() as int]) {
        let front = sorted.drop_last();
        let inner = insert_by_key(front, x, keys);
        lemma_insert_keeps_members(front, x, keys);
        assert forall|y: usize| #[trigger] r.contains(y) <==> (y == x || sorted.contains(y)) by {
            if r.contains(y) {
                let i = choose|i: int| 0 <= i < r.len() && r[i] == y;
                if i < inner.len() {
                    assert(inner[i] == y);
                    assert(inner.contains(y));
                    if front.contains(y) {
                        let k = choose|k: int| 0 <= k < front.len() && front[k] == y;
                        assert(sorted[k] == y);
                    }
                } else {
                    assert(sorted[sorted.len() - 1] == y);
                }
            }
            if y == x {
                assert(inner.contains(x));
                let i = choose|i: int| 0 <= i < inner.len() && inner[i] == x;
                assert(r[i] == x);
            }
            if sorted.contains(y) {
                let k = choose|k: int| 0 <= k < sorted.len() && sorted[k] == y;
                if k < front.len() {
                    assert(front[k] == y);
                    assert(inner.contains(y));
                    let i = choose|i: int| 0 <= i < inner.len() && inner[i] == y;
                    assert(r[i] == y);
                } else {
                    assert(r[r.len() - 1] == y);
                }
            }
        }
    } else {
        assert forall|y: usize| #[trigger] r.contains(y) <==> (y == x || sorted.contains(y)) by {
            if r.contains(y) {
                let i = choose|i: int| 0 <= i < r.len() && r[i] == y;
                if i < sorted.len() {
                    assert(sorted[i] == y);
                }
            }
            if y == x {
                assert(r[sorted.len() as int] == x);
            }
            if sorted.contains(y) {
                let k = choose|k: int| 0 <= k < sorted.len() && sorted[k] == y;
                assert(r[k] == y);
            }
        }
    }
}

/// No child stands directly behind a child that it goes before.
pub open spec fn neighbours_in_order(s: Seq<usize>, keys: Seq<Option<u64>>) -> bool {
    forall|i: int|
        0 <= i && i + 1 < s.len() ==> !goes_before(
            keys[(#[trigger] s[i + 1]) as int],
            keys[s[i] as int],
        )
}

/// Putting a child into a list whose neighbours are in order keeps them in
/// order; the child or the last one of the list ends the new list.
pub proof fn lemma_insert_in_order(sorted: Seq<usize>, x: usize, keys: Seq<Option<u64>>)
    requires
        neighbours_in_order(sorted, keys),
    ensures
        neighbours_in_order(insert_by_key(sorted, x, keys), keys),
        insert_by_key(sorted, x, keys).len() == sorted.len() + 1,
        insert_by_key(sorted, x, keys).last() == x || (sorted.len() > 0 && insert_by_key(
            sorted,
            x,
            keys,
        ).last() == sorted.last()),
    decreases sorted.len(),
{
    let r = insert_by_key(sorted, x, keys);
    if sorted.len() > 0 && goes_before(keys[x as int], keys[sorted.last() as int]) {
        let front = sorted.drop_last();
        let inner = insert_by_key(front, x, keys);
        assert forall|i: int| 0 <= i && i + 1 < front.len() implies !goes_before(
            keys[(#[trigger] front[i + 1]) as int],
            keys[front[i] as int],
        ) by {
            assert(front[i + 1] == sorted[i + 1]);
            assert(front[i] == sorted[i]);
        }
        lemma_insert_in_order(front, x, keys);
        assert forall|i: int| 0 <= i && i + 1 < r.len() implies !goes_before(
            keys[(#[trigger] r[i + 1]) as int],
            keys[r[i] as int],
        ) by {
            if i + 1 < inner.len() {
                assert(r[i + 1] == inner[i + 1]);
                assert(r[i] == inner[i]);
            } else {
                assert(r[i + 1] == sorted.last());
                assert(r[i] == inner.last());
                if inner.last() != x {
                    assert(front.len() > 0 && inner.last() == front.last());
                    assert(front.last() == sorted[sorted.len() - 2]);
                    assert(sorted.last() == sorted[sorted.len() - 2 + 1]);
                }
            }
        }
    } else {
        assert forall|i: int| 0 <= i && i + 1 < r.len() implies !goes_before(
            keys[(#[trigger] r[i + 1]) as int],
            keys[r[i] as int],
        ) by {
            if i + 1 < sorted.len() {
                assert(r[i + 1] == sorted[i + 1]);
                assert(r[i] == sorted[i]);
            } else {
                assert(r[i] == sorted.last());
            }
        }
    }
}

/// In the written order of the children no child stands directly behind one
/// whose bits begin later than its own.
pub proof fn lemma_sort_puts_in_order(s: Seq<usize>, keys: Seq<Option<u64>>)
    ensures
        neighbours_in_order(sort_by_key(s, keys), keys),
    decreases s.len(),
{
    if s.len() > 0 {
        lemma_sort_puts_in_order(s.drop_last(), keys);
        lemma_insert_in_order(sort_by_key(s.drop_last(), keys), s.last(), keys);
    }
}

/// The earliest bit below collection `c`, from the table of ranges.
pub fn earliest_bit_of(
    table: &BitRangeTable,
    header: &HidpPreparsedData,
    caps: &[Caps],
    nodes: &[LinkCollectionNode],
    c: usize,
) -> (bit: Option<u64>)
    requires
        table_holds(table, *header, caps@, nodes@),
        c < nodes@.len(),
    ensures
        bit == earliest_bit(*header, caps@, nodes@, c as int),
{
    let mut bit: Option<u64> = None;
    let mut j: usize = 0;
    while j < 768
        invariant
            j <= 768,
            c < nodes@.len(),
            table_holds(table, *header, caps@, nodes@),
            bit == earliest_upto(*header, caps@, nodes@, c as int, j as int),
        decreases 768 - j,
    {
        let id = (j / 3) as u8;
        let rt = ReportType::from_index(j % 3);
        let range: BitRange = table.range(c, id, rt);
        assert(range == bit_range(*header, caps@, nodes@, c as int, id, rt));
        bit = match (bit, range.first_bit) {
            (Some(x), Some(y)) => Some(if x <= y { x } else { y }),
            (Some(x), None) => Some(x),
            (None, y) => y,
        };
        j += 1;
    }
    bit
}

/// The earliest bit of every collection, from the table of ranges.
pub fn earliest_bits_of(
    table: &BitRangeTable,
    header: &HidpPreparsedData,
    caps: &[Caps],
    nodes: &[LinkCollectionNode],
) -> (keys: Vec<Option<u64>>)
    requires
        table_holds(table, *header, caps@, nodes@),
    ensures
        keys@ == earliest_bits(*header, caps@, nodes@),
{
    let mut keys: Vec<Option<u64>> = Vec::new();
    let mut c: usize = 0;
    while c < nodes.len()
        invariant
            c <= nodes@.len(),
            table_holds(table, *header, caps@, nodes@),
            keys@.len() == c,
            forall|k: int| 0 <= k < c ==> keys@[k] == earliest_bit(*header, caps@, nodes@, k),
        decreases nodes@.len() - c,
    {
        keys.push(earliest_bit_of(table, header, caps, nodes, c));
        c += 1;
    }
    assert(keys@ =~= earliest_bits(*header, caps@, nodes@));
    keys
}

/// Sorts `children` by their earliest bits, moving each child forward past
/// its neighbours one at a time.
pub fn sort_children(children: &mut Vec<usize>, keys: &Vec<Option<u64>>)
    requires
        forall|k: int| 0 <= k < old(children)@.len() ==> (#[trigger] old(children)@[k]) < keys@.len(),
    ensures
        final(children)@ == sort_by_key(old(children)@, keys@),
        forall|k: int|
            0 <= k < final(children)@.len() ==> (#[trigger] final(children)@[k]) < keys@.len(),
{
    let len = children.len();
    let ghost orig = children@;
    let mut i: usize = 0;
    assert(orig.take(0) =~= Seq::<usize>::empty());
    while i < len
        invariant
            i <= len,
            len == orig.len(),
            children@.len() == len,
            forall|k: int| 0 <= k < len ==> (#[trigger] orig[k]) < keys@.len(),
            forall|k: int| 0 <= k < len ==> (#[trigger] children@[k]) < keys@.len(),
            children@.take(i as int) == sort_by_key(orig.take(i as int), keys@),
            children@.skip(i as int) == orig.skip(i as int),
        decreases len - i,
    {
        let x = children[i];
        let ghost done = children@.take(i as int);
        let ghost at_start = children@;
        assert(x == orig[i as int]) by {
            assert(children@.skip(i as int)[0] == orig.skip(i as int)[0]);
        }
        let mut j: usize = i;
        assert(done.take(j as int) =~= done);
        assert(done.subrange(j as int, i as int) =~= Seq::<usize>::empty());
        assert(insert_by_key(done, x, keys@) + Seq::<usize>::empty() =~= insert_by_key(
            done,
            x,
            keys@,
        ));
        loop
            invariant
                j <= i < len,
                children@.len() == len,
                x < keys@.len(),
                done.len() == i,
                forall|k: int| 0 <= k < i ==> (#[trigger] done[k]) < keys@.len(),
                forall|k: int| 0 <= k < len ==> (#[trigger] children@[k]) < keys@.len(),
                children@.take(j as int) == done.take(j as int),
                children@.subrange(j + 1, i + 1) == done.subrange(j as int, i as int),
                children@.skip(i + 1) == at_start.skip(i + 1),
                insert_by_key(done, x, keys@) == insert_by_key(done.take(j as int), x, keys@)
                    + done.subrange(j as int, i as int),
            ensures
                j <= i < len,
                children@.len() == len,
                forall|k: int| 0 <= k < len ==> (#[trigger] children@[k]) < keys@.len(),
                children@.take(j as int) == done.take(j as int),
                children@.subrange(j + 1, i + 1) == done.subrange(j as int, i as int),
                children@.skip(i + 1) == at_start.skip(i + 1),
                insert_by_key(done, x, keys@) == done.take(j as int).push(x) + done.subrange(
                    j as int,
                    i as int,
                ),
            decreases j,
        {
            if j == 0 {
                assert(done.take(0) =~= Seq::<usize>::empty());
                break ;
            }
            let prev = children[j - 1];
            assert(prev == done[j - 1]) by {
                assert(children@.take(j as int)[j - 1] == done.take(j as int)[j - 1]);
            }
            let moves = match (keys[x], keys[prev]) {
                (Some(k), Some(o)) => o > k,
                _ => false,
            };
            assert(moves == goes_before(keys@[x as int], keys@[prev as int]));
            assert(done.take(j as int).last() == prev);
            if !moves {
                break ;
            }
            let ghost before = children@;
            children.set(j, prev);
            proof {
                let head = done.take(j as int);
                assert(head.drop_last() =~= done.take(j - 1));
                assert(insert_by_key(head, x, keys@) == insert_by_key(
                    done.take(j - 1),
                    x,
                    keys@,
                ).push(prev));
                assert(insert_by_key(done.take(j - 1), x, keys@).push(prev) + done.subrange(
                    j as int,
                    i as int,
                ) =~= insert_by_key(done.take(j - 1), x, keys@) + done.subrange(j - 1, i as int));
                assert(children@.take(j - 1) =~= done.take(j - 1)) by {
                    assert forall|k: int| 0 <= k < j - 1 implies children@[k] == done[k] by {
                        assert(before.take(j as int)[k] == done.take(j as int)[k]);
                    }
                }
                assert(children@.subrange(j as int, i + 1) =~= done.subrange(j - 1, i as int)) by {
                    assert forall|m: int| j <= m < i + 1 implies #[trigger] children@[m] == done[m
                        - 1] by {
                        if m > j {
                            assert(before.subrange(j + 1, i + 1)[m - j - 1] == done.subrange(
                                j as int,
                                i as int,
                            )[m - j - 1]);
                        }
                    }
                }
                assert(children@.skip(i + 1) =~= before.skip(i + 1));
            }
            j -= 1;
        }
        let ghost before = children@;
        children.set(j, x);
        proof {
            let target = done.take(j as int).push(x) + done.subrange(j as int, i as int);
            assert(children@.take(i + 1) =~= target) by {
                assert forall|k: int| 0 <= k < i + 1 implies children@[k] == target[k] by {
                    if k < j {
                        assert(before.take(j as int)[k] == done.take(j as int)[k]);
                    } else if k > j {
                        assert(before.subrange(j + 1, i + 1)[k - j - 1] == done.subrange(
                            j as int,
                            i as int,
                        )[k - j - 1]);
                    }
                }
            }
            assert(orig.take(i + 1).drop_last() =~= orig.take(i as int));
            assert(orig.take(i + 1).last() == x);
            assert(children@.skip(i + 1) =~= orig.skip(i + 1)) by {
                assert forall|m: int| i + 1 <= m < len implies #[trigger] children@[m] == orig[m] by {
                    assert(before.skip(i + 1)[m - i - 1] == at_start.skip(i + 1)[m - i - 1]);
                    assert(at_start.skip(i as int)[m - i] == orig.skip(i as int)[m - i]);
                }
            }
            assert forall|k: int| 0 <= k < len implies (#[trigger] children@[k]) < keys@.len() by {
                if k == j {
                } else {
                    assert(children@[k] == before[k]);
                }
            }
        }
        i += 1;
    }
    assert(children@.take(len as int) =~= children@);
    assert(orig.take(len as int) =~= orig);
}

/// The children of one collection in written order, from the order of their
/// links.
pub fn ordered_children(chain: &Vec<usize>, keys: &Vec<Option<u64>>) -> (order: Vec<usize>)
    requires
        forall|k: int| 0 <= k < chain@.len() ==> (#[trigger] chain@[k]) < keys@.len(),
    ensures
        order@ == sort_by_key(chain@.reverse(), keys@),
        forall|k: int| 0 <= k < order@.len() ==> (#[trigger] order@[k]) < keys@.len(),
{
    let len = chain.len();
    let mut order: Vec<usize> = Vec::new();
    let mut i: usize = 0;
    while i < len
        invariant
            i <= len,
            len == chain@.len(),
            order@.len() == i,
            forall|k: int| 0 <= k < i ==> order@[k] == chain@[len - 1 - k],
        decreases len - i,
    {
        order.push(chain[len - 1 - i]);
        i += 1;
    }
    assert(order@ =~= chain@.reverse());
    sort_children(&mut order, keys);
    order
}

} // verus!
