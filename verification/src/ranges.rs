//! The bits that each report occupies below each collection: one range for
//! every collection, report id and report type, kept in a dense table.

use vstd::prelude::*;
use crate::types::{BitRange, ReportType};
use crate::typedefs::{Caps, CapsInfo, HidpPreparsedData, LinkCollectionNode};
use crate::hierarchy::links_in_bounds;

verus! {

/// Whether collection `x` is collection `c` or lies below it, as far as
/// `fuel` steps along the `parent` links show.
pub open spec fn is_within(nodes: Seq<LinkCollectionNode>, c: usize, x: usize, fuel: nat) -> bool
    decreases fuel,
{
    x == c || (x != 0 && fuel > 0 && is_within(
        nodes,
        c,
        nodes[x as int].parent as usize,
        (fuel - 1) as nat,
    ))
}

/// The capabilities that the header assigns to the report types lie inside
/// the capability array, each of them has bits behind its report id, and
/// each belongs to a collection of the node array.
pub open spec fn caps_fit(
    header: HidpPreparsedData,
    caps: Seq<Caps>,
    nodes: Seq<LinkCollectionNode>,
) -> bool {
    &&& forall|t: int| 0 <= t < 3 ==> (#[trigger] header.info(t)).last_cap <= caps.len()
    &&& forall|t: int, k: int|
        0 <= t < 3 && header.info(t).first_cap <= k < header.info(t).last_cap ==> #[trigger] cap_fits(
            header.info(t),
            caps[k],
            nodes,
        )
}

/// One capability has bits behind its report id and belongs to a collection
/// of the node array.
pub open spec fn cap_fits(info: CapsInfo, cap: Caps, nodes: Seq<LinkCollectionNode>) -> bool {
    cap.spec_has_bits() && cap.link_collection < nodes.len()
}

/// The range of report `id` below collection `c`, from the capabilities of
/// one report type with an index below `k`.
pub open spec fn range_upto(
    info: CapsInfo,
    caps: Seq<Caps>,
    nodes: Seq<LinkCollectionNode>,
    c: usize,
    id: u8,
    k: int,
) -> BitRange
    decreases k,
{
    if k <= info.first_cap || k <= 0 {
        BitRange::spec_empty()
    } else {
        let before = range_upto(info, caps, nodes, c, id, k - 1);
        let cap = caps[k - 1];
        if cap.report_id == id && is_within(nodes, c, cap.link_collection as usize, nodes.len()) {
            before.spec_widen(cap.spec_first_bit(), cap.spec_last_bit())
        } else {
            before
        }
    }
}

/// The range of report `id` of type `rt` below collection `c`: the first and
/// the last bit of all fields of that report in `c` and in the collections
/// below it.
pub open spec fn bit_range(
    header: HidpPreparsedData,
    caps: Seq<Caps>,
    nodes: Seq<LinkCollectionNode>,
    c: int,
    id: u8,
    rt: ReportType,
) -> BitRange {
    range_upto(
        header.info(rt.spec_index() as int),
        caps,
        nodes,
        c as usize,
        id,
        header.info(rt.spec_index() as int).last_cap as int,
    )
}

/// The range from capabilities that have bits has both its ends or
/// neither, and its first bit is not behind its last.
pub proof fn lemma_range_upto_wf(
    info: CapsInfo,
    caps: Seq<Caps>,
    nodes: Seq<LinkCollectionNode>,
    c: usize,
    id: u8,
    k: int,
)
    requires
        forall|j: int| info.first_cap <= j < k ==> (#[trigger] caps[j]).spec_has_bits(),
    ensures
        range_upto(info, caps, nodes, c, id, k).wf(),
    decreases k,
{
    if !(k <= info.first_cap || k <= 0) {
        lemma_range_upto_wf(info, caps, nodes, c, id, k - 1);
        let cap = caps[k - 1];
        assert(cap.spec_has_bits());
        assert(cap.report_size * cap.report_count >= 1) by (nonlinear_arith)
            requires
                cap.report_size >= 1,
                cap.report_count >= 1,
        ;
        assert(cap.report_size * cap.report_count <= 0xffff * 0xffff) by (nonlinear_arith)
            requires
                cap.report_size <= 0xffff,
                cap.report_count <= 0xffff,
        ;
    }
}

/// For capabilities that fit, the range of every report below every
/// collection has both its ends or neither, and its first bit is not behind
/// its last.
pub proof fn lemma_bit_range_wf(
    header: HidpPreparsedData,
    caps: Seq<Caps>,
    nodes: Seq<LinkCollectionNode>,
    c: int,
    id: u8,
    rt: ReportType,
)
    requires
        caps_fit(header, caps, nodes),
    ensures
        bit_range(header, caps, nodes, c, id, rt).wf(),
{
    let t = rt.spec_index() as int;
    let info = header.info(t);
    assert forall|j: int| info.first_cap <= j < info.last_cap implies (
    #[trigger] caps[j]).spec_has_bits() by {
        assert(cap_fits(header.info(t), caps[j], nodes));
    }
    lemma_range_upto_wf(info, caps, nodes, c as usize, id, info.last_cap as int);
}

/// Place of a range in the table.
pub open spec fn slot(c: int, id: int, t: int) -> int {
    (c * 256 + id) * 3 + t
}

/// A range for every collection, report id and report type.
pub struct BitRangeTable {
    ranges: Vec<BitRange>,
    collections: usize,
}

impl BitRangeTable {
    pub closed spec fn wf(&self) -> bool {
        self.collections <= u16::MAX && self.ranges@.len() == self.collections * 768
    }

    /// Number of collections that the table has ranges for.
    pub closed spec fn spec_collections(&self) -> usize {
        self.collections
    }

    /// The range kept for collection `c`, report `id` and report type `rt`.
    pub closed spec fn spec_range(&self, c: int, id: u8, rt: ReportType) -> BitRange {
        self.ranges@[slot(c, id as int, rt.spec_index() as int)]
    }

    /// A table of empty ranges for `collections` collections.
    pub fn new(collections: usize) -> (table: BitRangeTable)
        requires
            collections <= u16::MAX,
        ensures
            table.wf(),
            table.spec_collections() == collections,
            forall|c: int, id: u8, rt: ReportType|
                0 <= c < collections ==> #[trigger] table.spec_range(c, id, rt)
                    == BitRange::spec_empty(),
    {
        let total: usize = collections * 768;
        let mut ranges: Vec<BitRange> = Vec::new();
        let mut i: usize = 0;
        while i < total
            invariant
                i <= total,
                ranges@.len() == i,
                forall|k: int| 0 <= k < i ==> ranges@[k] == BitRange::spec_empty(),
            decreases total - i,
        {
            ranges.push(BitRange::empty());
            i += 1;
        }
        let table = BitRangeTable { ranges, collections };
        assert forall|c: int, id: u8, rt: ReportType| 0 <= c < collections implies #[trigger] table.spec_range(
            c,
            id,
            rt,
        ) == BitRange::spec_empty() by {
            let s = slot(c, id as int, rt.spec_index() as int);
            assert(0 <= s < total);
        }
        table
    }

    #[verifier::when_used_as_spec(spec_collections)]
    pub fn collections(&self) -> (n: usize)
        ensures
            n == self.spec_collections(),
    {
        self.collections
    }

    /// The range kept for collection `c`, report `id` and report type `rt`.
    pub fn range(&self, c: usize, id: u8, rt: ReportType) -> (r: BitRange)
        requires
            self.wf(),
            c < self.spec_collections(),
        ensures
            r == self.spec_range(c as int, id, rt),
    {
        let t = rt.index();
        assert(0 <= slot(c as int, id as int, t as int) < self.collections * 768);
        self.ranges[(c * 256 + id as usize) * 3 + t]
    }

    /// Widens the range of collection `c`, report `id` and type `rt` by the
    /// bits `first..=last`, and leaves the other ranges as they are.
    pub fn widen(&mut self, c: usize, id: u8, rt: ReportType, first: u64, last: u64)
        requires
            old(self).wf(),
            c < old(self).spec_collections(),
        ensures
            final(self).wf(),
            final(self).spec_collections() == old(self).spec_collections(),
            forall|c2: int, id2: u8, rt2: ReportType|
                0 <= c2 < old(self).spec_collections() ==> #[trigger] final(self).spec_range(
                    c2,
                    id2,
                    rt2,
                ) == (if c2 == c && id2 == id && rt2 == rt {
                    old(self).spec_range(c2, id2, rt2).spec_widen(first, last)
                } else {
                    old(self).spec_range(c2, id2, rt2)
                }),
    {
        let t = rt.index();
        let at: usize = (c * 256 + id as usize) * 3 + t;
        assert(at == slot(c as int, id as int, t as int));
        let widened = self.ranges[at].widen(first, last);
        self.ranges.set(at, widened);
        assert forall|c2: int, id2: u8, rt2: ReportType|
            0 <= c2 < old(self).spec_collections() implies #[trigger] self.spec_range(c2, id2, rt2)
            == (if c2 == c && id2 == id && rt2 == rt {
            old(self).spec_range(c2, id2, rt2).spec_widen(first, last)
        } else {
            old(self).spec_range(c2, id2, rt2)
        }) by {
            let s2 = slot(c2, id2 as int, rt2.spec_index() as int);
            assert(0 <= s2 < self.collections * 768);
            if s2 == at {
                assert(c2 == c && id2 == id && rt2.spec_index() == t);
            }
        }
    }
}

/// Tests that the capabilities of the three report types fit the arrays.
pub fn check_caps(
    header: &HidpPreparsedData,
    caps: &[Caps],
    nodes: &[LinkCollectionNode],
) -> (ok: bool)
    ensures
        ok == caps_fit(*header, caps@, nodes@),
{
    let mut t: usize = 0;
    while t < 3
        invariant
            t <= 3,
            forall|u: int| 0 <= u < t ==> (#[trigger] header.info(u)).last_cap <= caps@.len(),
            forall|u: int, k: int|
                0 <= u < t && header.info(u).first_cap <= k < header.info(u).last_cap
                    ==> #[trigger] cap_fits(header.info(u), caps@[k], nodes@),
        decreases 3 - t,
    {
        let info = header.caps_info[t];
        assert(info == header.info(t as int));
        if info.last_cap as usize > caps.len() {
            return false;
        }
        let mut k: usize = info.first_cap as usize;
        while k < info.last_cap as usize
            invariant
                t < 3,
                info == header.info(t as int),
                info.last_cap <= caps@.len(),
                info.first_cap <= k,
                forall|j: int|
                    info.first_cap <= j < k && j < info.last_cap ==> #[trigger] cap_fits(
                        info,
                        caps@[j],
                        nodes@,
                    ),
            decreases info.last_cap - k,
        {
            let cap = caps[k];
            if !cap.has_bits() || cap.link_collection as usize >= nodes.len() {
                assert(!cap_fits(header.info(t as int), caps@[k as int], nodes@));
                return false;
            }
            k += 1;
        }
        t += 1;
    }
    true
}

/// Widens by the bits of `cap` the range of its report in its collection and
/// in every collection above it.
pub fn widen_upwards(
    table: &mut BitRangeTable,
    nodes: &[LinkCollectionNode],
    cap: Caps,
    rt: ReportType,
)
    requires
        old(table).wf(),
        old(table).spec_collections() == nodes@.len(),
        links_in_bounds(nodes@),
        cap.spec_has_bits(),
        cap.link_collection < nodes@.len(),
    ensures
        final(table).wf(),
        final(table).spec_collections() == nodes@.len(),
        forall|c: int, id: u8, rt2: ReportType|
            0 <= c < nodes@.len() ==> #[trigger] final(table).spec_range(c, id, rt2) == (if id
                == cap.report_id && rt2 == rt && is_within(
                nodes@,
                c as usize,
                cap.link_collection as usize,
                nodes@.len(),
            ) {
                old(table).spec_range(c, id, rt2).spec_widen(
                    cap.spec_first_bit(),
                    cap.spec_last_bit(),
                )
            } else {
                old(table).spec_range(c, id, rt2)
            }),
{
    let n = nodes.len();
    let first = cap.first_bit();
    let last = cap.last_bit();
    let start = cap.link_collection as usize;
    let mut cur = start;
    let mut steps: usize = 0;
    let ghost mut seen: Set<int> = Set::empty();
    loop
        invariant
            n == nodes@.len(),
            links_in_bounds(nodes@),
            table.wf(),
            table.spec_collections() == n,
            cur < n,
            steps <= n,
            start == cap.link_collection,
            first == cap.spec_first_bit(),
            last == cap.spec_last_bit(),
            forall|c: int|
                0 <= c < n ==> (is_within(nodes@, c as usize, start, n as nat) <==> (seen.contains(c)
                    || #[trigger] is_within(nodes@, c as usize, cur, (n - steps) as nat))),
            forall|c: int, id: u8, rt2: ReportType|
                0 <= c < n ==> #[trigger] table.spec_range(c, id, rt2) == (if id == cap.report_id
                    && rt2 == rt && seen.contains(c) {
                    old(table).spec_range(c, id, rt2).spec_widen(first, last)
                } else {
                    old(table).spec_range(c, id, rt2)
                }),
        ensures
            table.wf(),
            table.spec_collections() == n,
            forall|c: int, id: u8, rt2: ReportType|
                0 <= c < n ==> #[trigger] table.spec_range(c, id, rt2) == (if id == cap.report_id
                    && rt2 == rt && is_within(nodes@, c as usize, start, n as nat) {
                    old(table).spec_range(c, id, rt2).spec_widen(first, last)
                } else {
                    old(table).spec_range(c, id, rt2)
                }),
        decreases n - steps,
    {
        let ghost before = *table;
        table.widen(cur, cap.report_id, rt, first, last);
        proof {
            let ghost was_seen = seen.contains(cur as int);
            seen = seen.insert(cur as int);
            assert forall|c: int, id: u8, rt2: ReportType| 0 <= c < n implies #[trigger] table.spec_range(
                c,
                id,
                rt2,
            ) == (if id == cap.report_id && rt2 == rt && seen.contains(c) {
                old(table).spec_range(c, id, rt2).spec_widen(first, last)
            } else {
                old(table).spec_range(c, id, rt2)
            }) by {
                let r = old(table).spec_range(c, id, rt2);
                assert(before.spec_range(c, id, rt2) == (if id == cap.report_id && rt2 == rt && (
                seen.contains(c) && (c != cur || was_seen)) {
                    r.spec_widen(first, last)
                } else {
                    r
                }));
                assert(r.spec_widen(first, last).spec_widen(first, last) == r.spec_widen(
                    first,
                    last,
                ));
            }
        }
        if cur == 0 || steps == n {
            proof {
                assert forall|c: int| 0 <= c < n implies (is_within(
                    nodes@,
                    c as usize,
                    start,
                    n as nat,
                ) <==> seen.contains(c)) by {
                    assert(is_within(nodes@, c as usize, cur, (n - steps) as nat) <==> c == cur);
                }
            }
            break ;
        }
        let ghost below = cur;
        cur = nodes[cur].parent as usize;
        steps += 1;
        proof {
            assert forall|c: int| 0 <= c < n implies (is_within(nodes@, c as usize, start, n as nat)
                <==> (seen.contains(c) || #[trigger] is_within(
                nodes@,
                c as usize,
                cur,
                (n - steps) as nat,
            ))) by {
                assert(is_within(nodes@, c as usize, below, (n - steps + 1) as nat) <==> (c
                    == below || is_within(nodes@, c as usize, cur, (n - steps) as nat)));
            }
        }
    }
}

/// The table of the ranges of all reports below all collections.
pub fn collection_bit_ranges(
    header: &HidpPreparsedData,
    caps: &[Caps],
    nodes: &[LinkCollectionNode],
) -> (table: BitRangeTable)
    requires
        links_in_bounds(nodes@),
        nodes@.len() <= u16::MAX,
        caps_fit(*header, caps@, nodes@),
    ensures
        table.wf(),
        table.spec_collections() == nodes@.len(),
        forall|c: int, id: u8, rt: ReportType|
            0 <= c < nodes@.len() ==> #[trigger] table.spec_range(c, id, rt) == bit_range(
                *header,
                caps@,
                nodes@,
                c,
                id,
                rt,
            ),
{
    let n = nodes.len();
    let mut table = BitRangeTable::new(n);
    let mut t: usize = 0;
    while t < 3
        invariant
            t <= 3,
            n == nodes@.len(),
            links_in_bounds(nodes@),
            caps_fit(*header, caps@, nodes@),
            table.wf(),
            table.spec_collections() == n,
            forall|c: int, id: u8, rt: ReportType|
                0 <= c < n ==> #[trigger] table.spec_range(c, id, rt) == (if rt.spec_index() < t {
                    bit_range(*header, caps@, nodes@, c, id, rt)
                } else {
                    BitRange::spec_empty()
                }),
        decreases 3 - t,
    {
        let info = header.caps_info[t];
        let rt_now = ReportType::from_index(t);
        assert(info == header.info(t as int));
        let mut k: usize = info.first_cap as usize;
        while k < info.last_cap as usize
            invariant
                t < 3,
                n == nodes@.len(),
                links_in_bounds(nodes@),
                caps_fit(*header, caps@, nodes@),
                info == header.info(t as int),
                rt_now.spec_index() == t,
                info.first_cap <= k,
                k <= info.last_cap || k == info.first_cap,
                table.wf(),
                table.spec_collections() == n,
                forall|c: int, id: u8, rt: ReportType|
                    0 <= c < n ==> #[trigger] table.spec_range(c, id, rt) == (if rt.spec_index()
                        < t {
                        bit_range(*header, caps@, nodes@, c, id, rt)
                    } else if rt.spec_index() == t {
                        range_upto(info, caps@, nodes@, c as usize, id, k as int)
                    } else {
                        BitRange::spec_empty()
                    }),
            decreases info.last_cap - k,
        {
            assert(cap_fits(header.info(t as int), caps@[k as int], nodes@));
            let cap = caps[k];
            widen_upwards(&mut table, nodes, cap, rt_now);
            k += 1;
        }
        proof {
            assert forall|c: usize, id: u8| c < n implies #[trigger] range_upto(
                info,
                caps@,
                nodes@,
                c,
                id,
                k as int,
            ) == range_upto(info, caps@, nodes@, c, id, info.last_cap as int) by {}
        }
        t += 1;
    }
    table
}

} // verus!
