//! Delimiter brackets: a run of aliased elements becomes one bracket that
//! lists one usage for each element, the last element of the run first.

use vstd::prelude::*;
use crate::types::{MainItemNode, MainItems, ReportType};
use crate::typedefs::{Caps, HidpPreparsedData, LinkCollectionNode};
use crate::collections::{children_items, collection_bracket, collection_items};
use crate::fields::{
    cap_item,
    field_step,
    fields_upto,
    insertion_anchor,
    lemma_insertion_anchor_in_list,
};

verus! {

/// The usages of the capabilities `first..=last`, the last one first.
pub open spec fn cap_usages(caps: Seq<Caps>, first: int, last: int) -> Seq<MainItemNode> {
    Seq::new(
        (last - first + 1) as nat,
        |i: int| cap_item(caps[last - i], (last - i) as usize, MainItems::DelimiterUsage),
    )
}

/// The delimiter bracket of the capabilities `first..=last`: it opens with
/// the last one, lists their usages from the last to the first, and closes
/// with the first.
pub open spec fn cap_bracket(caps: Seq<Caps>, first: int, last: int) -> Seq<MainItemNode> {
    seq![cap_item(caps[last], last as usize, MainItems::DelimiterOpen)] + cap_usages(
        caps,
        first,
        last,
    ) + seq![cap_item(caps[first], first as usize, MainItems::DelimiterClose)]
}

/// Delimiter symmetry for collections: the bracket of a run holds, between
/// its opening and its close, one usage for each collection of the run, in
/// the reverse of the order in which the run was written.
pub proof fn lemma_collection_bracket_reverses(run: Seq<usize>)
    requires
        run.len() > 0,
    ensures
        collection_bracket(run).len() == run.len() + 2,
        collection_bracket(run)[0] == MainItemNode::spec_collection(
            run.last(),
            MainItems::DelimiterOpen,
        ),
        forall|i: int|
            0 <= i < run.len() ==> #[trigger] collection_bracket(run)[1 + i]
                == MainItemNode::spec_collection(run[run.len() - 1 - i], MainItems::DelimiterUsage),
        collection_bracket(run)[run.len() as int + 1] == MainItemNode::spec_collection(
            run[0],
            MainItems::DelimiterClose,
        ),
{
    reveal(collection_bracket);
}

/// With the first `i` children of a run of aliased children taken into the
/// run, the items of the children are what they are with none of them taken.
proof fn lemma_run_grows(
    nodes: Seq<LinkCollectionNode>,
    orders: Seq<Seq<usize>>,
    c: usize,
    k: int,
    last: int,
    i: int,
    fuel: nat,
)
    requires
        0 <= k <= i <= last < orders[c as int].len(),
        forall|j: int| k <= j < last ==> nodes[(#[trigger] orders[c as int][j]) as int].spec_is_alias(),
    ensures
        children_items(nodes, orders, c, k, Seq::empty(), fuel) == children_items(
            nodes,
            orders,
            c,
            i,
            orders[c as int].subrange(k, i),
            fuel,
        ),
    decreases i - k,
{
    let children = orders[c as int];
    if i == k {
        assert(children.subrange(k, k) =~= Seq::<usize>::empty());
    } else {
        lemma_run_grows(nodes, orders, c, k, last, i - 1, fuel);
        assert(nodes[children[i - 1] as int].spec_is_alias());
        assert(children.subrange(k, i - 1).push(children[i - 1]) =~= children.subrange(k, i));
    }
}

/// Delimiter symmetry for collections in the tree: a run of aliased
/// children `k..last` of collection `c` and the child `last` that ends it
/// become the bracket of the children `k..=last`, followed by the items of
/// the child `last` and of the children behind it.
pub proof fn lemma_aliased_collections_make_bracket(
    nodes: Seq<LinkCollectionNode>,
    orders: Seq<Seq<usize>>,
    c: usize,
    k: int,
    last: int,
    fuel: nat,
)
    requires
        0 <= k < last < orders[c as int].len(),
        forall|j: int| k <= j < last ==> nodes[(#[trigger] orders[c as int][j]) as int].spec_is_alias(),
        !nodes[orders[c as int][last] as int].spec_is_alias(),
    ensures
        children_items(nodes, orders, c, k, Seq::empty(), fuel) == collection_bracket(
            orders[c as int].subrange(k, last + 1),
        ) + collection_items(nodes, orders, orders[c as int][last], fuel) + children_items(
            nodes,
            orders,
            c,
            last + 1,
            Seq::empty(),
            fuel,
        ),
{
    let children = orders[c as int];
    lemma_run_grows(nodes, orders, c, k, last, last, fuel);
    assert(children.subrange(k, last).push(children[last]) =~= children.subrange(k, last + 1));
}

/// Putting an item in at the front of the middle of three joined lists.
proof fn lemma_insert_front(
    front: Seq<MainItemNode>,
    middle: Seq<MainItemNode>,
    back: Seq<MainItemNode>,
    item: MainItemNode,
)
    ensures
        (front + middle + back).insert(front.len() as int, item) == front + (seq![item] + middle)
            + back,
{
    assert((front + middle + back).insert(front.len() as int, item) =~= front + (seq![item]
        + middle) + back);
}

/// Putting an item in behind the middle of three joined lists.
proof fn lemma_insert_behind(
    front: Seq<MainItemNode>,
    middle: Seq<MainItemNode>,
    back: Seq<MainItemNode>,
    item: MainItemNode,
)
    ensures
        (front + middle + back).insert((front.len() + middle.len()) as int, item) == front + middle.push(
            item,
        ) + back,
{
    assert((front + middle + back).insert((front.len() + middle.len()) as int, item) =~= front
        + middle.push(item) + back);
}

/// An aliased capability opens a bracket at its place in the list.
proof fn lemma_step_opens(
    items: Seq<MainItemNode>,
    header: HidpPreparsedData,
    caps: Seq<Caps>,
    nodes: Seq<LinkCollectionNode>,
    orders: Seq<Seq<usize>>,
    k: int,
    rt: ReportType,
)
    requires
        caps[k].spec_is_alias(),
    ensures
        ({
            let a = insertion_anchor(items, header, caps, nodes, orders, caps[k], rt);
            field_step((items, None), header, caps, nodes, orders, k, rt) == (
                items.insert(a + 1, cap_item(caps[k], k as usize, MainItems::DelimiterUsage)).insert(
                    a + 2,
                    cap_item(caps[k], k as usize, MainItems::DelimiterClose),
                ),
                Some((a, a + 2)),
            )
        }),
{
    reveal(field_step);
}

/// An aliased capability puts its usage at the front of the open bracket.
proof fn lemma_step_extends(
    items: Seq<MainItemNode>,
    front: int,
    close: int,
    header: HidpPreparsedData,
    caps: Seq<Caps>,
    nodes: Seq<LinkCollectionNode>,
    orders: Seq<Seq<usize>>,
    k: int,
    rt: ReportType,
)
    requires
        caps[k].spec_is_alias(),
    ensures
        field_step((items, Some((front, close))), header, caps, nodes, orders, k, rt) == (
            items.insert(front + 1, cap_item(caps[k], k as usize, MainItems::DelimiterUsage)),
            Some((front, close + 1)),
        ),
{
    reveal(field_step);
}

/// A capability that is not aliased ends the open bracket.
proof fn lemma_step_ends(
    items: Seq<MainItemNode>,
    front: int,
    close: int,
    header: HidpPreparsedData,
    caps: Seq<Caps>,
    nodes: Seq<LinkCollectionNode>,
    orders: Seq<Seq<usize>>,
    k: int,
    rt: ReportType,
)
    requires
        !caps[k].spec_is_alias(),
    ensures
        field_step((items, Some((front, close))), header, caps, nodes, orders, k, rt) == (
            items.insert(front + 1, cap_item(caps[k], k as usize, MainItems::DelimiterUsage)).insert(
                front + 1,
                cap_item(caps[k], k as usize, MainItems::DelimiterOpen),
            ).insert(close + 3, cap_item(caps[k], k as usize, rt.spec_main_item())),
            None::<(int, int)>,
        ),
{
    reveal(field_step);
}

/// While the capabilities of a run are aliased, the bracket stays open: the
/// list holds, at the place of the first capability of the run, the usages of
/// the capabilities so far, the last one first, and the close.
pub proof fn lemma_open_bracket(
    items: Seq<MainItemNode>,
    header: HidpPreparsedData,
    caps: Seq<Caps>,
    nodes: Seq<LinkCollectionNode>,
    orders: Seq<Seq<usize>>,
    rt: ReportType,
    first: int,
    j: int,
)
    requires
        0 <= first < j,
        header.info(rt.spec_index() as int).first_cap <= first,
        forall|i: int| first <= i < j ==> (#[trigger] caps[i]).spec_is_alias(),
        fields_upto(items, header, caps, nodes, orders, rt, first).1 is None,
        fields_upto(items, header, caps, nodes, orders, rt, first).0.len() > 0,
    ensures
        ({
            let before = fields_upto(items, header, caps, nodes, orders, rt, first).0;
            let a = insertion_anchor(before, header, caps, nodes, orders, caps[first], rt);
            &&& 0 <= a < before.len()
            &&& fields_upto(items, header, caps, nodes, orders, rt, j) == (
                before.subrange(0, a + 1) + (cap_usages(caps, first, j - 1) + seq![
                    cap_item(caps[first], first as usize, MainItems::DelimiterClose),
                ]) + before.subrange(a + 1, before.len() as int),
                Some((a, a + 1 + (j - first))),
            )
        }),
    decreases j,
{
    let start = fields_upto(items, header, caps, nodes, orders, rt, first);
    let before = start.0;
    let a = insertion_anchor(before, header, caps, nodes, orders, caps[first], rt);
    lemma_insertion_anchor_in_list(before, header, caps, nodes, orders, caps[first], rt);
    let front = before.subrange(0, a + 1);
    let back = before.subrange(a + 1, before.len() as int);
    let none = Seq::<MainItemNode>::empty();
    let close = cap_item(caps[first], first as usize, MainItems::DelimiterClose);
    let earlier = fields_upto(items, header, caps, nodes, orders, rt, j - 1);
    assert(fields_upto(items, header, caps, nodes, orders, rt, j) == field_step(
        earlier,
        header,
        caps,
        nodes,
        orders,
        j - 1,
        rt,
    ));
    assert(caps[j - 1].spec_is_alias());
    let usage = cap_item(caps[j - 1], (j - 1) as usize, MainItems::DelimiterUsage);
    if j == first + 1 {
        assert(earlier == (before, None::<(int, int)>));
        lemma_step_opens(before, header, caps, nodes, orders, first, rt);
        assert(before =~= front + none + back);
        lemma_insert_front(front, none, back, usage);
        assert(seq![usage] + none =~= seq![usage]);
        lemma_insert_behind(front, seq![usage], back, close);
        assert(cap_usages(caps, first, first) =~= seq![usage]);
        assert(seq![usage].push(close) =~= cap_usages(caps, first, first) + seq![close]);
    } else {
        lemma_open_bracket(items, header, caps, nodes, orders, rt, first, j - 1);
        let middle = cap_usages(caps, first, j - 2) + seq![close];
        lemma_step_extends(earlier.0, a, a + (j - first), header, caps, nodes, orders, j - 1, rt);
        lemma_insert_front(front, middle, back, usage);
        assert(seq![usage] + middle =~= cap_usages(caps, first, j - 1) + seq![close]);
    }
}

/// Delimiter symmetry for capabilities: a run of aliased capabilities
/// `first..last` and the capability `last` that ends it, put into a list
/// without an open bracket, add at the place of the first of them one
/// bracket and the field of the last. Between its opening and its close the
/// bracket holds one usage for each capability of the run and for the one
/// that ends it, in the reverse of their order in the capability array.
pub proof fn lemma_aliased_caps_make_bracket(
    items: Seq<MainItemNode>,
    header: HidpPreparsedData,
    caps: Seq<Caps>,
    nodes: Seq<LinkCollectionNode>,
    orders: Seq<Seq<usize>>,
    rt: ReportType,
    first: int,
    last: int,
)
    requires
        0 <= first < last,
        header.info(rt.spec_index() as int).first_cap <= first,
        forall|i: int| first <= i < last ==> (#[trigger] caps[i]).spec_is_alias(),
        !caps[last].spec_is_alias(),
        fields_upto(items, header, caps, nodes, orders, rt, first).1 is None,
        fields_upto(items, header, caps, nodes, orders, rt, first).0.len() > 0,
    ensures
        ({
            let before = fields_upto(items, header, caps, nodes, orders, rt, first).0;
            let a = insertion_anchor(before, header, caps, nodes, orders, caps[first], rt);
            &&& 0 <= a < before.len()
            &&& fields_upto(items, header, caps, nodes, orders, rt, last + 1) == (
                before.subrange(0, a + 1) + (cap_bracket(caps, first, last) + seq![
                    cap_item(caps[last], last as usize, rt.spec_main_item()),
                ]) + before.subrange(a + 1, before.len() as int),
                None::<(int, int)>,
            )
        }),
        cap_bracket(caps, first, last).len() == (last - first + 1) + 2,
        forall|i: int|
            0 <= i <= last - first ==> #[trigger] cap_bracket(caps, first, last)[1 + i] == cap_item(
                caps[last - i],
                (last - i) as usize,
                MainItems::DelimiterUsage,
            ),
{
    let before = fields_upto(items, header, caps, nodes, orders, rt, first).0;
    let a = insertion_anchor(before, header, caps, nodes, orders, caps[first], rt);
    let front = before.subrange(0, a + 1);
    let back = before.subrange(a + 1, before.len() as int);
    let close = cap_item(caps[first], first as usize, MainItems::DelimiterClose);
    let open = cap_item(caps[last], last as usize, MainItems::DelimiterOpen);
    let usage = cap_item(caps[last], last as usize, MainItems::DelimiterUsage);
    let field = cap_item(caps[last], last as usize, rt.spec_main_item());
    lemma_open_bracket(items, header, caps, nodes, orders, rt, first, last);
    let middle = cap_usages(caps, first, last - 1) + seq![close];
    let earlier = fields_upto(items, header, caps, nodes, orders, rt, last);
    assert(fields_upto(items, header, caps, nodes, orders, rt, last + 1) == field_step(
        earlier,
        header,
        caps,
        nodes,
        orders,
        last,
        rt,
    ));
    lemma_step_ends(earlier.0, a, a + 1 + (last - first), header, caps, nodes, orders, last, rt);
    lemma_insert_front(front, middle, back, usage);
    lemma_insert_front(front, seq![usage] + middle, back, open);
    let bracket = cap_bracket(caps, first, last);
    assert(seq![open] + (seq![usage] + middle) =~= bracket);
    lemma_insert_behind(front, bracket, back, field);
    assert(bracket.push(field) =~= bracket + seq![field]);
    assert(front.len() + bracket.len() == a + 1 + (last - first) + 3);
}

} // verus!
