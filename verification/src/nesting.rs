//! Nesting: in the list of main items every collection that is opened is
//! ended, in the order of a stack.

use vstd::prelude::*;
use crate::types::{MainItemNode, MainItems, ReportType};
use crate::typedefs::{Caps, HidpPreparsedData, LinkCollectionNode};
use crate::collections::{
    all_collection_items,
    children_items,
    collection_bracket,
    collection_items,
    lemma_bracket_items,
};
use crate::fields::{is_made_for, lemma_fields_keep};
use crate::padding::{end_padding, gap_padding, padded_upto, with_padding};
use crate::order::child_orders;
use crate::descriptor::{assembled_items_of, main_items_of};

verus! {

/// What an item does to the nesting depth: the opening of a collection adds
/// one level, its end takes one away, every other item leaves it.
pub open spec fn depth_step(item: MainItemNode) -> int {
    if item.main_item_type == MainItems::Collection {
        1
    } else if item.main_item_type == MainItems::CollectionEnd {
        -1
    } else {
        0
    }
}

/// The nesting depth behind the first `k` items.
pub open spec fn depth_after(items: Seq<MainItemNode>, k: int) -> int
    decreases k,
{
    if k <= 0 {
        0
    } else {
        depth_after(items, k - 1) + depth_step(items[k - 1])
    }
}

/// The nesting depth is never negative.
pub open spec fn never_negative(items: Seq<MainItemNode>) -> bool {
    forall|k: int| 0 <= k <= items.len() ==> #[trigger] depth_after(items, k) >= 0
}

/// The nesting depth is never negative and is zero at the end of the list.
pub open spec fn is_balanced(items: Seq<MainItemNode>) -> bool {
    never_negative(items) && depth_after(items, items.len() as int) == 0
}

/// The depth within the first of two joined lists is that of the first alone.
pub proof fn lemma_depth_in_front(a: Seq<MainItemNode>, b: Seq<MainItemNode>, k: int)
    requires
        0 <= k <= a.len(),
    ensures
        depth_after(a + b, k) == depth_after(a, k),
    decreases k,
{
    if k > 0 {
        lemma_depth_in_front(a, b, k - 1);
        assert((a + b)[k - 1] == a[k - 1]);
    }
}

/// The depth within the second of two joined lists is that of the second
/// alone on top of the depth at the end of the first.
pub proof fn lemma_depth_behind(a: Seq<MainItemNode>, b: Seq<MainItemNode>, k: int)
    requires
        0 <= k <= b.len(),
    ensures
        depth_after(a + b, a.len() + k) == depth_after(a, a.len() as int) + depth_after(b, k),
    decreases k,
{
    if k > 0 {
        lemma_depth_behind(a, b, k - 1);
        assert((a + b)[a.len() + k - 1] == b[k - 1]);
    } else {
        lemma_depth_in_front(a, b, a.len() as int);
    }
}

/// A list whose depth is never negative stays so when a list that keeps its
/// depth from falling below zero is joined to its end.
pub proof fn lemma_join_never_negative(a: Seq<MainItemNode>, b: Seq<MainItemNode>)
    requires
        never_negative(a),
        forall|k: int|
            0 <= k <= b.len() ==> depth_after(a, a.len() as int) + #[trigger] depth_after(b, k)
                >= 0,
    ensures
        never_negative(a + b),
        depth_after(a + b, (a + b).len() as int) == depth_after(a, a.len() as int) + depth_after(
            b,
            b.len() as int,
        ),
{
    assert forall|k: int| 0 <= k <= (a + b).len() implies #[trigger] depth_after(a + b, k)
        >= 0 by {
        if k <= a.len() {
            lemma_depth_in_front(a, b, k);
        } else {
            lemma_depth_behind(a, b, k - a.len());
        }
    }
    lemma_depth_behind(a, b, b.len() as int);
}

/// Two balanced lists make one when joined.
pub proof fn lemma_join_balanced(a: Seq<MainItemNode>, b: Seq<MainItemNode>)
    requires
        is_balanced(a),
        is_balanced(b),
    ensures
        is_balanced(a + b),
{
    lemma_join_never_negative(a, b);
}

/// A list of items that leave the depth as it is, is balanced.
pub proof fn lemma_flat_is_balanced(items: Seq<MainItemNode>)
    requires
        forall|i: int| 0 <= i < items.len() ==> depth_step(#[trigger] items[i]) == 0,
    ensures
        is_balanced(items),
{
    assert forall|k: int| 0 <= k <= items.len() implies #[trigger] depth_after(items, k) == 0 by {
        lemma_flat_depth(items, k);
    }
}

proof fn lemma_flat_depth(items: Seq<MainItemNode>, k: int)
    requires
        forall|i: int| 0 <= i < items.len() ==> depth_step(#[trigger] items[i]) == 0,
        0 <= k <= items.len(),
    ensures
        depth_after(items, k) == 0,
    decreases k,
{
    if k > 0 {
        lemma_flat_depth(items, k - 1);
    }
}

/// A balanced list between an opening and an end is balanced.
pub proof fn lemma_wrap_balanced(open: MainItemNode, inner: Seq<MainItemNode>, end: MainItemNode)
    requires
        is_balanced(inner),
        depth_step(open) == 1,
        depth_step(end) == -1,
    ensures
        is_balanced(seq![open] + inner + seq![end]),
{
    let front = seq![open];
    let back = seq![end];
    assert(depth_after(front, 1) == depth_after(front, 0) + depth_step(front[0]));
    assert forall|k: int| 0 <= k <= 1 implies #[trigger] depth_after(front, k) >= 0 by {
        if k == 1 {
        }
    }
    lemma_join_never_negative(front, inner);
    assert(depth_after(back, 1) == depth_after(back, 0) + depth_step(back[0]));
    assert forall|k: int| 0 <= k <= 1 implies 1 + #[trigger] depth_after(back, k) >= 0 by {
        if k == 1 {
        }
    }
    lemma_join_never_negative(front + inner, back);
}

/// An item that leaves the depth as it is can be put anywhere into a
/// balanced list.
pub proof fn lemma_insert_balanced(items: Seq<MainItemNode>, at: int, item: MainItemNode)
    requires
        is_balanced(items),
        0 <= at <= items.len(),
        depth_step(item) == 0,
    ensures
        is_balanced(items.insert(at, item)),
{
    let after = items.insert(at, item);
    assert forall|k: int| 0 <= k <= after.len() implies #[trigger] depth_after(after, k) >= 0
        && (k <= at ==> depth_after(after, k) == depth_after(items, k)) && (k > at
        ==> depth_after(after, k) == depth_after(items, k - 1)) by {
        lemma_insert_depth(items, at, item, k);
        if k > at {
            assert(depth_after(items, k - 1) >= 0);
        } else {
            assert(depth_after(items, k) >= 0);
        }
    }
    if at == items.len() {
        assert(depth_after(after, after.len() as int) == depth_after(items, items.len() as int));
    }
}

proof fn lemma_insert_depth(items: Seq<MainItemNode>, at: int, item: MainItemNode, k: int)
    requires
        0 <= at <= items.len(),
        depth_step(item) == 0,
        0 <= k <= items.len() + 1,
    ensures
        k <= at ==> depth_after(items.insert(at, item), k) == depth_after(items, k),
        k > at ==> depth_after(items.insert(at, item), k) == depth_after(items, k - 1),
    decreases k,
{
    let after = items.insert(at, item);
    if k > 0 {
        lemma_insert_depth(items, at, item, k - 1);
        if k - 1 < at {
            assert(after[k - 1] == items[k - 1]);
        } else if k - 1 == at {
            assert(after[k - 1] == item);
        } else {
            assert(after[k - 1] == items[k - 2]);
        }
    }
}

/// A delimiter bracket is balanced.
pub proof fn lemma_bracket_balanced(run: Seq<usize>)
    ensures
        is_balanced(collection_bracket(run)),
{
    lemma_bracket_items(run);
    lemma_flat_is_balanced(collection_bracket(run));
}

/// The items of a collection and of what lies below it are balanced.
pub proof fn lemma_collection_items_balanced(
    nodes: Seq<LinkCollectionNode>,
    orders: Seq<Seq<usize>>,
    c: usize,
    fuel: nat,
)
    ensures
        is_balanced(collection_items(nodes, orders, c, fuel)),
    decreases fuel, 0nat,
{
    let kids = if fuel > 0 {
        children_items(nodes, orders, c, 0, Seq::empty(), (fuel - 1) as nat)
    } else {
        Seq::empty()
    };
    if fuel > 0 {
        lemma_children_items_balanced(nodes, orders, c, 0, Seq::empty(), (fuel - 1) as nat);
    } else {
        lemma_flat_is_balanced(kids);
    }
    lemma_wrap_balanced(
        MainItemNode::spec_collection(c, MainItems::Collection),
        kids,
        MainItemNode::spec_collection(c, MainItems::CollectionEnd),
    );
}

/// The items of the children of a collection are balanced.
pub proof fn lemma_children_items_balanced(
    nodes: Seq<LinkCollectionNode>,
    orders: Seq<Seq<usize>>,
    c: usize,
    k: int,
    run: Seq<usize>,
    fuel: nat,
)
    ensures
        is_balanced(children_items(nodes, orders, c, k, run, fuel)),
    decreases fuel, 1 + orders[c as int].len() - k,
{
    if k < 0 || k >= orders[c as int].len() {
        lemma_bracket_balanced(run);
    } else {
        let child = orders[c as int][k];
        if nodes[child as int].spec_is_alias() {
            lemma_children_items_balanced(nodes, orders, c, k + 1, run.push(child), fuel);
        } else {
            let bracket = if run.len() > 0 {
                collection_bracket(run.push(child))
            } else {
                Seq::empty()
            };
            let own = collection_items(nodes, orders, child, fuel);
            let rest = children_items(nodes, orders, c, k + 1, Seq::empty(), fuel);
            if run.len() > 0 {
                lemma_bracket_balanced(run.push(child));
            } else {
                lemma_flat_is_balanced(bracket);
            }
            lemma_collection_items_balanced(nodes, orders, child, fuel);
            lemma_children_items_balanced(nodes, orders, c, k + 1, Seq::empty(), fuel);
            lemma_join_balanced(bracket, own);
            lemma_join_balanced(bracket + own, rest);
        }
    }
}

/// The first `k` items with their paddings reach the depth of the first `k`
/// items, and never a negative one.
pub proof fn lemma_padded_depth(items: Seq<MainItemNode>, k: int)
    requires
        never_negative(items),
        0 <= k <= items.len(),
    ensures
        never_negative(padded_upto(items, k)),
        depth_after(padded_upto(items, k), padded_upto(items, k).len() as int) == depth_after(
            items,
            k,
        ),
    decreases k,
{
    if k > 0 {
        lemma_padded_depth(items, k - 1);
        let done = padded_upto(items, k - 1);
        let gap = gap_padding(items, k - 1);
        let own = seq![items[k - 1]];
        let end = end_padding(items, k - 1);
        lemma_flat_is_balanced(gap);
        lemma_flat_is_balanced(end);
        assert(depth_after(items, k - 1) >= 0);
        assert(depth_after(items, k) >= 0);
        lemma_join_never_negative(done, gap);
        assert(depth_after(own, 1) == depth_after(own, 0) + depth_step(own[0]));
        assert forall|j: int| 0 <= j <= 1 implies depth_after(items, k - 1) + #[trigger] depth_after(
            own,
            j,
        ) >= 0 by {
            if j == 1 {
            }
        }
        lemma_join_never_negative(done + gap, own);
        lemma_join_never_negative(done + gap + own, end);
    }
}

/// Main items in a balanced list stay balanced with their paddings.
pub proof fn lemma_padding_keeps_balance(items: Seq<MainItemNode>)
    requires
        is_balanced(items),
    ensures
        is_balanced(with_padding(items)),
{
    lemma_padded_depth(items, items.len() as int);
}

/// Nesting balance of the reconstruction: in the main items of any data the
/// nesting depth never goes below zero and is zero at the end, so that every
/// opening of a collection has its one end.
pub proof fn lemma_main_items_are_balanced(
    header: HidpPreparsedData,
    caps: Seq<Caps>,
    nodes: Seq<LinkCollectionNode>,
)
    ensures
        is_balanced(main_items_of(header, caps, nodes)),
{
    let orders = child_orders(header, caps, nodes);
    let collections = all_collection_items(nodes, orders);
    lemma_collection_items_balanced(nodes, orders, 0, nodes.len());
    assert forall|s: Seq<MainItemNode>, at: int, item: MainItemNode, rt: ReportType|
        #![trigger is_balanced(s.insert(at, item)), is_made_for(item, rt)]
        is_balanced(s) && 1 <= at <= s.len() && is_made_for(item, rt) implies is_balanced(
        s.insert(at, item),
    ) by {
        lemma_insert_balanced(s, at, item);
    }
    lemma_fields_keep(|s: Seq<MainItemNode>| is_balanced(s), collections, header, caps, nodes, orders);
    lemma_padding_keeps_balance(assembled_items_of(header, caps, nodes));
}

} // verus!
