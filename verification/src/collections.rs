//! The openings and ends of the collections, in the order of the tree, with
//! runs of aliased collections put into delimiter brackets.

use vstd::prelude::*;
use crate::types::{ItemNodeType, MainItemNode, MainItems};
use crate::typedefs::LinkCollectionNode;
use crate::list::{append_main_item_node, MainItemList};

verus! {

/// The lists behind a vector of vectors.
pub open spec fn lists_view(lists: Seq<Vec<usize>>) -> Seq<Seq<usize>> {
    Seq::new(lists.len(), |i: int| lists[i]@)
}

/// The usages of a bracket: one for each collection of `run`, the last first.
pub open spec fn bracket_usages(run: Seq<usize>) -> Seq<MainItemNode> {
    Seq::new(
        run.len(),
        |i: int| MainItemNode::spec_collection(run[run.len() - 1 - i], MainItems::DelimiterUsage),
    )
}

/// The delimiter bracket for the run of collections `run`, given in written
/// order: it opens with the last of the run, lists the usages of the run from
/// the last to the first, and closes with the first. An empty run has no
/// bracket.
#[verifier::opaque]
pub open spec fn collection_bracket(run: Seq<usize>) -> Seq<MainItemNode> {
    if run.len() == 0 {
        Seq::empty()
    } else {
        seq![MainItemNode::spec_collection(run.last(), MainItems::DelimiterOpen)] + bracket_usages(
            run,
        ) + seq![MainItemNode::spec_collection(run[0], MainItems::DelimiterClose)]
    }
}

/// The items of collection `c` and of what lies below it: its opening, the
/// items of its children, its end. `fuel` bounds the depth below `c`.
pub open spec fn collection_items(
    nodes: Seq<LinkCollectionNode>,
    orders: Seq<Seq<usize>>,
    c: usize,
    fuel: nat,
) -> Seq<MainItemNode>
    decreases fuel, 0nat,
{
    seq![MainItemNode::spec_collection(c, MainItems::Collection)] + (if fuel > 0 {
        children_items(nodes, orders, c, 0, Seq::empty(), (fuel - 1) as nat)
    } else {
        Seq::empty()
    }) + seq![MainItemNode::spec_collection(c, MainItems::CollectionEnd)]
}

/// The items of the children of `c` from the `k`-th on, where `run` holds
/// the aliased children directly before it. An aliased child joins the run;
/// it is one more usage of the collection that ends the run, and nothing
/// below it is written. A child that is not aliased ends the run: the
/// bracket of the run, with the child as its last member, stands in front of
/// the child's own items. A run that no child ends gets its bracket behind
/// the last child.
pub open spec fn children_items(
    nodes: Seq<LinkCollectionNode>,
    orders: Seq<Seq<usize>>,
    c: usize,
    k: int,
    run: Seq<usize>,
    fuel: nat,
) -> Seq<MainItemNode>
    decreases fuel, 1 + orders[c as int].len() - k,
{
    if k < 0 || k >= orders[c as int].len() {
        collection_bracket(run)
    } else {
        let child = orders[c as int][k];
        if nodes[child as int].spec_is_alias() {
            children_items(nodes, orders, c, k + 1, run.push(child), fuel)
        } else {
            (if run.len() > 0 {
                collection_bracket(run.push(child))
            } else {
                Seq::empty()
            }) + collection_items(nodes, orders, child, fuel) + children_items(
                nodes,
                orders,
                c,
                k + 1,
                Seq::empty(),
                fuel,
            )
        }
    }
}

/// The openings and ends of all collections: the items of the root, with
/// room for as many levels as there are collections.
pub open spec fn all_collection_items(nodes: Seq<LinkCollectionNode>, orders: Seq<Seq<usize>>)
    -> Seq<MainItemNode> {
    collection_items(nodes, orders, 0, nodes.len())
}

/// What is still to be written for the collections that are open: for the
/// innermost one the rest of its children and its end, then the same for
/// each collection around it. A frame holds a collection and the number of
/// its children that are done.
pub open spec fn pending_items(
    nodes: Seq<LinkCollectionNode>,
    orders: Seq<Seq<usize>>,
    frames: Seq<(usize, usize)>,
    run: Seq<usize>,
    fuel: nat,
) -> Seq<MainItemNode>
    decreases frames.len(),
{
    if frames.len() == 0 {
        Seq::empty()
    } else {
        children_items(nodes, orders, frames.last().0, frames.last().1 as int, run, fuel)
            + seq![MainItemNode::spec_collection(frames.last().0, MainItems::CollectionEnd)]
            + pending_items(nodes, orders, frames.drop_last(), Seq::empty(), fuel + 1)
    }
}

/// Appends the delimiter bracket of `run` to the list.
pub fn append_bracket(list: &mut MainItemList, run: &Vec<usize>)
    requires
        old(list).wf(),
    ensures
        final(list).wf(),
        final(list)@ == old(list)@ + collection_bracket(run@),
{
    let len = run.len();
    reveal(collection_bracket);
    if len == 0 {
        assert(list@ + Seq::<MainItemNode>::empty() =~= list@);
        return ;
    }
    append_main_item_node(MainItemNode::collection(run[len - 1], MainItems::DelimiterOpen), list);
    let mut i: usize = 0;
    while i < len
        invariant
            i <= len,
            len == run@.len(),
            list.wf(),
            list@ == old(list)@ + seq![
                MainItemNode::spec_collection(run@.last(), MainItems::DelimiterOpen),
            ] + bracket_usages(run@).take(i as int),
        decreases len - i,
    {
        append_main_item_node(
            MainItemNode::collection(run[len - 1 - i], MainItems::DelimiterUsage),
            list,
        );
        proof {
            let usages = bracket_usages(run@);
            assert(usages.take(i + 1) =~= usages.take(i as int).push(usages[i as int]));
            let head = old(list)@ + seq![
                MainItemNode::spec_collection(run@.last(), MainItems::DelimiterOpen),
            ];
            assert((head + usages.take(i as int)).push(usages[i as int]) =~= head + usages.take(
                i + 1,
            ));
        }
        i += 1;
    }
    append_main_item_node(MainItemNode::collection(run[0], MainItems::DelimiterClose), list);
    proof {
        let usages = bracket_usages(run@);
        assert(usages.take(len as int) =~= usages);
        assert(list@ =~= old(list)@ + collection_bracket(run@));
    }
}

/// Whether `item` stands for a collection and occupies no bits.
pub open spec fn is_collection_node(item: MainItemNode) -> bool {
    item.node_type == ItemNodeType::Collection && item.first_bit == 0 && item.last_bit == 0
        && item.caps_index is None && item.report_id == 0
}

/// Whether every item of the list stands for a collection.
pub open spec fn all_collection_nodes(items: Seq<MainItemNode>) -> bool {
    forall|i: int| 0 <= i < items.len() ==> is_collection_node(#[trigger] items[i])
}

/// A bracket holds the opening, one usage for each member of the run, and
/// the close, all of them items of collections.
pub proof fn lemma_bracket_items(run: Seq<usize>)
    ensures
        collection_bracket(run).len() == (if run.len() == 0 {
            0
        } else {
            run.len() + 2
        }),
        all_collection_nodes(collection_bracket(run)),
        forall|i: int|
            0 <= i < collection_bracket(run).len() ==> (#[trigger] collection_bracket(
                run,
            )[i]).main_item_type == (if i == 0 {
                MainItems::DelimiterOpen
            } else if i == run.len() + 1 {
                MainItems::DelimiterClose
            } else {
                MainItems::DelimiterUsage
            }),
{
    reveal(collection_bracket);
}

/// Two lists of items of collections make one when joined.
pub proof fn lemma_join_collection_nodes(a: Seq<MainItemNode>, b: Seq<MainItemNode>)
    requires
        all_collection_nodes(a),
        all_collection_nodes(b),
    ensures
        all_collection_nodes(a + b),
{
    assert forall|i: int| 0 <= i < (a + b).len() implies is_collection_node(
        #[trigger] (a + b)[i],
    ) by {
        if i < a.len() {
            assert((a + b)[i] == a[i]);
        } else {
            assert((a + b)[i] == b[i - a.len()]);
        }
    }
}

/// The items of a collection and of what lies below it all stand for
/// collections.
pub proof fn lemma_collection_items_kind(
    nodes: Seq<LinkCollectionNode>,
    orders: Seq<Seq<usize>>,
    c: usize,
    fuel: nat,
)
    ensures
        all_collection_nodes(collection_items(nodes, orders, c, fuel)),
    decreases fuel, 0nat,
{
    let open = seq![MainItemNode::spec_collection(c, MainItems::Collection)];
    let end = seq![MainItemNode::spec_collection(c, MainItems::CollectionEnd)];
    let kids = if fuel > 0 {
        children_items(nodes, orders, c, 0, Seq::empty(), (fuel - 1) as nat)
    } else {
        Seq::empty()
    };
    if fuel > 0 {
        lemma_children_items_kind(nodes, orders, c, 0, Seq::empty(), (fuel - 1) as nat);
    }
    assert(all_collection_nodes(open));
    assert(all_collection_nodes(end));
    lemma_join_collection_nodes(open, kids);
    lemma_join_collection_nodes(open + kids, end);
}

/// The items of the children of a collection all stand for collections.
pub proof fn lemma_children_items_kind(
    nodes: Seq<LinkCollectionNode>,
    orders: Seq<Seq<usize>>,
    c: usize,
    k: int,
    run: Seq<usize>,
    fuel: nat,
)
    ensures
        all_collection_nodes(children_items(nodes, orders, c, k, run, fuel)),
    decreases fuel, 1 + orders[c as int].len() - k,
{
    if k < 0 || k >= orders[c as int].len() {
        lemma_bracket_items(run);
    } else {
        let child = orders[c as int][k];
        if nodes[child as int].spec_is_alias() {
            lemma_children_items_kind(nodes, orders, c, k + 1, run.push(child), fuel);
        } else {
            let bracket = if run.len() > 0 {
                collection_bracket(run.push(child))
            } else {
                Seq::empty()
            };
            let own = collection_items(nodes, orders, child, fuel);
            let rest = children_items(nodes, orders, c, k + 1, Seq::empty(), fuel);
            lemma_bracket_items(run.push(child));
            lemma_collection_items_kind(nodes, orders, child, fuel);
            lemma_children_items_kind(nodes, orders, c, k + 1, Seq::empty(), fuel);
            lemma_join_collection_nodes(bracket, own);
            lemma_join_collection_nodes(bracket + own, rest);
        }
    }
}

/// What is pending is the rest of the innermost open collection, its end,
/// and what is pending around it.
pub proof fn lemma_pending_unfold(
    nodes: Seq<LinkCollectionNode>,
    orders: Seq<Seq<usize>>,
    frames: Seq<(usize, usize)>,
    run: Seq<usize>,
    fuel: nat,
)
    requires
        frames.len() > 0,
    ensures
        pending_items(nodes, orders, frames, run, fuel) == children_items(
            nodes,
            orders,
            frames.last().0,
            frames.last().1 as int,
            run,
            fuel,
        ) + seq![MainItemNode::spec_collection(frames.last().0, MainItems::CollectionEnd)]
            + pending_items(nodes, orders, frames.drop_last(), Seq::empty(), fuel + 1),
{
}

proof fn lemma_regroup_end(
    before: Seq<MainItemNode>,
    bracket: Seq<MainItemNode>,
    end: Seq<MainItemNode>,
    outer: Seq<MainItemNode>,
)
    ensures
        before + (bracket + end + outer) == before + bracket + end + outer,
{
    assert(before + (bracket + end + outer) =~= before + bracket + end + outer);
}

proof fn lemma_regroup_descend(
    before: Seq<MainItemNode>,
    bracket: Seq<MainItemNode>,
    open: Seq<MainItemNode>,
    kids: Seq<MainItemNode>,
    child_end: Seq<MainItemNode>,
    siblings: Seq<MainItemNode>,
    end: Seq<MainItemNode>,
    outer: Seq<MainItemNode>,
)
    ensures
        before + (bracket + (open + kids + child_end) + siblings + end + outer) == before + bracket
            + open + (kids + child_end + (siblings + end + outer)),
        before + (bracket + (open + child_end) + siblings + end + outer) == before + bracket + open
            + child_end + (siblings + end + outer),
        (kids + child_end + (siblings + end + outer)).len() < (bracket + (open + kids + child_end)
            + siblings + end + outer).len() + 1 - open.len(),
{
    assert(before + (bracket + (open + kids + child_end) + siblings + end + outer) =~= before
        + bracket + open + (kids + child_end + (siblings + end + outer)));
    assert(before + (bracket + (open + child_end) + siblings + end + outer) =~= before + bracket
        + open + child_end + (siblings + end + outer));
}

/// Writes the opening and the end of every collection into a new list,
/// walking the tree with a stack of the collections that are open.
#[verifier::rlimit(40)]
pub fn collection_main_items(nodes: &[LinkCollectionNode], orders: &Vec<Vec<usize>>) -> (list:
    MainItemList)
    requires
        nodes@.len() >= 1,
        orders@.len() == nodes@.len(),
        forall|c: int, k: int|
            0 <= c < orders@.len() && 0 <= k < orders@[c]@.len() ==> (#[trigger] orders@[c]@[k])
                < nodes@.len(),
    ensures
        list.wf(),
        list@ == all_collection_items(nodes@, lists_view(orders@)),
{
    let n = nodes.len();
    let ghost ord = lists_view(orders@);
    let ghost full = all_collection_items(nodes@, ord);
    let mut list = MainItemList::new();
    append_main_item_node(MainItemNode::collection(0, MainItems::Collection), &mut list);
    let mut frames: Vec<(usize, usize)> = Vec::new();
    let mut run: Vec<usize> = Vec::new();
    let mut fuel: usize = n - 1;
    frames.push((0, 0));
    proof {
        let none = Seq::<MainItemNode>::empty();
        assert(frames@.drop_last() =~= Seq::<(usize, usize)>::empty());
        lemma_pending_unfold(nodes@, ord, frames@, run@, fuel as nat);
        let kids = children_items(nodes@, ord, 0, 0, Seq::empty(), fuel as nat);
        let end = seq![MainItemNode::spec_collection(0, MainItems::CollectionEnd)];
        assert(pending_items(nodes@, ord, Seq::empty(), Seq::empty(), (fuel + 1) as nat) == none);
        assert(run@ =~= Seq::<usize>::empty());
        lemma_regroup_end(list@, none, kids + end, none);
        assert(kids + end + none =~= kids + end);
        assert(none + (kids + end) =~= kids + end);
        assert(list@ + none =~= list@);
        assert(full == list@ + (kids + end));
    }
    while frames.len() > 0
        invariant
            n == nodes@.len(),
            n >= 1,
            orders@.len() == n,
            ord == lists_view(orders@),
            forall|c: int, k: int|
                0 <= c < orders@.len() && 0 <= k < orders@[c]@.len() ==> (
                #[trigger] orders@[c]@[k]) < n,
            list.wf(),
            fuel + frames@.len() == n,
            forall|i: int| 0 <= i < frames@.len() ==> (#[trigger] frames@[i]).0 < n,
            full == list@ + pending_items(nodes@, ord, frames@, run@, fuel as nat),
        decreases
                pending_items(nodes@, ord, frames@, run@, fuel as nat).len(),
                (if frames@.len() > 0 {
                    1 + ord[frames@.last().0 as int].len() - frames@.last().1
                } else {
                    0
                }),
    {
        let depth = frames.len();
        let (c, k) = frames[depth - 1];
        let ghost below = frames@.drop_last();
        let ghost end = seq![MainItemNode::spec_collection(c, MainItems::CollectionEnd)];
        let ghost outer = pending_items(nodes@, ord, below, Seq::empty(), (fuel + 1) as nat);
        let ghost before = list@;
        let ghost kids_now = children_items(nodes@, ord, c, k as int, run@, fuel as nat);
        proof {
            assert(ord[c as int] == orders@[c as int]@);
            lemma_pending_unfold(nodes@, ord, frames@, run@, fuel as nat);
        }
        if k >= orders[c].len() {
            append_bracket(&mut list, &run);
            append_main_item_node(MainItemNode::collection(c, MainItems::CollectionEnd), &mut list);
            proof {
                let bracket = collection_bracket(run@);
                assert(kids_now == bracket);
                assert(list@ =~= before + bracket + end);
                lemma_regroup_end(before, bracket, end, outer);
            }
            frames.pop();
            run = Vec::new();
            fuel += 1;
            proof {
                assert(frames@ =~= below);
                assert(run@ =~= Seq::<usize>::empty());
            }
        } else {
            let child = orders[c][k];
            assert(child == ord[c as int][k as int]);
            frames.set(depth - 1, (c, k + 1));
            assert(frames@.drop_last() =~= below);
            if nodes[child].is_alias() {
                run.push(child);
                proof {
                    lemma_pending_unfold(nodes@, ord, frames@, run@, fuel as nat);
                }
            } else {
                let ghost old_run = run@;
                if run.len() > 0 {
                    run.push(child);
                    append_bracket(&mut list, &run);
                } else {
                    assert(list@ + Seq::<MainItemNode>::empty() =~= list@);
                }
                let ghost bracket = if old_run.len() > 0 {
                    collection_bracket(old_run.push(child))
                } else {
                    Seq::empty()
                };
                append_main_item_node(
                    MainItemNode::collection(child, MainItems::Collection),
                    &mut list,
                );
                run = Vec::new();
                let ghost open = seq![MainItemNode::spec_collection(child, MainItems::Collection)];
                let ghost child_end = seq![
                    MainItemNode::spec_collection(child, MainItems::CollectionEnd),
                ];
                let ghost siblings = children_items(
                    nodes@,
                    ord,
                    c,
                    k + 1,
                    Seq::empty(),
                    fuel as nat,
                );
                proof {
                    assert(run@ =~= Seq::<usize>::empty());
                    assert(list@ =~= before + bracket + open);
                    assert(kids_now == bracket + collection_items(nodes@, ord, child, fuel as nat)
                        + siblings);
                }
                if fuel > 0 {
                    let ghost middle = frames@;
                    frames.push((child, 0));
                    fuel -= 1;
                    proof {
                        let kids = children_items(
                            nodes@,
                            ord,
                            child,
                            0,
                            Seq::empty(),
                            fuel as nat,
                        );
                        assert(frames@.drop_last() =~= middle);
                        assert(middle.drop_last() =~= below);
                        assert(collection_items(nodes@, ord, child, (fuel + 1) as nat) == open
                            + kids + child_end);
                        lemma_pending_unfold(nodes@, ord, middle, Seq::empty(), (fuel + 1) as nat);
                        lemma_pending_unfold(nodes@, ord, frames@, run@, fuel as nat);
                        lemma_regroup_descend(
                            before,
                            bracket,
                            open,
                            kids,
                            child_end,
                            siblings,
                            end,
                            outer,
                        );
                    }
                } else {
                    append_main_item_node(
                        MainItemNode::collection(child, MainItems::CollectionEnd),
                        &mut list,
                    );
                    proof {
                        assert(collection_items(nodes@, ord, child, 0) =~= open + child_end);
                        assert(list@ =~= before + bracket + open + child_end);
                        lemma_pending_unfold(nodes@, ord, frames@, run@, fuel as nat);
                        lemma_regroup_descend(
                            before,
                            bracket,
                            open,
                            Seq::empty(),
                            child_end,
                            siblings,
                            end,
                            outer,
                        );
                    }
                }
            }
        }
    }
    proof {
        assert(list@ + Seq::<MainItemNode>::empty() =~= list@);
    }
    list
}

} // verus!
