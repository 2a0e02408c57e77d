//! The collection tree: what makes the node array a tree, the depth of each
//! collection and the list of its direct children.

use vstd::prelude::*;
use crate::typedefs::LinkCollectionNode;

verus! {

/// The array has a root, and every link stays inside the array.
pub open spec fn links_in_bounds(nodes: Seq<LinkCollectionNode>) -> bool {
    &&& nodes.len() >= 1
    &&& forall|i: int|
        0 <= i < nodes.len() ==> (#[trigger] nodes[i]).parent < nodes.len() && nodes[i].first_child
            < nodes.len() && nodes[i].next_sibling < nodes.len()
}

/// `prefix` in front of `rest`, where there is a rest.
pub open spec fn prepend(prefix: Seq<usize>, rest: Option<Seq<usize>>) -> Option<Seq<usize>> {
    match rest {
        Some(r) => Some(prefix + r),
        None => None,
    }
}

/// The siblings from `start` on, in the order of the `next_sibling` links,
/// which end with 0. Nothing if the links do not end within `fuel` steps.
pub open spec fn sibling_chain(nodes: Seq<LinkCollectionNode>, start: usize, fuel: nat) -> Option<
    Seq<usize>,
>
    decreases fuel,
{
    if start == 0 {
        Some(Seq::empty())
    } else if fuel == 0 {
        None
    } else {
        prepend(
            seq![start],
            sibling_chain(nodes, nodes[start as int].next_sibling as usize, (fuel - 1) as nat),
        )
    }
}

/// The direct children of `c` in the order of the links: `first_child`, then
/// its siblings.
pub open spec fn child_chain(nodes: Seq<LinkCollectionNode>, c: int) -> Option<Seq<usize>> {
    sibling_chain(nodes, nodes[c].first_child as usize, nodes.len())
}

/// Number of `parent` links from `c` to the root. Nothing if the root is not
/// reached within `fuel` steps.
pub open spec fn depth(nodes: Seq<LinkCollectionNode>, c: usize, fuel: nat) -> Option<nat>
    decreases fuel,
{
    if c == 0 {
        Some(0)
    } else if fuel == 0 {
        None
    } else {
        match depth(nodes, nodes[c as int].parent as usize, (fuel - 1) as nat) {
            Some(d) => Some(d + 1),
            None => None,
        }
    }
}

/// The level of collection `c`: 0 for the root, one more for each step down.
pub open spec fn level(nodes: Seq<LinkCollectionNode>, c: int) -> Option<nat> {
    depth(nodes, c as usize, nodes.len())
}

/// The links of collection `c` agree with each other: its child list ends,
/// has as many members as the node says, each of them names `c` as its
/// parent, and `c` itself reaches the root and is in the child list of its
/// parent.
pub open spec fn node_is_consistent(nodes: Seq<LinkCollectionNode>, c: int) -> bool {
    &&& child_chain(nodes, c) matches Some(children) && children.len()
        == nodes[c].number_of_children && forall|j: int|
        0 <= j < children.len() ==> nodes[(#[trigger] children[j]) as int].parent == c
    &&& level(nodes, c) is Some
    &&& c != 0 ==> (child_chain(nodes, nodes[c].parent as int) matches Some(siblings)
        && siblings.contains(c as usize))
}

/// The node array is a tree below node 0: the links stay inside the array,
/// the root has no sibling, and the links of every node agree.
pub open spec fn is_tree(nodes: Seq<LinkCollectionNode>) -> bool {
    &&& links_in_bounds(nodes)
    &&& nodes.len() <= u16::MAX
    &&& nodes[0].next_sibling == 0
    &&& forall|c: int| 0 <= c < nodes.len() ==> #[trigger] node_is_consistent(nodes, c)
}

/// The members of a sibling chain are indices of the array, and none is the
/// root.
pub proof fn lemma_chain_in_bounds(nodes: Seq<LinkCollectionNode>, start: usize, fuel: nat)
    requires
        links_in_bounds(nodes),
        start < nodes.len(),
    ensures
        sibling_chain(nodes, start, fuel) matches Some(chain) ==> forall|k: int|
            0 <= k < chain.len() ==> 0 < (#[trigger] chain[k]) < nodes.len(),
    decreases fuel,
{
    if start != 0 && fuel != 0 {
        lemma_chain_in_bounds(nodes, nodes[start as int].next_sibling as usize, (fuel - 1) as nat);
    }
}

/// Tests that every link of every node is an index of the array.
pub fn check_links(nodes: &[LinkCollectionNode]) -> (ok: bool)
    ensures
        ok == links_in_bounds(nodes@),
{
    let n = nodes.len();
    if n == 0 {
        return false;
    }
    let mut i: usize = 0;
    while i < n
        invariant
            i <= n,
            n == nodes@.len(),
            forall|k: int|
                0 <= k < i ==> (#[trigger] nodes@[k]).parent < n && nodes@[k].first_child < n
                    && nodes@[k].next_sibling < n,
        decreases n - i,
    {
        let node = nodes[i];
        if node.parent as usize >= n || node.first_child as usize >= n || node.next_sibling as usize
            >= n {
            return false;
        }
        i += 1;
    }
    true
}

/// Walks the sibling links from `start`.
pub fn sibling_list(nodes: &[LinkCollectionNode], start: usize) -> (r: Option<Vec<usize>>)
    requires
        links_in_bounds(nodes@),
        start < nodes@.len(),
    ensures
        match sibling_chain(nodes@, start, nodes@.len()) {
            Some(chain) => r matches Some(v) && v@ == chain,
            None => r is None,
        },
{
    let n = nodes.len();
    let mut chain: Vec<usize> = Vec::new();
    let mut cur = start;
    let mut steps: usize = 0;
    while cur != 0
        invariant
            n == nodes@.len(),
            links_in_bounds(nodes@),
            steps <= n,
            cur < n,
            chain@.len() == steps,
            sibling_chain(nodes@, start, n as nat) == prepend(
                chain@,
                sibling_chain(nodes@, cur, (n - steps) as nat),
            ),
        decreases n - steps,
    {
        if steps == n {
            return None;
        }
        let ghost before = chain@;
        chain.push(cur);
        let next = nodes[cur].next_sibling as usize;
        proof {
            let rest = sibling_chain(nodes@, next, (n - steps - 1) as nat);
            assert(sibling_chain(nodes@, cur, (n - steps) as nat) == prepend(seq![cur], rest));
            if rest is Some {
                assert(before + (seq![cur] + rest->0) =~= chain@ + rest->0);
            }
        }
        cur = next;
        steps += 1;
    }
    proof {
        assert(chain@ + Seq::<usize>::empty() =~= chain@);
    }
    Some(chain)
}

/// Counts the steps from `c` up to the root.
pub fn level_of(nodes: &[LinkCollectionNode], c: usize) -> (r: Option<usize>)
    requires
        links_in_bounds(nodes@),
        c < nodes@.len(),
    ensures
        match level(nodes@, c as int) {
            Some(d) => r == Some(d as usize) && d <= nodes@.len(),
            None => r is None,
        },
{
    let n = nodes.len();
    let mut cur = c;
    let mut steps: usize = 0;
    while cur != 0
        invariant
            n == nodes@.len(),
            links_in_bounds(nodes@),
            steps <= n,
            cur < n,
            depth(nodes@, c, n as nat) == (match depth(nodes@, cur, (n - steps) as nat) {
                Some(d) => Some(d + steps as nat),
                None => None,
            }),
        decreases n - steps,
    {
        if steps == n {
            return None;
        }
        cur = nodes[cur].parent as usize;
        steps += 1;
    }
    Some(steps)
}

/// The child list of every collection, or nothing if one of them does not end.
pub fn child_lists(nodes: &[LinkCollectionNode]) -> (r: Option<Vec<Vec<usize>>>)
    requires
        links_in_bounds(nodes@),
    ensures
        r is Some <==> (forall|c: int| 0 <= c < nodes@.len() ==> child_chain(nodes@, c) is Some),
        r matches Some(lists) ==> lists@.len() == nodes@.len() && forall|c: int|
            0 <= c < nodes@.len() ==> child_chain(nodes@, c) == Some((#[trigger] lists@[c])@),
{
    let n = nodes.len();
    let mut lists: Vec<Vec<usize>> = Vec::new();
    let mut c: usize = 0;
    while c < n
        invariant
            n == nodes@.len(),
            links_in_bounds(nodes@),
            c <= n,
            lists@.len() == c,
            forall|k: int| 0 <= k < c ==> child_chain(nodes@, k) == Some((#[trigger] lists@[k])@),
        decreases n - c,
    {
        match sibling_list(nodes, nodes[c].first_child as usize) {
            None => {
                assert(child_chain(nodes@, c as int) is None);
                return None;
            },
            Some(chain) => {
                lists.push(chain);
            },
        }
        c += 1;
    }
    assert forall|k: int| 0 <= k < nodes@.len() implies child_chain(nodes@, k) is Some by {
        assert(child_chain(nodes@, k) == Some(lists@[k]@));
    }
    Some(lists)
}

/// Whether `list` holds `x`.
pub fn list_contains(list: &Vec<usize>, x: usize) -> (found: bool)
    ensures
        found == list@.contains(x),
{
    let mut j: usize = 0;
    while j < list.len()
        invariant
            j <= list@.len(),
            forall|k: int| 0 <= k < j ==> list@[k] != x,
        decreases list@.len() - j,
    {
        if list[j] == x {
            return true;
        }
        j += 1;
    }
    false
}

/// Tests the links of collection `c` against the child lists.
pub fn check_node(nodes: &[LinkCollectionNode], lists: &Vec<Vec<usize>>, c: usize) -> (ok:
    bool)
    requires
        links_in_bounds(nodes@),
        c < nodes@.len(),
        lists@.len() == nodes@.len(),
        forall|k: int|
            0 <= k < nodes@.len() ==> child_chain(nodes@, k) == Some((#[trigger] lists@[k])@),
    ensures
        ok == node_is_consistent(nodes@, c as int),
{
    let children = &lists[c];
    assert(child_chain(nodes@, c as int) == Some(children@));
    if children.len() != nodes[c].number_of_children as usize {
        return false;
    }
    proof {
        lemma_chain_in_bounds(nodes@, nodes@[c as int].first_child as usize, nodes@.len());
        let chain = sibling_chain(nodes@, nodes@[c as int].first_child as usize, nodes@.len());
        assert(chain == Some(children@));
        assert forall|k: int| 0 <= k < children@.len() implies (#[trigger] children@[k])
            < nodes@.len() by {
            assert(0 < chain->0[k] < nodes@.len());
        }
    }
    let mut j: usize = 0;
    while j < children.len()
        invariant
            j <= children@.len(),
            c < nodes@.len(),
            links_in_bounds(nodes@),
            child_chain(nodes@, c as int) == Some(children@),
            forall|k: int| 0 <= k < children@.len() ==> (#[trigger] children@[k]) < nodes@.len(),
            forall|k: int| 0 <= k < j ==> nodes@[(#[trigger] children@[k]) as int].parent == c,
        decreases children@.len() - j,
    {
        if nodes[children[j]].parent as usize != c {
            return false;
        }
        j += 1;
    }
    if level_of(nodes, c).is_none() {
        return false;
    }
    if c != 0 {
        let p = nodes[c].parent as usize;
        assert(child_chain(nodes@, p as int) == Some(lists@[p as int]@));
        if !list_contains(&lists[p], c) {
            return false;
        }
    }
    true
}

/// Tests that the node array is a tree and returns the child list of every
/// collection, each in the order of the links.
pub fn check_tree(nodes: &[LinkCollectionNode]) -> (r: Option<Vec<Vec<usize>>>)
    ensures
        r is Some == is_tree(nodes@),
        r matches Some(lists) ==> lists@.len() == nodes@.len() && forall|c: int|
            0 <= c < nodes@.len() ==> child_chain(nodes@, c) == Some((#[trigger] lists@[c])@),
{
    if !check_links(nodes) {
        return None;
    }
    let n = nodes.len();
    if n > 0xffff || nodes[0].next_sibling != 0 {
        return None;
    }
    let lists = match child_lists(nodes) {
        None => {
            proof {
                let c = choose|c: int| 0 <= c < nodes@.len() && !(child_chain(nodes@, c) is Some);
                assert(!node_is_consistent(nodes@, c));
            }
            return None;
        },
        Some(lists) => lists,
    };
    let mut c: usize = 0;
    while c < n
        invariant
            n == nodes@.len(),
            links_in_bounds(nodes@),
            c <= n,
            lists@.len() == n,
            forall|k: int| 0 <= k < n ==> child_chain(nodes@, k) == Some((#[trigger] lists@[k])@),
            forall|k: int| 0 <= k < c ==> #[trigger] node_is_consistent(nodes@, k),
        decreases n - c,
    {
        if !check_node(nodes, &lists, c) {
            return None;
        }
        c += 1;
    }
    Some(lists)
}

} // verus!
