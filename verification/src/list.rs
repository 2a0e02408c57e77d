//! The list of main items: an arena of nodes, each with the index of the
//! node that follows it, so that an item can be put behind any other without
//! moving the rest.

use vstd::prelude::*;
use crate::types::{MainItemNode, MainItems};

verus! {

/// One node of the arena: the item and the handle of the node after it.
#[derive(Clone, Copy)]
struct ListSlot {
    node: MainItemNode,
    next: Option<usize>,
}

/// An ordered list of main items. A handle names a node and stays valid
/// while items are added; the view is the sequence of the items in list order.
pub struct MainItemList {
    slots: Vec<ListSlot>,
    head: Option<usize>,
    tail: Option<usize>,
    order: Ghost<Seq<usize>>,
    place: Ghost<Seq<int>>,
}

/// Whether a search that looks for the place of a field of report `report_id`
/// and kind `main_item_type` beginning at `search_bit` stops in front of `next`:
/// at a collection's opening or end, or at an item of the same report that
/// reaches `search_bit`.
pub open spec fn stops_search(
    next: MainItemNode,
    search_bit: u64,
    main_item_type: MainItems,
    report_id: u8,
) -> bool {
    next.main_item_type.spec_is_collection_boundary() || (next.last_bit >= search_bit
        && next.report_id == report_id && next.main_item_type == main_item_type)
}

/// The position at which a search that starts at `pos` comes to rest: the first
/// position from `pos` on whose successor stops the search or does not exist.
pub open spec fn search_from(
    items: Seq<MainItemNode>,
    pos: int,
    search_bit: u64,
    main_item_type: MainItems,
    report_id: u8,
) -> int
    decreases items.len() - pos,
{
    if pos < 0 || pos + 1 >= items.len() {
        pos
    } else if stops_search(items[pos + 1], search_bit, main_item_type, report_id) {
        pos
    } else {
        search_from(items, pos + 1, search_bit, main_item_type, report_id)
    }
}

impl View for MainItemList {
    type V = Seq<MainItemNode>;

    closed spec fn view(&self) -> Seq<MainItemNode> {
        Seq::new(self.order@.len(), |p: int| self.slots@[self.order@[p] as int].node)
    }
}

impl MainItemList {
    /// The links of the arena are those of a list that holds every node once.
    pub closed spec fn wf(&self) -> bool {
        let n = self.slots@.len();
        &&& self.order@.len() == n
        &&& self.place@.len() == n
        &&& forall|p: int|
            0 <= p < n ==> (#[trigger] self.order@[p]) < n && self.place@[self.order@[p] as int]
                == p
        &&& forall|h: int|
            0 <= h < n ==> 0 <= (#[trigger] self.place@[h]) < n && self.order@[self.place@[h]]
                == h
        &&& self.head == (if n == 0 {
            None
        } else {
            Some(self.order@[0])
        })
        &&& self.tail == (if n == 0 {
            None
        } else {
            Some(self.order@[n - 1])
        })
        &&& forall|p: int|
            0 <= p < n ==> (#[trigger] self.slots@[self.order@[p] as int]).next == (if p + 1 < n {
                Some(self.order@[p + 1])
            } else {
                None
            })
    }

    /// The handle of the node at each position of the list.
    pub closed spec fn handles(&self) -> Seq<usize> {
        self.order@
    }

    /// The position in the list of the node with handle `h`.
    pub closed spec fn position(&self, h: usize) -> int {
        self.place@[h as int]
    }

    /// Handles are the numbers below the length, and `handles` and `position`
    /// undo each other.
    pub proof fn lemma_handles(&self)
        requires
            self.wf(),
        ensures
            self.handles().len() == self@.len(),
            forall|p: int|
                0 <= p < self@.len() ==> (#[trigger] self.handles()[p]) < self@.len()
                    && self.position(self.handles()[p]) == p,
            forall|h: usize|
                h < self@.len() ==> 0 <= (#[trigger] self.position(h)) < self@.len()
                    && self.handles()[self.position(h)] == h,
    {
        assert forall|h: usize| h < self@.len() implies 0 <= (#[trigger] self.position(h))
            < self@.len() && self.handles()[self.position(h)] == h by {
            assert(0 <= self.place@[h as int] < self@.len());
        }
    }

    pub fn new() -> (list: MainItemList)
        ensures
            list.wf(),
            list@ == Seq::<MainItemNode>::empty(),
    {
        MainItemList {
            slots: Vec::new(),
            head: None,
            tail: None,
            order: Ghost(Seq::empty()),
            place: Ghost(Seq::empty()),
        }
    }

    pub fn len(&self) -> (n: usize)
        requires
            self.wf(),
        ensures
            n == self@.len(),
    {
        self.slots.len()
    }

    /// The handle of the first node, if the list has one.
    pub fn first(&self) -> (h: Option<usize>)
        requires
            self.wf(),
        ensures
            h == (if self@.len() == 0 {
                None
            } else {
                Some(self.handles()[0])
            }),
    {
        self.head
    }

    /// The handle of the node behind the node `h`, if there is one.
    pub fn next(&self, h: usize) -> (n: Option<usize>)
        requires
            self.wf(),
            h < self@.len(),
        ensures
            n == (if self.position(h) + 1 < self@.len() {
                Some(self.handles()[self.position(h) + 1])
            } else {
                None
            }),
    {
        proof {
            let p = self.place@[h as int];
            assert(self.order@[p] == h);
        }
        self.slots[h].next
    }

    /// The item of the node `h`.
    pub fn node(&self, h: usize) -> (node: MainItemNode)
        requires
            self.wf(),
            h < self@.len(),
        ensures
            node == self@[self.position(h)],
    {
        proof {
            let p = self.place@[h as int];
            assert(self.order@[p] == h);
        }
        self.slots[h].node
    }

    /// The items in list order.
    pub fn to_vec(&self) -> (items: Vec<MainItemNode>)
        requires
            self.wf(),
        ensures
            items@ == self@,
    {
        let mut items: Vec<MainItemNode> = Vec::new();
        let mut cur = self.head;
        let ghost mut p: int = 0;
        while cur.is_some()
            invariant
                self.wf(),
                0 <= p <= self@.len(),
                cur == (if p < self@.len() {
                    Some(self.order@[p])
                } else {
                    None
                }),
                items@ == self@.take(p),
            decreases self@.len() - p,
        {
            let h = cur.unwrap();
            assert(self.slots@[self.order@[p] as int].next == (if p + 1 < self@.len() {
                Some(self.order@[p + 1])
            } else {
                None
            }));
            items.push(self.slots[h].node);
            cur = self.slots[h].next;
            proof {
                assert(self@.take(p + 1) == self@.take(p).push(self@[p]));
                p = p + 1;
            }
        }
        assert(self@.take(p) == self@);
        items
    }
}

/// Puts `node` at the end of `list` and returns its handle.
pub fn append_main_item_node(node: MainItemNode, list: &mut MainItemList) -> (h: usize)
    requires
        old(list).wf(),
    ensures
        final(list).wf(),
        final(list)@ == old(list)@.push(node),
        final(list).handles() == old(list).handles().push(h),
        h == old(list)@.len(),
        forall|k: usize| k < old(list)@.len() ==> final(list).position(k) == old(list).position(k),
        final(list).position(h) == old(list)@.len(),
{
    let h = list.slots.len();
    let ghost n = h as int;
    let ghost old_order = list.order@;
    let ghost old_place = list.place@;
    let ghost old_slots = list.slots@;
    match list.tail {
        None => {
            list.slots.push(ListSlot { node, next: None });
            list.head = Some(h);
        },
        Some(t) => {
            assert(t == old_order[n - 1]);
            let last = list.slots[t];
            list.slots.set(t, ListSlot { node: last.node, next: Some(h) });
            list.slots.push(ListSlot { node, next: None });
        },
    }
    list.tail = Some(h);
    proof {
        list.order@ = old_order.push(h);
        list.place@ = old_place.push(n);
        assert forall|p: int| 0 <= p < n + 1 implies (#[trigger] list.slots@[list.order@[p] as int]).next
            == (if p + 1 < n + 1 {
            Some(list.order@[p + 1])
        } else {
            None
        }) by {
            if p < n {
                assert(old_order[p] < n);
                assert(old_slots[old_order[p] as int].next == (if p + 1 < n {
                    Some(old_order[p + 1])
                } else {
                    None
                }));
                if p + 1 < n {
                    assert(old_place[old_order[p] as int] == p);
                    assert(old_place[old_order[n - 1] as int] == n - 1);
                }
            }
        }
        assert forall|p: int| 0 <= p < n + 1 implies (#[trigger] list.order@[p]) < n + 1
            && list.place@[list.order@[p] as int] == p by {
            if p < n {
                assert(old_order[p] < n);
            }
        }
        assert forall|x: int| 0 <= x < n + 1 implies 0 <= (#[trigger] list.place@[x]) < n + 1
            && list.order@[list.place@[x]] == x by {
            if x < n {
                assert(0 <= old_place[x] < n);
            }
        }
        assert(list@ =~= old(list)@.push(node)) by {
            assert forall|p: int| 0 <= p < n implies list@[p] == old(list)@[p] by {
                assert(old_order[p] < n);
                assert(old_place[old_order[p] as int] == p);
                if n > 0 {
                    assert(old_place[old_order[n - 1] as int] == n - 1);
                }
            }
        }
    }
    h
}

/// Puts `node` directly behind the node `after` and returns its handle.
pub fn insert_main_item_node(node: MainItemNode, list: &mut MainItemList, after: usize) -> (h:
    usize)
    requires
        old(list).wf(),
        after < old(list)@.len(),
    ensures
        final(list).wf(),
        final(list)@ == old(list)@.insert(old(list).position(after) + 1, node),
        final(list).handles() == old(list).handles().insert(old(list).position(after) + 1, h),
        h == old(list)@.len(),
        forall|k: usize|
            k < old(list)@.len() ==> final(list).position(k) == (if old(list).position(k) <= old(
                list,
            ).position(after) {
                old(list).position(k)
            } else {
                old(list).position(k) + 1
            }),
        final(list).position(h) == old(list).position(after) + 1,
{
    let h = list.slots.len();
    let ghost n = h as int;
    let ghost old_order = list.order@;
    let ghost old_place = list.place@;
    let ghost old_slots = list.slots@;
    let ghost q = old_place[after as int];
    assert(0 <= q < n && old_order[q] == after);
    let prev = list.slots[after];
    assert(prev.next == (if q + 1 < n {
        Some(old_order[q + 1])
    } else {
        None
    }));
    list.slots.set(after, ListSlot { node: prev.node, next: Some(h) });
    list.slots.push(ListSlot { node, next: prev.next });
    if prev.next.is_none() {
        list.tail = Some(h);
    }
    proof {
        list.order@ = old_order.insert(q + 1, h);
        list.place@ = Seq::new(
            (n + 1) as nat,
            |x: int|
                if x == n {
                    q + 1
                } else if old_place[x] <= q {
                    old_place[x]
                } else {
                    old_place[x] + 1
                },
        );
        let order = list.order@;
        let place = list.place@;
        assert forall|p: int| 0 <= p < n + 1 implies (#[trigger] order[p]) < n + 1 && place[order[p] as int]
            == p by {
            if p <= q {
                assert(order[p] == old_order[p]);
                assert(old_order[p] < n && old_place[old_order[p] as int] == p);
            } else if p == q + 1 {
            } else {
                assert(order[p] == old_order[p - 1]);
                assert(old_order[p - 1] < n && old_place[old_order[p - 1] as int] == p - 1);
            }
        }
        assert forall|x: int| 0 <= x < n + 1 implies 0 <= (#[trigger] place[x]) < n + 1
            && order[place[x]] == x by {
            if x < n {
                assert(0 <= old_place[x] < n && old_order[old_place[x]] == x);
            }
        }
        assert forall|p: int| 0 <= p < n + 1 implies (#[trigger] list.slots@[order[p] as int]).next == (
        if p + 1 < n + 1 {
            Some(order[p + 1])
        } else {
            None
        }) by {
            if p < q {
                assert(order[p] == old_order[p]);
                assert(old_order[p] < n && old_place[old_order[p] as int] == p);
                assert(old_slots[old_order[p] as int].next == Some(old_order[p + 1]));
            } else if p == q {
            } else if p == q + 1 {
                if q + 1 < n {
                    assert(order[p + 1] == old_order[q + 1]);
                }
            } else {
                assert(order[p] == old_order[p - 1]);
                assert(old_order[p - 1] < n && old_place[old_order[p - 1] as int] == p - 1);
                assert(old_slots[old_order[p - 1] as int].next == (if p < n {
                    Some(old_order[p])
                } else {
                    None
                }));
                if p < n {
                    assert(order[p + 1] == old_order[p]);
                }
            }
        }
        assert(list.tail == Some(order[n])) by {
            if q + 1 < n {
                assert(order[n] == old_order[n - 1]);
            }
        }
        assert(list.head == Some(order[0])) by {
            assert(order[0] == old_order[0]);
        }
        assert(list@ =~= old(list)@.insert(q + 1, node)) by {
            assert forall|p: int| 0 <= p < n + 1 implies list@[p] == old(list)@.insert(q + 1, node)[p] by {
                if p <= q {
                    assert(order[p] == old_order[p]);
                    assert(old_order[p] < n && old_place[old_order[p] as int] == p);
                } else if p == q + 1 {
                } else {
                    assert(order[p] == old_order[p - 1]);
                    assert(old_order[p - 1] < n && old_place[old_order[p - 1] as int] == p - 1);
                }
            }
        }
    }
    h
}

/// Walks from the node `start` to the node behind which a field of report
/// `report_id` and kind `main_item_type` that begins at `search_bit` belongs:
/// it goes on while the next node is neither a collection's opening or end
/// nor an item of that report and kind that reaches `search_bit`.
pub fn search_list(
    search_bit: u64,
    main_item_type: MainItems,
    report_id: u8,
    list: &MainItemList,
    start: usize,
) -> (found: usize)
    requires
        list.wf(),
        start < list@.len(),
    ensures
        found < list@.len(),
        list.position(found) == search_from(
            list@,
            list.position(start),
            search_bit,
            main_item_type,
            report_id,
        ),
{
    let mut cur = start;
    proof {
        list.lemma_handles();
    }
    loop
        invariant
            list.wf(),
            cur < list@.len(),
            0 <= list.position(cur) < list@.len(),
            search_from(list@, list.position(start), search_bit, main_item_type, report_id)
                == search_from(list@, list.position(cur), search_bit, main_item_type, report_id),
        ensures
            cur < list@.len(),
            list.position(cur) == search_from(
                list@,
                list.position(start),
                search_bit,
                main_item_type,
                report_id,
            ),
        decreases list@.len() - list.position(cur),
    {
        proof {
            list.lemma_handles();
        }
        match list.next(cur) {
            None => {
                break ;
            },
            Some(n) => {
                let next = list.node(n);
                if next.main_item_type.is_collection_boundary() || (next.last_bit >= search_bit
                    && next.report_id == report_id && next.main_item_type == main_item_type) {
                    break ;
                }
                cur = n;
            },
        }
    }
    cur
}

} // verus!
