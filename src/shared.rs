//! A singly linked list whose nodes live in an arena and are linked by handle.
//!
//! The list keeps a handle to its first and to its last node, its length, and
//! a flag `ordered` that tells whether every node's stored `index` matches its
//! position. Operations that shift positions either renumber at once or only
//! clear the flag, leaving the renumbering to `update_indices`.
//!
//! A node that leaves the list stays in the arena, so a handle handed out
//! earlier never dangles.
use vstd::prelude::*;

use vstd::std_specs::cmp::PartialEqSpec;

use crate::error::ListError;

verus! {

/// One element of a `LinkedList`: its stored position, its value and the
/// handle of the node that follows it.
#[derive(Clone, PartialEq, Debug)]
pub struct Node<T> {
    pub index: Option<usize>,
    pub data: Option<T>,
    pub next: Option<usize>,
}

impl<T> Node<T> {
    /// A node with no position, no value and no successor.
    pub fn new() -> (r: Node<T>)
        ensures
            r.index is None,
            r.data is None,
            r.next is None,
    {
        Node { data: None, next: None, index: None }
    }

    /// A node at position `index` holding `data`, with no successor.
    pub fn from(index: usize, data: T) -> (r: Node<T>)
        ensures
            r.index == Some(index),
            r.data == Some(data),
            r.next is None,
    {
        Node { data: Some(data), next: None, index: Some(index) }
    }
}

/// The handles met by following `next` links from `start`, at most `fuel` of
/// them; the walk also stops at a missing link or at a handle outside `nodes`.
pub open spec fn walk<T>(nodes: Seq<Node<T>>, start: Option<usize>, fuel: nat) -> Seq<usize>
    decreases fuel,
{
    if fuel == 0 {
        Seq::empty()
    } else {
        match start {
            Some(h) => if h < nodes.len() {
                seq![h] + walk(nodes, nodes[h as int].next, (fuel - 1) as nat)
            } else {
                Seq::empty()
            },
            None => Seq::empty(),
        }
    }
}

/// `hs` is a chain in `nodes`: each handle is in range, each node links to
/// the next handle of `hs`, and the last one links nowhere.
pub open spec fn links<T>(nodes: Seq<Node<T>>, hs: Seq<usize>) -> bool {
    &&& forall|i: int| 0 <= i < hs.len() ==> #[trigger] hs[i] < nodes.len()
    &&& forall|i: int|
        0 <= i < hs.len() - 1 ==> #[trigger] nodes[hs[i] as int].next == Some(hs[i + 1])
    &&& hs.len() > 0 ==> nodes[hs.last() as int].next is None
}

/// The first handle of `hs`, if any.
pub open spec fn first_of(hs: Seq<usize>) -> Option<usize> {
    if hs.len() == 0 {
        None
    } else {
        Some(hs[0])
    }
}

/// Following the links of a chain from its first handle meets exactly the chain.
proof fn lemma_walk_follows_links<T>(nodes: Seq<Node<T>>, hs: Seq<usize>)
    requires
        links(nodes, hs),
    ensures
        walk(nodes, first_of(hs), hs.len()) == hs,
    decreases hs.len(),
{
    if hs.len() > 0 {
        let rest = hs.drop_first();
        assert forall|i: int| 0 <= i < rest.len() - 1 implies #[trigger] nodes[rest[i] as int].next
            == Some(rest[i + 1]) by {
            assert(nodes[hs[i + 1] as int].next == Some(hs[i + 2]));
        }
        assert forall|i: int| 0 <= i < rest.len() implies #[trigger] rest[i] < nodes.len() by {
            assert(hs[i + 1] < nodes.len());
        }
        lemma_walk_follows_links(nodes, rest);
        if hs.len() > 1 {
            assert(nodes[hs[0] as int].next == Some(hs[1]));
        }
        assert(walk(nodes, first_of(hs), hs.len()) =~= hs);
    }
}

/// Linking a fresh node `handle` right after position `pos` of a chain gives
/// a chain with `handle` at position `pos + 1`; every other node of the chain
/// keeps its value and index.
proof fn lemma_links_insert<T>(
    nodes: Seq<Node<T>>,
    after: Seq<Node<T>>,
    hs: Seq<usize>,
    pos: int,
    handle: usize,
)
    requires
        links(nodes, hs),
        hs.no_duplicates(),
        0 <= pos < hs.len(),
        handle == nodes.len(),
        after.len() == nodes.len() + 1,
        after[handle as int].next == nodes[hs[pos] as int].next,
        after[hs[pos] as int].next == Some(handle),
        after[hs[pos] as int].data == nodes[hs[pos] as int].data,
        after[hs[pos] as int].index == nodes[hs[pos] as int].index,
        forall|h: int| 0 <= h < nodes.len() && h != hs[pos] ==> #[trigger] after[h] == nodes[h],
    ensures
        links(after, hs.insert(pos + 1, handle)),
        hs.insert(pos + 1, handle).no_duplicates(),
        forall|i: int|
            0 <= i < hs.len() ==> (#[trigger] after[hs[i] as int]).data == nodes[hs[i] as int].data
                && after[hs[i] as int].index == nodes[hs[i] as int].index,
{
    let new_hs = hs.insert(pos + 1, handle);
    assert forall|i: int| 0 <= i < hs.len() implies (#[trigger] after[hs[i] as int]).data
        == nodes[hs[i] as int].data && after[hs[i] as int].index == nodes[hs[i] as int].index by {
        assert(hs[i] < nodes.len());
    }
    assert forall|i: int| 0 <= i < new_hs.len() - 1 implies #[trigger] after[new_hs[i] as int].next
        == Some(new_hs[i + 1]) by {
        if i < pos {
            assert(nodes[hs[i] as int].next == Some(hs[i + 1]));
            assert(hs[i] != hs[pos]);
            assert(hs[i] < nodes.len());
        } else if i == pos + 1 {
            assert(nodes[hs[pos] as int].next == Some(hs[pos + 1]));
        } else if i > pos + 1 {
            assert(new_hs[i] == hs[i - 1]);
            assert(nodes[hs[i - 1] as int].next == Some(hs[i]));
            assert(hs[i - 1] != hs[pos]);
            assert(hs[i - 1] < nodes.len());
        }
    }
    assert(hs[hs.len() - 1] == hs.last());
    if pos + 1 < hs.len() {
        assert(new_hs.last() == hs.last());
        assert(hs.last() != hs[pos]);
        assert(hs.last() < nodes.len());
    }
    assert forall|i: int| 0 <= i < new_hs.len() implies #[trigger] new_hs[i] < after.len() by {
        if i < pos + 1 {
            assert(hs[i] < nodes.len());
        } else if i > pos + 1 {
            assert(new_hs[i] == hs[i - 1]);
            assert(hs[i - 1] < nodes.len());
        }
    }
    assert forall|i: int, j: int| 0 <= i < j < new_hs.len() implies new_hs[i] != new_hs[j] by {
        if i < pos + 1 {
            assert(hs[i] < nodes.len());
        } else if i > pos + 1 {
            assert(new_hs[i] == hs[i - 1]);
        }
        if j > pos + 1 {
            assert(new_hs[j] == hs[j - 1]);
            assert(hs[j - 1] < nodes.len());
        }
    }
}

/// A singly linked list with a tail handle and a flag that records whether the
/// stored indices are current.
#[derive(Debug)]
pub struct LinkedList<T> {
    pub head: Option<usize>,
    pub tail: Option<usize>,
    pub length: usize,
    pub ordered: bool,
    /// Every node ever added to this list, reachable from `head` or not.
    pub nodes: Vec<Node<T>>,
}

impl<T> View for LinkedList<T> {
    type V = Seq<T>;

    /// The values of the list, from head to tail.
    open spec fn view(&self) -> Seq<T> {
        self.chain().map_values(|h: usize| self.nodes@[h as int].data.unwrap())
    }
}

impl<T> LinkedList<T> {
    /// The handles of the nodes of the list, from head to tail.
    pub open spec fn chain(self) -> Seq<usize> {
        walk(self.nodes@, self.head, self.length as nat)
    }

    /// The stored index of each node of the list, from head to tail.
    pub open spec fn indices(self) -> Seq<Option<usize>> {
        self.chain().map_values(|h: usize| self.nodes@[h as int].index)
    }

    /// The node at position `i` of the list.
    pub open spec fn node_at(self, i: int) -> Node<T> {
        self.nodes@[self.chain()[i] as int]
    }

    /// `length` nodes, each met once, are linked from `head`; each holds a
    /// value; head and tail are both absent exactly when the list is empty.
    /// The tail handle itself may be out of date.
    pub open spec fn well_linked(self) -> bool {
        &&& self.chain().len() == self.length
        &&& links(self.nodes@, self.chain())
        &&& self.chain().no_duplicates()
        &&& (self.head is None <==> self.length == 0)
        &&& (self.tail is None <==> self.length == 0)
        &&& forall|i: int| 0 <= i < self.length ==> (#[trigger] self.node_at(i)).data is Some
    }

    /// Every stored index equals its node's position.
    pub open spec fn indices_match(self) -> bool {
        forall|i: int| 0 <= i < self.length ==> #[trigger] self.indices()[i] == Some(i as usize)
    }

    /// The list invariant: well linked, the tail is the last node, and the
    /// indices are current whenever the list says so.
    pub open spec fn wf(self) -> bool {
        &&& self.well_linked()
        &&& self.length > 0 ==> self.tail == Some(self.chain().last())
        &&& self.ordered ==> self.indices_match()
    }

    /// `after` is this list with every index renumbered: an ordered list is
    /// left as it is; otherwise each node of the chain gets its position as
    /// index, the tail becomes the last node, the flag is set, and nothing
    /// else changes.
    pub open spec fn reconciles(self, after: Self) -> bool {
        if self.ordered {
            after == self
        } else {
            &&& after.wf()
            &&& after.ordered
            &&& after.head == self.head
            &&& after.length == self.length
            &&& after.chain() == self.chain()
            &&& after.nodes@.len() == self.nodes@.len()
            &&& forall|i: int|
                0 <= i < self.length ==> {
                    &&& (#[trigger] after.node_at(i)).index == Some(i as usize)
                    &&& after.node_at(i).data == self.node_at(i).data
                    &&& after.node_at(i).next == self.node_at(i).next
                }
            &&& forall|h: usize|
                h < self.nodes@.len() && !self.chain().contains(h) ==> #[trigger] after.nodes@[h as int]
                    == self.nodes@[h as int]
        }
    }

    /// An empty, ordered list.
    pub fn new() -> (r: Self)
        ensures
            r.wf(),
            r.ordered,
            r.length == 0,
            r.head is None,
            r.tail is None,
            r@ == Seq::<T>::empty(),
    {
        let r = LinkedList { head: None, tail: None, length: 0, ordered: true, nodes: Vec::new() };
        assert(r.chain() =~= Seq::<usize>::empty());
        assert(r@ =~= Seq::<T>::empty());
        r
    }

    /// Whether the list has no node.
    pub fn is_empty(&self) -> (r: bool)
        ensures
            r == (self.length == 0),
    {
        if self.length > 0 {
            return false;
        }
        true
    }

    /// Renumbers the nodes so that each index equals its position, and points
    /// the tail at the last node reached. Does nothing to an ordered list.
    pub fn update_indices(&mut self)
        requires
            old(self).well_linked(),
            old(self).ordered ==> old(self).wf(),
        ensures
            old(self).reconciles(*final(self)),
            final(self).wf(),
            final(self).ordered,
            final(self)@ == old(self)@,
            final(self).chain() == old(self).chain(),
            final(self).length == old(self).length,
            final(self).indices_match(),
    {
        if self.ordered {
            return;
        }
        if self.length == 0 {
            self.ordered = true;
            assert(self.chain() =~= Seq::<usize>::empty());
            return;
        }
        let ghost hs = self.chain();
        let ghost old_nodes = self.nodes@;
        let mut current: usize = match self.head {
            Some(h) => h,
            None => 0,
        };
        let mut count: usize = 0;
        while count < self.length
            invariant
                self.length == old(self).length,
                self.head == old(self).head,
                !self.ordered,
                hs == old(self).chain(),
                old_nodes == old(self).nodes@,
                old(self).well_linked(),
                self.length > 0,
                0 <= count <= self.length,
                count < self.length ==> current == hs[count as int],
                self.nodes@.len() == old_nodes.len(),
                forall|i: int|
                    0 <= i < count ==> {
                        &&& (#[trigger] self.nodes@[hs[i] as int]).index == Some(i as usize)
                        &&& self.nodes@[hs[i] as int].data == old_nodes[hs[i] as int].data
                        &&& self.nodes@[hs[i] as int].next == old_nodes[hs[i] as int].next
                    },
                forall|h: usize|
                    h < old_nodes.len() && !hs.subrange(0, count as int).contains(h)
                        ==> #[trigger] self.nodes@[h as int] == old_nodes[h as int],
                count == self.length ==> self.tail == Some(hs.last()),
                self.tail is Some,
            decreases self.length - count,
        {
            proof {
                assert(hs[count as int] < old_nodes.len());
            }
            self.nodes[current].index = Some(count);
            match self.nodes[current].next {
                Some(n) => {
                    proof {
                        if count + 1 < self.length {
                            assert(old_nodes[hs[count as int] as int].next == Some(hs[count + 1]));
                        } else {
                            assert(hs[count as int] == hs.last());
                        }
                    }
                    current = n;
                },
                None => {
                    proof {
                        if count + 1 < self.length {
                            assert(old_nodes[hs[count as int] as int].next == Some(hs[count + 1]));
                        }
                    }
                    self.tail = Some(current);
                },
            }
            proof {
                assert forall|h: usize|
                    h < old_nodes.len() && !hs.subrange(0, count + 1).contains(h)
                        implies #[trigger] self.nodes@[h as int] == old_nodes[h as int] by {
                    assert(hs.subrange(0, count + 1)[count as int] == hs[count as int]);
                    if hs.subrange(0, count as int).contains(h) {
                        let k = choose|k: int| 0 <= k < count && hs.subrange(0, count as int)[k] == h;
                        assert(hs.subrange(0, count + 1)[k] == h);
                    }
                }
                assert forall|i: int| 0 <= i < count implies hs[i] != hs[count as int] by {}
            }
            count = count + 1;
        }
        self.ordered = true;
        proof {
            assert forall|i: int| 0 <= i < hs.len() - 1 implies #[trigger] self.nodes@[hs[i] as int].next
                == Some(hs[i + 1]) by {
                assert(old_nodes[hs[i] as int].next == Some(hs[i + 1]));
            }
            assert(self.nodes@[hs.last() as int].next is None) by {
                assert(hs[hs.len() - 1] == hs.last());
            }
            assert(links(self.nodes@, hs));
            lemma_walk_follows_links(self.nodes@, hs);
            assert(self.chain() == hs);
            assert(hs.subrange(0, self.length as int) =~= hs);
            assert forall|i: int| 0 <= i < self.length implies #[trigger] self.indices()[i] == Some(i as usize) by {}
            assert forall|i: int| 0 <= i < self.length implies (#[trigger] self.node_at(i)).data is Some by {
                assert(old(self).node_at(i).data is Some);
            }
            assert(self@ =~= old(self)@);
        }
    }

    /// A list holding the values of `data_vec` in order, node `i` with index
    /// `i`.
    pub fn from(data_vec: Vec<T>) -> (r: Self)
        ensures
            r.wf(),
            r.ordered,
            r@ == data_vec@,
            r.length == data_vec.len(),
            r.indices_match(),
            data_vec.len() == 0 ==> r.head is None && r.tail is None,
    {
        let ghost values = data_vec@;
        proof {
            assert(values.len() == data_vec.len());
        }
        let mut list: LinkedList<T> = LinkedList::new();
        for data in iter: data_vec
            invariant
                iter.seq() == values,
                values.len() <= usize::MAX,
                list.wf(),
                list.ordered,
                list.length == iter.index(),
                list@ == values.take(iter.index() as int),
        {
            list.push_to_end(data);
            proof {
                assert(values.take(iter.index() + 1) =~= values.take(iter.index() as int).push(data));
            }
        }
        proof {
            assert(values.take(values.len() as int) =~= values);
        }
        list
    }

    /// Puts `data` before the first node with index 0 and leaves the other
    /// indices as they are; the list is then no longer ordered.
    pub fn unordered_push_to_front(&mut self, data: T)
        requires
            old(self).wf(),
            old(self).length < usize::MAX,
        ensures
            final(self).wf(),
            !final(self).ordered,
            final(self)@ == seq![data] + old(self)@,
            final(self).indices() == seq![Some(0usize)] + old(self).indices(),
            final(self).chain() == seq![old(self).nodes@.len() as usize] + old(self).chain(),
            final(self).length == old(self).length + 1,
            final(self).nodes@.len() == old(self).nodes@.len() + 1,
    {
        let ghost hs = self.chain();
        let handle = self.nodes.len();
        let mut node: Node<T> = Node::from(0, data);
        node.next = self.head;
        self.nodes.push(node);
        self.head = Some(handle);
        if self.tail.is_none() {
            self.tail = self.head;
        }
        self.length = self.length + 1;
        self.ordered = false;
        proof {
            let new_hs = seq![handle] + hs;
            assert(hs.len() > 0 ==> self.nodes@[handle as int].next == Some(hs[0]));
            assert forall|i: int| 0 <= i < hs.len() implies #[trigger] self.nodes@[hs[i] as int]
                == old(self).nodes@[hs[i] as int] by {
                assert(hs[i] < old(self).nodes@.len());
            }
            assert forall|i: int| 0 <= i < new_hs.len() - 1 implies #[trigger] self.nodes@[new_hs[i] as int].next
                == Some(new_hs[i + 1]) by {
                if i > 0 {
                    assert(new_hs[i] == hs[i - 1]);
                    assert(old(self).nodes@[hs[i - 1] as int].next == Some(hs[i]));
                }
            }
            if hs.len() > 0 {
                assert(new_hs.last() == hs.last());
                assert(hs[hs.len() - 1] == hs.last());
            }
            assert forall|i: int| 0 <= i < new_hs.len() implies #[trigger] new_hs[i] < self.nodes@.len() by {
                if i > 0 {
                    assert(new_hs[i] == hs[i - 1]);
                }
            }
            assert(links(self.nodes@, new_hs));
            lemma_walk_follows_links(self.nodes@, new_hs);
            assert(self.chain() == new_hs);
            assert forall|i: int, j: int| 0 <= i < j < new_hs.len() implies new_hs[i] != new_hs[j] by {
                if i > 0 {
                    assert(new_hs[i] == hs[i - 1]);
                }
                assert(new_hs[j] == hs[j - 1]);
            }
            assert(new_hs.no_duplicates());
            assert forall|i: int| 0 <= i < self.length implies (#[trigger] self.node_at(i)).data is Some by {
                if i > 0 {
                    assert(old(self).node_at(i - 1).data is Some);
                }
            }
            assert(self@ =~= seq![data] + old(self)@);
            assert(self.indices() =~= seq![Some(0usize)] + old(self).indices());
        }
    }

    /// Puts `data` before the first node and renumbers the whole list.
    pub fn push_to_front(&mut self, data: T)
        requires
            old(self).wf(),
            old(self).length < usize::MAX,
        ensures
            final(self).wf(),
            final(self).ordered,
            final(self)@ == seq![data] + old(self)@,
            final(self).chain() == seq![old(self).nodes@.len() as usize] + old(self).chain(),
            final(self).length == old(self).length + 1,
            final(self).indices_match(),
    {
        self.unordered_push_to_front(data);
        self.update_indices();
    }

    /// Removes the first node without renumbering the others; the list is
    /// then ordered only if it became empty. Fails on an empty list and then
    /// changes nothing.
    pub fn unordered_pop_from_front(&mut self) -> (r: Result<(), ListError>)
        requires
            old(self).wf(),
        ensures
            r is Err <==> old(self).length == 0,
            r is Err ==> r == Err::<(), ListError>(ListError::EmptyList) && *final(self) == *old(self),
            r is Ok ==> {
                &&& final(self).wf()
                &&& final(self)@ == old(self)@.drop_first()
                &&& final(self).indices() == old(self).indices().drop_first()
                &&& final(self).chain() == old(self).chain().drop_first()
                &&& final(self).length == old(self).length - 1
                &&& final(self).ordered == (final(self).length == 0)
            },
    {
        let h = match self.head {
            Some(h) => h,
            None => {
                return Err(ListError::EmptyList);
            },
        };
        let ghost hs = self.chain();
        proof {
            assert(hs[0] == h);
        }
        self.ordered = false;
        self.head = self.nodes[h].next;
        if self.head.is_none() {
            self.ordered = true;
            self.tail = None;
        }
        self.length = self.length - 1;
        proof {
            let rest = hs.drop_first();
            assert forall|i: int| 0 <= i < rest.len() - 1 implies #[trigger] self.nodes@[rest[i] as int].next
                == Some(rest[i + 1]) by {
                assert(self.nodes@[hs[i + 1] as int].next == Some(hs[i + 2]));
            }
            assert forall|i: int| 0 <= i < rest.len() implies #[trigger] rest[i] < self.nodes@.len() by {
                assert(hs[i + 1] < self.nodes@.len());
            }
            if rest.len() > 0 {
                assert(self.nodes@[hs[0] as int].next == Some(hs[1]));
                assert(rest.last() == hs.last());
            }
            assert(links(self.nodes@, rest));
            lemma_walk_follows_links(self.nodes@, rest);
            assert(self.chain() == rest);
            assert forall|i: int| 0 <= i < self.length implies (#[trigger] self.node_at(i)).data is Some by {
                assert(old(self).node_at(i + 1).data is Some);
            }
            assert(self@ =~= old(self)@.drop_first());
            assert(self.indices() =~= old(self).indices().drop_first());
        }
        Ok(())
    }

    /// Removes the first node and renumbers the rest. Fails on an empty list
    /// and then changes nothing.
    pub fn pop_from_front(&mut self) -> (r: Result<(), ListError>)
        requires
            old(self).wf(),
        ensures
            r is Err <==> old(self).length == 0,
            r is Err ==> r == Err::<(), ListError>(ListError::EmptyList) && *final(self) == *old(self),
            r is Ok ==> {
                &&& final(self).wf()
                &&& final(self).ordered
                &&& final(self)@ == old(self)@.drop_first()
                &&& final(self).chain() == old(self).chain().drop_first()
                &&& final(self).length == old(self).length - 1
                &&& final(self).indices_match()
            },
    {
        let r = self.unordered_pop_from_front();
        if r.is_ok() {
            self.update_indices();
        }
        r
    }

    /// Removes the last node: the node before it becomes the tail, found by
    /// walking from the head. A list of one node becomes empty. Indices stay
    /// current. Fails on an empty list and then changes nothing.
    pub fn pop_from_end(&mut self) -> (r: Result<(), ListError>)
        requires
            old(self).wf(),
        ensures
            r is Err <==> old(self).length == 0,
            r is Err ==> r == Err::<(), ListError>(ListError::EmptyList) && *final(self) == *old(self),
            r is Ok ==> {
                &&& final(self).wf()
                &&& final(self)@ == old(self)@.drop_last()
                &&& final(self).indices() == old(self).indices().drop_last()
                &&& final(self).chain() == old(self).chain().drop_last()
                &&& final(self).length == old(self).length - 1
                &&& final(self).ordered == old(self).ordered
            },
            r is Ok && old(self).length == 1 ==> final(self).head is None && final(self).tail is None,
    {
        let h = match self.head {
            Some(h) => h,
            None => {
                return Err(ListError::EmptyList);
            },
        };
        let ghost hs = self.chain();
        proof {
            assert(hs[0] == h);
            assert(hs[hs.len() - 1] == hs.last());
        }
        if self.head == self.tail {
            self.head = None;
            self.tail = None;
            self.length = self.length - 1;
            proof {
                assert(self.chain() =~= Seq::<usize>::empty());
                assert(self@ =~= old(self)@.drop_last());
                assert(self.indices() =~= old(self).indices().drop_last());
            }
            return Ok(());
        }
        let mut current: usize = h;
        let mut pos: usize = 0;
        while pos + 2 < self.length
            invariant
                *self == *old(self),
                hs == old(self).chain(),
                old(self).wf(),
                hs.len() >= 2,
                pos + 2 <= self.length,
                current == hs[pos as int],
            decreases self.length - pos,
        {
            proof {
                assert(self.nodes@[hs[pos as int] as int].next == Some(hs[pos + 1]));
            }
            current = match self.nodes[current].next {
                Some(n) => n,
                None => current,
            };
            pos = pos + 1;
        }
        proof {
            assert(hs[pos as int] < self.nodes@.len());
        }
        self.nodes[current].next = None;
        self.tail = Some(current);
        self.length = self.length - 1;
        proof {
            let rest = hs.drop_last();
            assert forall|i: int| 0 <= i < rest.len() implies #[trigger] self.nodes@[rest[i] as int]
                .data == old(self).nodes@[rest[i] as int].data && self.nodes@[rest[i] as int].index
                == old(self).nodes@[rest[i] as int].index by {
                assert(hs[i] < old(self).nodes@.len());
            }
            assert forall|i: int| 0 <= i < rest.len() - 1 implies #[trigger] self.nodes@[rest[i] as int].next
                == Some(rest[i + 1]) by {
                assert(old(self).nodes@[hs[i] as int].next == Some(hs[i + 1]));
                assert(hs[i] != hs[pos as int]);
            }
            assert(rest.last() == current);
            assert forall|i: int| 0 <= i < rest.len() implies #[trigger] rest[i] < self.nodes@.len() by {
                assert(hs[i] < self.nodes@.len());
            }
            assert(links(self.nodes@, rest));
            lemma_walk_follows_links(self.nodes@, rest);
            assert(self.head == first_of(rest));
            assert(self.chain() == rest);
            assert forall|i: int| 0 <= i < self.length implies (#[trigger] self.node_at(i)).data is Some by {
                assert(old(self).node_at(i).data is Some);
            }
            assert(self@ =~= old(self)@.drop_last());
            assert(self.indices() =~= old(self).indices().drop_last());
        }
        Ok(())
    }

    /// The node behind `handle`.
    pub fn node(&self, handle: usize) -> (r: &Node<T>)
        requires
            handle < self.nodes@.len(),
        ensures
            *r == self.nodes@[handle as int],
    {
        &self.nodes[handle]
    }

    /// The handle of the node at position `pos`, found by walking from the head.
    fn handle_at(&self, pos: usize) -> (h: usize)
        requires
            self.wf(),
            pos < self.length,
        ensures
            h == self.chain()[pos as int],
    {
        let ghost hs = self.chain();
        let mut current: usize = match self.head {
            Some(h) => h,
            None => 0,
        };
        let mut count: usize = 0;
        proof {
            assert(hs[0] == current);
        }
        while count < pos
            invariant
                self.wf(),
                hs == self.chain(),
                pos < self.length,
                count <= pos,
                current == hs[count as int],
            decreases pos - count,
        {
            proof {
                assert(self.nodes@[hs[count as int] as int].next == Some(hs[count + 1]));
            }
            current = match self.nodes[current].next {
                Some(n) => n,
                None => current,
            };
            count = count + 1;
        }
        current
    }

    /// Renumbers the whole list, so that it is ordered afterwards, and
    /// returns the handle of the node at position `index`. Fails, changing
    /// nothing, when `index` is not below the length.
    pub fn find_node_by_index(&mut self, index: usize) -> (r: Result<usize, ListError>)
        requires
            old(self).wf(),
        ensures
            r is Err <==> index >= old(self).length,
            r is Err ==> r == Err::<usize, ListError>(ListError::IndexOutOfRange) && *final(self) == *old(self),
            r is Ok ==> {
                &&& r == Ok::<usize, ListError>(old(self).chain()[index as int])
                &&& final(self).wf()
                &&& final(self).ordered
                &&& final(self).indices_match()
                &&& final(self)@ == old(self)@
                &&& final(self).chain() == old(self).chain()
                &&& final(self).length == old(self).length
            },
    {
        if index >= self.length {
            return Err(ListError::IndexOutOfRange);
        }
        self.ordered = false;
        proof {
            assert(self.chain() == old(self).chain());
            assert forall|i: int| 0 <= i < self.length implies (#[trigger] self.node_at(i)).data is Some by {
                assert(old(self).node_at(i).data is Some);
            }
        }
        self.update_indices();
        let handle = self.handle_at(index);
        Ok(handle)
    }

    /// The value of the first node, taken out of the list.
    pub fn into_front(self) -> (r: Option<T>)
        requires
            self.wf(),
        ensures
            r == (if self.length == 0 {
                None
            } else {
                Some(self@[0])
            }),
    {
        let ghost hs = self.chain();
        match self.head {
            Some(h) => {
                proof {
                    assert(hs[0] == h);
                    assert(self.node_at(0).data is Some);
                }
                let mut nodes = self.nodes;
                let node = nodes.swap_remove(h);
                node.data
            },
            None => None,
        }
    }

    /// A clone of the value of the last node.
    pub fn into_back(&self) -> (r: Option<T>)
        where
            T: Clone,
        requires
            self.wf(),
        ensures
            r is None <==> self.length == 0,
            r is Some ==> cloned::<T>(self@.last(), r->Some_0),
    {
        match self.tail {
            Some(t) => {
                proof {
                    let hs = self.chain();
                    assert(hs[hs.len() - 1] == hs.last());
                    assert(self.node_at(self.length - 1).data is Some);
                    assert(hs[hs.len() - 1] < self.nodes@.len());
                }
                match &self.nodes[t].data {
                    Some(d) => Some(d.clone()),
                    None => None,
                }
            },
            None => None,
        }
    }

    /// The handle of the first node, from the head, whose value equals
    /// `data`. Fails when no node holds such a value.
    pub fn find_node_by_value(&self, data: T) -> (r: Result<usize, ListError>)
        where
            T: PartialEq,
        requires
            self.wf(),
        ensures
            match r {
                Ok(h) => exists|i: int|
                    0 <= i < self.length && self.chain()[i] == h && (T::obeys_eq_spec() ==> {
                        &&& self@[i].eq_spec(&data)
                        &&& forall|j: int| 0 <= j < i ==> !(#[trigger] self@[j]).eq_spec(&data)
                    }),
                Err(e) => e == ListError::NotFound && (T::obeys_eq_spec() ==> forall|i: int|
                    0 <= i < self.length ==> !(#[trigger] self@[i]).eq_spec(&data)),
            },
    {
        let ghost hs = self.chain();
        let mut current: usize = match self.head {
            Some(h) => h,
            None => {
                return Err(ListError::NotFound);
            },
        };
        let mut count: usize = 0;
        proof {
            assert(hs[0] == current);
        }
        while count < self.length
            invariant
                self.wf(),
                hs == self.chain(),
                count <= self.length,
                count < self.length ==> current == hs[count as int],
                T::obeys_eq_spec() ==> forall|j: int| 0 <= j < count ==> !(#[trigger] self@[j]).eq_spec(&data),
            decreases self.length - count,
        {
            proof {
                assert(hs[count as int] < self.nodes@.len());
                assert(self.node_at(count as int).data is Some);
            }
            let found = match &self.nodes[current].data {
                Some(d) => *d == data,
                None => false,
            };
            if found {
                return Ok(current);
            }
            if count + 1 < self.length {
                proof {
                    assert(self.nodes@[hs[count as int] as int].next == Some(hs[count + 1]));
                }
                current = match self.nodes[current].next {
                    Some(n) => n,
                    None => current,
                };
            }
            count = count + 1;
        }
        Err(ListError::NotFound)
    }

    /// Links a new node holding `data`, with index `pos + 1`, right after the
    /// node at position `pos`, leaving the other indices stale.
    fn insert_after(&mut self, pos: usize, data: T)
        requires
            old(self).wf(),
            pos < old(self).length,
            old(self).length < usize::MAX,
        ensures
            final(self).wf(),
            !final(self).ordered,
            final(self)@ == old(self)@.insert(pos + 1, data),
            final(self).chain() == old(self).chain().insert(pos + 1, old(self).nodes@.len() as usize),
            final(self).length == old(self).length + 1,
    {
        let ghost hs = self.chain();
        let c = self.handle_at(pos);
        let handle = self.nodes.len();
        let mut node: Node<T> = Node::from(pos + 1, data);
        proof {
            assert(hs[pos as int] < self.nodes@.len());
        }
        node.next = self.nodes[c].next;
        self.nodes.push(node);
        self.nodes[c].next = Some(handle);
        if pos + 1 == self.length {
            self.tail = Some(handle);
        }
        self.length = self.length + 1;
        self.ordered = false;
        proof {
            let new_hs = hs.insert(pos + 1, handle);
            lemma_links_insert(old(self).nodes@, self.nodes@, hs, pos as int, handle);
            lemma_walk_follows_links(self.nodes@, new_hs);
            assert(self.head == first_of(new_hs));
            assert(self.chain() == new_hs);
            assert(hs[hs.len() - 1] == hs.last());
            if pos + 1 < hs.len() {
                assert(new_hs.last() == hs.last());
            }
            assert forall|i: int| 0 <= i < self.length implies (#[trigger] self.node_at(i)).data is Some by {
                if i < pos + 1 {
                    assert(old(self).node_at(i).data is Some);
                    assert(self.node_at(i).data == old(self).node_at(i).data);
                } else if i > pos + 1 {
                    assert(old(self).node_at(i - 1).data is Some);
                    assert(self.node_at(i).data == old(self).node_at(i - 1).data);
                }
            }
            assert forall|i: int| 0 <= i < self.length implies #[trigger] self@[i] == old(self)@.insert(
                pos + 1,
                data,
            )[i] by {
                if i > pos + 1 {
                    assert(self.node_at(i).data == old(self).node_at(i - 1).data);
                } else if i < pos + 1 {
                    assert(self.node_at(i).data == old(self).node_at(i).data);
                }
            }
            assert(self@ =~= old(self)@.insert(pos + 1, data));
        }
    }

    /// Inserts `data` so that it takes position `index`, before the node
    /// that held it, and renumbers the list. Fails, changing nothing, when
    /// `index` is not below the length.
    pub fn add_before(&mut self, index: usize, data: T) -> (r: Result<(), ListError>)
        requires
            old(self).wf(),
            old(self).length < usize::MAX,
        ensures
            r is Err <==> index >= old(self).length,
            r is Err ==> r == Err::<(), ListError>(ListError::IndexOutOfRange) && *final(self) == *old(self),
            r is Ok ==> {
                &&& final(self).wf()
                &&& final(self).ordered
                &&& final(self)@ == old(self)@.insert(index as int, data)
                &&& final(self).chain() == old(self).chain().insert(index as int, old(self).nodes@.len() as usize)
                &&& final(self).length == old(self).length + 1
                &&& final(self).indices_match()
            },
    {
        if index >= self.length {
            return Err(ListError::IndexOutOfRange);
        }
        if index == 0 {
            self.push_to_front(data);
            proof {
                assert(seq![data] + old(self)@ =~= old(self)@.insert(0, data));
                assert(seq![old(self).nodes@.len() as usize] + old(self).chain() =~= old(self).chain().insert(
                    0,
                    old(self).nodes@.len() as usize,
                ));
            }
        } else {
            self.insert_after(index - 1, data);
            self.update_indices();
        }
        Ok(())
    }

    /// Inserts `data` right after the node at position `index` and renumbers
    /// the list. Fails, changing nothing, when `index` is not below the length.
    pub fn add_after(&mut self, index: usize, data: T) -> (r: Result<(), ListError>)
        requires
            old(self).wf(),
            old(self).length < usize::MAX,
        ensures
            r is Err <==> index >= old(self).length,
            r is Err ==> r == Err::<(), ListError>(ListError::IndexOutOfRange) && *final(self) == *old(self),
            r is Ok ==> {
                &&& final(self).wf()
                &&& final(self).ordered
                &&& final(self)@ == old(self)@.insert(index + 1, data)
                &&& final(self).chain() == old(self).chain().insert(index + 1, old(self).nodes@.len() as usize)
                &&& final(self).length == old(self).length + 1
                &&& final(self).indices_match()
            },
    {
        if index >= self.length {
            return Err(ListError::IndexOutOfRange);
        }
        self.insert_after(index, data);
        self.update_indices();
        Ok(())
    }

    /// Appends `data` after the last node, with index `length`. Appending never
    /// makes a current index stale, so the flag is kept.
    pub fn push_to_end(&mut self, data: T)
        requires
            old(self).wf(),
            old(self).length < usize::MAX,
        ensures
            final(self).wf(),
            final(self)@ == old(self)@.push(data),
            final(self).indices() == old(self).indices().push(Some(old(self).length)),
            final(self).chain() == old(self).chain().push(old(self).nodes@.len() as usize),
            final(self).length == old(self).length + 1,
            final(self).ordered == old(self).ordered,
            old(self).ordered ==> final(self).indices_match(),
    {
        let ghost hs = self.chain();
        let ghost old_nodes = self.nodes@;
        let index = self.length;
        let handle = self.nodes.len();
        self.nodes.push(Node::from(index, data));
        match self.tail {
            Some(t) => {
                self.nodes[t].next = Some(handle);
            },
            None => {
                self.head = Some(handle);
            },
        }
        self.tail = Some(handle);
        self.length = self.length + 1;
        proof {
            let new_hs = hs.push(handle);
            assert forall|i: int| 0 <= i < hs.len() implies #[trigger] self.nodes@[hs[i] as int].data
                == old_nodes[hs[i] as int].data && self.nodes@[hs[i] as int].index
                == old_nodes[hs[i] as int].index by {
                assert(hs[i] < old_nodes.len());
            }
            assert forall|i: int| 0 <= i < new_hs.len() - 1 implies #[trigger] self.nodes@[new_hs[i] as int].next
                == Some(new_hs[i + 1]) by {
                if i < hs.len() - 1 {
                    assert(old_nodes[hs[i] as int].next == Some(hs[i + 1]));
                    assert(hs[i] != hs.last()) by {
                        assert(hs[hs.len() - 1] == hs.last());
                    }
                }
            }
            assert(links(self.nodes@, new_hs));
            lemma_walk_follows_links(self.nodes@, new_hs);
            assert(self.chain() == new_hs);
            assert(new_hs.no_duplicates());
            assert(self@ =~= old(self)@.push(data));
            assert(self.indices() =~= old(self).indices().push(Some(index)));
            assert forall|i: int| 0 <= i < self.length implies (#[trigger] self.node_at(i)).data is Some by {
                if i < hs.len() {
                    assert(old(self).node_at(i).data is Some);
                }
            }
            assert(self.well_linked());
            assert(self.tail == Some(self.chain().last()));
            assert(self.ordered ==> self.indices_match());
        }
    }
}

/// The stored index and value of each node met walking from `start`, as
/// `walk` does.
pub open spec fn entries_from<T>(nodes: Seq<Node<T>>, start: Option<usize>, fuel: nat) -> Seq<
    (Option<usize>, Option<T>),
> {
    walk(nodes, start, fuel).map_values(|h: usize| (nodes[h as int].index, nodes[h as int].data))
}

/// Two optional values are equal as `T`'s `==` says.
pub open spec fn option_eq<T: PartialEq>(a: Option<T>, b: Option<T>) -> bool {
    match (a, b) {
        (None, None) => true,
        (Some(x), Some(y)) => x.eq_spec(&y),
        _ => false,
    }
}

/// Two runs of entries have the same length, the same indices, and values
/// equal as `T`'s `==` says.
pub open spec fn entries_agree<T: PartialEq>(
    a: Seq<(Option<usize>, Option<T>)>,
    b: Seq<(Option<usize>, Option<T>)>,
) -> bool {
    &&& a.len() == b.len()
    &&& forall|i: int| #![trigger a[i]] 0 <= i < a.len() ==> a[i].0 == b[i].0 && option_eq(a[i].1, b[i].1)
}

/// Two runs agree when their first entries agree and the rest agree.
proof fn lemma_entries_agree_split<T: PartialEq>(
    a: Seq<(Option<usize>, Option<T>)>,
    b: Seq<(Option<usize>, Option<T>)>,
)
    requires
        a.len() > 0,
        b.len() > 0,
    ensures
        entries_agree(a, b) == (a[0].0 == b[0].0 && option_eq(a[0].1, b[0].1) && entries_agree(
            a.drop_first(),
            b.drop_first(),
        )),
{
    if a[0].0 == b[0].0 && option_eq(a[0].1, b[0].1) && entries_agree(a.drop_first(), b.drop_first()) {
        assert forall|i: int| #![trigger a[i]] 0 <= i < a.len() implies a[i].0 == b[i].0 && option_eq(
            a[i].1,
            b[i].1,
        ) by {
            if i > 0 {
                assert(a.drop_first()[i - 1] == a[i]);
                assert(b.drop_first()[i - 1] == b[i]);
            }
        }
    }
    if entries_agree(a, b) {
        assert forall|i: int| #![trigger a.drop_first()[i]] 0 <= i < a.len() - 1 implies a.drop_first()[i].0
            == b.drop_first()[i].0 && option_eq(a.drop_first()[i].1, b.drop_first()[i].1) by {
            assert(a[i + 1].0 == b[i + 1].0);
        }
        assert(a[0].0 == b[0].0 && option_eq(a[0].1, b[0].1));
        assert(entries_agree(a.drop_first(), b.drop_first()));
    }
}

/// Whether the nodes met walking `fuel` steps from `a_start` in `a` and from
/// `b_start` in `b` agree.
fn walks_agree<T: PartialEq>(
    a: &Vec<Node<T>>,
    a_start: Option<usize>,
    b: &Vec<Node<T>>,
    b_start: Option<usize>,
    fuel: usize,
) -> (r: bool)
    ensures
        T::obeys_eq_spec() ==> r == entries_agree(
            entries_from(a@, a_start, fuel as nat),
            entries_from(b@, b_start, fuel as nat),
        ),
{
    let ghost goal = entries_agree(
        entries_from(a@, a_start, fuel as nat),
        entries_from(b@, b_start, fuel as nat),
    );
    let mut ca = a_start;
    let mut cb = b_start;
    let mut k: usize = 0;
    while k < fuel
        invariant
            k <= fuel,
            goal == entries_agree(
                entries_from(a@, a_start, fuel as nat),
                entries_from(b@, b_start, fuel as nat),
            ),
            T::obeys_eq_spec() ==> goal == entries_agree(
                entries_from(a@, ca, (fuel - k) as nat),
                entries_from(b@, cb, (fuel - k) as nat),
            ),
        decreases fuel - k,
    {
        let ghost ea = entries_from(a@, ca, (fuel - k) as nat);
        let ghost eb = entries_from(b@, cb, (fuel - k) as nat);
        let ha = match ca {
            Some(h) => if h < a.len() {
                Some(h)
            } else {
                None
            },
            None => None,
        };
        let hb = match cb {
            Some(h) => if h < b.len() {
                Some(h)
            } else {
                None
            },
            None => None,
        };
        match (ha, hb) {
            (Some(x), Some(y)) => {
                let na = &a[x];
                let nb = &b[y];
                let same_index = match (na.index, nb.index) {
                    (Some(i), Some(j)) => i == j,
                    (None, None) => true,
                    _ => false,
                };
                let same_data = match (&na.data, &nb.data) {
                    (Some(d), Some(e)) => *d == *e,
                    (None, None) => true,
                    _ => false,
                };
                proof {
                    assert(ea.drop_first() =~= entries_from(a@, na.next, (fuel - k - 1) as nat));
                    assert(eb.drop_first() =~= entries_from(b@, nb.next, (fuel - k - 1) as nat));
                    lemma_entries_agree_split(ea, eb);
                }
                if !(same_index && same_data) {
                    return false;
                }
                ca = na.next;
                cb = nb.next;
            },
            (None, None) => {
                proof {
                    assert(ea =~= Seq::<(Option<usize>, Option<T>)>::empty());
                    assert(eb =~= Seq::<(Option<usize>, Option<T>)>::empty());
                }
                return true;
            },
            _ => {
                return false;
            },
        }
        k = k + 1;
    }
    proof {
        assert(entries_from(a@, ca, 0) =~= Seq::<(Option<usize>, Option<T>)>::empty());
        assert(entries_from(b@, cb, 0) =~= Seq::<(Option<usize>, Option<T>)>::empty());
    }
    true
}

impl<T: PartialEq> PartialEq for LinkedList<T> {
    /// Two lists are equal when they have the same length and flag, and the
    /// nodes met from their heads, and from their tails, carry the same
    /// indices and equal values.
    fn eq(&self, other: &Self) -> (r: bool) {
        if self.length != other.length || self.ordered != other.ordered {
            return false;
        }
        walks_agree(&self.nodes, self.head, &other.nodes, other.head, self.length)
            && walks_agree(&self.nodes, self.tail, &other.nodes, other.tail, self.length)
    }
}

impl<T: PartialEq> vstd::std_specs::cmp::PartialEqSpecImpl for LinkedList<T> {
    open spec fn obeys_eq_spec() -> bool {
        T::obeys_eq_spec()
    }

    open spec fn eq_spec(&self, other: &Self) -> bool {
        &&& self.length == other.length
        &&& self.ordered == other.ordered
        &&& entries_agree(
            entries_from(self.nodes@, self.head, self.length as nat),
            entries_from(other.nodes@, other.head, other.length as nat),
        )
        &&& entries_agree(
            entries_from(self.nodes@, self.tail, self.length as nat),
            entries_from(other.nodes@, other.tail, other.length as nat),
        )
    }
}

/// Renumbering twice in a row changes nothing the second time: once
/// `update_indices` has turned `a` into `b`, it turns `b` into `b` itself.
pub proof fn lemma_update_indices_idempotent<T>(a: LinkedList<T>, b: LinkedList<T>, c: LinkedList<T>)
    requires
        a.reconciles(b),
        b.reconciles(c),
    ensures
        c == b,
{
}

/// Pushing the values `xs` one by one to the front of an empty list without
/// renumbering, and then renumbering, gives the list that `from` builds from
/// the same values in final order (`xs` reversed): the same values, the same
/// indices, the same length, both ordered. `lists[k]` is the list after `k`
/// pushes, each step stated as `unordered_push_to_front` ensures it.
pub proof fn lemma_front_pushes_then_update_match_from<T>(
    xs: Seq<T>,
    lists: Seq<LinkedList<T>>,
    reconciled: LinkedList<T>,
    built: LinkedList<T>,
)
    requires
        lists.len() == xs.len() + 1,
        lists[0].wf(),
        lists[0].length == 0,
        forall|k: int|
            0 <= k < xs.len() ==> {
                &&& (#[trigger] lists[k + 1]).wf()
                &&& lists[k + 1]@ == seq![xs[k]] + lists[k]@
                &&& lists[k + 1].length == lists[k].length + 1
            },
        lists.last().reconciles(reconciled),
        built.wf(),
        built.ordered,
        built@ == xs.reverse(),
        built.length == xs.len(),
    ensures
        reconciled@ == built@,
        reconciled.indices() == built.indices(),
        reconciled.length == built.length,
        reconciled.ordered,
        reconciled.ordered == built.ordered,
{
    lemma_front_pushes_reverse(xs, lists, xs.len() as int);
    let last = lists.last();
    assert(lists[xs.len() as int] == last);
    assert(xs.take(xs.len() as int) =~= xs);
    assert(last.length == xs.len());
    if !last.ordered {
        assert(reconciled@ =~= last@) by {
            assert forall|i: int| 0 <= i < last.length implies #[trigger] reconciled@[i] == last@[i] by {
                assert(reconciled.node_at(i).data == last.node_at(i).data);
            }
        }
    }
    if xs.len() > 0 {
        assert(lists[(xs.len() - 1) + 1].wf());
    }
    assert(last.wf());
    assert(reconciled.wf() && reconciled.ordered);
    assert(reconciled.indices() =~= built.indices()) by {
        assert forall|i: int| 0 <= i < built.length implies #[trigger] reconciled.indices()[i]
            == built.indices()[i] by {
            assert(reconciled.indices()[i] == Some(i as usize));
            assert(built.indices()[i] == Some(i as usize));
        }
    }
}

/// After `k` front pushes of `xs` onto an empty list, the list holds the
/// first `k` values of `xs` in reverse.
proof fn lemma_front_pushes_reverse<T>(xs: Seq<T>, lists: Seq<LinkedList<T>>, k: int)
    requires
        lists.len() == xs.len() + 1,
        0 <= k <= xs.len(),
        lists[0].wf(),
        lists[0].length == 0,
        forall|j: int|
            0 <= j < xs.len() ==> {
                &&& (#[trigger] lists[j + 1]).wf()
                &&& lists[j + 1]@ == seq![xs[j]] + lists[j]@
                &&& lists[j + 1].length == lists[j].length + 1
            },
    ensures
        lists[k]@ == xs.take(k).reverse(),
        lists[k].length == k,
    decreases k,
{
    if k == 0 {
        assert(lists[0]@ =~= Seq::<T>::empty());
        assert(xs.take(0).reverse() =~= Seq::<T>::empty());
    } else {
        lemma_front_pushes_reverse(xs, lists, k - 1);
        assert(lists[(k - 1) + 1]@ == seq![xs[k - 1]] + lists[k - 1]@);
        assert(xs.take(k).reverse() =~= seq![xs[k - 1]] + xs.take(k - 1).reverse());
    }
}

/// Appending keeps an ordered list ordered with every index current: after
/// any number of `push_to_end` calls on an ordered list, each step stated as
/// `push_to_end` ensures it, every list is ordered and its indices match.
pub proof fn lemma_push_to_end_keeps_order<T>(xs: Seq<T>, lists: Seq<LinkedList<T>>)
    requires
        lists.len() == xs.len() + 1,
        lists[0].wf(),
        lists[0].ordered,
        forall|k: int|
            0 <= k < xs.len() ==> {
                &&& (#[trigger] lists[k + 1])@ == lists[k]@.push(xs[k])
                &&& lists[k + 1].indices() == lists[k].indices().push(Some(lists[k].length))
                &&& lists[k + 1].length == lists[k].length + 1
                &&& lists[k + 1].ordered == lists[k].ordered
            },
    ensures
        forall|k: int| 0 <= k < lists.len() ==> (#[trigger] lists[k]).ordered && lists[k].indices_match(),
{
    assert forall|k: int| 0 <= k < lists.len() implies (#[trigger] lists[k]).ordered
        && lists[k].indices_match() by {
        lemma_push_to_end_prefix(xs, lists, k);
    }
}

/// The `k`-th list of a run of appends to an ordered list is ordered, with
/// one index per node, each equal to its position.
proof fn lemma_push_to_end_prefix<T>(xs: Seq<T>, lists: Seq<LinkedList<T>>, k: int)
    requires
        lists.len() == xs.len() + 1,
        0 <= k < lists.len(),
        lists[0].wf(),
        lists[0].ordered,
        forall|j: int|
            0 <= j < xs.len() ==> {
                &&& (#[trigger] lists[j + 1])@ == lists[j]@.push(xs[j])
                &&& lists[j + 1].indices() == lists[j].indices().push(Some(lists[j].length))
                &&& lists[j + 1].length == lists[j].length + 1
                &&& lists[j + 1].ordered == lists[j].ordered
            },
    ensures
        lists[k].ordered,
        lists[k].indices().len() == lists[k].length,
        lists[k].indices_match(),
    decreases k,
{
    if k > 0 {
        lemma_push_to_end_prefix(xs, lists, k - 1);
        let prev = lists[k - 1];
        let cur = lists[(k - 1) + 1];
        assert(cur.indices() == prev.indices().push(Some(prev.length)));
        assert forall|i: int| 0 <= i < cur.length implies #[trigger] cur.indices()[i] == Some(i as usize) by {
            if i < prev.length {
                assert(prev.indices()[i] == Some(i as usize));
            }
        }
    }
}

} // verus!
