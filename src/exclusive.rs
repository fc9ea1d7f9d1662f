//! A singly linked list whose nodes own their successors as boxes.
//!
//! Since a node owns the rest of the chain, the list cannot also hold the
//! last node; it keeps a detached copy of it as `tail` instead. Pushing to the
//! front does not renumber the chain; `update` does, and brings the tail copy
//! up to date.
use vstd::prelude::*;

use crate::error::ListError;

verus! {

/// One element of an `SLList`, owning the rest of the chain.
#[derive(PartialEq, Debug)]
pub struct SLListNode<T> {
    pub key: Option<T>,
    pub next: Option<Box<SLListNode<T>>>,
    pub index: usize,
}

/// The index and key of each node of the chain that starts at `link`.
pub open spec fn chain_entries<T>(link: Option<Box<SLListNode<T>>>) -> Seq<(usize, Option<T>)>
    decreases link,
{
    match link {
        Some(node) => seq![(node.index, node.key)] + chain_entries(node.next),
        None => Seq::empty(),
    }
}

/// `b` holds a clone of `a`, or both are absent.
pub open spec fn option_cloned<T: Clone>(a: Option<T>, b: Option<T>) -> bool {
    match (a, b) {
        (None, None) => true,
        (Some(x), Some(y)) => cloned::<T>(x, y),
        _ => false,
    }
}

/// `b` is a copy of the run `a`: same indices, cloned keys.
pub open spec fn entries_cloned<T: Clone>(a: Seq<(usize, Option<T>)>, b: Seq<(usize, Option<T>)>) -> bool {
    &&& a.len() == b.len()
    &&& forall|i: int| #![trigger b[i]] 0 <= i < a.len() ==> a[i].0 == b[i].0 && option_cloned(a[i].1, b[i].1)
}

impl<T> SLListNode<T> {
    /// The index and key of this node and of each node after it.
    pub open spec fn entries(self) -> Seq<(usize, Option<T>)> {
        chain_entries(Some(Box::new(self)))
    }

    /// A node with no key and no successor, at index 0.
    pub fn new() -> (r: SLListNode<T>)
        ensures
            r.key is None,
            r.next is None,
            r.index == 0,
    {
        SLListNode { key: None, next: None, index: 0 }
    }

    /// A node holding `key` at `index`, with no successor.
    pub fn from(key: T, index: usize) -> (r: SLListNode<T>)
        ensures
            r.key == Some(key),
            r.next is None,
            r.index == index,
    {
        SLListNode { key: Some(key), next: None, index }
    }
}

impl<T: Clone> SLListNode<T> {
    /// A copy of this node and of the chain after it, keys cloned.
    fn duplicate(&self) -> (r: SLListNode<T>)
        ensures
            entries_cloned(self.entries(), r.entries()),
        decreases self,
    {
        let next = match &self.next {
            Some(node) => Some(Box::new(node.duplicate())),
            None => None,
        };
        let r = SLListNode { key: self.key.clone(), next, index: self.index };
        proof {
            let a = self.entries();
            let b = r.entries();
            assert(a =~= seq![(self.index, self.key)] + chain_entries(self.next));
            assert(b =~= seq![(r.index, r.key)] + chain_entries(r.next));
            assert forall|i: int| #![trigger b[i]] 0 <= i < a.len() implies a[i].0 == b[i].0 && option_cloned(
                a[i].1,
                b[i].1,
            ) by {
                if i > 0 {
                    let n = self.next->Some_0;
                    let m = r.next->Some_0;
                    assert(chain_entries(self.next) == n.entries());
                    assert(chain_entries(r.next) == m.entries());
                    assert(b[i] == m.entries()[i - 1]);
                }
            }
        }
        r
    }

    /// A copy of the node after this one, with the rest of the chain, or
    /// nothing at the end of the chain.
    pub fn next(&self) -> (r: Option<SLListNode<T>>)
        ensures
            r is None <==> self.next is None,
            r is Some ==> entries_cloned(chain_entries(self.next), r->Some_0.entries()),
    {
        match &self.next {
            Some(node) => {
                let copy = node.duplicate();
                proof {
                    assert(chain_entries(self.next) == node.entries());
                }
                Some(copy)
            },
            None => None,
        }
    }
}

impl<T: Clone> Clone for SLListNode<T> {
    /// A copy of the node and of the chain after it, keys cloned.
    fn clone(&self) -> (r: Self)
        ensures
            entries_cloned(self.entries(), r.entries()),
    {
        self.duplicate()
    }
}

/// Renumbers the chain starting at `node` from `start` on, keeping the keys.
fn renumbered<T>(node: Box<SLListNode<T>>, start: usize) -> (r: Box<SLListNode<T>>)
    requires
        start + node.entries().len() <= usize::MAX + 1,
    ensures
        r.entries().len() == node.entries().len(),
        forall|i: int|
            #![trigger r.entries()[i]]
            0 <= i < r.entries().len() ==> r.entries()[i] == ((start + i) as usize, node.entries()[i].1),
    decreases node.entries().len(),
{
    proof {
        assert(node.entries() =~= seq![(node.index, node.key)] + chain_entries(node.next));
    }
    let ghost old_next = node.next;
    let SLListNode { key, next, index: _ } = *node;
    let next = match next {
        Some(n) => {
            proof {
                assert(chain_entries(old_next) == n.entries());
            }
            Some(renumbered(n, start + 1))
        },
        None => None,
    };
    let r = Box::new(SLListNode { key, next, index: start });
    proof {
        assert(r.entries() =~= seq![(r.index, r.key)] + chain_entries(r.next));
        assert forall|i: int| #![trigger r.entries()[i]] 0 <= i < r.entries().len() implies r.entries()[i]
            == ((start + i) as usize, node.entries()[i].1) by {
            if i > 0 {
                let m = r.next->Some_0;
                assert(chain_entries(r.next) == m.entries());
                assert(r.entries()[i] == m.entries()[i - 1]);
            }
        }
    }
    r
}

/// A copy of the last node of the chain starting at `node`, with no successor.
fn last_copy<T: Clone>(node: &SLListNode<T>) -> (r: SLListNode<T>)
    ensures
        r.next is None,
        r.index == node.entries().last().0,
        option_cloned(node.entries().last().1, r.key),
    decreases node,
{
    proof {
        assert(node.entries() =~= seq![(node.index, node.key)] + chain_entries(node.next));
    }
    match &node.next {
        Some(n) => {
            proof {
                assert(chain_entries(node.next) == n.entries());
                assert(node.entries().last() == n.entries().last());
            }
            last_copy(n)
        },
        None => SLListNode { key: node.key.clone(), next: None, index: node.index },
    }
}

/// A singly linked list of boxed nodes with a detached copy of its last node
/// and a flag that records whether the indices are current.
#[derive(PartialEq, Debug)]
pub struct SLList<T> {
    pub updated: bool,
    pub head: Option<Box<SLListNode<T>>>,
    pub tail: Option<Box<SLListNode<T>>>,
    pub length: usize,
}

impl<T> View for SLList<T> {
    type V = Seq<T>;

    /// The keys of the list, from head to tail.
    open spec fn view(&self) -> Seq<T> {
        self.entries().map_values(|e: (usize, Option<T>)| e.1.unwrap())
    }
}

impl<T> SLList<T> {
    /// The index and key of each node, from head to tail.
    pub open spec fn entries(self) -> Seq<(usize, Option<T>)> {
        chain_entries(self.head)
    }

    /// The index of each node, from head to tail.
    pub open spec fn indices(self) -> Seq<usize> {
        self.entries().map_values(|e: (usize, Option<T>)| e.0)
    }

    /// Every index equals its node's position.
    pub open spec fn indices_match(self) -> bool {
        forall|i: int| 0 <= i < self.length ==> #[trigger] self.indices()[i] == i
    }
}

impl<T: Clone> SLList<T> {
    /// The list invariant: `length` nodes each with a key; head and tail both
    /// absent exactly when the list is empty; the tail is a copy of the last
    /// node, without successor; when `updated`, each index is its position.
    pub open spec fn wf(self) -> bool {
        &&& self.entries().len() == self.length
        &&& (self.head is None <==> self.length == 0)
        &&& (self.tail is None <==> self.length == 0)
        &&& forall|i: int| 0 <= i < self.length ==> (#[trigger] self.entries()[i]).1 is Some
        &&& self.tail matches Some(t) ==> {
            &&& t.next is None
            &&& t.index == self.entries().last().0
            &&& option_cloned(self.entries().last().1, t.key)
        }
        &&& self.updated ==> self.indices_match()
    }

    /// An empty list.
    pub fn new() -> (r: SLList<T>)
        ensures
            r.wf(),
            r.updated,
            r.length == 0,
            r.head is None,
            r.tail is None,
            r@ == Seq::<T>::empty(),
    {
        let r = SLList { updated: true, head: None, tail: None, length: 0 };
        assert(r@ =~= Seq::<T>::empty());
        r
    }

    /// A list holding the keys of `key_vec` in order, node `i` at index `i`.
    /// The chain is built from the last key to the first, each new node
    /// taking the chain built so far as its successor.
    pub fn from(key_vec: Vec<T>) -> (r: SLList<T>)
        ensures
            r.wf(),
            r.updated,
            r@ == key_vec@,
            r.length == key_vec.len(),
            r.indices_match(),
            key_vec.len() == 0 ==> r.head is None && r.tail is None,
            key_vec.len() > 0 ==> {
                &&& r.tail is Some
                &&& r.tail->Some_0.next is None
                &&& r.tail->Some_0.index == key_vec.len() - 1
                &&& option_cloned(Some(key_vec@.last()), r.tail->Some_0.key)
            },
    {
        let mut sllist = SLList::new();
        let n = key_vec.len();
        if n == 0 {
            proof {
                assert(key_vec@ =~= Seq::<T>::empty());
            }
            return sllist;
        }
        let ghost keys0 = key_vec@;
        let last_key = key_vec[n - 1].clone();
        sllist.tail = Some(Box::new(SLListNode::from(last_key, n - 1)));
        sllist.length = n;
        let mut keys = key_vec;
        let mut holder: Option<Box<SLListNode<T>>> = None;
        while keys.len() > 0
            invariant
                n == keys0.len(),
                keys.len() <= n,
                keys@ == keys0.take(keys.len() as int),
                chain_entries(holder).len() == n - keys.len(),
                forall|j: int|
                    #![trigger chain_entries(holder)[j]]
                    0 <= j < n - keys.len() ==> chain_entries(holder)[j] == (
                        (keys.len() + j) as usize,
                        Some(keys0[keys.len() + j]),
                    ),
            decreases keys.len(),
        {
            let key = keys.pop().unwrap();
            let index = keys.len();
            let ghost prev = holder;
            let node = SLListNode { key: Some(key), next: holder, index };
            holder = Some(Box::new(node));
            proof {
                assert(keys0.take(index + 1)[index as int] == key);
                assert(keys@ =~= keys0.take(index as int));
                let e = chain_entries(holder);
                assert(e =~= seq![(index, Some(key))] + chain_entries(prev));
                assert forall|j: int| #![trigger e[j]] 0 <= j < n - index implies e[j] == (
                    (index + j) as usize,
                    Some(keys0[index + j]),
                ) by {
                    if j > 0 {
                        assert(e[j] == chain_entries(prev)[j - 1]);
                    }
                }
            }
        }
        sllist.head = holder;
        proof {
            let e = sllist.entries();
            assert(e.len() == n);
            assert(e[n - 1] == ((n - 1) as usize, Some(keys0[n - 1])));
            assert(e.last() == e[n - 1]);
            assert forall|i: int| 0 <= i < sllist.length implies (#[trigger] sllist.entries()[i]).1 is Some by {
                assert(e[i] == (i as usize, Some(keys0[i])));
            }
            assert forall|i: int| 0 <= i < sllist.length implies #[trigger] sllist.indices()[i] == i by {
                assert(e[i] == (i as usize, Some(keys0[i])));
            }
            assert forall|i: int| 0 <= i < n implies #[trigger] sllist@[i] == keys0[i] by {
                assert(e[i] == (i as usize, Some(keys0[i])));
            }
            assert(sllist@ =~= keys0);
        }
        sllist
    }

    /// Renumbers every node to its position and replaces the tail with a
    /// fresh copy of the last node; the indices are then current.
    pub fn update(&mut self)
        requires
            old(self).wf(),
        ensures
            final(self).wf(),
            final(self).updated,
            final(self)@ == old(self)@,
            final(self).length == old(self).length,
            final(self).indices_match(),
    {
        match self.head.take() {
            None => {
                self.updated = true;
                assert(self@ =~= old(self)@);
            },
            Some(first) => {
                let chain = renumbered(first, 0);
                let last = last_copy(&chain);
                self.head = Some(chain);
                self.tail = Some(Box::new(last));
                self.updated = true;
                proof {
                    let e = self.entries();
                    let o = old(self).entries();
                    assert(e == chain.entries());
                    assert(e.last() == e[e.len() - 1]);
                    assert(o.last() == o[o.len() - 1]);
                    assert forall|i: int| 0 <= i < self.length implies (#[trigger] self.entries()[i]).1 is Some by {
                        assert(e[i].1 == o[i].1);
                        assert(o[i].1 is Some);
                    }
                    assert forall|i: int| 0 <= i < self.length implies #[trigger] self.indices()[i] == i by {
                        assert(e[i].0 == i);
                    }
                    assert forall|i: int| 0 <= i < self.length implies #[trigger] self@[i] == old(self)@[i] by {
                        assert(e[i].1 == o[i].1);
                    }
                    assert(self@ =~= old(self)@);
                }
            },
        }
    }

    /// Puts `key` before the first node at index 0, leaving the other
    /// indices as they are; the list is then no longer up to date. On an
    /// empty list the tail becomes a copy of the new node.
    pub fn push_front(&mut self, key: T)
        requires
            old(self).wf(),
            old(self).length < usize::MAX,
        ensures
            final(self).wf(),
            !final(self).updated,
            final(self)@ == seq![key] + old(self)@,
            final(self).indices() == seq![0usize] + old(self).indices(),
            final(self).length == old(self).length + 1,
    {
        if self.tail.is_none() {
            let copy = key.clone();
            self.tail = Some(Box::new(SLListNode::from(copy, 0)));
        }
        let node = SLListNode { key: Some(key), next: self.head.take(), index: 0 };
        self.head = Some(Box::new(node));
        self.length = self.length + 1;
        self.updated = false;
        proof {
            let e = self.entries();
            let o = old(self).entries();
            assert(e =~= seq![(0usize, Some(key))] + o);
            if o.len() > 0 {
                assert(e.last() == o.last());
            }
            assert forall|i: int| 0 <= i < self.length implies (#[trigger] self.entries()[i]).1 is Some by {
                if i > 0 {
                    assert(e[i] == o[i - 1]);
                }
            }
            assert(self@ =~= seq![key] + old(self)@);
            assert(self.indices() =~= seq![0usize] + old(self).indices());
        }
    }

    /// Removes the first node; the list is then no longer up to date, and
    /// the tail goes when the list becomes empty. Fails on an empty list and
    /// then changes nothing.
    pub fn pop_front(&mut self) -> (r: Result<(), ListError>)
        requires
            old(self).wf(),
        ensures
            r is Err <==> old(self).length == 0,
            r is Err ==> r == Err::<(), ListError>(ListError::EmptyList) && *final(self) == *old(self),
            r is Ok ==> {
                &&& final(self).wf()
                &&& !final(self).updated
                &&& final(self)@ == old(self)@.drop_first()
                &&& final(self).indices() == old(self).indices().drop_first()
                &&& final(self).length == old(self).length - 1
            },
    {
        match self.head.take() {
            None => Err(ListError::EmptyList),
            Some(first) => {
                let first = *first;
                self.head = first.next;
                if self.head.is_none() {
                    self.tail = None;
                }
                self.length = self.length - 1;
                self.updated = false;
                proof {
                    let e = self.entries();
                    let o = old(self).entries();
                    assert(o =~= seq![(first.index, first.key)] + e);
                    assert(e =~= o.drop_first());
                    if e.len() > 0 {
                        assert(e.last() == o.last());
                    }
                    assert forall|i: int| 0 <= i < self.length implies (#[trigger] self.entries()[i]).1 is Some by {
                        assert(e[i] == o[i + 1]);
                    }
                    assert(self@ =~= old(self)@.drop_first());
                    assert(self.indices() =~= old(self).indices().drop_first());
                }
                Ok(())
            },
        }
    }

    /// The key of the first node, taken out of the list.
    pub fn top_front(self) -> (r: Option<T>)
        requires
            self.wf(),
        ensures
            r == (if self.length == 0 {
                None
            } else {
                Some(self@[0])
            }),
    {
        proof {
            if self.length > 0 {
                assert(self.entries()[0].1 is Some);
            }
        }
        match self.head {
            None => None,
            Some(first) => first.key,
        }
    }
}

} // verus!
