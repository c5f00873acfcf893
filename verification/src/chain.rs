//! The chain itself: a double-ended queue of iterators, pulled from at
//! either end.

use crate::pending::{
    after_back, after_front, back_item, front_item, lemma_back_pull, lemma_front_pull,
};
use std::collections::VecDeque;
use vstd::prelude::*;
use vstd::std_specs::iter::IteratorSpec;

verus! {

/// `VecDeque::front_mut`: a mutable borrow of the first element, or `None`
/// for an empty deque. What the borrow holds when it ends is what the deque
/// holds in first place from then on; nothing else changes.
#[verifier::external_body]
fn front_mut<T>(deque: &mut VecDeque<T>) -> (front: Option<&mut T>)
    ensures
        old(deque)@.len() == 0 ==> front is None && final(deque)@ == old(deque)@,
        old(deque)@.len() != 0 ==> front is Some && *front->0 == old(deque)@[0]
            && final(deque)@ == old(deque)@.update(0, *final(front->0)),
{
    deque.front_mut()
}

/// `VecDeque::back_mut`: a mutable borrow of the last element, or `None` for
/// an empty deque. What the borrow holds when it ends is what the deque holds
/// in last place from then on; nothing else changes.
#[verifier::external_body]
fn back_mut<T>(deque: &mut VecDeque<T>) -> (back: Option<&mut T>)
    ensures
        old(deque)@.len() == 0 ==> back is None && final(deque)@ == old(deque)@,
        old(deque)@.len() != 0 ==> back is Some && *back->0 == old(deque)@.last()
            && final(deque)@ == old(deque)@.update(old(deque)@.len() - 1, *final(back->0)),
{
    deque.back_mut()
}

/// A chain of iterators with type `I`.
///
/// The chain owns its segments. Two chains are equal, and compare, as their
/// segments do, one by one from the front.
#[derive(Debug, Clone, PartialEq, Eq, PartialOrd, Ord, Hash)]
pub struct IterChain<I> {
    iters: VecDeque<I>,
}

impl<I> View for IterChain<I> {
    type V = Seq<I>;

    /// The segments of the chain, front first.
    closed spec fn view(&self) -> Seq<I> {
        self.iters@
    }
}

/// Every segment keeps to the laws that `vstd` states for iterators: it
/// yields what it has announced, in that order, and then nothing.
pub open spec fn lawful<I: Iterator>(segments: Seq<I>) -> bool {
    forall|i: int| 0 <= i < segments.len() ==> (#[trigger] segments[i]).obeys_prophetic_iter_laws()
}

impl<I> IterChain<I> {
    /// An empty chain.
    pub fn new() -> (chain: IterChain<I>) where I: Iterator
        ensures
            chain@ == Seq::<I>::empty(),
    {
        IterChain { iters: VecDeque::new() }
    }

    /// Adds the given iterator at the end of the chain.
    pub fn include_back(&mut self, new_iter: I) where I: Iterator
        ensures
            final(self)@ == old(self)@.push(new_iter),
    {
        self.iters.push_back(new_iter);
    }

    /// Adds the given iterator at the front of the chain.
    pub fn include_front(&mut self, new_iter: I) where I: Iterator
        ensures
            final(self)@ == seq![new_iter] + old(self)@,
    {
        self.iters.push_front(new_iter);
    }

    /// Pulls the next item from the front of the chain.
    ///
    /// Segments at the front that have nothing left are dropped on the way.
    /// The first segment that yields an item stays in front, without that
    /// item, and the segments behind it are as they were. `None` means that
    /// no segment is left. Which item comes is known of segments that are
    /// `lawful`; what another iterator yields is its own affair.
    pub fn next(&mut self) -> (item: Option<I::Item>) where I: Iterator
        ensures
            final(self)@.len() <= old(self)@.len(),
            item is Some <==> final(self)@.len() > 0,
            final(self)@.len() > 0 ==> final(self)@.drop_first() == old(self)@.skip(
                old(self)@.len() - final(self)@.len() + 1,
            ),
            lawful(old(self)@) ==> ({
                let before = old(self)@.map_values(|s: I| s.remaining());
                let after = final(self)@.map_values(|s: I| s.remaining());
                &&& lawful(final(self)@)
                &&& item == front_item(before)
                &&& after == after_front(before)
            }),
    {
        let ghost mut gone: int = 0;
        loop
            invariant
                0 <= gone <= old(self)@.len(),
                self@ == old(self)@.skip(gone),
                lawful(old(self)@) ==> forall|j: int|
                    0 <= j < gone ==> (#[trigger] old(self)@[j]).remaining().len() == 0,
            decreases self.iters.len(),
        {
            if let Some(iter) = front_mut(&mut self.iters) {
                let val = iter.next();
                if val.is_some() {
                    proof {
                        if lawful(old(self)@) {
                            let before = old(self)@.map_values(|s: I| s.remaining());
                            let after = self@.map_values(|s: I| s.remaining());
                            lemma_front_pull(before, gone);
                            assert(after =~= after_front(before));
                        }
                    }
                    return val;
                } else {
                    self.iters.pop_front();
                    proof {
                        gone = gone + 1;
                    }
                }
            } else {
                proof {
                    if lawful(old(self)@) {
                        let before = old(self)@.map_values(|s: I| s.remaining());
                        lemma_front_pull(before, gone);
                        assert(self@.map_values(|s: I| s.remaining()) =~= after_front(before));
                    }
                }
                return None;
            }
        }
    }
}

impl<I: DoubleEndedIterator> IterChain<I> {
    /// Pulls the next item from the back of the chain.
    ///
    /// Segments at the back that have nothing left are dropped on the way.
    /// The last segment that yields an item stays at the back, without that
    /// item, and the segments before it are as they were. `None` means that
    /// no segment is left. Which item comes is known of segments that are
    /// `lawful`; what another iterator yields is its own affair.
    pub fn next_back(&mut self) -> (item: Option<I::Item>)
        ensures
            final(self)@.len() <= old(self)@.len(),
            item is Some <==> final(self)@.len() > 0,
            final(self)@.len() > 0 ==> final(self)@.drop_last() == old(self)@.take(
                final(self)@.len() - 1,
            ),
            lawful(old(self)@) ==> ({
                let before = old(self)@.map_values(|s: I| s.remaining());
                let after = final(self)@.map_values(|s: I| s.remaining());
                &&& lawful(final(self)@)
                &&& item == back_item(before)
                &&& after == after_back(before)
            }),
    {
        let ghost mut gone: int = 0;
        loop
            invariant
                0 <= gone <= old(self)@.len(),
                self@ == old(self)@.take(old(self)@.len() - gone),
                lawful(old(self)@) ==> forall|j: int|
                    old(self)@.len() - gone <= j < old(self)@.len()
                        ==> (#[trigger] old(self)@[j]).remaining().len() == 0,
            decreases self.iters.len(),
        {
            if let Some(iter) = back_mut(&mut self.iters) {
                let val = iter.next_back();
                if val.is_some() {
                    proof {
                        if lawful(old(self)@) {
                            let before = old(self)@.map_values(|s: I| s.remaining());
                            let after = self@.map_values(|s: I| s.remaining());
                            lemma_back_pull(before, gone);
                            assert(after =~= after_back(before));
                        }
                    }
                    return val;
                } else {
                    self.iters.pop_back();
                    proof {
                        gone = gone + 1;
                    }
                }
            } else {
                proof {
                    if lawful(old(self)@) {
                        let before = old(self)@.map_values(|s: I| s.remaining());
                        lemma_back_pull(before, gone);
                        assert(self@.map_values(|s: I| s.remaining()) =~= after_back(before));
                    }
                }
                return None;
            }
        }
    }
}

} // verus!
