//! What holds of every chain, whatever its segments and however it is
//! pulled from. A run of pulls is given as a sequence of booleans, one for
//! each pull in the order in which they are made: `true` for a pull from
//! the back, `false` for one from the front.

use crate::pending::{
    after_back, after_front, back_item, front_item, lemma_after_back_items,
    lemma_after_front_items, lemma_back_pull, lemma_front_pull,
};
use vstd::prelude::*;
use vstd::seq_lib::{lemma_flatten_concat, lemma_multiset_commutative};

verus! {

/// A run of `pulls` pulls that are all made from the front.
pub open spec fn forward(pulls: nat) -> Seq<bool> {
    Seq::new(pulls, |i: int| false)
}

/// A run of `pulls` pulls that are all made from the back.
pub open spec fn backward(pulls: nat) -> Seq<bool> {
    Seq::new(pulls, |i: int| true)
}

/// What the run of pulls `from_back` leaves of `pending`.
pub open spec fn after_pulls<T>(pending: Seq<Seq<T>>, from_back: Seq<bool>) -> Seq<Seq<T>>
    decreases from_back.len(),
{
    if from_back.len() == 0 {
        pending
    } else {
        let left = after_pulls(pending, from_back.drop_last());
        if from_back.last() {
            after_back(left)
        } else {
            after_front(left)
        }
    }
}

/// The items that the pulls from the front yield in the run `from_back`, in
/// the order in which they come.
pub open spec fn front_items<T>(pending: Seq<Seq<T>>, from_back: Seq<bool>) -> Seq<T>
    decreases from_back.len(),
{
    if from_back.len() == 0 {
        Seq::empty()
    } else {
        let earlier = front_items(pending, from_back.drop_last());
        let left = after_pulls(pending, from_back.drop_last());
        match front_item(left) {
            Some(item) if !from_back.last() => earlier.push(item),
            _ => earlier,
        }
    }
}

/// The items that the pulls from the back yield in the run `from_back`, in
/// the order in which they come.
pub open spec fn back_items<T>(pending: Seq<Seq<T>>, from_back: Seq<bool>) -> Seq<T>
    decreases from_back.len(),
{
    if from_back.len() == 0 {
        Seq::empty()
    } else {
        let earlier = back_items(pending, from_back.drop_last());
        let left = after_pulls(pending, from_back.drop_last());
        match back_item(left) {
            Some(item) if from_back.last() => earlier.push(item),
            _ => earlier,
        }
    }
}

/// Whatever the ends that a run of pulls is made from: what came from the
/// front, then what is still pending, then what came from the back in
/// reverse, is what was pending at the start. Each pull that finds an item
/// takes exactly one.
pub proof fn lemma_pulls_partition<T>(pending: Seq<Seq<T>>, from_back: Seq<bool>)
    ensures
        front_items(pending, from_back) + after_pulls(pending, from_back).flatten() + back_items(
            pending,
            from_back,
        ).reverse() == pending.flatten(),
        after_pulls(pending, from_back).flatten().len() == if from_back.len()
            <= pending.flatten().len() {
            pending.flatten().len() - from_back.len()
        } else {
            0
        },
    decreases from_back.len(),
{
    if from_back.len() == 0 {
        assert(back_items(pending, from_back).reverse() =~= Seq::<T>::empty());
        assert(Seq::<T>::empty() + pending.flatten() + Seq::<T>::empty() =~= pending.flatten());
    } else {
        let earlier = from_back.drop_last();
        lemma_pulls_partition(pending, earlier);
        let left = after_pulls(pending, earlier);
        let front = front_items(pending, earlier);
        let back = back_items(pending, earlier);
        let items = left.flatten();
        if from_back.last() {
            lemma_after_back_items(left);
            if items.len() > 0 {
                assert(back.push(items.last()).reverse() =~= seq![items.last()] + back.reverse());
                assert(front + items.drop_last() + (seq![items.last()] + back.reverse()) =~= front
                    + items + back.reverse());
            } else {
                assert(front + Seq::<T>::empty() + back.reverse() =~= front + items
                    + back.reverse());
            }
        } else {
            lemma_after_front_items(left);
            if items.len() > 0 {
                assert(front.push(items.first()) + items.drop_first() + back.reverse() =~= front
                    + items + back.reverse());
            } else {
                assert(front + Seq::<T>::empty() + back.reverse() =~= front + items
                    + back.reverse());
            }
        }
    }
}

/// A chain yields the same items to the same run of pulls as any other chain
/// whose segments, laid end to end, hold the same items: where one segment
/// ends and the next begins makes no difference.
pub proof fn lemma_items_as_one_sequence<T>(
    pending: Seq<Seq<T>>,
    other: Seq<Seq<T>>,
    from_back: Seq<bool>,
)
    requires
        pending.flatten() == other.flatten(),
    ensures
        front_items(pending, from_back) == front_items(other, from_back),
        back_items(pending, from_back) == back_items(other, from_back),
        after_pulls(pending, from_back).flatten() == after_pulls(other, from_back).flatten(),
    decreases from_back.len(),
{
    if from_back.len() > 0 {
        let earlier = from_back.drop_last();
        lemma_items_as_one_sequence(pending, other, earlier);
        lemma_after_front_items(after_pulls(pending, earlier));
        lemma_after_front_items(after_pulls(other, earlier));
        lemma_after_back_items(after_pulls(pending, earlier));
        lemma_after_back_items(after_pulls(other, earlier));
    }
}

/// Pulls from the front never yield an item from the back.
proof fn lemma_forward_has_no_back_items<T>(pending: Seq<Seq<T>>, pulls: nat)
    ensures
        back_items(pending, forward(pulls)) == Seq::<T>::empty(),
    decreases pulls,
{
    if pulls > 0 {
        assert(forward(pulls).drop_last() =~= forward((pulls - 1) as nat));
        lemma_forward_has_no_back_items(pending, (pulls - 1) as nat);
    }
}

/// Pulled from the front alone, a chain yields the items of its first
/// segment in their order, then those of the second, and so on to the last:
/// `pulls` pulls yield the first `pulls` of them, and once there have been as
/// many pulls as items, all of them.
pub proof fn lemma_forward_drain<T>(pending: Seq<Seq<T>>, pulls: nat)
    ensures
        pulls <= pending.flatten().len() ==> front_items(pending, forward(pulls))
            == pending.flatten().take(pulls as int),
        pulls >= pending.flatten().len() ==> front_items(pending, forward(pulls))
            == pending.flatten(),
{
    let run = forward(pulls);
    lemma_pulls_partition(pending, run);
    lemma_forward_has_no_back_items(pending, pulls);
    let front = front_items(pending, run);
    let left = after_pulls(pending, run).flatten();
    assert(Seq::<T>::empty().reverse() =~= Seq::<T>::empty());
    assert(front + left + Seq::<T>::empty() =~= front + left);
    assert((front + left).take(front.len() as int) =~= front);
    if pulls >= pending.flatten().len() {
        assert(front + left =~= front);
    }
}

/// Pulls from the back never yield an item from the front.
proof fn lemma_backward_has_no_front_items<T>(pending: Seq<Seq<T>>, pulls: nat)
    ensures
        front_items(pending, backward(pulls)) == Seq::<T>::empty(),
    decreases pulls,
{
    if pulls > 0 {
        assert(backward(pulls).drop_last() =~= backward((pulls - 1) as nat));
        lemma_backward_has_no_front_items(pending, (pulls - 1) as nat);
    }
}

/// Pulled from the back alone, a chain yields the items of its last segment
/// from the last to the first, then those of the segment before it, and so
/// on to the first: once there have been as many pulls as items, all of
/// them, in reverse.
pub proof fn lemma_backward_drain<T>(pending: Seq<Seq<T>>, pulls: nat)
    ensures
        pulls >= pending.flatten().len() ==> back_items(pending, backward(pulls))
            == pending.flatten().reverse(),
{
    let run = backward(pulls);
    lemma_pulls_partition(pending, run);
    lemma_backward_has_no_front_items(pending, pulls);
    let back = back_items(pending, run);
    let left = after_pulls(pending, run).flatten();
    if pulls >= pending.flatten().len() {
        assert(Seq::<T>::empty() + left + back.reverse() =~= back.reverse());
        assert(back.reverse().reverse() =~= back);
    }
}

/// A segment at the back of a chain is pulled from the front after all
/// others: as many pulls as the others have items yield exactly those, and
/// leave the items of the segment at the back.
pub proof fn lemma_back_segment_comes_last<T>(rest: Seq<Seq<T>>, last: Seq<T>)
    ensures
        rest.push(last).flatten() == rest.flatten() + last,
        front_items(rest.push(last), forward(rest.flatten().len())) == rest.flatten(),
        after_pulls(rest.push(last), forward(rest.flatten().len())).flatten() == last,
{
    let chain = rest.push(last);
    let ahead = rest.flatten();
    let run = forward(ahead.len());
    rest.lemma_flatten_push(last);
    lemma_forward_drain(chain, ahead.len());
    lemma_pulls_partition(chain, run);
    lemma_forward_has_no_back_items(chain, ahead.len());
    assert((ahead + last).take(ahead.len() as int) =~= ahead);
    assert(Seq::<T>::empty().reverse() =~= Seq::<T>::empty());
    let left = after_pulls(chain, run).flatten();
    assert(ahead + left + Seq::<T>::empty() =~= ahead + left);
    assert(left =~= (ahead + left).skip(ahead.len() as int));
    assert(last =~= (ahead + last).skip(ahead.len() as int));
}

/// A chain without segments yields nothing, at either end, and stays without
/// segments, however often it is pulled from.
pub proof fn lemma_empty_chain_yields_nothing<T>(from_back: Seq<bool>)
    ensures
        front_item(Seq::<Seq<T>>::empty()) is None,
        back_item(Seq::<Seq<T>>::empty()) is None,
        after_pulls(Seq::<Seq<T>>::empty(), from_back) == Seq::<Seq<T>>::empty(),
        front_items(Seq::<Seq<T>>::empty(), from_back) == Seq::<T>::empty(),
        back_items(Seq::<Seq<T>>::empty(), from_back) == Seq::<T>::empty(),
    decreases from_back.len(),
{
    let none = Seq::<Seq<T>>::empty();
    assert(none.flatten() =~= Seq::<T>::empty());
    if from_back.len() > 0 {
        lemma_empty_chain_yields_nothing::<T>(from_back.drop_last());
        assert(after_front(none) =~= none);
        assert(after_back(none) =~= none);
    }
}

/// A chain whose segments are all exhausted yields nothing, and the first
/// pull, from either end, leaves it without segments.
pub proof fn lemma_exhausted_chain_yields_nothing<T>(pending: Seq<Seq<T>>)
    requires
        forall|i: int| 0 <= i < pending.len() ==> (#[trigger] pending[i]).len() == 0,
    ensures
        front_item(pending) is None,
        back_item(pending) is None,
        after_front(pending) == Seq::<Seq<T>>::empty(),
        after_back(pending) == Seq::<Seq<T>>::empty(),
{
    lemma_front_pull(pending, pending.len() as int);
    lemma_back_pull(pending, pending.len() as int);
    assert(after_front(pending) =~= Seq::<Seq<T>>::empty());
    assert(after_back(pending) =~= Seq::<Seq<T>>::empty());
}

/// An exhausted segment adds nothing, wherever in the chain it stands: with
/// it the chain yields to every run of pulls what it yields without it.
pub proof fn lemma_exhausted_segment_is_transparent<T>(
    pending: Seq<Seq<T>>,
    at: int,
    from_back: Seq<bool>,
)
    requires
        0 <= at <= pending.len(),
    ensures
        pending.insert(at, Seq::empty()).flatten() == pending.flatten(),
        front_items(pending.insert(at, Seq::empty()), from_back) == front_items(
            pending,
            from_back,
        ),
        back_items(pending.insert(at, Seq::empty()), from_back) == back_items(pending, from_back),
{
    let with = pending.insert(at, Seq::empty());
    let head = pending.take(at);
    let tail = pending.skip(at);
    let gap = seq![Seq::<T>::empty()];
    assert(with =~= head + gap + tail);
    assert(pending =~= head + tail);
    lemma_flatten_concat(head + gap, tail);
    lemma_flatten_concat(head, gap);
    lemma_flatten_concat(head, tail);
    assert(gap.flatten() =~= Seq::<T>::empty()) by {
        assert(gap.flatten() == gap.first() + gap.drop_first().flatten());
    }
    assert(head.flatten() + Seq::<T>::empty() =~= head.flatten());
    lemma_items_as_one_sequence(with, pending, from_back);
}

/// A segment at the front of a chain is pulled from the front before any
/// other: as many pulls as it has items yield exactly its items, and leave
/// the items of the segments behind it.
pub proof fn lemma_front_segment_comes_first<T>(first: Seq<T>, rest: Seq<Seq<T>>)
    ensures
        (seq![first] + rest).flatten() == first + rest.flatten(),
        front_items(seq![first] + rest, forward(first.len())) == first,
        after_pulls(seq![first] + rest, forward(first.len())).flatten() == rest.flatten(),
{
    let chain = seq![first] + rest;
    let run = forward(first.len());
    assert(chain.flatten() =~= first + rest.flatten()) by {
        assert(chain.first() == first);
        assert(chain.drop_first() =~= rest);
    }
    lemma_forward_drain(chain, first.len());
    lemma_pulls_partition(chain, run);
    lemma_forward_has_no_back_items(chain, first.len());
    assert(chain.flatten().take(first.len() as int) =~= first);
    assert(Seq::<T>::empty().reverse() =~= Seq::<T>::empty());
    let left = after_pulls(chain, run).flatten();
    assert(first + left + Seq::<T>::empty() =~= first + left);
    assert(left =~= (first + left).skip(first.len() as int));
    assert(rest.flatten() =~= (first + rest.flatten()).skip(first.len() as int));
}

/// A chain that is drained by pulls from both ends, in whatever order, yields
/// each of its items once: what came from the front, followed by what came
/// from the back in reverse, is the items of its segments from the first to
/// the last, and so holds the same items, each as often, as what comes of
/// draining the chain from the front alone.
pub proof fn lemma_two_ended_drain<T>(pending: Seq<Seq<T>>, from_back: Seq<bool>)
    requires
        from_back.len() >= pending.flatten().len(),
    ensures
        front_items(pending, from_back) + back_items(pending, from_back).reverse()
            == pending.flatten(),
        (front_items(pending, from_back) + back_items(pending, from_back)).to_multiset()
            == front_items(pending, forward(from_back.len())).to_multiset(),
{
    let front = front_items(pending, from_back);
    let back = back_items(pending, from_back);
    lemma_pulls_partition(pending, from_back);
    assert(front + after_pulls(pending, from_back).flatten() =~= front);
    lemma_forward_drain(pending, from_back.len());
    lemma_multiset_commutative(front, back);
    lemma_multiset_commutative(front, back.reverse());
    back.lemma_reverse_to_multiset();
}

} // verus!
