//! The model of a chain: for each segment, front first, the items it has
//! still to yield. A pull from either end is a function on this model.

use vstd::prelude::*;

verus! {

/// How many segments at the front have nothing left.
pub open spec fn exhausted_front<T>(pending: Seq<Seq<T>>) -> nat
    decreases pending.len(),
{
    if pending.len() == 0 || pending.first().len() > 0 {
        0
    } else {
        1 + exhausted_front(pending.drop_first())
    }
}

/// How many segments at the back have nothing left.
pub open spec fn exhausted_back<T>(pending: Seq<Seq<T>>) -> nat
    decreases pending.len(),
{
    if pending.len() == 0 || pending.last().len() > 0 {
        0
    } else {
        1 + exhausted_back(pending.drop_last())
    }
}

/// The item that a pull from the front yields: the first of all that is
/// pending, if anything is.
pub open spec fn front_item<T>(pending: Seq<Seq<T>>) -> Option<T> {
    let items = pending.flatten();
    if items.len() > 0 {
        Some(items.first())
    } else {
        None
    }
}

/// The item that a pull from the back yields: the last of all that is
/// pending, if anything is.
pub open spec fn back_item<T>(pending: Seq<Seq<T>>) -> Option<T> {
    let items = pending.flatten();
    if items.len() > 0 {
        Some(items.last())
    } else {
        None
    }
}

/// What a pull from the front leaves: the exhausted segments at the front are
/// gone, and the first segment that had an item has lost its first.
pub open spec fn after_front<T>(pending: Seq<Seq<T>>) -> Seq<Seq<T>> {
    let live = pending.skip(exhausted_front(pending) as int);
    if live.len() > 0 {
        live.update(0, live.first().drop_first())
    } else {
        live
    }
}

/// What a pull from the back leaves: the exhausted segments at the back are
/// gone, and the last segment that had an item has lost its last.
pub open spec fn after_back<T>(pending: Seq<Seq<T>>) -> Seq<Seq<T>> {
    let live = pending.take(pending.len() - exhausted_back(pending));
    if live.len() > 0 {
        live.update(live.len() - 1, live.last().drop_last())
    } else {
        live
    }
}

/// `exhausted_front` counts exactly the empty segments before the first
/// segment that is not empty.
pub proof fn lemma_exhausted_front<T>(pending: Seq<Seq<T>>)
    ensures
        exhausted_front(pending) <= pending.len(),
        forall|j: int|
            0 <= j < exhausted_front(pending) ==> (#[trigger] pending[j]).len() == 0,
        exhausted_front(pending) < pending.len()
            ==> pending[exhausted_front(pending) as int].len() > 0,
    decreases pending.len(),
{
    if pending.len() != 0 && pending.first().len() == 0 {
        let rest = pending.drop_first();
        lemma_exhausted_front(rest);
        assert forall|j: int| 0 <= j < exhausted_front(pending) implies
            (#[trigger] pending[j]).len() == 0 by {
            if j > 0 {
                assert(pending[j] == rest[j - 1]);
            }
        }
    }
}

/// `exhausted_back` counts exactly the empty segments behind the last segment
/// that is not empty.
pub proof fn lemma_exhausted_back<T>(pending: Seq<Seq<T>>)
    ensures
        exhausted_back(pending) <= pending.len(),
        forall|j: int|
            pending.len() - exhausted_back(pending) <= j < pending.len()
                ==> (#[trigger] pending[j]).len() == 0,
        exhausted_back(pending) < pending.len()
            ==> pending[pending.len() - 1 - exhausted_back(pending)].len() > 0,
    decreases pending.len(),
{
    if pending.len() != 0 && pending.last().len() == 0 {
        let rest = pending.drop_last();
        lemma_exhausted_back(rest);
        assert forall|j: int|
            pending.len() - exhausted_back(pending) <= j < pending.len() implies
            (#[trigger] pending[j]).len() == 0 by {
            if j < rest.len() {
                assert(pending[j] == rest[j]);
            }
        }
    }
}

/// A count of empty segments at the front that is followed by a segment with
/// an item, or by nothing, is `exhausted_front`.
proof fn lemma_exhausted_front_is<T>(pending: Seq<Seq<T>>, k: int)
    requires
        0 <= k <= pending.len(),
        forall|j: int| 0 <= j < k ==> (#[trigger] pending[j]).len() == 0,
        k < pending.len() ==> pending[k].len() > 0,
    ensures
        exhausted_front(pending) == k,
    decreases pending.len(),
{
    if k > 0 {
        let rest = pending.drop_first();
        assert(pending.first() == pending[0]);
        assert forall|j: int| 0 <= j < k - 1 implies (#[trigger] rest[j]).len() == 0 by {
            assert(rest[j] == pending[j + 1]);
        }
        lemma_exhausted_front_is(rest, k - 1);
    }
}

/// Segments with nothing left at the front add nothing to what is pending.
proof fn lemma_flatten_skip_exhausted<T>(pending: Seq<Seq<T>>, k: int)
    requires
        0 <= k <= pending.len(),
        forall|j: int| 0 <= j < k ==> (#[trigger] pending[j]).len() == 0,
    ensures
        pending.skip(k).flatten() == pending.flatten(),
    decreases k,
{
    if k == 0 {
        assert(pending.skip(0) =~= pending);
    } else {
        let rest = pending.drop_first();
        assert(pending.first() == pending[0]);
        assert forall|j: int| 0 <= j < k - 1 implies (#[trigger] rest[j]).len() == 0 by {
            assert(rest[j] == pending[j + 1]);
        }
        lemma_flatten_skip_exhausted(rest, k - 1);
        assert(rest.skip(k - 1) =~= pending.skip(k));
        assert(pending.flatten() =~= rest.flatten());
    }
}

/// Segments with nothing left at the back add nothing to what is pending.
proof fn lemma_flatten_take_live<T>(pending: Seq<Seq<T>>, k: int)
    requires
        0 <= k <= pending.len(),
        forall|j: int|
            pending.len() - k <= j < pending.len() ==> (#[trigger] pending[j]).len() == 0,
    ensures
        pending.take(pending.len() - k).flatten() == pending.flatten(),
    decreases k,
{
    if k == 0 {
        assert(pending.take(pending.len() as int) =~= pending);
    } else {
        let rest = pending.drop_last();
        assert(pending.last() == pending[pending.len() - 1]);
        lemma_flatten_take_live(rest, k - 1);
        assert(rest.take(rest.len() - (k - 1)) =~= pending.take(pending.len() - k));
        assert(pending =~= rest.push(pending.last()));
        rest.lemma_flatten_push(pending.last());
        assert(pending.flatten() =~= rest.flatten());
    }
}

/// A count of empty segments at the back that is preceded by a segment with
/// an item, or by nothing, is `exhausted_back`.
proof fn lemma_exhausted_back_is<T>(pending: Seq<Seq<T>>, k: int)
    requires
        0 <= k <= pending.len(),
        forall|j: int|
            pending.len() - k <= j < pending.len() ==> (#[trigger] pending[j]).len() == 0,
        k < pending.len() ==> pending[pending.len() - 1 - k].len() > 0,
    ensures
        exhausted_back(pending) == k,
    decreases pending.len(),
{
    if k > 0 {
        let rest = pending.drop_last();
        assert(pending.last() == pending[pending.len() - 1]);
        lemma_exhausted_back_is(rest, k - 1);
    }
}

/// What a pull from the front finds when `k` empty segments stand before the
/// first segment with an item.
pub proof fn lemma_front_pull<T>(pending: Seq<Seq<T>>, k: int)
    requires
        0 <= k <= pending.len(),
        forall|j: int| 0 <= j < k ==> (#[trigger] pending[j]).len() == 0,
        k < pending.len() ==> pending[k].len() > 0,
    ensures
        exhausted_front(pending) == k,
        front_item(pending) == if k < pending.len() {
            Some(pending[k].first())
        } else {
            None
        },
{
    lemma_exhausted_front_is(pending, k);
    lemma_flatten_skip_exhausted(pending, k);
    let live = pending.skip(k);
    if k < pending.len() {
        assert(live.flatten() == live.first() + live.drop_first().flatten());
    }
}

/// What a pull from the back finds when `k` empty segments stand behind the
/// last segment with an item.
pub proof fn lemma_back_pull<T>(pending: Seq<Seq<T>>, k: int)
    requires
        0 <= k <= pending.len(),
        forall|j: int|
            pending.len() - k <= j < pending.len() ==> (#[trigger] pending[j]).len() == 0,
        k < pending.len() ==> pending[pending.len() - 1 - k].len() > 0,
    ensures
        exhausted_back(pending) == k,
        back_item(pending) == if k < pending.len() {
            Some(pending[pending.len() - 1 - k].last())
        } else {
            None
        },
{
    lemma_exhausted_back_is(pending, k);
    lemma_flatten_take_live(pending, k);
    let live = pending.take(pending.len() - k);
    if k < pending.len() {
        assert(live =~= live.drop_last().push(live.last()));
        live.drop_last().lemma_flatten_push(live.last());
    }
}

/// A pull from the front takes the first of the pending items and leaves the
/// others as they are.
pub proof fn lemma_after_front_items<T>(pending: Seq<Seq<T>>)
    ensures
        after_front(pending).flatten() == if pending.flatten().len() > 0 {
            pending.flatten().drop_first()
        } else {
            Seq::empty()
        },
{
    let k = exhausted_front(pending) as int;
    lemma_exhausted_front(pending);
    lemma_flatten_skip_exhausted(pending, k);
    let live = pending.skip(k);
    let after = after_front(pending);
    if live.len() > 0 {
        assert(after.drop_first() =~= live.drop_first());
        assert(after.flatten() == after.first() + after.drop_first().flatten());
        assert(live.flatten() == live.first() + live.drop_first().flatten());
        assert(after.flatten() =~= live.flatten().drop_first());
    }
}

/// A pull from the back takes the last of the pending items and leaves the
/// others as they are.
pub proof fn lemma_after_back_items<T>(pending: Seq<Seq<T>>)
    ensures
        after_back(pending).flatten() == if pending.flatten().len() > 0 {
            pending.flatten().drop_last()
        } else {
            Seq::empty()
        },
{
    let k = exhausted_back(pending) as int;
    lemma_exhausted_back(pending);
    lemma_flatten_take_live(pending, k);
    let live = pending.take(pending.len() - k);
    let after = after_back(pending);
    if live.len() > 0 {
        assert(after =~= live.drop_last().push(live.last().drop_last()));
        assert(live =~= live.drop_last().push(live.last()));
        live.drop_last().lemma_flatten_push(live.last().drop_last());
        live.drop_last().lemma_flatten_push(live.last());
        assert(after.flatten() =~= live.flatten().drop_last());
    }
}

} // verus!
