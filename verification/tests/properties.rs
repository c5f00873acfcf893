use chaining_iter::IterChain;
use std::collections::hash_map::DefaultHasher;
use std::hash::{Hash, Hasher};
use std::ops::Range;

/// Counts down to one; yields forward only.
#[derive(Debug, Clone, PartialEq, Eq, PartialOrd, Ord, Hash)]
struct Countdown(u32);

impl Iterator for Countdown {
    type Item = u32;

    fn next(&mut self) -> Option<u32> {
        if self.0 == 0 {
            None
        } else {
            self.0 -= 1;
            Some(self.0 + 1)
        }
    }
}

fn drain_front<I: Iterator>(chain: &mut IterChain<I>) -> Vec<I::Item> {
    let mut out = Vec::new();
    while let Some(item) = chain.next() {
        out.push(item);
    }
    out
}

fn drain_back<I: DoubleEndedIterator>(chain: &mut IterChain<I>) -> Vec<I::Item> {
    let mut out = Vec::new();
    while let Some(item) = chain.next_back() {
        out.push(item);
    }
    out
}

fn hash_of<T: Hash>(value: &T) -> u64 {
    let mut hasher = DefaultHasher::new();
    value.hash(&mut hasher);
    hasher.finish()
}

#[test]
fn include_front_after_include_back() {
    let mut i = IterChain::new();
    i.include_back(3..5);
    i.include_front(0..3);

    assert_eq!(Some(0), i.next());
}

#[test]
fn forward_drain_is_the_concatenation() {
    let mut i = IterChain::new();
    i.include_back(0..3);
    i.include_back(7..9);
    i.include_back(20..21);

    assert_eq!(vec![0, 1, 2, 7, 8, 20], drain_front(&mut i));
    assert_eq!(None, i.next());
}

#[test]
fn next_advances_within_a_segment() {
    let mut i = IterChain::new();
    i.include_back(4..7);

    assert_eq!(Some(4), i.next());
    assert_eq!(Some(5), i.next());
    assert_eq!(Some(6), i.next());
    assert_eq!(None, i.next());
}

#[test]
fn next_back_advances_within_a_segment() {
    let mut i = IterChain::new();
    i.include_back(4..7);

    assert_eq!(Some(6), i.next_back());
    assert_eq!(Some(5), i.next_back());
    assert_eq!(Some(4), i.next_back());
    assert_eq!(None, i.next_back());
}

#[test]
fn empty_chain_stays_empty() {
    let mut i: IterChain<Range<u8>> = IterChain::new();

    assert_eq!(None, i.next());
    assert_eq!(None, i.next());
    assert_eq!(None, i.next_back());
    assert_eq!(None, i.next());
    assert_eq!(None, i.next_back());
}

#[test]
fn exhausted_chain_stays_exhausted() {
    let mut i = IterChain::new();
    i.include_back(0..2);

    assert_eq!(vec![0, 1], drain_front(&mut i));
    assert_eq!(None, i.next());
    assert_eq!(None, i.next_back());
    assert_eq!(None, i.next());
}

#[test]
fn only_empty_segments_yield_nothing_from_the_back() {
    let mut i = IterChain::new();
    i.include_back(0..0);
    i.include_back(3..3);
    i.include_front(9..9);

    assert_eq!(None, i.next_back());
    assert_eq!(None, i.next());
}

#[test]
fn empty_segment_between_two_others_is_transparent() {
    let mut with = IterChain::new();
    with.include_back(0..2);
    with.include_back(5..5);
    with.include_back(2..4);

    let mut without = IterChain::new();
    without.include_back(0..2);
    without.include_back(2..4);

    assert_eq!(vec![0, 1, 2, 3], drain_front(&mut with));
    assert_eq!(vec![0, 1, 2, 3], drain_front(&mut without));
}

#[test]
fn empty_segments_at_the_back_are_skipped() {
    let mut i = IterChain::new();
    i.include_back(0..2);
    i.include_back(5..5);
    i.include_back(8..8);

    assert_eq!(Some(1), i.next_back());
    assert_eq!(Some(0), i.next_back());
    assert_eq!(None, i.next_back());
}

#[test]
fn front_segment_comes_first() {
    let mut i = IterChain::new();
    i.include_back(10..13);
    i.include_front(0..2);

    assert_eq!(vec![0, 1, 10, 11, 12], drain_front(&mut i));
}

#[test]
fn include_front_goes_before_a_segment_in_use() {
    let mut i = IterChain::new();
    i.include_back(10..13);
    assert_eq!(Some(10), i.next());

    i.include_front(0..2);

    assert_eq!(vec![0, 1, 11, 12], drain_front(&mut i));
}

#[test]
fn segments_added_after_exhaustion_are_reached() {
    let mut i = IterChain::new();
    i.include_back(0..1);
    assert_eq!(Some(0), i.next());
    assert_eq!(None, i.next());

    i.include_back(5..7);

    assert_eq!(Some(5), i.next());
    assert_eq!(Some(6), i.next());
    assert_eq!(None, i.next());
}

#[test]
fn backward_drain_is_the_concatenation_reversed() {
    let mut i = IterChain::new();
    i.include_back(0..3);
    i.include_back(3..3);
    i.include_back(7..9);

    assert_eq!(vec![8, 7, 2, 1, 0], drain_back(&mut i));
    assert_eq!(None, i.next_back());
}

#[test]
fn two_ended_drain_yields_each_item_once() {
    let mut i = IterChain::new();
    i.include_back(0..3);
    i.include_back(4..4);
    i.include_back(5..7);
    i.include_back(9..10);

    let mut front = Vec::new();
    let mut back = Vec::new();
    loop {
        match i.next() {
            Some(item) => front.push(item),
            None => break,
        }
        match i.next_back() {
            Some(item) => back.push(item),
            None => break,
        }
    }

    assert_eq!(vec![0, 1, 2], front);
    assert_eq!(vec![9, 6, 5], back);

    let mut joined = front.clone();
    joined.extend(back.iter().rev());
    assert_eq!(vec![0, 1, 2, 5, 6, 9], joined);

    let mut all = front;
    all.extend(back);
    all.sort();
    let mut forward = IterChain::new();
    forward.include_back(0..3);
    forward.include_back(4..4);
    forward.include_back(5..7);
    forward.include_back(9..10);
    assert_eq!(drain_front(&mut forward), all);
}

#[test]
fn both_ends_meet_in_one_segment() {
    let mut i = IterChain::new();
    i.include_back(0..3);

    assert_eq!(Some(0), i.next());
    assert_eq!(Some(2), i.next_back());
    assert_eq!(Some(1), i.next());
    assert_eq!(None, i.next_back());
    assert_eq!(None, i.next());
}

#[test]
fn chains_iterators_that_own_their_items() {
    let mut i = IterChain::new();
    i.include_back(vec![String::from("a"), String::from("b")].into_iter());
    i.include_back(Vec::new().into_iter());
    i.include_back(vec![String::from("c")].into_iter());

    assert_eq!(Some(String::from("a")), i.next());
    assert_eq!(Some(String::from("c")), i.next_back());
    assert_eq!(Some(String::from("b")), i.next_back());
    assert_eq!(None, i.next());
}

#[test]
fn chains_forward_only_iterators() {
    let mut i = IterChain::new();
    i.include_back(Countdown(2));
    i.include_back(Countdown(0));
    i.include_back(Countdown(1));

    assert_eq!(vec![2, 1, 1], drain_front(&mut i));
}

#[test]
fn equal_chains_have_equal_segments_in_order() {
    let mut a = IterChain::new();
    a.include_back(0..2);
    a.include_back(5..7);
    let mut b = IterChain::new();
    b.include_back(5..7);
    b.include_front(0..2);
    let mut c = IterChain::new();
    c.include_back(5..7);
    c.include_back(0..2);

    assert_eq!(a, b);
    assert_ne!(a, c);
    assert_eq!(hash_of(&a), hash_of(&b));

    assert_eq!(Some(0), a.next());
    assert_ne!(a, b);
}

#[test]
fn a_clone_is_pulled_from_on_its_own() {
    let mut a = IterChain::new();
    a.include_back(0..2);
    a.include_back(5..6);
    let mut b = a.clone();

    assert_eq!(vec![0, 1, 5], drain_front(&mut a));
    assert_eq!(Some(0), b.next());
    assert_eq!(Some(5), b.next_back());
}

#[test]
fn chains_are_ordered_by_their_segments() {
    let mut a = IterChain::new();
    a.include_back(Countdown(1));
    a.include_back(Countdown(5));
    let mut b = IterChain::new();
    b.include_back(Countdown(2));

    assert!(a < b);
    assert_eq!(std::cmp::Ordering::Greater, b.cmp(&a));

    b.include_front(Countdown(1));
    assert!(b < a);
}

#[test]
fn debug_names_the_segments() {
    let mut a = IterChain::new();
    a.include_back(0..2);

    assert_eq!("IterChain { iters: [0..2] }", format!("{:?}", a));
}
