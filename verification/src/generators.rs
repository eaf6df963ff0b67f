//! Numeric generators that feed key and value construction: a constant
//! source and an atomic-style counter handing out consecutive identifiers.

use vstd::prelude::*;

verus! {

/// A source of values drawn one at a time. `next_req` is the state a draw
/// demands, `next_ens` relates the state before the draw, the state after,
/// and the value drawn.
pub trait Generator<T>: Sized {
    spec fn next_req(self) -> bool;

    spec fn next_ens(pre: Self, post: Self, r: T) -> bool;

    fn next(&mut self) -> (r: T)
        requires
            old(self).next_req(),
        ensures
            Self::next_ens(*old(self), *final(self), r),
    ;
}

/// Generators whose values are `u64` identifiers.
pub trait NumberGenerator: Generator<u64> {

}

/// Always produces the same value.
#[derive(Clone, Copy)]
pub struct Constant {
    value: u64,
}

impl Constant {
    pub closed spec fn spec_value(self) -> u64 {
        self.value
    }

    pub fn new(value: u64) -> (r: Self)
        ensures
            r.spec_value() == value,
    {
        Constant { value }
    }
}

impl Generator<u64> for Constant {
    open spec fn next_req(self) -> bool {
        true
    }

    open spec fn next_ens(pre: Self, post: Self, r: u64) -> bool {
        post == pre && r == pre.spec_value()
    }

    fn next(&mut self) -> u64 {
        self.value
    }
}

impl NumberGenerator for Constant {

}

/// Hands out consecutive identifiers: each draw returns the current value
/// and advances it by one, so a run of draws exactly partitions an interval.
pub struct Counter {
    counter: u64,
}

impl Counter {
    pub closed spec fn spec_value(self) -> u64 {
        self.counter
    }

    pub fn new(start: u64) -> (r: Self)
        ensures
            r.spec_value() == start,
    {
        Counter { counter: start }
    }

    /// The value the next draw will return, without drawing it.
    pub fn peek(&self) -> (r: u64)
        ensures
            r == self.spec_value(),
    {
        self.counter
    }
}

impl Generator<u64> for Counter {
    open spec fn next_req(self) -> bool {
        self.spec_value() < u64::MAX
    }

    open spec fn next_ens(pre: Self, post: Self, r: u64) -> bool {
        &&& post.spec_value() == pre.spec_value() + 1
        &&& r == pre.spec_value()
    }

    fn next(&mut self) -> u64 {
        let v = self.counter;
        self.counter = self.counter + 1;
        v
    }
}

impl NumberGenerator for Counter {

}

/// The values a counter starting at `start` hands out over `n` draws: the
/// `i`-th draw returns `start + i`, by `Counter`'s `next` contract.
pub open spec fn counter_outputs(start: u64, n: nat) -> Seq<u64> {
    Seq::new(n, |i: int| (start + i) as u64)
}

/// Law: `n` sequential draws from a counter starting at `start` yield `n`
/// pairwise-distinct values that form exactly the interval
/// `[start, start + n)` — each value of the interval is drawn exactly once.
pub proof fn lemma_counter_outputs_partition(start: u64, n: nat)
    requires
        start + n <= u64::MAX + 1,
    ensures
        counter_outputs(start, n).len() == n,
        forall|i: int, j: int|
            0 <= i < n && 0 <= j < n && i != j ==> counter_outputs(start, n)[i] != counter_outputs(
                start,
                n,
            )[j],
        forall|i: int|
            0 <= i < n ==> start <= #[trigger] counter_outputs(start, n)[i] && counter_outputs(
                start,
                n,
            )[i] < start + n,
        forall|v: u64| start <= v < start + n ==> counter_outputs(start, n).contains(v),
{
    assert forall|v: u64| start <= v < start + n implies counter_outputs(start, n).contains(
        v,
    ) by {
        let i = v - start;
        assert(counter_outputs(start, n)[i as int] == v);
    }
}

} // verus!
