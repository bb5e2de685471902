//! Typed indices and the small helpers built on them.
use vstd::prelude::*;

verus! {

/// The largest raw value of an index type: all index types are backed by a `u32`.
pub const MAX_INDEX: usize = 0xffff_ffff;

/// An index into a collection, backed by a `u32`.
pub trait Idx: Copy + Sized {
    /// The numeric value of the index.
    spec fn spec_index(self) -> nat;

    /// Builds an index from its numeric value.
    fn from_usize(i: usize) -> (r: Self)
        requires
            i <= MAX_INDEX,
        ensures
            r.spec_index() == i,
    ;

    /// The numeric value of the index.
    fn index(self) -> (r: usize)
        ensures
            r == self.spec_index(),
            r <= MAX_INDEX,
    ;

    /// An index is determined by its numeric value.
    proof fn lemma_index_determines(a: Self, b: Self)
        requires
            a.spec_index() == b.spec_index(),
        ensures
            a == b,
    ;
}

/// Hands out consecutive indices, starting at 0.
#[derive(Copy, Clone, Debug)]
pub struct Counter<I> {
    pub next: I,
}

impl<I: Idx> Counter<I> {
    /// Returns a new [`Counter`] starting at 0.
    pub fn new() -> (r: Self)
        ensures
            r.next.spec_index() == 0,
    {
        Counter { next: I::from_usize(0) }
    }

    /// Returns the next `I`, incrementing `self` in the process.
    pub fn next(&mut self) -> (r: I)
        requires
            old(self).next.spec_index() < MAX_INDEX,
        ensures
            r == old(self).next,
            final(self).next.spec_index() == old(self).next.spec_index() + 1,
    {
        let next = self.next;
        self.next = I::from_usize(next.index() + 1);
        next
    }
}

/// An index, or the sentinel `u32::MAX` standing for "no index".
#[derive(Copy, Clone, Debug)]
pub struct MaxOr<I>(pub I);

impl<I: Idx> MaxOr<I> {
    /// The index held, unless it is the sentinel.
    pub fn into_non_max(self) -> (r: Option<I>)
        ensures
            r == (if self.0.spec_index() == MAX_INDEX { None } else { Some(self.0) }),
    {
        if self.0.index() == MAX_INDEX {
            None
        } else {
            Some(self.0)
        }
    }

    /// Wraps an index.
    pub fn new(index: I) -> (r: Self)
        ensures
            r.0 == index,
    {
        MaxOr(index)
    }

    /// The sentinel.
    pub fn max() -> (r: Self)
        ensures
            r.0.spec_index() == MAX_INDEX,
    {
        MaxOr(I::from_usize(MAX_INDEX))
    }
}

} // verus!
