//! Dual-representation value storage.
//!
//! `Inner` holds one model value either inline or behind a sole-ownership
//! heap allocation. The variant is fixed at construction from the size of
//! the model type against a fixed threshold and never changes afterwards.
//! Every contract here speaks only of the contained value, never of the
//! variant: no caller can tell from this interface which representation
//! backs a given instance.

use vstd::prelude::*;

verus! {

/// Model values strictly larger than this many bytes go to the heap.
pub const HEAP_THRESHOLD: usize = 256;

/// One model value, held inline or behind a heap allocation.
pub enum Inner<M> {
    /// The value lives inline.
    Stack(M),
    /// The value lives behind a sole-ownership heap allocation.
    Heap(Box<M>),
}

impl<M> Inner<M> {
    /// The contained value, whichever variant holds it.
    pub open spec fn value(self) -> M {
        match self {
            Inner::Stack(m) => m,
            Inner::Heap(b) => *b,
        }
    }

    /// Whether the value is heap-held.
    pub open spec fn is_heap(self) -> bool {
        self is Heap
    }

    /// Wraps `m`, choosing the variant from the size of `M`: strictly above
    /// the threshold the value is moved to the heap, otherwise it stays
    /// inline. The choice is visible only through `is_heap`; the contained
    /// value is `m` either way.
    pub fn new(m: M) -> (r: Inner<M>)
        ensures
            r.value() == m,
            r.is_heap() <==> vstd::layout::size_of::<M>() > HEAP_THRESHOLD,
    {
        if core::mem::size_of::<M>() > HEAP_THRESHOLD {
            Inner::Heap(Box::new(m))
        } else {
            Inner::Stack(m)
        }
    }

    /// A shared borrow of the contained value.
    pub fn get(&self) -> (r: &M)
        ensures
            *r == self.value(),
    {
        match self {
            Inner::Stack(m) => m,
            Inner::Heap(b) => &*b,
        }
    }

    /// A mutable borrow of the contained value.
    pub fn get_mut(&mut self) -> (r: &mut M)
        ensures
            *r == old(self).value(),
            final(self).value() == *final(r),
            final(self).is_heap() == old(self).is_heap(),
    {
        match self {
            Inner::Stack(m) => m,
            Inner::Heap(b) => &mut **b,
        }
    }

    /// Replaces the contained value.
    pub fn put(&mut self, m: M)
        ensures
            final(self).value() == m,
            final(self).is_heap() == old(self).is_heap(),
    {
        match self {
            Inner::Stack(slot) => {
                *slot = m;
            }
            Inner::Heap(slot) => {
                **slot = m;
            }
        }
    }

    /// Moves the contained value out, leaving `replacement` in its place.
    pub fn take(&mut self, replacement: M) -> (r: M)
        ensures
            r == old(self).value(),
            final(self).value() == replacement,
            final(self).is_heap() == old(self).is_heap(),
    {
        match self {
            Inner::Stack(slot) => {
                let mut v = replacement;
                core::mem::swap(slot, &mut v);
                v
            }
            Inner::Heap(slot) => {
                let mut v = replacement;
                core::mem::swap(&mut **slot, &mut v);
                v
            }
        }
    }
}

/// Whichever variant backs the storage, the observed value is exactly the
/// value put in: the two representations of the same value are
/// indistinguishable through `value`, and every contract of this module is
/// stated over `value` alone.
pub proof fn lemma_variant_transparent<M>(m: M)
    ensures
        (Inner::Stack(m)).value() == m,
        forall|b: Box<M>| *b == m ==> (#[trigger] Inner::Heap(b).value()) == m,
{
}

} // verus!
