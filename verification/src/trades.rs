//! Trade list backed by `smallvec::SmallVec`, which stores the first few
//! elements inline and spills to the heap beyond that; the matching loop
//! appends each generated trade to one.
//!
//! Verus cannot take the container's own generic declaration, so it is held
//! in a hidden field and seen only through [`trade_seq`], the sequence of its
//! elements in order, and the wrappers below.

use crate::protocol::TradeNotification;
use smallvec::SmallVec;
use vstd::prelude::*;

verus! {

/// Trade notifications in generation order, stored inline up to eight.
#[derive(Debug)]
#[verifier::external_body]
pub struct TradeVec {
    inner: SmallVec<[TradeNotification; 8]>,
}

/// The elements held by a trade vector, front to back.
pub uninterp spec fn trade_seq(v: TradeVec) -> Seq<TradeNotification>;

impl TradeVec {
    /// Relies on `smallvec::SmallVec::new`: creates an empty vector.
    #[verifier::external_body]
    pub fn new() -> (r: TradeVec)
        ensures
            trade_seq(r) == Seq::<TradeNotification>::empty(),
    {
        TradeVec { inner: SmallVec::new() }
    }

    /// Relies on `smallvec::SmallVec::push`: appends one element at the back.
    #[verifier::external_body]
    pub fn push(&mut self, t: TradeNotification)
        ensures
            trade_seq(*final(self)) == trade_seq(*old(self)).push(t),
    {
        self.inner.push(t)
    }

    /// Relies on `smallvec::SmallVec::len`: the number of elements.
    #[verifier::external_body]
    pub fn len(&self) -> (n: usize)
        ensures
            n == trade_seq(*self).len(),
    {
        self.inner.len()
    }

    /// Relies on `smallvec::SmallVec::into_vec`: hands the elements out in
    /// order.
    #[verifier::external_body]
    pub fn into_vec(self) -> (r: Vec<TradeNotification>)
        ensures
            r@ == trade_seq(self),
    {
        self.inner.into_vec()
    }
}

} // verus!
