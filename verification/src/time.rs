//! A single instant, carried from the request that started an operation.
//!
//! Stored records hold seconds and history keys hold milliseconds, so an
//! instant is a type of its own and callers say which of the two they want.
use vstd::prelude::*;

verus! {

/// Unix milliseconds.
#[derive(Debug, Clone, Copy, PartialEq, Eq, PartialOrd, Ord, Hash, Structural)]
pub struct Timestamp(u64);

impl View for Timestamp {
    type V = nat;

    closed spec fn view(&self) -> nat {
        self.0 as nat
    }
}

impl Timestamp {
    pub fn from_millis(millis: u64) -> (r: Self)
        ensures
            r@ == millis,
    {
        Timestamp(millis)
    }

    /// The start of a second; the latest instant there is, where a second lies
    /// beyond it.
    pub fn from_secs(secs: u64) -> (r: Self)
        ensures
            r@ == if secs * 1_000 <= u64::MAX {
                (secs * 1_000) as nat
            } else {
                u64::MAX as nat
            },
    {
        match secs.checked_mul(1_000) {
            Some(millis) => Timestamp(millis),
            None => Timestamp(u64::MAX),
        }
    }

    /// For a history key, where ordering is the point.
    pub fn millis(self) -> (r: u64)
        ensures
            r == self@,
    {
        self.0
    }

    /// For a stored record, every one of which is a second's resolution.
    pub fn secs(self) -> (r: u64)
        ensures
            r == self@ / 1_000,
    {
        self.0 / 1_000
    }
}

/// A seconds value is read back from the instant made of it, unless the instant
/// was cut off at the end of time.
pub proof fn seconds_survive(secs: u64, t: Timestamp)
    requires
        secs * 1_000 <= u64::MAX,
        t@ == secs * 1_000,
    ensures
        t@ / 1_000 == secs,
{
}

} // verus!
