//! Pairings of uniform collections.
//!
//! A draw call takes one collection of named uniforms; these two
//! wrappers hold a pair of collections so that the surrounding
//! program can hand them to its graphics binding as one, with the
//! first collection's entries winning on a shared name.  The pairing
//! itself is plain data and lives here; visiting the entries is the
//! binding's business and happens outside this crate.

use vstd::prelude::*;

verus! {

/// An owned pair of uniform collections; the first one shadows the
/// second on a shared name.
pub struct OwnedMergedUniform<U1, U2> {
    pub u1: U1,
    pub u2: U2,
}

impl<U1, U2> OwnedMergedUniform<U1, U2> {
    /// Pairs two owned uniform collections.
    pub fn new(u1: U1, u2: U2) -> (r: Self)
        ensures
            r.u1 == u1,
            r.u2 == u2,
    {
        Self { u1, u2 }
    }
}

/// A borrowed pair of uniform collections; the first one shadows the
/// second on a shared name.
pub struct MergedUniform<'a, U1, U2> {
    pub u1: &'a U1,
    pub u2: &'a U2,
}

impl<'a, U1, U2> MergedUniform<'a, U1, U2> {
    /// Pairs two borrowed uniform collections.
    pub fn new(u1: &'a U1, u2: &'a U2) -> (r: Self)
        ensures
            r.u1 == u1,
            r.u2 == u2,
    {
        Self { u1, u2 }
    }
}

} // verus!
