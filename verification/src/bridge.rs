//! `KBridge`: routes tokens through HLLSet K-storage into keys, and
//! sub-lattices back into candidate tokens.

use vstd::prelude::*;
use crate::bytes_order::views;
use crate::hllset::HLLSet;
use crate::kstorage::{key_present, KStorage, KeyRef};

verus! {

/// Routes tokens through a K-storage.
#[derive(Clone, Debug)]
pub struct KBridge<S: KStorage> {
    storage: S,
}

impl<S: KStorage> KBridge<S> {
    /// The wrapped K-storage.
    pub closed spec fn storage_spec(&self) -> S {
        self.storage
    }

    /// Wrap a K-storage.
    pub fn new(storage: S) -> (r: Self)
        ensures
            r.storage_spec() == storage,
    {
        KBridge { storage }
    }

    /// The underlying K-storage.
    pub fn storage(&self) -> (r: &S)
        ensures
            *r == self.storage_spec(),
    {
        &self.storage
    }

    /// The key reference of a token (K direction).
    pub fn key_ref(&self, token: &[u8]) -> (r: KeyRef)
        ensures
            r@ == self.storage_spec().key_spec(token@),
    {
        self.storage.key_of(token)
    }

    /// The candidate tokens of a sub-lattice (V direction).
    pub fn candidates(&self, h: &HLLSet) -> (r: Vec<Vec<u8>>)
        requires
            self.storage_spec().wf(),
            h.wf(),
        ensures
            views(r@) == self.storage_spec().token_seq().filter(
                |t: Seq<u8>| key_present(self.storage_spec().key_spec(t), h@),
            ),
    {
        self.storage.candidates(h)
    }

    /// `(resolved cells of h, cells of h)`: the coverage gauge is their ratio.
    pub fn coverage_counts(&self, h: &HLLSet) -> (r: (u64, u64))
        requires
            self.storage_spec().wf(),
            h.wf(),
        ensures
            r.1 == h@.len(),
            r.0 == h@.filter(|b: u32| self.storage_spec().resolves(b)).len(),
    {
        self.storage.coverage_counts(h)
    }
}

} // verus!
