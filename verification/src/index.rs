//! The reverse index from a project key to the key pairs it participates in.
//!
//! The map is a `hashbrown::HashMap` from the key's number to a
//! `std::collections::BTreeSet` of encoded pairs. Verus refuses the map's own
//! declaration (its allocator type parameter has no counterpart here), so the
//! collection lives in a private field of an opaque struct, its contents
//! named by [`index_pairs`], and each method the buffer calls is a wrapper
//! stating what the crates' sources show.

use vstd::prelude::*;
use std::collections::BTreeSet;

verus! {

/// A map from a project key's number to the set of encoded key pairs in
/// which the key stands as own key, sampling key, or both. A key whose set
/// has been emptied may remain present with an empty set.
#[verifier::external_body]
pub struct ProjectIndex {
    inner: hashbrown::HashMap<u128, BTreeSet<(u128, u128)>>,
}

/// What the index holds: for each present key, its set of encoded pairs.
pub uninterp spec fn index_pairs(m: ProjectIndex) -> Map<u128, Set<(u128, u128)>>;

impl ProjectIndex {
    /// Relies on `hashbrown::HashMap::new`: creates an empty map.
    #[verifier::external_body]
    pub fn new() -> (r: ProjectIndex)
        ensures
            index_pairs(r).dom() == Set::<u128>::empty(),
    {
        ProjectIndex { inner: hashbrown::HashMap::new() }
    }

    /// Relies on `hashbrown::HashMap::entry`, `Entry::or_default` and
    /// `BTreeSet::insert`: adds the pair to the key's set, creating the set
    /// if the key is new.
    #[verifier::external_body]
    pub fn insert_pair(&mut self, key: u128, pair: (u128, u128))
        ensures
            index_pairs(*final(self)) == index_pairs(*old(self)).insert(
                key,
                (if index_pairs(*old(self)).dom().contains(key) {
                    index_pairs(*old(self))[key]
                } else {
                    Set::<(u128, u128)>::empty()
                }).insert(pair),
            ),
    {
        self.inner.entry(key).or_default().insert(pair);
    }

    /// Relies on `hashbrown::HashMap::get_mut` and `BTreeSet::remove`: takes
    /// the pair out of the key's set; a missing key is left alone, and an
    /// emptied set stays in the map.
    #[verifier::external_body]
    pub fn remove_pair(&mut self, key: u128, pair: (u128, u128))
        ensures
            index_pairs(*final(self)) == (if index_pairs(*old(self)).dom().contains(key) {
                index_pairs(*old(self)).insert(key, index_pairs(*old(self))[key].remove(pair))
            } else {
                index_pairs(*old(self))
            }),
    {
        if let Some(s) = self.inner.get_mut(&key) {
            s.remove(&pair);
        }
    }

    /// Relies on `hashbrown::HashMap::get` and `BTreeSet` iteration: the
    /// key's set as a vector, each pair exactly once; empty for a missing
    /// key.
    #[verifier::external_body]
    pub fn pairs_for(&self, key: u128) -> (r: Vec<(u128, u128)>)
        ensures
            r@.no_duplicates(),
            forall|p: (u128, u128)| #[trigger]
                r@.contains(p) <==> (index_pairs(*self).dom().contains(key) && index_pairs(
                    *self,
                )[key].contains(p)),
    {
        match self.inner.get(&key) {
            Some(s) => s.iter().copied().collect(),
            None => Vec::new(),
        }
    }

    /// Relies on `hashbrown::HashMap::len`: the number of keys present,
    /// emptied sets included.
    #[verifier::external_body]
    pub fn key_count(&self) -> (r: usize)
        ensures
            r == index_pairs(*self).dom().len(),
    {
        self.inner.len()
    }
}

} // verus!
