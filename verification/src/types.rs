//! The storage of a tree's entries by handle, and the maps that can serve as one.
use vstd::prelude::*;
use std::collections::{BTreeMap, HashMap};
use crate::coord::Coord;
use crate::entry::Entry;

verus! {

broadcast use {vstd::std_specs::hash::group_hash_axioms, vstd::std_specs::btree::group_btree_axioms, vstd::laws_cmp::group_laws_cmp};

/// A map from handles to entries, in which a tree keeps what it stores.
pub trait EntryStore<U: Coord, V>: Sized {
    /// The entries held, by handle.
    spec fn entries(&self) -> Map<u128, Entry<U, V>>;

    /// Only finitely many entries are held.
    proof fn lemma_finite(&self)
        ensures
            self.entries().dom().finite(),
    ;

    /// An empty map.
    fn new() -> (r: Self)
        ensures
            r.entries() == Map::<u128, Entry<U, V>>::empty(),
    ;

    /// The number of entries held.
    fn len(&self) -> (r: usize)
        ensures
            r == self.entries().len(),
    ;

    /// Whether nothing is held.
    fn is_empty(&self) -> (r: bool)
        ensures
            r == (self.entries().len() == 0),
    {
        self.len() == 0
    }

    /// The entry held under `k`, if any.
    fn get(&self, k: u128) -> (r: Option<&Entry<U, V>>)
        ensures
            match r {
                Some(e) => self.entries().contains_key(k) && *e == self.entries()[k],
                None => !self.entries().contains_key(k),
            },
    ;

    /// Holds `e` under `k`, and gives back what was held there before, if anything.
    fn insert(&mut self, k: u128, e: Entry<U, V>) -> (r: Option<Entry<U, V>>)
        ensures
            final(self).entries() == old(self).entries().insert(k, e),
            match r {
                Some(x) => old(self).entries().contains_key(k) && x == old(self).entries()[k],
                None => !old(self).entries().contains_key(k),
            },
    ;

    /// Gives back the entry held under `k`, if any, and no longer holds it.
    fn remove(&mut self, k: u128) -> (r: Option<Entry<U, V>>)
        ensures
            final(self).entries() == old(self).entries().remove(k),
            match r {
                Some(x) => old(self).entries().contains_key(k) && x == old(self).entries()[k],
                None => !old(self).entries().contains_key(k),
            },
    ;

    /// Holds nothing any more.
    fn clear(&mut self)
        ensures
            final(self).entries() == Map::<u128, Entry<U, V>>::empty(),
    ;
}

impl<U: Coord, V> EntryStore<U, V> for HashMap<u128, Entry<U, V>> {
    open spec fn entries(&self) -> Map<u128, Entry<U, V>> {
        self@
    }

    proof fn lemma_finite(&self) {
    }

    fn new() -> (r: Self) {
        HashMap::new()
    }

    fn len(&self) -> (r: usize) {
        HashMap::len(self)
    }

    fn get(&self, k: u128) -> (r: Option<&Entry<U, V>>) {
        HashMap::get(self, &k)
    }

    fn insert(&mut self, k: u128, e: Entry<U, V>) -> (r: Option<Entry<U, V>>) {
        HashMap::insert(self, k, e)
    }

    fn remove(&mut self, k: u128) -> (r: Option<Entry<U, V>>) {
        HashMap::remove(self, &k)
    }

    fn clear(&mut self) {
        HashMap::clear(self)
    }
}

impl<U: Coord, V> EntryStore<U, V> for BTreeMap<u128, Entry<U, V>> {
    open spec fn entries(&self) -> Map<u128, Entry<U, V>> {
        self@
    }

    proof fn lemma_finite(&self) {
    }

    fn new() -> (r: Self) {
        BTreeMap::new()
    }

    fn len(&self) -> (r: usize) {
        BTreeMap::len(self)
    }

    fn get(&self, k: u128) -> (r: Option<&Entry<U, V>>) {
        BTreeMap::get(self, &k)
    }

    fn insert(&mut self, k: u128, e: Entry<U, V>) -> (r: Option<Entry<U, V>>) {
        BTreeMap::insert(self, k, e)
    }

    fn remove(&mut self, k: u128) -> (r: Option<Entry<U, V>>) {
        BTreeMap::remove(self, &k)
    }

    fn clear(&mut self) {
        BTreeMap::clear(self)
    }
}

/// The storage of the entries of a tree, by handle, in a hash map.
pub type StoreType<U, V> = HashMap<u128, Entry<U, V>>;

} // verus!
