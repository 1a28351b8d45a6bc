//! A [point/region Quadtree](https://en.wikipedia.org/wiki/Quadtree) with support for
//! overlapping regions.
//!
//! A [`Quadtree`] of depth `d` covers a square of side `2^d`. Every node of the tree is lazily
//! subdivided into four subquadrants. Inserting a region files its handle at each node that the
//! region wholly covers, descending only as far as necessary (at the bottom level, at the unit
//! cells it touches); every cell of a stored region thus has, on the way down to it, a node that
//! keeps the region's handle, and a query only searches the nodes that meet the query region.
//! Storing a handle in several places allows for fast lookup and insertion at the cost of slower
//! deletion: the tree suits scenarios with low churn but frequent read access.
//!
//! Coordinates may be any of the integer types that implement [`coord::Coord`].
use vstd::prelude::*;

pub mod area;
pub mod builder;
pub mod coord;
pub mod entry;
pub mod geometry;
pub mod iter;
pub mod point;
pub mod qtinner;
mod qtree;
pub mod text;
pub mod traversal;
pub mod types;
pub mod uuid_iter;

pub use area::Area;
pub use builder::{AreaBuilder, AreaBuilderError};
pub use point::Point;
pub use qtree::{
    Quadtree, deref_all, extended, fresh_handles, item_entry, item_inside, lemma_delete_undoes_insert,
    lemma_extended_keeps_every_item, lemma_query_finds_inserted, lemma_two_inserts_keep_both,
    lists_all, lists_selected, selected,
};

verus! {

/// The quadtree, whose entries are kept in a hash map by handle.
pub type HashQuadtree<U, V> = Quadtree<U, V, std::collections::HashMap<u128, entry::Entry<U, V>>>;

/// The quadtree, whose entries are kept in a B-tree map by handle.
pub type BQuadtree<U, V> = Quadtree<U, V, std::collections::BTreeMap<u128, entry::Entry<U, V>>>;

} // verus!
