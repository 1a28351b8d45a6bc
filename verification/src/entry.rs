//! An entry in a Quadtree.
use vstd::prelude::*;
use crate::area::Area;
use crate::coord::Coord;
use crate::point::Point;

verus! {

/// A region/value association being returned from the [`Quadtree`](crate::Quadtree), together
/// with the handle under which the tree stores it.
#[derive(Debug, PartialEq, Eq)]
pub struct Entry<U: Coord, V> {
    region: Area<U>,
    value: V,
    handle: u128,
}

impl<U: Coord, V> Entry<U, V> {
    pub closed spec fn spec_area(self) -> Area<U> {
        self.region
    }

    pub closed spec fn spec_value(self) -> V {
        self.value
    }

    pub closed spec fn spec_handle(self) -> u128 {
        self.handle
    }

    /// The entry with the given region, value and handle.
    pub closed spec fn spec_new(region: Area<U>, value: V, handle: u128) -> Self {
        Entry { region, value, handle }
    }

    pub broadcast proof fn lemma_spec_new(region: Area<U>, value: V, handle: u128)
        ensures
            #[trigger] Self::spec_new(region, value, handle).spec_area() == region,
            Self::spec_new(region, value, handle).spec_value() == value,
            Self::spec_new(region, value, handle).spec_handle() == handle,
    {
    }

    /// The returned region.
    pub fn area(&self) -> (r: Area<U>)
        ensures
            r == self.spec_area(),
    {
        self.region
    }

    /// The top-left coordinate of the returned region.
    pub fn anchor(&self) -> (r: Point<U>)
        ensures
            r == self.spec_area().spec_anchor(),
    {
        self.area().anchor()
    }

    /// The width of the returned region.
    pub fn width(&self) -> (r: U)
        ensures
            r == self.spec_area().spec_dims().0,
    {
        self.dimensions().0
    }

    /// The height of the returned region.
    pub fn height(&self) -> (r: U)
        ensures
            r == self.spec_area().spec_dims().1,
    {
        self.dimensions().1
    }

    /// A mutable accessor to the returned value.
    pub fn value_mut(&mut self) -> (r: &mut V)
        ensures
            *r == old(self).spec_value(),
            final(self).spec_area() == old(self).spec_area(),
            final(self).spec_handle() == old(self).spec_handle(),
            final(self).spec_value() == *final(r),
    {
        &mut self.value
    }

    /// A reference to the returned value.
    pub fn value_ref(&self) -> (r: &V)
        ensures
            *r == self.spec_value(),
    {
        &self.value
    }

    /// The entry that associates `inner.1` with the region `inner.0` under `handle`.
    pub fn new(inner: (Area<U>, V), handle: u128) -> (r: Self)
        ensures
            r == Self::spec_new(inner.0, inner.1, handle),
            r.spec_area() == inner.0,
            r.spec_value() == inner.1,
            r.spec_handle() == handle,
    {
        Entry { region: inner.0, value: inner.1, handle }
    }

    /// The width and height of the returned region.
    pub fn dimensions(&self) -> (r: (U, U))
        ensures
            r == self.spec_area().spec_dims(),
    {
        self.area().dimensions()
    }

    /// The handle under which the tree stores this entry.
    pub fn handle(&self) -> (r: u128)
        ensures
            r == self.spec_handle(),
    {
        self.handle
    }
}

} // verus!
