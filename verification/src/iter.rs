//! What the tree hands out: the entries, values and regions it holds or gives back.
use vstd::prelude::*;
use crate::area::Area;
use crate::coord::Coord;
use crate::entry::Entry;
use crate::qtinner::QTInner;
use crate::qtree::{
    consistent, deref_all, entries_in, entries_of, lists_all, lists_selected, selected,
    selected_handles,
};
use crate::traversal::Traversal;
use crate::types::EntryStore;

verus! {

/// An iterator over all regions and values of a [`Quadtree`](crate::Quadtree).
///
/// Created by [`Quadtree::iter`](crate::Quadtree::iter).
pub struct Iter<'a, U: Coord, V> {
    items: Vec<&'a Entry<U, V>>,
    position: usize,
}

impl<'a, U: Coord, V> Iter<'a, U, V> {
    #[verifier::type_invariant]
    spec fn in_bounds(self) -> bool {
        self.position <= self.items@.len()
    }

    /// What is left to yield, in order.
    pub closed spec fn remaining(&self) -> Seq<&'a Entry<U, V>> {
        self.items@.skip(self.position as int)
    }

    /// Every entry of `store`, found by walking the nodes below `qt`: drained, the iterator
    /// yields each of them once, and nothing else.
    pub(crate) fn new<M: EntryStore<U, V>>(qt: &'a QTInner<U>, store: &'a M) -> (r: Self)
        requires
            consistent(*qt, store.entries()),
        ensures
            lists_all(store.entries(), deref_all(r.remaining())),
    {
        let items = entries_in(qt, store);
        proof {
            assert(items@.skip(0) == items@);
        }
        Iter { items, position: 0 }
    }

    /// Yields every item left, in order, and leaves nothing to yield.
    pub fn drain(&mut self) -> (v: Vec<&'a Entry<U, V>>)
        ensures
            v@ == old(self).remaining(),
            final(self).remaining().len() == 0,
    {
        let mut v: Vec<&'a Entry<U, V>> = Vec::new();
        loop
            invariant
                v@ + self.remaining() == old(self).remaining(),
            ensures
                v@ == old(self).remaining(),
                self.remaining().len() == 0,
            decreases self.remaining().len(),
        {
            let ghost before = self.remaining();
            match self.next() {
                Some(x) => {
                    proof {
                        assert(v@.push(x) + self.remaining() =~= v@ + before);
                    }
                    v.push(x);
                },
                None => {
                    proof {
                        assert(v@ + before =~= v@);
                    }
                    break ;
                },
            }
        }
        v
    }

    /// Yields the next item, if any is left.
    pub fn next(&mut self) -> (r: Option<&'a Entry<U, V>>)
        ensures
            match r {
                None => old(self).remaining().len() == 0 && final(self).remaining() == old(
                    self,
                ).remaining(),
                Some(x) => old(self).remaining().len() > 0 && x == old(self).remaining()[0]
                    && final(self).remaining() == old(self).remaining().drop_first(),
            },
    {
        proof {
            use_type_invariant(&*self);
        }
        if self.position < self.items.len() {
            let x = self.items[self.position];
            proof {
                assert(self.items@.skip(self.position + 1) == self.items@.skip(
                    self.position as int,
                ).drop_first());
            }
            self.position = self.position + 1;
            Some(x)
        } else {
            None
        }
    }

    /// The number of items left to yield.
    pub fn len(&self) -> (r: usize)
        ensures
            r == self.remaining().len(),
    {
        proof {
            use_type_invariant(self);
        }
        self.items.len() - self.position
    }
}

/// An iterator over the regions and values of a [`Quadtree`](crate::Quadtree) that a query
/// region selects.
///
/// Created by [`Quadtree::query`](crate::Quadtree::query) and
/// [`Quadtree::query_strict`](crate::Quadtree::query_strict).
pub struct Query<'a, U: Coord, V> {
    items: Vec<&'a Entry<U, V>>,
    position: usize,
}

impl<'a, U: Coord, V> Query<'a, U, V> {
    #[verifier::type_invariant]
    spec fn in_bounds(self) -> bool {
        self.position <= self.items@.len()
    }

    /// What is left to yield, in order.
    pub closed spec fn remaining(&self) -> Seq<&'a Entry<U, V>> {
        self.items@.skip(self.position as int)
    }

    /// The entries of `store` that `traversal` selects with `region`, found by searching the
    /// nodes below `qt` that meet `region`: drained, the query yields each of them once, and
    /// nothing else.
    pub(crate) fn new<M: EntryStore<U, V>>(
        region: Area<U>,
        qt: &'a QTInner<U>,
        store: &'a M,
        traversal: Traversal,
    ) -> (r: Self)
        requires
            consistent(*qt, store.entries()),
            region.fits(),
        ensures
            lists_selected(store.entries(), deref_all(r.remaining()), traversal, region),
    {
        let hs = selected_handles(qt, store, region, traversal);
        proof {
            assert forall|i: int| 0 <= i < hs@.len() implies store.entries().contains_key(#[trigger] hs@[i]) by {
                assert(hs@.contains(hs@[i]));
            }
        }
        let items = entries_of(store, &hs);
        proof {
            let ds = deref_all(items@);
            assert(ds.len() == hs@.len());
            assert forall|i: int| 0 <= i < ds.len() implies ds[i] == store.entries()[hs@[i]]
                && ds[i].spec_handle() == hs@[i] by {
                assert(hs@.contains(hs@[i]));
            }
            assert forall|i: int| 0 <= i < ds.len() implies #[trigger] selected(
                store.entries(),
                ds[i].spec_handle(),
                traversal,
                region,
            ) && store.entries()[ds[i].spec_handle()] == ds[i] by {
                assert(hs@.contains(hs@[i]));
            }
            assert forall|k: u128| #[trigger] selected(store.entries(), k, traversal, region) implies exists|
                i: int,
            | 0 <= i < ds.len() && #[trigger] ds[i].spec_handle() == k by {
                assert(hs@.contains(k));
                let i = choose|i: int| 0 <= i < hs@.len() && hs@[i] == k;
                assert(ds[i].spec_handle() == k);
            }
            assert forall|i: int, j: int|
                0 <= i < j < ds.len() implies #[trigger] ds[i].spec_handle()
                    != #[trigger] ds[j].spec_handle() by {
                assert(ds[i].spec_handle() == hs@[i]);
                assert(ds[j].spec_handle() == hs@[j]);
            }
            assert(items@.skip(0) == items@);
        }
        Query { items, position: 0 }
    }

    /// Yields every item left, in order, and leaves nothing to yield.
    pub fn drain(&mut self) -> (v: Vec<&'a Entry<U, V>>)
        ensures
            v@ == old(self).remaining(),
            final(self).remaining().len() == 0,
    {
        let mut v: Vec<&'a Entry<U, V>> = Vec::new();
        loop
            invariant
                v@ + self.remaining() == old(self).remaining(),
            ensures
                v@ == old(self).remaining(),
                self.remaining().len() == 0,
            decreases self.remaining().len(),
        {
            let ghost before = self.remaining();
            match self.next() {
                Some(x) => {
                    proof {
                        assert(v@.push(x) + self.remaining() =~= v@ + before);
                    }
                    v.push(x);
                },
                None => {
                    proof {
                        assert(v@ + before =~= v@);
                    }
                    break ;
                },
            }
        }
        v
    }

    /// Yields the next item, if any is left.
    pub fn next(&mut self) -> (r: Option<&'a Entry<U, V>>)
        ensures
            match r {
                None => old(self).remaining().len() == 0 && final(self).remaining() == old(
                    self,
                ).remaining(),
                Some(x) => old(self).remaining().len() > 0 && x == old(self).remaining()[0]
                    && final(self).remaining() == old(self).remaining().drop_first(),
            },
    {
        proof {
            use_type_invariant(&*self);
        }
        if self.position < self.items.len() {
            let x = self.items[self.position];
            proof {
                assert(self.items@.skip(self.position + 1) == self.items@.skip(
                    self.position as int,
                ).drop_first());
            }
            self.position = self.position + 1;
            Some(x)
        } else {
            None
        }
    }

    /// The number of items left to yield.
    pub fn len(&self) -> (r: usize)
        ensures
            r == self.remaining().len(),
    {
        proof {
            use_type_invariant(self);
        }
        self.items.len() - self.position
    }
}

/// An iterator over the values held within a [`Quadtree`](crate::Quadtree).
///
/// Created by [`Quadtree::values`](crate::Quadtree::values).
pub struct Values<'a, V> {
    items: Vec<&'a V>,
    position: usize,
}

impl<'a, V> Values<'a, V> {
    #[verifier::type_invariant]
    spec fn in_bounds(self) -> bool {
        self.position <= self.items@.len()
    }

    /// What is left to yield, in order.
    pub closed spec fn remaining(&self) -> Seq<&'a V> {
        self.items@.skip(self.position as int)
    }

    pub(crate) fn new(items: Vec<&'a V>) -> (r: Self)
        ensures
            r.remaining() == items@,
    {
        proof {
            assert(items@.skip(0) == items@);
        }
        Values { items, position: 0 }
    }

    /// Yields the next item, if any is left.
    pub fn next(&mut self) -> (r: Option<&'a V>)
        ensures
            match r {
                None => old(self).remaining().len() == 0 && final(self).remaining() == old(
                    self,
                ).remaining(),
                Some(x) => old(self).remaining().len() > 0 && x == old(self).remaining()[0]
                    && final(self).remaining() == old(self).remaining().drop_first(),
            },
    {
        proof {
            use_type_invariant(&*self);
        }
        if self.position < self.items.len() {
            let x = self.items[self.position];
            proof {
                assert(self.items@.skip(self.position + 1) == self.items@.skip(
                    self.position as int,
                ).drop_first());
            }
            self.position = self.position + 1;
            Some(x)
        } else {
            None
        }
    }

    /// The number of items left to yield.
    pub fn len(&self) -> (r: usize)
        ensures
            r == self.remaining().len(),
    {
        proof {
            use_type_invariant(self);
        }
        self.items.len() - self.position
    }
}

/// An iterator over the regions held within a [`Quadtree`](crate::Quadtree).
///
/// Created by [`Quadtree::regions`](crate::Quadtree::regions).
pub struct Regions<U: Coord> {
    items: Vec<Area<U>>,
    position: usize,
}

impl<U: Coord> Regions<U> {
    #[verifier::type_invariant]
    spec fn in_bounds(self) -> bool {
        self.position <= self.items@.len()
    }

    /// What is left to yield, in order.
    pub closed spec fn remaining(&self) -> Seq<Area<U>> {
        self.items@.skip(self.position as int)
    }

    pub(crate) fn new(items: Vec<Area<U>>) -> (r: Self)
        ensures
            r.remaining() == items@,
    {
        proof {
            assert(items@.skip(0) == items@);
        }
        Regions { items, position: 0 }
    }

    /// Yields the next item, if any is left.
    pub fn next(&mut self) -> (r: Option<Area<U>>)
        ensures
            match r {
                None => old(self).remaining().len() == 0 && final(self).remaining() == old(
                    self,
                ).remaining(),
                Some(x) => old(self).remaining().len() > 0 && x == old(self).remaining()[0]
                    && final(self).remaining() == old(self).remaining().drop_first(),
            },
    {
        proof {
            use_type_invariant(&*self);
        }
        if self.position < self.items.len() {
            let x = self.items[self.position];
            proof {
                assert(self.items@.skip(self.position + 1) == self.items@.skip(
                    self.position as int,
                ).drop_first());
            }
            self.position = self.position + 1;
            Some(x)
        } else {
            None
        }
    }

    /// The number of items left to yield.
    pub fn len(&self) -> (r: usize)
        ensures
            r == self.remaining().len(),
    {
        proof {
            use_type_invariant(self);
        }
        self.items.len() - self.position
    }
}

/// A consuming iterator over region/value associations taken out of a
/// [`Quadtree`](crate::Quadtree): it yields the entries from the last to the first.
///
/// Created by [`Quadtree::delete`](crate::Quadtree::delete) and its variants.
pub struct IntoIter<U: Coord, V> {
    entries: Vec<Entry<U, V>>,
}

impl<U: Coord, V> IntoIter<U, V> {
    /// The entries not yet yielded; they come out from the last to the first.
    pub closed spec fn remaining(&self) -> Seq<Entry<U, V>> {
        self.entries@
    }

    pub(crate) fn new(entries: Vec<Entry<U, V>>) -> (r: Self)
        ensures
            r.remaining() == entries@,
    {
        IntoIter { entries }
    }

    /// Yields the last entry not yet yielded, if any is left.
    pub fn next(&mut self) -> (r: Option<Entry<U, V>>)
        ensures
            match r {
                None => old(self).remaining().len() == 0 && final(self).remaining() == old(
                    self,
                ).remaining(),
                Some(e) => old(self).remaining().len() > 0 && e == old(self).remaining().last()
                    && final(self).remaining() == old(self).remaining().drop_last(),
            },
    {
        self.entries.pop()
    }

    /// The number of entries left to yield.
    pub fn len(&self) -> (r: usize)
        ensures
            r == self.remaining().len(),
    {
        self.entries.len()
    }
}

} // verus!
