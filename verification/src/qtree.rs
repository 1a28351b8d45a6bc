//! The quadtree: regions of the plane associated with values, with fast lookup by region.
use vstd::prelude::*;
use std::collections::{HashMap, HashSet};
use std::marker::PhantomData;
use crate::area::Area;
use crate::coord::Coord;
use crate::entry::Entry;
use crate::point::Point;
use crate::iter::{Iter, IntoIter, Query, Regions, Values};
use crate::qtinner::{QTInner, is_v4_handle, span, lemma_push_contains};
use crate::traversal::Traversal;
use crate::types::EntryStore;
use crate::uuid_iter::UuidIter;

verus! {

broadcast use vstd::std_specs::hash::group_hash_axioms;

/// The entry stored in `m` under `k` is one that `t` selects with `region`.
pub open spec fn selected<U: Coord, V>(
    m: Map<u128, Entry<U, V>>,
    k: u128,
    t: Traversal,
    region: Area<U>,
) -> bool {
    m.contains_key(k) && t.selects(m[k].spec_area(), region)
}

/// `s` lists, once each, exactly the entries of `m` that `t` selects with `region`.
pub open spec fn lists_selected<U: Coord, V>(
    m: Map<u128, Entry<U, V>>,
    s: Seq<Entry<U, V>>,
    t: Traversal,
    region: Area<U>,
) -> bool {
    &&& forall|i: int|
        0 <= i < s.len() ==> #[trigger] selected(m, s[i].spec_handle(), t, region)
            && m[s[i].spec_handle()] == s[i]
    &&& forall|k: u128|
        #[trigger] selected(m, k, t, region) ==> exists|i: int|
            0 <= i < s.len() && #[trigger] s[i].spec_handle() == k
    &&& forall|i: int, j: int|
        0 <= i < j < s.len() ==> #[trigger] s[i].spec_handle() != #[trigger] s[j].spec_handle()
}

/// `s` lists, once each, exactly the entries of `m`.
pub open spec fn lists_all<U: Coord, V>(m: Map<u128, Entry<U, V>>, s: Seq<Entry<U, V>>) -> bool {
    &&& forall|i: int|
        0 <= i < s.len() ==> #[trigger] m.contains_key(s[i].spec_handle()) && m[s[i].spec_handle()]
            == s[i]
    &&& forall|k: u128|
        #[trigger] m.contains_key(k) ==> exists|i: int|
            0 <= i < s.len() && #[trigger] s[i].spec_handle() == k
    &&& forall|i: int, j: int|
        0 <= i < j < s.len() ==> #[trigger] s[i].spec_handle() != #[trigger] s[j].spec_handle()
}

/// What an insertion stores, a query over any region that meets it finds again: with its value.
pub proof fn lemma_query_finds_inserted<U: Coord, V>(
    before: Map<u128, Entry<U, V>>,
    h: u128,
    region: Area<U>,
    val: V,
    query: Area<U>,
)
    requires
        query.spec_intersects(region),
    ensures
        selected(before.insert(h, Entry::spec_new(region, val, h)), h, Traversal::Overlapping, query),
        before.insert(h, Entry::spec_new(region, val, h))[h].spec_value() == val,
        query.spec_contains(region) ==> selected(
            before.insert(h, Entry::spec_new(region, val, h)),
            h,
            Traversal::Strict,
            query,
        ),
{
    Entry::lemma_spec_new(region, val, h);
}

/// An insertion under a fresh handle adds one entry, and deleting by that handle gives back the
/// entry and leaves the entries as they were before the insertion.
pub proof fn lemma_delete_undoes_insert<U: Coord, V>(
    before: Map<u128, Entry<U, V>>,
    h: u128,
    e: Entry<U, V>,
)
    requires
        !before.contains_key(h),
        before.dom().finite(),
    ensures
        before.insert(h, e).remove(h) == before,
        before.insert(h, e)[h] == e,
        before.insert(h, e).len() == before.len() + 1,
{
    assert(before.insert(h, e).remove(h) =~= before);
}

/// Two insertions one after the other, each under a handle that was not a key before it (as
/// `insert` and `insert_pt` promise), keep both entries under different handles beside every
/// earlier entry, even for the same region: the number of entries grows by two.
pub proof fn lemma_two_inserts_keep_both<U: Coord, V>(
    m: Map<u128, Entry<U, V>>,
    h1: u128,
    e1: Entry<U, V>,
    h2: u128,
    e2: Entry<U, V>,
)
    requires
        m.dom().finite(),
        !m.contains_key(h1),
        !m.insert(h1, e1).contains_key(h2),
    ensures
        h1 != h2,
        m.insert(h1, e1).insert(h2, e2)[h1] == e1,
        m.insert(h1, e1).insert(h2, e2)[h2] == e2,
        m.insert(h1, e1).insert(h2, e2).len() == m.len() + 2,
        forall|k: u128| #[trigger]
            m.contains_key(k) ==> m.insert(h1, e1).insert(h2, e2).contains_key(k) && m.insert(
                h1,
                e1,
            ).insert(h2, e2)[k] == m[k],
{
    assert(m.insert(h1, e1).dom() =~= m.dom().insert(h1));
    assert(m.insert(h1, e1).insert(h2, e2).dom() =~= m.dom().insert(h1).insert(h2));
}

/// The entries after inserting, one after the other, each item whose coordinates the tree's
/// `region` covers: the value for the unit area at the coordinates, under the handle of the
/// same position in `hs`.
pub open spec fn extended<U: Coord, V>(
    m: Map<u128, Entry<U, V>>,
    region: Area<U>,
    items: Seq<((U, U), V)>,
    hs: Seq<u128>,
) -> Map<u128, Entry<U, V>>
    decreases items.len(),
{
    if items.len() == 0 {
        m
    } else {
        let item = items.last();
        let before = extended(m, region, items.drop_last(), hs.drop_last());
        let pt = Point { x: item.0.0, y: item.0.1 };
        if region.has_point(pt.xy()) {
            before.insert(hs.last(), Entry::spec_new(Area::spec_unit_at(pt), item.1, hs.last()))
        } else {
            before
        }
    }
}

/// The nodes below `qt` keep exactly the handles of the entries of `m`, every entry fits in
/// the tree under its own handle, and every cell of a stored region is covered by the nodes that
/// keep its handle.
pub open spec fn consistent<U: Coord, V>(qt: QTInner<U>, m: Map<u128, Entry<U, V>>) -> bool {
    &&& qt.wf()
    &&& forall|h: u128| #[trigger] m.contains_key(h) <==> qt.has_handle(h)
    &&& forall|h: u128| #[trigger] m.contains_key(h) ==> Quadtree::<U, V>::storable(qt.region, h, m[h])
    &&& forall|h: u128, p: (int, int)|
        m.contains_key(h) && #[trigger] m[h].spec_area().has_point(p) ==> qt.covers(h, p)
}

/// The tree's `region` covers the unit cell at the item's coordinates.
pub open spec fn item_inside<U: Coord, V>(region: Area<U>, item: ((U, U), V)) -> bool {
    region.has_point((item.0.0.val(), item.0.1.val()))
}

/// What an item is stored as under the handle `h`: its value for the unit area at its
/// coordinates.
pub open spec fn item_entry<U: Coord, V>(item: ((U, U), V), h: u128) -> Entry<U, V> {
    Entry::spec_new(Area::spec_unit_at(Point { x: item.0.0, y: item.0.1 }), item.1, h)
}

/// `hs` gives every item that `region` covers a handle of its own, not a key of `m`.
pub open spec fn fresh_handles<U: Coord, V>(
    m: Map<u128, Entry<U, V>>,
    region: Area<U>,
    items: Seq<((U, U), V)>,
    hs: Seq<u128>,
) -> bool {
    &&& forall|i: int|
        0 <= i < items.len() && #[trigger] item_inside(region, items[i]) ==> !m.contains_key(hs[i])
    &&& forall|i: int, j: int|
        0 <= i < j < items.len() && #[trigger] item_inside(region, items[i])
            && #[trigger] item_inside(region, items[j]) ==> hs[i] != hs[j]
}

/// Inserting items one after the other under handles of their own keeps every one that the tree
/// covers, whatever the items around it, and loses nothing: each covered item is stored as its
/// value for the unit area at its coordinates, every earlier entry stays as it was, and nothing
/// else is stored.
pub proof fn lemma_extended_keeps_every_item<U: Coord, V>(
    m: Map<u128, Entry<U, V>>,
    region: Area<U>,
    items: Seq<((U, U), V)>,
    hs: Seq<u128>,
)
    requires
        hs.len() == items.len(),
        fresh_handles(m, region, items, hs),
    ensures
        forall|i: int|
            0 <= i < items.len() && #[trigger] item_inside(region, items[i]) ==> extended(
                m,
                region,
                items,
                hs,
            ).contains_key(hs[i]) && extended(m, region, items, hs)[hs[i]] == item_entry(
                items[i],
                hs[i],
            ),
        forall|k: u128|
            #[trigger] m.contains_key(k) ==> extended(m, region, items, hs).contains_key(k)
                && extended(m, region, items, hs)[k] == m[k],
        forall|k: u128|
            #[trigger] extended(m, region, items, hs).contains_key(k) ==> m.contains_key(k)
                || exists|i: int|
                0 <= i < items.len() && #[trigger] item_inside(region, items[i]) && hs[i] == k,
    decreases items.len(),
{
    if items.len() > 0 {
        let n = items.len() - 1;
        let pre = items.drop_last();
        let hpre = hs.drop_last();
        assert forall|i: int| 0 <= i < pre.len() implies #[trigger] pre[i] == items[i] && hpre[i]
            == hs[i] by {}
        assert(fresh_handles(m, region, pre, hpre)) by {
            assert forall|i: int|
                0 <= i < pre.len() && #[trigger] item_inside(region, pre[i]) implies !m.contains_key(
                hpre[i],
            ) by {
                assert(item_inside(region, items[i]));
            }
            assert forall|i: int, j: int|
                0 <= i < j < pre.len() && #[trigger] item_inside(region, pre[i])
                    && #[trigger] item_inside(region, pre[j]) implies hpre[i] != hpre[j] by {
                assert(item_inside(region, items[i]) && item_inside(region, items[j]));
            }
        }
        lemma_extended_keeps_every_item(m, region, pre, hpre);
        let before = extended(m, region, pre, hpre);
        let item = items.last();
        assert(items[n] == item);
        if item_inside(region, item) {
            assert(!m.contains_key(hs[n]));
            assert forall|i: int|
                0 <= i < n && #[trigger] item_inside(region, items[i]) implies hs[i] != hs[n] by {}
            assert forall|i: int|
                0 <= i < items.len() && #[trigger] item_inside(region, items[i]) implies extended(
                    m,
                    region,
                    items,
                    hs,
                ).contains_key(hs[i]) && extended(m, region, items, hs)[hs[i]] == item_entry(
                    items[i],
                    hs[i],
                ) by {
                if i < n {
                    assert(item_inside(region, pre[i]));
                }
            }
            assert forall|k: u128| #[trigger]
                extended(m, region, items, hs).contains_key(k) implies m.contains_key(k)
                || exists|i: int|
                0 <= i < items.len() && #[trigger] item_inside(region, items[i]) && hs[i] == k by {
                if k != hs[n] && !m.contains_key(k) {
                    let i = choose|i: int|
                        0 <= i < pre.len() && #[trigger] item_inside(region, pre[i]) && hpre[i] == k;
                    assert(item_inside(region, items[i]));
                }
            }
        } else {
            assert forall|i: int|
                0 <= i < items.len() && #[trigger] item_inside(region, items[i]) implies extended(
                    m,
                    region,
                    items,
                    hs,
                ).contains_key(hs[i]) && extended(m, region, items, hs)[hs[i]] == item_entry(
                    items[i],
                    hs[i],
                ) by {
                assert(i < n);
                assert(item_inside(region, pre[i]));
            }
            assert forall|k: u128| #[trigger]
                extended(m, region, items, hs).contains_key(k) implies m.contains_key(k)
                || exists|i: int|
                0 <= i < items.len() && #[trigger] item_inside(region, items[i]) && hs[i] == k by {
                if !m.contains_key(k) {
                    let i = choose|i: int|
                        0 <= i < pre.len() && #[trigger] item_inside(region, pre[i]) && hpre[i] == k;
                    assert(item_inside(region, items[i]));
                }
            }
        }
    }
}

/// The entries referred to by `s`.
pub open spec fn deref_all<U: Coord, V>(s: Seq<&Entry<U, V>>) -> Seq<Entry<U, V>> {
    s.map_values(|e: &Entry<U, V>| *e)
}

/// A [point/region quadtree](https://en.wikipedia.org/wiki/Quadtree) with support for
/// overlapping regions.
///
/// The tree covers a square of side `2^depth`. Each region stored in it is associated with a
/// value and filed under a handle; the handle is kept at the nodes of the tree that the region
/// covers, so that a query only searches the nodes that meet the query region. The entries are
/// kept by handle in `M`, a hash map unless another [`EntryStore`] is named.
pub struct Quadtree<U: Coord, V, M = HashMap<u128, Entry<U, V>>> {
    inner: QTInner<U>,
    store: M,
    values: PhantomData<V>,
}

/// The handles of the stored entries that `t` selects with `region`, each once. Only the
/// nodes of the tree that meet `region` are searched.
pub(crate) fn selected_handles<U: Coord, V, M: EntryStore<U, V>>(
    qt: &QTInner<U>,
    store: &M,
    region: Area<U>,
    t: Traversal,
) -> (hs: Vec<u128>)
    requires
        consistent(*qt, store.entries()),
        region.fits(),
    ensures
        hs@.no_duplicates(),
        forall|k: u128| #[trigger] hs@.contains(k) <==> selected(store.entries(), k, t, region),
{
    proof {
        use_type_invariant(&region);
    }
    let mut visited: HashSet<u128> = HashSet::new();
    let mut found: Vec<u128> = Vec::new();
    qt.collect_handles(region, &mut visited, &mut found);
    let mut hs: Vec<u128> = Vec::new();
    let mut i: usize = 0;
    while i < found.len()
        invariant
            consistent(*qt, store.entries()),
            region.fits(),
            i <= found@.len(),
            found@.no_duplicates(),
            hs@.no_duplicates(),
            forall|k: u128|
                #[trigger] hs@.contains(k) <==> (found@.take(i as int).contains(k) && selected(store.entries(), k, t, region)),
        decreases found@.len() - i,
    {
        let h = found[i];
        proof {
            assert(found@.take(i + 1) == found@.take(i as int).push(h));
            if found@.take(i as int).contains(h) {
                let j = choose|j: int| 0 <= j < i && found@.take(i as int)[j] == h;
                assert(found@[j] == found@[i as int]);
            }
            assert(!hs@.contains(h));
        }
        match store.get(h) {
            Some(e) => {
                if t.eval(e.area(), region) {
                    proof {
                        assert forall|k: u128| #[trigger] hs@.push(h).contains(k) <==> (found@.take(
                            i + 1,
                        ).contains(k) && selected(store.entries(), k, t, region)) by {
                            lemma_push_contains(hs@, h, k);
                            lemma_push_contains(found@.take(i as int), h, k);
                        }
                    }
                    proof {
                        assert forall|a: int, b: int|
                            0 <= a < b < hs@.push(h).len() implies hs@.push(h)[a] != hs@.push(h)[b] by {
                            if b == hs@.len() {
                                assert(hs@.contains(hs@[a]));
                            }
                        }
                    }
                    hs.push(h);
                } else {
                    proof {
                        assert forall|k: u128| #[trigger] hs@.contains(k) <==> (found@.take(
                            i + 1,
                        ).contains(k) && selected(store.entries(), k, t, region)) by {
                            lemma_push_contains(found@.take(i as int), h, k);
                        }
                    }
                }
            },
            None => {
                proof {
                    assert forall|k: u128| #[trigger] hs@.contains(k) <==> (found@.take(
                        i + 1,
                    ).contains(k) && selected(store.entries(), k, t, region)) by {
                        lemma_push_contains(found@.take(i as int), h, k);
                    }
                }
            },
        }
        i = i + 1;
    }
    proof {
        assert(found@.take(found@.len() as int) == found@);
        assert forall|k: u128| #[trigger] selected(store.entries(), k, t, region) implies found@.contains(k) by {
            let e = store.entries()[k];
            t.lemma_selected_shares_a_cell(e.spec_area(), region);
            let p = choose|p: (int, int)| e.spec_area().has_point(p) && region.has_point(p);
            assert(qt.covers(k, p));
        }
    }
    hs
}

/// The stored entries under the given handles, in the same order.
pub(crate) fn entries_of<'a, U: Coord, V, M: EntryStore<U, V>>(
    store: &'a M,
    hs: &Vec<u128>,
) -> (r: Vec<&'a Entry<U, V>>)
    requires
        forall|i: int| 0 <= i < hs@.len() ==> store.entries().contains_key(#[trigger] hs@[i]),
    ensures
        r@.len() == hs@.len(),
        forall|i: int| 0 <= i < hs@.len() ==> *#[trigger] r@[i] == store.entries()[hs@[i]],
{
    let mut r: Vec<&'a Entry<U, V>> = Vec::new();
    let mut i: usize = 0;
    while i < hs.len()
        invariant
            i <= hs@.len(),
            forall|j: int| 0 <= j < hs@.len() ==> store.entries().contains_key(#[trigger] hs@[j]),
            r@.len() == i,
            forall|j: int| 0 <= j < i ==> *#[trigger] r@[j] == store.entries()[hs@[j]],
        decreases hs@.len() - i,
    {
        let e = store.get(hs[i]).unwrap();
        r.push(e);
        i = i + 1;
    }
    r
}

/// Every entry of `store`, each once, found by walking the nodes below `qt`.
pub(crate) fn entries_in<'a, U: Coord, V, M: EntryStore<U, V>>(
    qt: &QTInner<U>,
    store: &'a M,
) -> (r: Vec<&'a Entry<U, V>>)
    requires
        consistent(*qt, store.entries()),
    ensures
        lists_all(store.entries(), deref_all(r@)),
{
    let mut it = UuidIter::new(qt);
    let hs = it.drain();
    proof {
        assert forall|i: int| 0 <= i < hs@.len() implies store.entries().contains_key(
            #[trigger] hs@[i],
        ) by {
            assert(hs@.contains(hs@[i]));
        }
    }
    let es = entries_of(store, &hs);
    proof {
        let ds = deref_all(es@);
        assert forall|i: int| 0 <= i < ds.len() implies ds[i] == store.entries()[hs@[i]]
            && ds[i].spec_handle() == hs@[i] by {
            assert(hs@.contains(hs@[i]));
        }
        assert forall|k: u128| #[trigger] store.entries().contains_key(k) implies exists|i: int|
            0 <= i < ds.len() && #[trigger] ds[i].spec_handle() == k by {
            assert(hs@.contains(k));
            let i = choose|i: int| 0 <= i < hs@.len() && hs@[i] == k;
            assert(ds[i].spec_handle() == k);
        }
        assert forall|i: int, j: int|
            0 <= i < j < ds.len() implies #[trigger] ds[i].spec_handle()
                != #[trigger] ds[j].spec_handle() by {
            assert(ds[i].spec_handle() == hs@[i]);
            assert(ds[j].spec_handle() == hs@[j]);
        }
    }
    es
}

impl<U: Coord, V, M: EntryStore<U, V>> View for Quadtree<U, V, M> {
    type V = Map<u128, Entry<U, V>>;

    /// The stored entries, by handle.
    closed spec fn view(&self) -> Map<u128, Entry<U, V>> {
        self.store.entries()
    }
}

impl<U: Coord, V, M: EntryStore<U, V>> Quadtree<U, V, M> {
    /// The square that the tree covers.
    pub closed spec fn region(&self) -> Area<U> {
        self.inner.region
    }

    /// The depth of the tree: its side is `2^depth`.
    pub closed spec fn spec_depth(&self) -> nat {
        self.inner.depth as nat
    }

    /// An entry that may be stored under handle `h` in a tree covering `region`.
    pub open spec fn storable(region: Area<U>, h: u128, e: Entry<U, V>) -> bool {
        &&& e.spec_handle() == h
        &&& e.spec_area().wf()
        &&& e.spec_area().fits()
        &&& region.spec_contains(e.spec_area())
    }

    /// The tree is well formed: the nodes keep exactly the stored handles, and every stored
    /// region is covered by the nodes that keep its handle.
    pub closed spec fn wf(&self) -> bool {
        consistent(self.inner, self.store.entries())
    }

    /// The handle `h` is filed exactly at the topmost nodes that the region stored under `h`
    /// wholly covers: no other node keeps it, no node that keeps it lies below another, and
    /// each cell of the region lies in exactly one node that keeps it, other cells in none.
    pub closed spec fn files_minimally(&self, h: u128) -> bool {
        &&& self.inner.filed_minimally(h, self.store.entries()[h].spec_area(), false)
        &&& forall|p: (int, int)| #[trigger]
            self.inner.covers(h, p) <==> self.store.entries()[h].spec_area().has_point(p)
        &&& forall|p: (int, int)| #[trigger]
            self.inner.keep_count(h, p) == (if self.store.entries()[h].spec_area().has_point(p) {
                1nat
            } else {
                0nat
            })
    }

    /// Every well-formed tree stores only entries that fit in it under their own handles.
    pub proof fn lemma_wf_storable(&self)
        requires
            self.wf(),
        ensures
            self.region().wf(),
            self.region().fits(),
            forall|h: u128| #[trigger]
                self@.contains_key(h) ==> Self::storable(self.region(), h, self@[h]),
            self@.dom().finite(),
    {
        self.store.lemma_finite();
    }

    /// Creates a new tree of side `2^depth` anchored at (0, 0).
    pub fn new(depth: usize) -> (r: Self)
        requires
            span(depth as nat) <= U::max_val(),
        ensures
            r.wf(),
            r@ == Map::<u128, Entry<U, V>>::empty(),
            r.spec_depth() == depth,
            r.region().spec_anchor().xy() == (0int, 0int),
            r.region().spec_width() == span(depth as nat),
            r.region().spec_height() == span(depth as nat),
    {
        let zero = U::zero();
        Self::new_with_anchor(Point { x: zero, y: zero }, depth)
    }

    /// Creates a new tree of side `2^depth` anchored at `anchor`.
    pub fn new_with_anchor(anchor: Point<U>, depth: usize) -> (r: Self)
        requires
            span(depth as nat) <= U::max_val(),
            anchor.x.val() + span(depth as nat) <= U::max_val(),
            anchor.y.val() + span(depth as nat) <= U::max_val(),
        ensures
            r.wf(),
            r@ == Map::<u128, Entry<U, V>>::empty(),
            r.spec_depth() == depth,
            r.region().spec_anchor() == anchor,
            r.region().spec_width() == span(depth as nat),
            r.region().spec_height() == span(depth as nat),
    {
        let r = Quadtree { inner: QTInner::new(anchor, depth), store: M::new(), values: PhantomData };
        r
    }

    /// The top-left corner of the region the tree covers.
    pub fn anchor(&self) -> (r: Point<U>)
        ensures
            r == self.region().spec_anchor(),
    {
        self.inner.region.anchor()
    }

    /// The depth of the tree.
    pub fn depth(&self) -> (r: usize)
        ensures
            r == self.spec_depth(),
    {
        self.inner.depth
    }

    /// The width of the region the tree covers, `2^depth`.
    pub fn width(&self) -> (r: usize)
        requires
            self.wf(),
            span(self.spec_depth()) <= usize::MAX,
        ensures
            r == span(self.spec_depth()),
            r == self.region().spec_width(),
    {
        let depth = self.inner.depth;
        let mut w: usize = 1;
        let mut i: usize = 0;
        while i < depth
            invariant
                i <= depth,
                w == span(i as nat),
                span(depth as nat) <= usize::MAX,
            decreases depth - i,
        {
            proof {
                crate::qtinner::lemma_span_monotonic((i + 1) as nat, depth as nat);
                assert(span((i + 1) as nat) == 2 * span(i as nat));
            }
            w = w + w;
            i = i + 1;
        }
        w
    }

    /// The height of the region the tree covers, `2^depth`.
    pub fn height(&self) -> (r: usize)
        requires
            self.wf(),
            span(self.spec_depth()) <= usize::MAX,
        ensures
            r == span(self.spec_depth()),
            r == self.region().spec_height(),
    {
        self.width()
    }

    /// The number of stored entries.
    pub fn len(&self) -> (r: usize)
        requires
            self.wf(),
        ensures
            r == self@.len(),
    {
        self.store.len()
    }

    /// Whether the tree stores no entry.
    pub fn is_empty(&self) -> (r: bool)
        requires
            self.wf(),
        ensures
            r == (self@.len() == 0),
            r == (self@ == Map::<u128, Entry<U, V>>::empty()),
    {
        proof {
            self.store.lemma_finite();
            if self@.len() == 0 {
                assert(self@.dom() =~= Set::<u128>::empty());
                assert(self@ =~= Map::<u128, Entry<U, V>>::empty());
            }
        }
        self.store.len() == 0
    }

    /// Associates `val` with `region`, if the tree covers `region`, and returns the handle of
    /// the new entry; otherwise returns `None` and stores nothing. The handle is new, so no
    /// earlier entry is lost, even one for the same region.
    pub fn insert(&mut self, region: Area<U>, val: V) -> (r: Option<u128>)
        requires
            old(self).wf(),
            region.fits(),
        ensures
            final(self).wf(),
            final(self).region() == old(self).region(),
            final(self).spec_depth() == old(self).spec_depth(),
            match r {
                None => !old(self).region().spec_contains(region) && final(self)@ == old(self)@,
                Some(h) => old(self).region().spec_contains(region) && is_v4_handle(h)
                    && !old(self)@.contains_key(h) && final(self)@ == old(self)@.insert(
                    h,
                    Entry::spec_new(region, val, h),
                ) && final(self)@.len() == old(self)@.len() + 1 && (!old(self)@.contains_key(h)
                    ==> final(self).files_minimally(h)),
            },
    {
        proof {
            use_type_invariant(&region);
        }
        if !self.inner.region.contains(region) {
            return None;
        }
        let ghost before = self.store.entries();
        proof {
            self.store.lemma_finite();
        }
        let h = self.inner.insert_val_at_region(region, val, &mut self.store);
        proof {
            assert(self.store.entries().dom() =~= before.dom().insert(h));
            Entry::lemma_spec_new(region, val, h);
            Area::lemma_contains_iff_all_points(old(self).inner.region, region);
            Area::lemma_contains_implies_intersects(old(self).inner.region, region);
            Area::lemma_intersects_symmetric(old(self).inner.region, region);
            assert forall|k: u128| #[trigger]
                self.store.entries().contains_key(k) <==> self.inner.has_handle(k) by {}
            assert forall|k: u128, p: (int, int)|
                self.store.entries().contains_key(k) && #[trigger] self.store.entries()[k].spec_area().has_point(p)
                    implies self.inner.covers(k, p) by {
                if k != h {
                    assert(old(self).inner.covers(k, p));
                }
            }
        }
        Some(h)
    }

    /// Associates `val` with the unit area at `pt`; see [`Quadtree::insert`].
    pub fn insert_pt(&mut self, pt: Point<U>, val: V) -> (r: Option<u128>)
        requires
            old(self).wf(),
            pt.x.val() < U::max_val(),
            pt.y.val() < U::max_val(),
        ensures
            final(self).wf(),
            final(self).region() == old(self).region(),
            final(self).spec_depth() == old(self).spec_depth(),
            match r {
                None => !old(self).region().has_point(pt.xy()) && final(self)@ == old(self)@,
                Some(h) => old(self).region().has_point(pt.xy()) && is_v4_handle(h)
                    && !old(self)@.contains_key(h) && final(self)@ == old(self)@.insert(
                    h,
                    Entry::spec_new(Area::spec_unit_at(pt), val, h),
                ) && final(self)@.len() == old(self)@.len() + 1 && (!old(self)@.contains_key(h)
                    ==> final(self).files_minimally(h)),
            },
    {
        let a = Area::unit().at(pt);
        self.insert(a, val)
    }

    /// Removes every entry and every subdivision of the tree.
    pub fn reset(&mut self)
        requires
            old(self).wf(),
        ensures
            final(self).wf(),
            final(self)@ == Map::<u128, Entry<U, V>>::empty(),
            final(self).region() == old(self).region(),
            final(self).spec_depth() == old(self).spec_depth(),
    {
        self.inner.reset();
        self.store.clear();
    }

    fn query_with<'a>(&'a self, region: Area<U>, t: Traversal) -> (r: Query<'a, U, V>)
        requires
            self.wf(),
            region.fits(),
        ensures
            lists_selected(self@, deref_all(r.remaining()), t, region),
    {
        Query::new(region, &self.inner, &self.store, t)
    }

    /// The entries whose regions share at least one unit cell with `region`, each once, in no
    /// particular order.
    pub fn query<'a>(&'a self, region: Area<U>) -> (r: Query<'a, U, V>)
        requires
            self.wf(),
            region.fits(),
        ensures
            lists_selected(self@, deref_all(r.remaining()), Traversal::Overlapping, region),
    {
        self.query_with(region, Traversal::Overlapping)
    }

    /// The entries whose regions lie wholly inside `region`, each once, in no particular order.
    pub fn query_strict<'a>(&'a self, region: Area<U>) -> (r: Query<'a, U, V>)
        requires
            self.wf(),
            region.fits(),
        ensures
            lists_selected(self@, deref_all(r.remaining()), Traversal::Strict, region),
    {
        self.query_with(region, Traversal::Strict)
    }

    /// The handles of all stored entries, each once.
    fn all_handles(&self) -> (hs: Vec<u128>)
        requires
            self.wf(),
        ensures
            hs@.no_duplicates(),
            forall|k: u128| #[trigger] hs@.contains(k) <==> self@.contains_key(k),
    {
        let mut it = UuidIter::new(&self.inner);
        it.drain()
    }

    /// All the entries, each once, in no particular order.
    fn all_entries<'a>(&'a self) -> (r: Vec<&'a Entry<U, V>>)
        requires
            self.wf(),
        ensures
            lists_all(self@, deref_all(r@)),
    {
        entries_in(&self.inner, &self.store)
    }

    /// An iterator over all the entries, each once, in no particular order.
    pub fn iter<'a>(&'a self) -> (r: Iter<'a, U, V>)
        requires
            self.wf(),
        ensures
            lists_all(self@, deref_all(r.remaining())),
    {
        Iter::new(&self.inner, &self.store)
    }

    /// An iterator over the values of all the entries, in no particular order.
    pub fn values<'a>(&'a self) -> (r: Values<'a, V>)
        requires
            self.wf(),
        ensures
            exists|s: Seq<Entry<U, V>>|
                {
                    &&& lists_all(self@, s)
                    &&& r.remaining().len() == s.len()
                    &&& forall|i: int|
                        0 <= i < s.len() ==> *#[trigger] r.remaining()[i] == s[i].spec_value()
                },
    {
        let es = self.all_entries();
        let mut vals: Vec<&'a V> = Vec::new();
        let mut i: usize = 0;
        while i < es.len()
            invariant
                i <= es@.len(),
                vals@.len() == i,
                forall|j: int| 0 <= j < i ==> *#[trigger] vals@[j] == es@[j].spec_value(),
            decreases es@.len() - i,
        {
            vals.push(es[i].value_ref());
            i = i + 1;
        }
        proof {
            let s = deref_all(es@);
            assert(forall|j: int| 0 <= j < s.len() ==> s[j] == *es@[j]);
            assert(lists_all(self@, s) && vals@.len() == s.len() && forall|j: int|
                0 <= j < s.len() ==> *#[trigger] vals@[j] == s[j].spec_value());
        }
        Values::new(vals)
    }

    /// An iterator over the regions of all the entries, in no particular order.
    pub fn regions(&self) -> (r: Regions<U>)
        requires
            self.wf(),
        ensures
            exists|s: Seq<Entry<U, V>>|
                {
                    &&& lists_all(self@, s)
                    &&& r.remaining().len() == s.len()
                    &&& forall|i: int|
                        0 <= i < s.len() ==> #[trigger] r.remaining()[i] == s[i].spec_area()
                },
    {
        let es = self.all_entries();
        let mut areas: Vec<Area<U>> = Vec::new();
        let mut i: usize = 0;
        while i < es.len()
            invariant
                i <= es@.len(),
                areas@.len() == i,
                forall|j: int| 0 <= j < i ==> #[trigger] areas@[j] == es@[j].spec_area(),
            decreases es@.len() - i,
        {
            areas.push(es[i].area());
            i = i + 1;
        }
        proof {
            let s = deref_all(es@);
            assert(forall|j: int| 0 <= j < s.len() ==> s[j] == *es@[j]);
            assert(lists_all(self@, s) && areas@.len() == s.len() && forall|j: int|
                0 <= j < s.len() ==> #[trigger] areas@[j] == s[j].spec_area());
        }
        Regions::new(areas)
    }

    fn delete_with(&mut self, region: Area<U>, t: Traversal) -> (r: IntoIter<U, V>)
        requires
            old(self).wf(),
            region.fits(),
        ensures
            final(self).wf(),
            final(self).region() == old(self).region(),
            final(self).spec_depth() == old(self).spec_depth(),
            forall|k: u128| #[trigger]
                final(self)@.contains_key(k) <==> (old(self)@.contains_key(k) && !selected(
                    old(self)@,
                    k,
                    t,
                    region,
                )),
            forall|k: u128| #[trigger] final(self)@.contains_key(k) ==> final(self)@[k] == old(self)@[k],
            forall|k: u128| !#[trigger] selected(final(self)@, k, t, region),
            lists_selected(old(self)@, r.remaining(), t, region),
    {
        let hs = selected_handles(&self.inner, &self.store, region, t);
        let ghost m0 = self@;
        let mut out: Vec<Entry<U, V>> = Vec::new();
        let mut i: usize = 0;
        while i < hs.len()
            invariant
                self.wf(),
                self.region() == old(self).region(),
                self.spec_depth() == old(self).spec_depth(),
                m0 == old(self)@,
                i <= hs@.len(),
                hs@.no_duplicates(),
                forall|k: u128| #[trigger] hs@.contains(k) <==> selected(m0, k, t, region),
                forall|k: u128| #[trigger]
                    self@.contains_key(k) <==> (m0.contains_key(k) && !hs@.take(i as int).contains(k)),
                forall|k: u128| #[trigger] self@.contains_key(k) ==> self@[k] == m0[k],
                out@.len() == i,
                forall|j: int| 0 <= j < i ==> #[trigger] out@[j] == m0[hs@[j]],
            decreases hs@.len() - i,
        {
            let h = hs[i];
            proof {
                assert(hs@.take(i + 1) == hs@.take(i as int).push(h));
                assert(hs@.contains(h));
                if hs@.take(i as int).contains(h) {
                    let j = choose|j: int| 0 <= j < i && hs@.take(i as int)[j] == h;
                    assert(hs@[j] == hs@[i as int]);
                }
                assert forall|k: u128| #[trigger] hs@.take(i + 1).contains(k) <==> (hs@.take(
                    i as int,
                ).contains(k) || k == h) by {
                    lemma_push_contains(hs@.take(i as int), h, k);
                }
            }
            let e = self.delete_by_handle(h).unwrap();
            out.push(e);
            i = i + 1;
        }
        proof {
            assert(hs@.take(hs@.len() as int) == hs@);
            self.lemma_wf_storable();
            assert forall|j: int| 0 <= j < out@.len() implies out@[j].spec_handle() == hs@[j]
                && selected(m0, hs@[j], t, region) by {
                assert(hs@.contains(hs@[j]));
            }
            assert forall|k: u128| #[trigger] selected(m0, k, t, region) implies exists|j: int|
                0 <= j < out@.len() && #[trigger] out@[j].spec_handle() == k by {
                assert(hs@.contains(k));
                let j = choose|j: int| 0 <= j < hs@.len() && hs@[j] == k;
                assert(out@[j].spec_handle() == k);
            }
            assert forall|a: int, b: int|
                0 <= a < b < out@.len() implies #[trigger] out@[a].spec_handle()
                    != #[trigger] out@[b].spec_handle() by {
                assert(out@[a].spec_handle() == hs@[a]);
                assert(out@[b].spec_handle() == hs@[b]);
            }
        }
        IntoIter::new(out)
    }

    /// Removes every entry whose region shares at least one unit cell with `region`, and
    /// returns the removed entries.
    pub fn delete(&mut self, region: Area<U>) -> (r: IntoIter<U, V>)
        requires
            old(self).wf(),
            region.fits(),
        ensures
            final(self).wf(),
            final(self).region() == old(self).region(),
            final(self).spec_depth() == old(self).spec_depth(),
            forall|k: u128| #[trigger]
                final(self)@.contains_key(k) <==> (old(self)@.contains_key(k) && !selected(
                    old(self)@,
                    k,
                    Traversal::Overlapping,
                    region,
                )),
            forall|k: u128| #[trigger] final(self)@.contains_key(k) ==> final(self)@[k] == old(self)@[k],
            forall|k: u128| !#[trigger] selected(final(self)@, k, Traversal::Overlapping, region),
            lists_selected(old(self)@, r.remaining(), Traversal::Overlapping, region),
    {
        self.delete_with(region, Traversal::Overlapping)
    }

    /// Removes every entry whose region lies wholly inside `region`, and returns the removed
    /// entries.
    pub fn delete_strict(&mut self, region: Area<U>) -> (r: IntoIter<U, V>)
        requires
            old(self).wf(),
            region.fits(),
        ensures
            final(self).wf(),
            final(self).region() == old(self).region(),
            final(self).spec_depth() == old(self).spec_depth(),
            forall|k: u128| #[trigger]
                final(self)@.contains_key(k) <==> (old(self)@.contains_key(k) && !selected(
                    old(self)@,
                    k,
                    Traversal::Strict,
                    region,
                )),
            forall|k: u128| #[trigger] final(self)@.contains_key(k) ==> final(self)@[k] == old(self)@[k],
            forall|k: u128| !#[trigger] selected(final(self)@, k, Traversal::Strict, region),
            lists_selected(old(self)@, r.remaining(), Traversal::Strict, region),
    {
        self.delete_with(region, Traversal::Strict)
    }

    /// Applies `f` to the value of every entry whose handle `hs` lists, once each.
    fn modify_listed<F: Fn(&mut V)>(&mut self, hs: Vec<u128>, f: F)
        requires
            old(self).wf(),
            hs@.no_duplicates(),
            forall|k: u128| #[trigger] hs@.contains(k) ==> old(self)@.contains_key(k),
            forall|x: &mut V| #[trigger] f.requires((x,)),
        ensures
            final(self).wf(),
            final(self).region() == old(self).region(),
            final(self).spec_depth() == old(self).spec_depth(),
            final(self)@.dom() == old(self)@.dom(),
            forall|k: u128| #[trigger]
                old(self)@.contains_key(k) ==> final(self)@[k].spec_area() == old(self)@[k].spec_area()
                    && final(self)@[k].spec_handle() == old(self)@[k].spec_handle(),
            forall|k: u128|
                old(self)@.contains_key(k) && !hs@.contains(k) ==> #[trigger] final(self)@[k] == old(
                    self,
                )@[k],
            forall|k: u128|
                #![trigger hs@.contains(k)]
                old(self)@.contains_key(k) && hs@.contains(k) ==> exists|x: &mut V|
                    *x == old(self)@[k].spec_value() && *final(x) == final(self)@[k].spec_value()
                        && #[trigger] f.ensures((x,), ()),
    {
        let ghost m0 = self@;
        let mut i: usize = 0;
        while i < hs.len()
            invariant
                self.wf(),
                self.region() == old(self).region(),
                self.spec_depth() == old(self).spec_depth(),
                m0 == old(self)@,
                i <= hs@.len(),
                hs@.no_duplicates(),
                forall|k: u128| #[trigger] hs@.contains(k) ==> m0.contains_key(k),
                forall|x: &mut V| #[trigger] f.requires((x,)),
                self@.dom() == m0.dom(),
                forall|k: u128| #[trigger]
                    m0.contains_key(k) ==> self@[k].spec_area() == m0[k].spec_area()
                        && self@[k].spec_handle() == m0[k].spec_handle(),
                forall|k: u128|
                    m0.contains_key(k) && !hs@.take(i as int).contains(k) ==> #[trigger] self@[k]
                        == m0[k],
                forall|k: u128|
                    #![trigger hs@.take(i as int).contains(k)]
                    m0.contains_key(k) && hs@.take(i as int).contains(k) ==> exists|x: &mut V|
                        *x == m0[k].spec_value() && *final(x) == self@[k].spec_value()
                            && #[trigger] f.ensures((x,), ()),
            decreases hs@.len() - i,
        {
            let h = hs[i];
            proof {
                assert(hs@.take(i + 1) == hs@.take(i as int).push(h));
                assert(hs@.contains(h));
                if hs@.take(i as int).contains(h) {
                    let j = choose|j: int| 0 <= j < i && hs@.take(i as int)[j] == h;
                    assert(hs@[j] == hs@[i as int]);
                }
                assert forall|k: u128| #[trigger] hs@.take(i + 1).contains(k) <==> (hs@.take(
                    i as int,
                ).contains(k) || k == h) by {
                    lemma_push_contains(hs@.take(i as int), h, k);
                }
            }
            let ghost prev = self@;
            let mut e = self.store.remove(h).unwrap();
            f(e.value_mut());
            self.store.insert(h, e);
            proof {
                assert forall|k: u128, p: (int, int)|
                    self.store.entries().contains_key(k) && #[trigger] self.store.entries()[k].spec_area().has_point(p)
                        implies self.inner.covers(k, p) by {
                    assert(prev.contains_key(k));
                }
                assert(self@.dom() =~= m0.dom());
            }
            i = i + 1;
        }
        proof {
            assert(hs@.take(hs@.len() as int) == hs@);
        }
    }

    /// Applies `f` to the value of every entry whose region shares at least one unit cell with
    /// `region`.
    pub fn modify<F: Fn(&mut V)>(&mut self, region: Area<U>, f: F)
        requires
            old(self).wf(),
            region.fits(),
            forall|x: &mut V| #[trigger] f.requires((x,)),
        ensures
            final(self).wf(),
            final(self).region() == old(self).region(),
            final(self).spec_depth() == old(self).spec_depth(),
            final(self)@.dom() == old(self)@.dom(),
            forall|k: u128| #[trigger]
                old(self)@.contains_key(k) ==> final(self)@[k].spec_area() == old(self)@[k].spec_area()
                    && final(self)@[k].spec_handle() == old(self)@[k].spec_handle(),
            forall|k: u128|
                old(self)@.contains_key(k) && !selected(old(self)@, k, Traversal::Overlapping, region) ==> #[trigger] final(self)@[k] == old(
                    self,
                )@[k],
            forall|k: u128|
                old(self)@.contains_key(k) && selected(old(self)@, k, Traversal::Overlapping, region) ==> exists|x: &mut V|
                    *x == old(self)@[k].spec_value() && *final(x) == final(self)@[k].spec_value()
                        && #[trigger] f.ensures((x,), ()),
    {
        let hs = selected_handles(&self.inner, &self.store, region, Traversal::Overlapping);
        proof {
            assert forall|k: u128| #[trigger] hs@.contains(k) implies old(self)@.contains_key(k) by {}
        }
        self.modify_listed(hs, f);
    }

    /// Applies `f` to the value of every entry whose region lies wholly inside `region`.
    pub fn modify_strict<F: Fn(&mut V)>(&mut self, region: Area<U>, f: F)
        requires
            old(self).wf(),
            region.fits(),
            forall|x: &mut V| #[trigger] f.requires((x,)),
        ensures
            final(self).wf(),
            final(self).region() == old(self).region(),
            final(self).spec_depth() == old(self).spec_depth(),
            final(self)@.dom() == old(self)@.dom(),
            forall|k: u128| #[trigger]
                old(self)@.contains_key(k) ==> final(self)@[k].spec_area() == old(self)@[k].spec_area()
                    && final(self)@[k].spec_handle() == old(self)@[k].spec_handle(),
            forall|k: u128|
                old(self)@.contains_key(k) && !selected(old(self)@, k, Traversal::Strict, region) ==> #[trigger] final(self)@[k] == old(
                    self,
                )@[k],
            forall|k: u128|
                old(self)@.contains_key(k) && selected(old(self)@, k, Traversal::Strict, region) ==> exists|x: &mut V|
                    *x == old(self)@[k].spec_value() && *final(x) == final(self)@[k].spec_value()
                        && #[trigger] f.ensures((x,), ()),
    {
        let hs = selected_handles(&self.inner, &self.store, region, Traversal::Strict);
        proof {
            assert forall|k: u128| #[trigger] hs@.contains(k) implies old(self)@.contains_key(k) by {}
        }
        self.modify_listed(hs, f);
    }

    /// Applies `f` to the value of every entry.
    pub fn modify_all<F: Fn(&mut V)>(&mut self, f: F)
        requires
            old(self).wf(),
            forall|x: &mut V| #[trigger] f.requires((x,)),
        ensures
            final(self).wf(),
            final(self).region() == old(self).region(),
            final(self).spec_depth() == old(self).spec_depth(),
            final(self)@.dom() == old(self)@.dom(),
            forall|k: u128| #[trigger]
                old(self)@.contains_key(k) ==> final(self)@[k].spec_area() == old(self)@[k].spec_area()
                    && final(self)@[k].spec_handle() == old(self)@[k].spec_handle(),
            forall|k: u128|
                old(self)@.contains_key(k) ==> exists|x: &mut V|
                    *x == old(self)@[k].spec_value() && *final(x) == final(self)@[k].spec_value()
                        && #[trigger] f.ensures((x,), ()),
    {
        let hs = self.all_handles();
        proof {
            assert forall|k: u128| #[trigger] hs@.contains(k) implies old(self)@.contains_key(k) by {}
        }
        self.modify_listed(hs, f);
    }

    /// Associates each value with the unit area at its coordinates, one item after the other
    /// in order, as [`Quadtree::insert_pt`] does; items whose unit area the tree does not cover
    /// are dropped, and each of the others is stored under a new handle of its own, whatever the
    /// items around it. Which handles are drawn is left open.
    pub fn extend(&mut self, items: Vec<((U, U), V)>)
        requires
            old(self).wf(),
            forall|i: int|
                0 <= i < items@.len() ==> (#[trigger] items@[i]).0.0.val() < U::max_val()
                    && items@[i].0.1.val() < U::max_val(),
        ensures
            final(self).wf(),
            final(self).region() == old(self).region(),
            final(self).spec_depth() == old(self).spec_depth(),
            exists|hs: Seq<u128>|
                hs.len() == items@.len() && (forall|i: int|
                    0 <= i < hs.len() ==> is_v4_handle(#[trigger] hs[i])) && fresh_handles(
                    old(self)@,
                    old(self).region(),
                    items@,
                    hs,
                ) && final(self)@ == #[trigger] extended(old(self)@, old(self).region(), items@, hs)
                    && (forall|i: int|
                    0 <= i < items@.len() && #[trigger] item_inside(old(self).region(), items@[i])
                        ==> final(self)@.contains_key(hs[i]) && final(self)@[hs[i]] == item_entry(
                        items@[i],
                        hs[i],
                    )),
            forall|k: u128| #[trigger]
                old(self)@.contains_key(k) ==> final(self)@.contains_key(k) && final(self)@[k] == old(
                    self,
                )@[k],
    {
        let ghost orig = items@;
        let ghost n = orig.len();
        let mut items = items;
        // Reverse the items, so that popping yields them in their order.
        let mut rev: Vec<((U, U), V)> = Vec::new();
        while items.len() > 0
            invariant
                items@.len() <= n,
                n == orig.len(),
                items@ == orig.take(items@.len() as int),
                rev@.len() == n - items@.len(),
                forall|t: int| 0 <= t < rev@.len() ==> #[trigger] rev@[t] == orig[n - 1 - t],
            decreases items@.len(),
        {
            let ghost m = items@.len();
            let item = items.pop().unwrap();
            proof {
                assert(item == orig[m - 1]);
                assert(items@ =~= orig.take(items@.len() as int));
            }
            rev.push(item);
        }
        let ghost mut hs: Seq<u128> = Seq::empty();
        proof {
            assert(orig.take(0) =~= Seq::<((U, U), V)>::empty());
        }
        while rev.len() > 0
            invariant
                self.wf(),
                self.region() == old(self).region(),
                self.spec_depth() == old(self).spec_depth(),
                n == orig.len(),
                rev@.len() <= n,
                forall|t: int| 0 <= t < rev@.len() ==> #[trigger] rev@[t] == orig[n - 1 - t],
                forall|i: int|
                    0 <= i < orig.len() ==> (#[trigger] orig[i]).0.0.val() < U::max_val()
                        && orig[i].0.1.val() < U::max_val(),
                hs.len() == n - rev@.len(),
                forall|i: int| 0 <= i < hs.len() ==> is_v4_handle(#[trigger] hs[i]),
                fresh_handles(old(self)@, old(self).region(), orig.take(hs.len() as int), hs),
                self@ == extended(old(self)@, old(self).region(), orig.take(hs.len() as int), hs),
            decreases rev@.len(),
        {
            let ghost j = hs.len();
            let ghost before = self@;
            let item = rev.pop().unwrap();
            proof {
                assert(item == orig[j as int]);
            }
            let ((x, y), val) = item;
            let ghost v = val;
            proof {
                lemma_extended_keeps_every_item(
                    old(self)@,
                    old(self).region(),
                    orig.take(j as int),
                    hs,
                );
            }
            let r = self.insert_pt(Point { x, y }, val);
            proof {
                // A dropped item stores nothing; its place in `hs` holds some version 4 handle.
                let unused: u128 = 0x0000_0000_0000_4000_8000_0000_0000_0000u128;
                assert((unused >> 76u128) & 0xfu128 == 4 && (unused >> 62u128) & 0x3u128 == 2) by (bit_vector)
                    requires
                        unused == 0x0000_0000_0000_4000_8000_0000_0000_0000u128;
                let h = match r {
                    Some(h) => h,
                    None => unused,
                };
                let hs1 = hs.push(h);
                let items1 = orig.take(j + 1int);
                assert(items1.drop_last() =~= orig.take(j as int));
                assert(hs1.drop_last() =~= hs);
                assert(items1.last() == item);
                assert(self@ == extended(old(self)@, old(self).region(), items1, hs1));
                let pre = orig.take(j as int);
                assert forall|i: int| 0 <= i < items1.len() implies #[trigger] items1[i] == orig[i]
                    && hs1[i] == (if i < j { hs[i] } else { h }) by {}
                assert forall|i: int| 0 <= i < pre.len() implies #[trigger] pre[i] == orig[i] by {}
                assert(item_inside(old(self).region(), item) <==> r is Some);
                assert forall|i: int|
                    0 <= i < items1.len() && #[trigger] item_inside(old(self).region(), items1[i])
                        implies !old(self)@.contains_key(hs1[i]) by {
                    if i < j {
                        assert(item_inside(old(self).region(), pre[i]));
                    } else {
                        assert(!before.contains_key(h));
                    }
                }
                assert forall|i: int, k: int|
                    0 <= i < k < items1.len() && #[trigger] item_inside(old(self).region(), items1[i])
                        && #[trigger] item_inside(old(self).region(), items1[k]) implies hs1[i]
                        != hs1[k] by {
                    assert(item_inside(old(self).region(), pre[i]));
                    if k < j {
                        assert(item_inside(old(self).region(), pre[k]));
                    } else {
                        assert(before.contains_key(hs[i]));
                    }
                }
                hs = hs1;
            }
        }
        proof {
            assert(orig.take(n as int) =~= orig);
            lemma_extended_keeps_every_item(old(self)@, old(self).region(), orig, hs);
        }
    }

    /// Removes the entry stored under `handle` and returns it, if there is one.
    pub fn delete_by_handle(&mut self, handle: u128) -> (r: Option<Entry<U, V>>)
        requires
            old(self).wf(),
        ensures
            final(self).wf(),
            final(self).region() == old(self).region(),
            final(self).spec_depth() == old(self).spec_depth(),
            final(self)@ == old(self)@.remove(handle),
            match r {
                None => !old(self)@.contains_key(handle),
                Some(e) => old(self)@.contains_key(handle) && e == old(self)@[handle],
            },
    {
        let r = self.store.remove(handle);
        if r.is_some() {
            self.inner.remove_uuid(handle);
        }
        proof {
            if r is None {
                assert(self.store.entries() =~= old(self).store.entries().remove(handle));
            }
            assert forall|k: u128, p: (int, int)|
                self.store.entries().contains_key(k) && #[trigger] self.store.entries()[k].spec_area().has_point(p)
                    implies self.inner.covers(k, p) by {
                assert(old(self).inner.covers(k, p));
            }
        }
        r
    }
}

} // verus!
