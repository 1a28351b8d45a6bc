//! How a query region selects the regions it returns.
use vstd::prelude::*;
use crate::area::Area;
use crate::coord::Coord;

verus! {

/// Which stored regions a query region selects.
#[derive(Debug, Clone, Copy, PartialEq, Eq)]
pub enum Traversal {
    /// Every region that shares at least one unit cell with the query region.
    Overlapping,
    /// Every region that lies wholly inside the query region.
    Strict,
}

impl Traversal {
    /// Whether a region selected this way by `query_region` includes `bounding_box`.
    pub open spec fn selects<U: Coord>(self, bounding_box: Area<U>, query_region: Area<U>) -> bool {
        match self {
            Traversal::Overlapping => query_region.spec_intersects(bounding_box),
            Traversal::Strict => query_region.spec_contains(bounding_box),
        }
    }

    /// Whether `query_region` selects `bounding_box` under this traversal.
    pub fn eval<U: Coord>(self, bounding_box: Area<U>, query_region: Area<U>) -> (b: bool)
        requires
            bounding_box.fits(),
            query_region.fits(),
        ensures
            b == self.selects(bounding_box, query_region),
            self == Traversal::Strict ==> (b <==> forall|p: (int, int)|
                #[trigger] bounding_box.has_point(p) ==> query_region.has_point(p)),
            self == Traversal::Overlapping ==> (b <==> exists|p: (int, int)|
                #[trigger] bounding_box.has_point(p) && query_region.has_point(p)),
    {
        proof {
            use_type_invariant(&bounding_box);
            use_type_invariant(&query_region);
            self.lemma_selects_by_cells(bounding_box, query_region);
        }
        match self {
            Traversal::Overlapping => query_region.intersects(bounding_box),
            Traversal::Strict => query_region.contains(bounding_box),
        }
    }

    /// What each traversal selects, cell by cell: `Strict` selects a region exactly when every
    /// unit cell of it is a cell of the query region, `Overlapping` exactly when the two share a
    /// unit cell.
    pub proof fn lemma_selects_by_cells<U: Coord>(
        self,
        bounding_box: Area<U>,
        query_region: Area<U>,
    )
        requires
            bounding_box.wf(),
            query_region.wf(),
        ensures
            self == Traversal::Strict ==> (self.selects(bounding_box, query_region) <==> forall|
                p: (int, int),
            | #[trigger] bounding_box.has_point(p) ==> query_region.has_point(p)),
            self == Traversal::Overlapping ==> (self.selects(bounding_box, query_region)
                <==> exists|p: (int, int)|
                #[trigger] bounding_box.has_point(p) && query_region.has_point(p)),
    {
        Area::lemma_contains_iff_all_points(query_region, bounding_box);
        Area::lemma_intersects_iff_common_point(bounding_box, query_region);
        Area::lemma_intersects_symmetric(bounding_box, query_region);
    }

    /// A selected region always shares a unit cell with the query region.
    pub proof fn lemma_selected_shares_a_cell<U: Coord>(
        self,
        bounding_box: Area<U>,
        query_region: Area<U>,
    )
        requires
            bounding_box.wf(),
            query_region.wf(),
            self.selects(bounding_box, query_region),
        ensures
            exists|p: (int, int)| bounding_box.has_point(p) && query_region.has_point(p),
    {
        if self == Traversal::Strict {
            Area::lemma_contains_implies_intersects(query_region, bounding_box);
        }
        Area::lemma_intersects_iff_common_point(bounding_box, query_region);
    }
}

} // verus!
