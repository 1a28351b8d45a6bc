//! A rectangular region in the tree.
use vstd::prelude::*;
use vstd::std_specs::convert::FromSpecImpl;
use vstd::std_specs::cmp::PartialEqSpecImpl;
use crate::coord::{Coord, clamp, saturating_plus};
use crate::point::Point;
use crate::text::{decimal, push_coord};
use vstd::string::StringExecFns;

pub use crate::builder::{AreaBuilder, AreaBuilderError};

verus! {

/// A rectangular region in 2d space.
///
/// Lightweight, should be passed by value. Defined by its top-left anchor, width, and height.
///
/// **NB:**
///   - The top-left anchor can be any valid `(U, U)` coordinate, positive or negative, in any
///   quadrant.
///   - The width and height must both be positive and nonzero.
#[derive(Eq, Copy, Hash, Debug)]
pub struct Area<U: Coord> {
    anchor: Point<U>,
    dimensions: (U, U),
}

impl<U: Coord> Area<U> {
    /// Width and height are both positive; every area satisfies this.
    #[verifier::type_invariant]
    pub open spec fn wf(self) -> bool {
        self.spec_width() > 0 && self.spec_height() > 0
    }

    /// The top-left corner.
    pub closed spec fn spec_anchor(self) -> Point<U> {
        self.anchor
    }

    /// The width and the height.
    pub closed spec fn spec_dims(self) -> (U, U) {
        self.dimensions
    }

    pub open spec fn spec_width(self) -> int {
        self.spec_dims().0.val()
    }

    pub open spec fn spec_height(self) -> int {
        self.spec_dims().1.val()
    }

    /// The area with the given anchor and dimensions.
    pub closed spec fn spec_new(anchor: Point<U>, dims: (U, U)) -> Self {
        Area { anchor, dimensions: dims }
    }

    /// The unit area anchored at `pt`.
    pub open spec fn spec_unit_at(pt: Point<U>) -> Self {
        Self::spec_new(pt, (U::of_int(1), U::of_int(1)))
    }

    pub open spec fn left(self) -> int {
        self.spec_anchor().x.val()
    }

    pub open spec fn top(self) -> int {
        self.spec_anchor().y.val()
    }

    pub open spec fn right(self) -> int {
        self.left() + self.spec_width()
    }

    pub open spec fn bottom(self) -> int {
        self.top() + self.spec_height()
    }

    /// The right and bottom edges can be computed in `U` without overflow.
    pub open spec fn fits(self) -> bool {
        self.right() <= U::max_val() && self.bottom() <= U::max_val()
    }

    /// The unit cell whose top-left corner is `p` lies inside the region.
    pub open spec fn has_point(self, p: (int, int)) -> bool {
        self.left() <= p.0 < self.right() && self.top() <= p.1 < self.bottom()
    }

    pub open spec fn spec_intersects(self, other: Self) -> bool {
        &&& self.left() < other.right()
        &&& self.right() > other.left()
        &&& self.top() < other.bottom()
        &&& self.bottom() > other.top()
    }

    pub open spec fn spec_contains(self, other: Self) -> bool {
        &&& other.right() <= self.right()
        &&& other.left() >= self.left()
        &&& other.top() >= self.top()
        &&& other.bottom() <= self.bottom()
    }

    /// The area built from an anchor and dimensions has that anchor and those dimensions.
    pub broadcast proof fn lemma_spec_new(anchor: Point<U>, dims: (U, U))
        ensures
            #[trigger] Self::spec_new(anchor, dims).spec_anchor() == anchor,
            Self::spec_new(anchor, dims).spec_dims() == dims,
    {
    }

    /// An area is determined by its anchor and its dimensions.
    pub proof fn lemma_eq(a: Self, b: Self)
        requires
            a.spec_anchor() == b.spec_anchor(),
            a.spec_dims() == b.spec_dims(),
        ensures
            a == b,
    {
    }

    /// Intersection is symmetric.
    pub proof fn lemma_intersects_symmetric(a: Self, b: Self)
        ensures
            a.spec_intersects(b) == b.spec_intersects(a),
    {
    }

    /// Two regions intersect exactly when some unit cell lies in both.
    pub proof fn lemma_intersects_iff_common_point(a: Self, b: Self)
        requires
            a.wf(),
            b.wf(),
        ensures
            a.spec_intersects(b) <==> exists|p: (int, int)| a.has_point(p) && b.has_point(p),
    {
        if a.spec_intersects(b) {
            let px = if a.left() < b.left() { b.left() } else { a.left() };
            let py = if a.top() < b.top() { b.top() } else { a.top() };
            assert(a.has_point((px, py)) && b.has_point((px, py)));
        }
    }

    /// A region contains another exactly when it holds every unit cell of the other.
    pub proof fn lemma_contains_iff_all_points(a: Self, b: Self)
        requires
            b.wf(),
        ensures
            a.spec_contains(b) <==> forall|p: (int, int)| b.has_point(p) ==> a.has_point(p),
    {
        if forall|p: (int, int)| b.has_point(p) ==> a.has_point(p) {
            assert(b.has_point((b.left(), b.top())));
            assert(b.has_point((b.right() - 1, b.bottom() - 1)));
        }
    }

    /// A region that contains another also intersects it.
    pub proof fn lemma_contains_implies_intersects(a: Self, b: Self)
        requires
            b.wf(),
            a.spec_contains(b),
        ensures
            a.spec_intersects(b),
            b.spec_intersects(a),
    {
    }

    /// Every region contains itself.
    pub proof fn lemma_contains_reflexive(a: Self)
        ensures
            a.spec_contains(a),
    {
    }

    /// Containment is transitive.
    pub proof fn lemma_contains_transitive(a: Self, b: Self, c: Self)
        requires
            a.spec_contains(b),
            b.spec_contains(c),
        ensures
            a.spec_contains(c),
    {
    }

    /// Construct a new [`Area`], anchored at `(1, 1)`.
    pub fn new(width: U, height: U) -> (r: Self)
        requires
            width.val() > 0,
            height.val() > 0,
        ensures
            r.spec_anchor().xy() == (1int, 1int),
            r.spec_dims() == (width, height),
    {
        Area { anchor: Point { x: U::one(), y: U::one() }, dimensions: (width, height) }
    }

    /// Unit area with width and height of one.
    pub fn unit() -> (r: Self)
        ensures
            r.spec_anchor().xy() == (1int, 1int),
            r.spec_width() == 1,
            r.spec_height() == 1,
            r.spec_dims() == (U::of_int(1), U::of_int(1)),
    {
        let one = U::one();
        proof {
            one.lemma_range();
            U::lemma_of_int(1);
            U::lemma_injective(one, U::of_int(1));
        }
        Self::new(one, one)
    }

    /// The area anchored at `anchor` with the given width and height, if both are positive;
    /// `None` otherwise.
    pub fn from_parts(anchor: Point<U>, dims: (U, U)) -> (r: Option<Self>)
        ensures
            match r {
                Some(a) => dims.0.val() > 0 && dims.1.val() > 0 && a == Self::spec_new(anchor, dims),
                None => !(dims.0.val() > 0 && dims.1.val() > 0),
            },
    {
        let zero = U::zero();
        if zero.less_than(dims.0) && zero.less_than(dims.1) {
            Some(Area { anchor, dimensions: dims })
        } else {
            None
        }
    }

    /// Returns a new area with its top-left point set to `anchor`.
    pub fn at(self, anchor: Point<U>) -> (r: Self)
        ensures
            r.spec_anchor() == anchor,
            r.spec_dims() == self.spec_dims(),
            r == Self::spec_new(anchor, self.spec_dims()),
    {
        proof { use_type_invariant(&self); }
        Area { anchor, dimensions: self.dimensions }
    }

    /// The top-left coordinate (anchor) of the region.
    pub fn anchor(&self) -> (r: Point<U>)
        ensures
            r == self.spec_anchor(),
    {
        self.anchor
    }

    /// The width and height of the region.
    pub fn dimensions(&self) -> (r: (U, U))
        ensures
            r == self.spec_dims(),
    {
        self.dimensions
    }

    /// The anchor and the dimensions of the region, as plain tuples.
    pub fn inner(&self) -> (r: ((U, U), (U, U)))
        ensures
            r == ((self.spec_anchor().x, self.spec_anchor().y), self.spec_dims()),
    {
        ((self.anchor.x, self.anchor.y), self.dimensions)
    }

    /// The width of the region.
    pub fn width(&self) -> (r: U)
        ensures
            r == self.spec_dims().0,
            r.val() > 0,
    {
        proof { use_type_invariant(self); }
        self.dimensions.0
    }

    /// The height of the region.
    pub fn height(&self) -> (r: U)
        ensures
            r == self.spec_dims().1,
            r.val() > 0,
    {
        proof { use_type_invariant(self); }
        self.dimensions.1
    }

    /// The region as text: its anchor in brackets, an arrow, then its width and height, as in
    /// `(1x2)->3x4`.
    #[verifier::opaque]
    pub open spec fn text(self) -> Seq<char> {
        seq!['('] + self.spec_anchor().text() + seq![')', '-', '>'] + decimal(self.spec_width())
            + seq!['x'] + decimal(self.spec_height())
    }

    /// Appends the text of the region to `s`.
    pub(crate) fn push_text(&self, s: &mut String)
        ensures
            final(s)@ == old(s)@ + self.text(),
    {
        let ghost start = s@;
        proof {
            reveal_strlit("(");
            reveal_strlit(")->");
            reveal_strlit("x");
        }
        s.append("(");
        self.anchor.push_text(s);
        s.append(")->");
        push_coord(s, self.dimensions.0);
        s.append("x");
        push_coord(s, self.dimensions.1);
        proof {
            reveal(Area::text);
            assert(s@ =~= start + self.text());
        }
    }

    /// The text of the region, as in `(1x2)->3x4`.
    pub fn to_text(&self) -> (s: String)
        ensures
            s@ == self.text(),
    {
        let mut s = String::new();
        self.push_text(&mut s);
        proof {
            assert(s@ =~= self.text());
        }
        s
    }

    /// The coordinate of the top edge of the region.
    pub fn top_edge(&self) -> (r: U)
        ensures
            r.val() == self.top(),
    {
        self.anchor.y
    }

    /// The coordinate of the bottom edge of the region.
    pub fn bottom_edge(&self) -> (r: U)
        requires
            self.bottom() <= U::max_val(),
        ensures
            r.val() == self.bottom(),
    {
        proof {
            use_type_invariant(self);
            self.anchor.y.lemma_range();
        }
        self.anchor.y.plus(self.dimensions.1)
    }

    /// The coordinate of the left edge of the region.
    pub fn left_edge(&self) -> (r: U)
        ensures
            r.val() == self.left(),
    {
        self.anchor.x
    }

    /// The coordinate of the right edge of the region.
    pub fn right_edge(&self) -> (r: U)
        requires
            self.right() <= U::max_val(),
        ensures
            r.val() == self.right(),
    {
        proof {
            use_type_invariant(self);
            self.anchor.x.lemma_range();
        }
        self.anchor.x.plus(self.dimensions.0)
    }

    /// The top-left corner of the region.
    pub fn tl_pt(&self) -> (r: Point<U>)
        ensures
            r.xy() == (self.left(), self.top()),
    {
        Point { x: self.left_edge(), y: self.top_edge() }
    }

    /// The top-right corner of the region.
    pub fn tr_pt(&self) -> (r: Point<U>)
        requires
            self.right() <= U::max_val(),
        ensures
            r.xy() == (self.right(), self.top()),
    {
        Point { x: self.right_edge(), y: self.top_edge() }
    }

    /// The bottom-left corner of the region.
    pub fn bl_pt(&self) -> (r: Point<U>)
        requires
            self.bottom() <= U::max_val(),
        ensures
            r.xy() == (self.left(), self.bottom()),
    {
        Point { x: self.left_edge(), y: self.bottom_edge() }
    }

    /// The bottom-right corner of the region.
    pub fn br_pt(&self) -> (r: Point<U>)
        requires
            self.fits(),
        ensures
            r.xy() == (self.right(), self.bottom()),
    {
        Point { x: self.right_edge(), y: self.bottom_edge() }
    }

    /// Whether or not an area intersects another area.
    pub fn intersects(self, other: Self) -> (b: bool)
        requires
            self.fits(),
            other.fits(),
        ensures
            b == self.spec_intersects(other),
    {
        self.left_edge().less_than(other.right_edge())
            && other.left_edge().less_than(self.right_edge())
            && self.top_edge().less_than(other.bottom_edge())
            && other.top_edge().less_than(self.bottom_edge())
    }

    /// Whether or not an area wholly contains another area.
    pub fn contains(self, other: Self) -> (b: bool)
        requires
            self.fits(),
            other.fits(),
        ensures
            b == self.spec_contains(other),
    {
        other.right_edge().at_most(self.right_edge())
            && self.left_edge().at_most(other.left_edge())
            && self.top_edge().at_most(other.top_edge())
            && other.bottom_edge().at_most(self.bottom_edge())
    }

    /// Whether or not an area contains a point.
    pub fn contains_pt(self, pt: Point<U>) -> (b: bool)
        requires
            self.fits(),
            pt.x.val() < U::max_val(),
            pt.y.val() < U::max_val(),
        ensures
            b == self.has_point(pt.xy()),
    {
        self.contains(Self::unit().at(pt))
    }

    /// The center of the region. It is an integer point and thus rounded down: a 3x3 region at
    /// (0, 0) has its center at (1, 1), and so does a 2x2 region at (0, 0).
    pub fn center_pt(&self) -> (r: Point<U>)
        ensures
            r.x.val() == clamp::<U>(self.left() + self.spec_width() / 2),
            r.y.val() == clamp::<U>(self.top() + self.spec_height() / 2),
    {
        proof { use_type_invariant(self); }
        let half_w = self.dimensions.0.halved();
        let half_h = self.dimensions.1.halved();
        Point { x: saturating_plus(self.anchor.x, half_w), y: saturating_plus(self.anchor.y, half_h) }
    }
}

/// The unit area anchored at the given point.
impl<U: Coord> From<Point<U>> for Area<U> {
    fn from(anchor: Point<U>) -> (r: Self) {
        Self::unit().at(anchor)
    }
}

impl<U: Coord> FromSpecImpl<Point<U>> for Area<U> {
    open spec fn obeys_from_spec() -> bool {
        true
    }

    open spec fn from_spec(anchor: Point<U>) -> Self {
        Area::spec_new(anchor, (U::of_int(1), U::of_int(1)))
    }
}

/// The unit area anchored at the given coordinates.
impl<U: Coord> From<(U, U)> for Area<U> {
    fn from(anchor: (U, U)) -> (r: Self) {
        Self::unit().at(Point { x: anchor.0, y: anchor.1 })
    }
}

impl<U: Coord> FromSpecImpl<(U, U)> for Area<U> {
    open spec fn obeys_from_spec() -> bool {
        true
    }

    open spec fn from_spec(anchor: (U, U)) -> Self {
        Area::spec_new(Point { x: anchor.0, y: anchor.1 }, (U::of_int(1), U::of_int(1)))
    }
}

/// Two areas are equal when their anchors and their dimensions are.
impl<U: Coord> PartialEq for Area<U> {
    fn eq(&self, other: &Self) -> (r: bool) {
        proof {
            U::lemma_injective(self.dimensions.0, other.dimensions.0);
            U::lemma_injective(self.dimensions.1, other.dimensions.1);
        }
        self.anchor == other.anchor && self.dimensions.0.same(other.dimensions.0)
            && self.dimensions.1.same(other.dimensions.1)
    }
}

impl<U: Coord> PartialEqSpecImpl for Area<U> {
    open spec fn obeys_eq_spec() -> bool {
        true
    }

    open spec fn eq_spec(&self, other: &Self) -> bool {
        *self == *other
    }
}

/// The anchor and the dimensions of an area, as plain tuples.
impl<U: Coord> From<Area<U>> for ((U, U), (U, U)) {
    fn from(value: Area<U>) -> (r: Self) {
        value.inner()
    }
}

impl<U: Coord> FromSpecImpl<Area<U>> for ((U, U), (U, U)) {
    open spec fn obeys_from_spec() -> bool {
        true
    }

    open spec fn from_spec(v: Area<U>) -> Self {
        ((v.spec_anchor().x, v.spec_anchor().y), v.spec_dims())
    }
}

impl<U: Coord> Clone for Area<U> {
    fn clone(&self) -> (r: Self)
        ensures
            r == *self,
    {
        *self
    }
}

} // verus!
