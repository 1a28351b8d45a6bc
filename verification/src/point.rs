//! A point region in the tree.
use vstd::prelude::*;
use vstd::std_specs::convert::FromSpecImpl;
use vstd::std_specs::ops::{AddSpec, AddSpecImpl, SubSpec, SubSpecImpl};
use vstd::std_specs::cmp::PartialEqSpecImpl;
use vstd::string::StringExecFns;
use crate::coord::{Coord, clamp, saturating_plus, saturating_minus};
use crate::text::{decimal, push_coord};

verus! {

/// A type representing a point in space. Should be passed by value.
#[derive(Eq, Copy, Hash, Debug)]
pub struct Point<U: Coord> {
    /// The x-coordinate of the point.
    pub x: U,
    /// The y-coordinate of the point.
    pub y: U,
}

impl<U: Coord> Point<U> {
    /// The point as a pair of mathematical integers.
    pub open spec fn xy(self) -> (int, int) {
        (self.x.val(), self.y.val())
    }

    /// The x-coordinate of the point.
    pub fn x(&self) -> (r: U)
        ensures
            r == self.x,
    {
        self.x
    }

    /// The y-coordinate of the point.
    pub fn y(&self) -> (r: U)
        ensures
            r == self.y,
    {
        self.y
    }

    /// The point as text: its coordinates in decimal joined by `x`, as in `1x2`.
    pub open spec fn text(self) -> Seq<char> {
        decimal(self.x.val()) + seq!['x'] + decimal(self.y.val())
    }

    /// Appends the text of the point to `s`.
    pub(crate) fn push_text(&self, s: &mut String)
        ensures
            final(s)@ == old(s)@ + self.text(),
    {
        let ghost start = s@;
        push_coord(s, self.x);
        proof {
            reveal_strlit("x");
        }
        s.append("x");
        push_coord(s, self.y);
        proof {
            assert(s@ =~= start + self.text());
        }
    }

    /// The text of the point, as in `1x2`.
    pub fn to_text(&self) -> (s: String)
        ensures
            s@ == self.text(),
    {
        let mut s = String::new();
        self.push_text(&mut s);
        proof {
            assert(s@ =~= self.text());
        }
        s
    }
}

/// Adding points is commutative.
pub proof fn lemma_add_commutative<U: Coord>(a: Point<U>, b: Point<U>)
    ensures
        AddSpec::add_spec(a, b) == AddSpec::add_spec(b, a),
{
}

/// Adding the origin, or subtracting it, leaves a point as it is.
pub proof fn lemma_origin_is_neutral<U: Coord>(a: Point<U>, zero: Point<U>)
    requires
        zero.xy() == (0int, 0int),
    ensures
        AddSpec::add_spec(a, zero) == a,
        SubSpec::sub_spec(a, zero) == a,
{
    a.x.lemma_range();
    a.y.lemma_range();
    U::lemma_of_int(a.x.val());
    U::lemma_of_int(a.y.val());
    U::lemma_injective(a.x, U::of_int(a.x.val()));
    U::lemma_injective(a.y, U::of_int(a.y.val()));
}

/// A point minus itself is the origin.
pub proof fn lemma_sub_self<U: Coord>(a: Point<U>)
    ensures
        SubSpec::sub_spec(a, a).xy() == (0int, 0int),
{
    a.x.lemma_range();
    U::lemma_of_int(0);
}

proof fn lemma_saturated_is_of_int<U: Coord>(r: U, v: int)
    requires
        r.val() == clamp::<U>(v),
    ensures
        r == U::of_int(clamp::<U>(v)),
{
    r.lemma_range();
    U::lemma_of_int(clamp::<U>(v));
    U::lemma_injective(r, U::of_int(clamp::<U>(v)));
}

impl<U: Coord> From<(U, U)> for Point<U> {
    fn from(value: (U, U)) -> (r: Self) {
        Point { x: value.0, y: value.1 }
    }
}

impl<U: Coord> FromSpecImpl<(U, U)> for Point<U> {
    open spec fn obeys_from_spec() -> bool {
        true
    }

    open spec fn from_spec(v: (U, U)) -> Self {
        Point { x: v.0, y: v.1 }
    }
}

impl<U: Coord> From<&(U, U)> for Point<U> {
    fn from(value: &(U, U)) -> (r: Self) {
        Point { x: value.0, y: value.1 }
    }
}

impl<U: Coord> FromSpecImpl<&(U, U)> for Point<U> {
    open spec fn obeys_from_spec() -> bool {
        true
    }

    open spec fn from_spec(v: &(U, U)) -> Self {
        Point { x: v.0, y: v.1 }
    }
}

impl<U: Coord> From<Point<U>> for (U, U) {
    fn from(value: Point<U>) -> (r: Self) {
        (value.x, value.y)
    }
}

impl<U: Coord> FromSpecImpl<Point<U>> for (U, U) {
    open spec fn obeys_from_spec() -> bool {
        true
    }

    open spec fn from_spec(v: Point<U>) -> Self {
        (v.x, v.y)
    }
}

/// Componentwise sum of two points, saturating at the bounds of `U`.
impl<U: Coord> core::ops::Add for Point<U> {
    type Output = Self;

    fn add(self, other: Self) -> (r: Self) {
        let x = saturating_plus(self.x, other.x);
        let y = saturating_plus(self.y, other.y);
        proof { lemma_saturated_is_of_int(x, self.x.val() + other.x.val()); lemma_saturated_is_of_int(y, self.y.val() + other.y.val()); }
        Point { x, y }
    }
}

impl<U: Coord> AddSpecImpl for Point<U> {
    open spec fn obeys_add_spec() -> bool {
        true
    }

    open spec fn add_req(self, rhs: Self) -> bool {
        true
    }

    open spec fn add_spec(self, rhs: Self) -> Self {
        Point {
            x: U::of_int(clamp::<U>(self.x.val() + rhs.x.val())),
            y: U::of_int(clamp::<U>(self.y.val() + rhs.y.val())),
        }
    }
}

/// Componentwise difference of two points, saturating at the bounds of `U`.
impl<U: Coord> core::ops::Sub for Point<U> {
    type Output = Self;

    fn sub(self, other: Self) -> (r: Self) {
        let x = saturating_minus(self.x, other.x);
        let y = saturating_minus(self.y, other.y);
        proof { lemma_saturated_is_of_int(x, self.x.val() - other.x.val()); lemma_saturated_is_of_int(y, self.y.val() - other.y.val()); }
        Point { x, y }
    }
}

impl<U: Coord> SubSpecImpl for Point<U> {
    open spec fn obeys_sub_spec() -> bool {
        true
    }

    open spec fn sub_req(self, rhs: Self) -> bool {
        true
    }

    open spec fn sub_spec(self, rhs: Self) -> Self {
        Point {
            x: U::of_int(clamp::<U>(self.x.val() - rhs.x.val())),
            y: U::of_int(clamp::<U>(self.y.val() - rhs.y.val())),
        }
    }
}

/// Two points are equal when both coordinates are.
impl<U: Coord> PartialEq for Point<U> {
    fn eq(&self, other: &Self) -> (r: bool) {
        proof {
            U::lemma_injective(self.x, other.x);
            U::lemma_injective(self.y, other.y);
        }
        self.x.same(other.x) && self.y.same(other.y)
    }
}

impl<U: Coord> PartialEqSpecImpl for Point<U> {
    open spec fn obeys_eq_spec() -> bool {
        true
    }

    open spec fn eq_spec(&self, other: &Self) -> bool {
        *self == *other
    }
}

impl<U: Coord> Clone for Point<U> {
    fn clone(&self) -> (r: Self)
        ensures
            r == *self,
    {
        *self
    }
}

} // verus!
