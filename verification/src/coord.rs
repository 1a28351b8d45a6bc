use vstd::prelude::*;

verus! {

/// An integer type that can serve as a coordinate of the plane.
///
/// Every value stands for the mathematical integer `val()`, and all the
/// arithmetic a region needs is offered here with exact contracts.
pub trait Coord: Copy + Sized {
    /// The integer that this value stands for.
    spec fn val(self) -> int;

    /// The smallest integer the type can hold.
    spec fn min_val() -> int;

    /// The largest integer the type can hold.
    spec fn max_val() -> int;

    /// Every value lies between the bounds, which leave room for the small constants.
    proof fn lemma_range(self)
        ensures
            Self::min_val() <= self.val() <= Self::max_val(),
            Self::min_val() <= 0,
            127 <= Self::max_val(),
    ;

    /// Distinct values stand for distinct integers.
    proof fn lemma_injective(a: Self, b: Self)
        ensures
            a.val() == b.val() ==> a == b,
    ;

    /// The value of the type that stands for `v`, where there is one.
    spec fn of_int(v: int) -> Self;

    /// Every integer between the bounds has a value that stands for it.
    proof fn lemma_of_int(v: int)
        requires
            Self::min_val() <= v <= Self::max_val(),
        ensures
            Self::of_int(v).val() == v,
    ;

    /// The value 0.
    fn zero() -> (r: Self)
        ensures
            r.val() == 0,
    ;

    /// The value 1.
    fn one() -> (r: Self)
        ensures
            r.val() == 1,
    ;

    /// The largest value of the type.
    fn highest() -> (r: Self)
        ensures
            r.val() == Self::max_val(),
    ;

    /// The smallest value of the type.
    fn lowest() -> (r: Self)
        ensures
            r.val() == Self::min_val(),
    ;

    /// The sum, which must not overflow.
    fn plus(self, other: Self) -> (r: Self)
        requires
            Self::min_val() <= self.val() + other.val() <= Self::max_val(),
        ensures
            r.val() == self.val() + other.val(),
    ;

    /// The difference, which must not overflow.
    fn minus(self, other: Self) -> (r: Self)
        requires
            Self::min_val() <= self.val() - other.val() <= Self::max_val(),
        ensures
            r.val() == self.val() - other.val(),
    ;

    /// Half of a nonnegative value, rounded down.
    fn halved(self) -> (r: Self)
        requires
            0 <= self.val(),
        ensures
            r.val() == self.val() / 2,
    ;

    /// Whether `self < other`.
    fn less_than(self, other: Self) -> (b: bool)
        ensures
            b == (self.val() < other.val()),
    ;

    /// Whether `self <= other`.
    fn at_most(self, other: Self) -> (b: bool)
        ensures
            b == (self.val() <= other.val()),
    ;

    /// Whether `self == other`.
    fn same(self, other: Self) -> (b: bool)
        ensures
            b == (self.val() == other.val()),
    ;

    /// Whether the value is negative, and its distance from zero.
    fn sign_magnitude(self) -> (r: (bool, u128))
        ensures
            r.0 == (self.val() < 0),
            r.1 == (if self.val() < 0 { -self.val() } else { self.val() }),
    ;
}

impl Coord for i8 {
    open spec fn val(self) -> int {
        self as int
    }

    open spec fn of_int(v: int) -> Self {
        v as i8
    }

    proof fn lemma_of_int(v: int) {
    }

    open spec fn min_val() -> int {
        i8::MIN as int
    }

    open spec fn max_val() -> int {
        i8::MAX as int
    }

    proof fn lemma_range(self) {
    }

    proof fn lemma_injective(a: Self, b: Self) {
    }

    fn zero() -> (r: Self) {
        0
    }

    fn one() -> (r: Self) {
        1
    }

    fn highest() -> (r: Self) {
        i8::MAX
    }

    fn lowest() -> (r: Self) {
        i8::MIN
    }

    fn plus(self, other: Self) -> (r: Self) {
        self + other
    }

    fn minus(self, other: Self) -> (r: Self) {
        self - other
    }

    fn halved(self) -> (r: Self) {
        self / 2
    }

    fn less_than(self, other: Self) -> (b: bool) {
        self < other
    }

    fn at_most(self, other: Self) -> (b: bool) {
        self <= other
    }

    fn same(self, other: Self) -> (b: bool) {
        self == other
    }

    fn sign_magnitude(self) -> (r: (bool, u128)) {
        if self < 0 {
            let m = -(self + 1);
            (true, (m as u128) + 1)
        } else {
            (false, self as u128)
        }
    }
}

impl Coord for u8 {
    open spec fn val(self) -> int {
        self as int
    }

    open spec fn of_int(v: int) -> Self {
        v as u8
    }

    proof fn lemma_of_int(v: int) {
    }

    open spec fn min_val() -> int {
        u8::MIN as int
    }

    open spec fn max_val() -> int {
        u8::MAX as int
    }

    proof fn lemma_range(self) {
    }

    proof fn lemma_injective(a: Self, b: Self) {
    }

    fn zero() -> (r: Self) {
        0
    }

    fn one() -> (r: Self) {
        1
    }

    fn highest() -> (r: Self) {
        u8::MAX
    }

    fn lowest() -> (r: Self) {
        u8::MIN
    }

    fn plus(self, other: Self) -> (r: Self) {
        self + other
    }

    fn minus(self, other: Self) -> (r: Self) {
        self - other
    }

    fn halved(self) -> (r: Self) {
        self / 2
    }

    fn less_than(self, other: Self) -> (b: bool) {
        self < other
    }

    fn at_most(self, other: Self) -> (b: bool) {
        self <= other
    }

    fn same(self, other: Self) -> (b: bool) {
        self == other
    }

    fn sign_magnitude(self) -> (r: (bool, u128)) {
        (false, self as u128)
    }
}

impl Coord for i16 {
    open spec fn val(self) -> int {
        self as int
    }

    open spec fn of_int(v: int) -> Self {
        v as i16
    }

    proof fn lemma_of_int(v: int) {
    }

    open spec fn min_val() -> int {
        i16::MIN as int
    }

    open spec fn max_val() -> int {
        i16::MAX as int
    }

    proof fn lemma_range(self) {
    }

    proof fn lemma_injective(a: Self, b: Self) {
    }

    fn zero() -> (r: Self) {
        0
    }

    fn one() -> (r: Self) {
        1
    }

    fn highest() -> (r: Self) {
        i16::MAX
    }

    fn lowest() -> (r: Self) {
        i16::MIN
    }

    fn plus(self, other: Self) -> (r: Self) {
        self + other
    }

    fn minus(self, other: Self) -> (r: Self) {
        self - other
    }

    fn halved(self) -> (r: Self) {
        self / 2
    }

    fn less_than(self, other: Self) -> (b: bool) {
        self < other
    }

    fn at_most(self, other: Self) -> (b: bool) {
        self <= other
    }

    fn same(self, other: Self) -> (b: bool) {
        self == other
    }

    fn sign_magnitude(self) -> (r: (bool, u128)) {
        if self < 0 {
            let m = -(self + 1);
            (true, (m as u128) + 1)
        } else {
            (false, self as u128)
        }
    }
}

impl Coord for u16 {
    open spec fn val(self) -> int {
        self as int
    }

    open spec fn of_int(v: int) -> Self {
        v as u16
    }

    proof fn lemma_of_int(v: int) {
    }

    open spec fn min_val() -> int {
        u16::MIN as int
    }

    open spec fn max_val() -> int {
        u16::MAX as int
    }

    proof fn lemma_range(self) {
    }

    proof fn lemma_injective(a: Self, b: Self) {
    }

    fn zero() -> (r: Self) {
        0
    }

    fn one() -> (r: Self) {
        1
    }

    fn highest() -> (r: Self) {
        u16::MAX
    }

    fn lowest() -> (r: Self) {
        u16::MIN
    }

    fn plus(self, other: Self) -> (r: Self) {
        self + other
    }

    fn minus(self, other: Self) -> (r: Self) {
        self - other
    }

    fn halved(self) -> (r: Self) {
        self / 2
    }

    fn less_than(self, other: Self) -> (b: bool) {
        self < other
    }

    fn at_most(self, other: Self) -> (b: bool) {
        self <= other
    }

    fn same(self, other: Self) -> (b: bool) {
        self == other
    }

    fn sign_magnitude(self) -> (r: (bool, u128)) {
        (false, self as u128)
    }
}

impl Coord for i32 {
    open spec fn val(self) -> int {
        self as int
    }

    open spec fn of_int(v: int) -> Self {
        v as i32
    }

    proof fn lemma_of_int(v: int) {
    }

    open spec fn min_val() -> int {
        i32::MIN as int
    }

    open spec fn max_val() -> int {
        i32::MAX as int
    }

    proof fn lemma_range(self) {
    }

    proof fn lemma_injective(a: Self, b: Self) {
    }

    fn zero() -> (r: Self) {
        0
    }

    fn one() -> (r: Self) {
        1
    }

    fn highest() -> (r: Self) {
        i32::MAX
    }

    fn lowest() -> (r: Self) {
        i32::MIN
    }

    fn plus(self, other: Self) -> (r: Self) {
        self + other
    }

    fn minus(self, other: Self) -> (r: Self) {
        self - other
    }

    fn halved(self) -> (r: Self) {
        self / 2
    }

    fn less_than(self, other: Self) -> (b: bool) {
        self < other
    }

    fn at_most(self, other: Self) -> (b: bool) {
        self <= other
    }

    fn same(self, other: Self) -> (b: bool) {
        self == other
    }

    fn sign_magnitude(self) -> (r: (bool, u128)) {
        if self < 0 {
            let m = -(self + 1);
            (true, (m as u128) + 1)
        } else {
            (false, self as u128)
        }
    }
}

impl Coord for u32 {
    open spec fn val(self) -> int {
        self as int
    }

    open spec fn of_int(v: int) -> Self {
        v as u32
    }

    proof fn lemma_of_int(v: int) {
    }

    open spec fn min_val() -> int {
        u32::MIN as int
    }

    open spec fn max_val() -> int {
        u32::MAX as int
    }

    proof fn lemma_range(self) {
    }

    proof fn lemma_injective(a: Self, b: Self) {
    }

    fn zero() -> (r: Self) {
        0
    }

    fn one() -> (r: Self) {
        1
    }

    fn highest() -> (r: Self) {
        u32::MAX
    }

    fn lowest() -> (r: Self) {
        u32::MIN
    }

    fn plus(self, other: Self) -> (r: Self) {
        self + other
    }

    fn minus(self, other: Self) -> (r: Self) {
        self - other
    }

    fn halved(self) -> (r: Self) {
        self / 2
    }

    fn less_than(self, other: Self) -> (b: bool) {
        self < other
    }

    fn at_most(self, other: Self) -> (b: bool) {
        self <= other
    }

    fn same(self, other: Self) -> (b: bool) {
        self == other
    }

    fn sign_magnitude(self) -> (r: (bool, u128)) {
        (false, self as u128)
    }
}

impl Coord for i64 {
    open spec fn val(self) -> int {
        self as int
    }

    open spec fn of_int(v: int) -> Self {
        v as i64
    }

    proof fn lemma_of_int(v: int) {
    }

    open spec fn min_val() -> int {
        i64::MIN as int
    }

    open spec fn max_val() -> int {
        i64::MAX as int
    }

    proof fn lemma_range(self) {
    }

    proof fn lemma_injective(a: Self, b: Self) {
    }

    fn zero() -> (r: Self) {
        0
    }

    fn one() -> (r: Self) {
        1
    }

    fn highest() -> (r: Self) {
        i64::MAX
    }

    fn lowest() -> (r: Self) {
        i64::MIN
    }

    fn plus(self, other: Self) -> (r: Self) {
        self + other
    }

    fn minus(self, other: Self) -> (r: Self) {
        self - other
    }

    fn halved(self) -> (r: Self) {
        self / 2
    }

    fn less_than(self, other: Self) -> (b: bool) {
        self < other
    }

    fn at_most(self, other: Self) -> (b: bool) {
        self <= other
    }

    fn same(self, other: Self) -> (b: bool) {
        self == other
    }

    fn sign_magnitude(self) -> (r: (bool, u128)) {
        if self < 0 {
            let m = -(self + 1);
            (true, (m as u128) + 1)
        } else {
            (false, self as u128)
        }
    }
}

impl Coord for u64 {
    open spec fn val(self) -> int {
        self as int
    }

    open spec fn of_int(v: int) -> Self {
        v as u64
    }

    proof fn lemma_of_int(v: int) {
    }

    open spec fn min_val() -> int {
        u64::MIN as int
    }

    open spec fn max_val() -> int {
        u64::MAX as int
    }

    proof fn lemma_range(self) {
    }

    proof fn lemma_injective(a: Self, b: Self) {
    }

    fn zero() -> (r: Self) {
        0
    }

    fn one() -> (r: Self) {
        1
    }

    fn highest() -> (r: Self) {
        u64::MAX
    }

    fn lowest() -> (r: Self) {
        u64::MIN
    }

    fn plus(self, other: Self) -> (r: Self) {
        self + other
    }

    fn minus(self, other: Self) -> (r: Self) {
        self - other
    }

    fn halved(self) -> (r: Self) {
        self / 2
    }

    fn less_than(self, other: Self) -> (b: bool) {
        self < other
    }

    fn at_most(self, other: Self) -> (b: bool) {
        self <= other
    }

    fn same(self, other: Self) -> (b: bool) {
        self == other
    }

    fn sign_magnitude(self) -> (r: (bool, u128)) {
        (false, self as u128)
    }
}

impl Coord for i128 {
    open spec fn val(self) -> int {
        self as int
    }

    open spec fn of_int(v: int) -> Self {
        v as i128
    }

    proof fn lemma_of_int(v: int) {
    }

    open spec fn min_val() -> int {
        i128::MIN as int
    }

    open spec fn max_val() -> int {
        i128::MAX as int
    }

    proof fn lemma_range(self) {
    }

    proof fn lemma_injective(a: Self, b: Self) {
    }

    fn zero() -> (r: Self) {
        0
    }

    fn one() -> (r: Self) {
        1
    }

    fn highest() -> (r: Self) {
        i128::MAX
    }

    fn lowest() -> (r: Self) {
        i128::MIN
    }

    fn plus(self, other: Self) -> (r: Self) {
        self + other
    }

    fn minus(self, other: Self) -> (r: Self) {
        self - other
    }

    fn halved(self) -> (r: Self) {
        self / 2
    }

    fn less_than(self, other: Self) -> (b: bool) {
        self < other
    }

    fn at_most(self, other: Self) -> (b: bool) {
        self <= other
    }

    fn same(self, other: Self) -> (b: bool) {
        self == other
    }

    fn sign_magnitude(self) -> (r: (bool, u128)) {
        if self < 0 {
            let m = -(self + 1);
            (true, (m as u128) + 1)
        } else {
            (false, self as u128)
        }
    }
}

impl Coord for u128 {
    open spec fn val(self) -> int {
        self as int
    }

    open spec fn of_int(v: int) -> Self {
        v as u128
    }

    proof fn lemma_of_int(v: int) {
    }

    open spec fn min_val() -> int {
        u128::MIN as int
    }

    open spec fn max_val() -> int {
        u128::MAX as int
    }

    proof fn lemma_range(self) {
    }

    proof fn lemma_injective(a: Self, b: Self) {
    }

    fn zero() -> (r: Self) {
        0
    }

    fn one() -> (r: Self) {
        1
    }

    fn highest() -> (r: Self) {
        u128::MAX
    }

    fn lowest() -> (r: Self) {
        u128::MIN
    }

    fn plus(self, other: Self) -> (r: Self) {
        self + other
    }

    fn minus(self, other: Self) -> (r: Self) {
        self - other
    }

    fn halved(self) -> (r: Self) {
        self / 2
    }

    fn less_than(self, other: Self) -> (b: bool) {
        self < other
    }

    fn at_most(self, other: Self) -> (b: bool) {
        self <= other
    }

    fn same(self, other: Self) -> (b: bool) {
        self == other
    }

    fn sign_magnitude(self) -> (r: (bool, u128)) {
        (false, self as u128)
    }
}

impl Coord for isize {
    open spec fn val(self) -> int {
        self as int
    }

    open spec fn of_int(v: int) -> Self {
        v as isize
    }

    proof fn lemma_of_int(v: int) {
    }

    open spec fn min_val() -> int {
        isize::MIN as int
    }

    open spec fn max_val() -> int {
        isize::MAX as int
    }

    proof fn lemma_range(self) {
    }

    proof fn lemma_injective(a: Self, b: Self) {
    }

    fn zero() -> (r: Self) {
        0
    }

    fn one() -> (r: Self) {
        1
    }

    fn highest() -> (r: Self) {
        isize::MAX
    }

    fn lowest() -> (r: Self) {
        isize::MIN
    }

    fn plus(self, other: Self) -> (r: Self) {
        self + other
    }

    fn minus(self, other: Self) -> (r: Self) {
        self - other
    }

    fn halved(self) -> (r: Self) {
        self / 2
    }

    fn less_than(self, other: Self) -> (b: bool) {
        self < other
    }

    fn at_most(self, other: Self) -> (b: bool) {
        self <= other
    }

    fn same(self, other: Self) -> (b: bool) {
        self == other
    }

    fn sign_magnitude(self) -> (r: (bool, u128)) {
        if self < 0 {
            let m = -(self + 1);
            (true, (m as u128) + 1)
        } else {
            (false, self as u128)
        }
    }
}

impl Coord for usize {
    open spec fn val(self) -> int {
        self as int
    }

    open spec fn of_int(v: int) -> Self {
        v as usize
    }

    proof fn lemma_of_int(v: int) {
    }

    open spec fn min_val() -> int {
        usize::MIN as int
    }

    open spec fn max_val() -> int {
        usize::MAX as int
    }

    proof fn lemma_range(self) {
    }

    proof fn lemma_injective(a: Self, b: Self) {
    }

    fn zero() -> (r: Self) {
        0
    }

    fn one() -> (r: Self) {
        1
    }

    fn highest() -> (r: Self) {
        usize::MAX
    }

    fn lowest() -> (r: Self) {
        usize::MIN
    }

    fn plus(self, other: Self) -> (r: Self) {
        self + other
    }

    fn minus(self, other: Self) -> (r: Self) {
        self - other
    }

    fn halved(self) -> (r: Self) {
        self / 2
    }

    fn less_than(self, other: Self) -> (b: bool) {
        self < other
    }

    fn at_most(self, other: Self) -> (b: bool) {
        self <= other
    }

    fn same(self, other: Self) -> (b: bool) {
        self == other
    }

    fn sign_magnitude(self) -> (r: (bool, u128)) {
        (false, self as u128)
    }
}

/// `v` brought into the range of `U` by saturation.
pub open spec fn clamp<U: Coord>(v: int) -> int {
    if v > U::max_val() {
        U::max_val()
    } else if v < U::min_val() {
        U::min_val()
    } else {
        v
    }
}

/// `a + b`, saturating at the bounds of `U` instead of overflowing.
pub fn saturating_plus<U: Coord>(a: U, b: U) -> (r: U)
    ensures
        r.val() == clamp::<U>(a.val() + b.val()),
{
    proof {
        a.lemma_range();
        b.lemma_range();
    }
    let zero = U::zero();
    if zero.at_most(b) {
        let room = U::highest().minus(b);
        if a.at_most(room) {
            a.plus(b)
        } else {
            U::highest()
        }
    } else {
        let room = U::lowest().minus(b);
        if room.at_most(a) {
            a.plus(b)
        } else {
            U::lowest()
        }
    }
}

/// `a - b`, saturating at the bounds of `U` instead of overflowing.
pub fn saturating_minus<U: Coord>(a: U, b: U) -> (r: U)
    ensures
        r.val() == clamp::<U>(a.val() - b.val()),
{
    proof {
        a.lemma_range();
        b.lemma_range();
    }
    let zero = U::zero();
    if zero.at_most(b) {
        let floor = U::lowest().plus(b);
        if floor.at_most(a) {
            a.minus(b)
        } else {
            U::lowest()
        }
    } else {
        let ceiling = U::highest().plus(b);
        if a.at_most(ceiling) {
            a.minus(b)
        } else {
            U::highest()
        }
    }
}

} // verus!
