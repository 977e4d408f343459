//! Algebraic capabilities that element types provide.
use vstd::prelude::*;

verus! {

/// An additive group: a zero, a negation and a closed addition.
pub trait Group: Sized + Copy {
    spec fn zero_spec() -> Self;

    spec fn add_spec(a: Self, b: Self) -> Self;

    spec fn minus_spec(a: Self) -> Self;

    fn zero() -> (r: Self)
        ensures
            r == Self::zero_spec(),
    ;

    fn plus(&self, other: &Self) -> (r: Self)
        ensures
            r == Self::add_spec(*self, *other),
    ;

    fn minus(&self) -> (r: Self)
        ensures
            r == Self::minus_spec(*self),
    ;

    /// Zero is an identity for addition and `minus` gives the additive inverse.
    proof fn lemma_group_laws(x: Self)
        ensures
            Self::add_spec(x, Self::zero_spec()) == x,
            Self::add_spec(Self::zero_spec(), x) == x,
            Self::add_spec(x, Self::minus_spec(x)) == Self::zero_spec(),
    ;
}

/// A ring: a group with a neutral element, a closed multiplication, and an
/// inverse for the elements that have one.
pub trait Ring: Group {
    spec fn neutral_spec() -> Self;

    spec fn mul_spec(a: Self, b: Self) -> Self;

    /// The multiplicative inverse, if the element has one that the type
    /// computes.
    spec fn inverse_spec(a: Self) -> Option<Self>;

    fn neutral() -> (r: Self)
        ensures
            r == Self::neutral_spec(),
    ;

    fn times(&self, other: &Self) -> (r: Self)
        ensures
            r == Self::mul_spec(*self, *other),
    ;

    fn inverse(&self) -> (r: Option<Self>)
        ensures
            r == Self::inverse_spec(*self),
    ;

    /// The neutral element is an identity for multiplication and zero
    /// absorbs it.
    proof fn lemma_ring_laws(x: Self)
        ensures
            Self::mul_spec(x, Self::neutral_spec()) == x,
            Self::mul_spec(Self::neutral_spec(), x) == x,
            Self::mul_spec(x, Self::zero_spec()) == Self::zero_spec(),
            Self::mul_spec(Self::zero_spec(), x) == Self::zero_spec(),
    ;
}

/// Integers modulo 2^64.
impl Group for i64 {
    open spec fn zero_spec() -> i64 {
        0
    }

    open spec fn add_spec(a: i64, b: i64) -> i64 {
        vstd::wrapping::i64_specs::wrapping_add(a, b)
    }

    open spec fn minus_spec(a: i64) -> i64 {
        vstd::wrapping::i64_specs::wrapping_sub(0, a)
    }

    fn zero() -> (r: i64) {
        0
    }

    fn plus(&self, other: &i64) -> (r: i64) {
        self.wrapping_add(*other)
    }

    fn minus(&self) -> (r: i64) {
        0i64.wrapping_sub(*self)
    }

    proof fn lemma_group_laws(x: i64) {
    }
}

/// Integers modulo 2^64. The inverse of a unit (1 or -1) is itself; other
/// values have none.
impl Ring for i64 {
    open spec fn neutral_spec() -> i64 {
        1
    }

    open spec fn mul_spec(a: i64, b: i64) -> i64 {
        vstd::wrapping::i64_specs::wrapping_mul(a, b)
    }

    open spec fn inverse_spec(a: i64) -> Option<i64> {
        if a == 1 || a == -1 {
            Some(a)
        } else {
            None
        }
    }

    fn neutral() -> (r: i64) {
        1
    }

    fn times(&self, other: &i64) -> (r: i64) {
        self.wrapping_mul(*other)
    }

    fn inverse(&self) -> (r: Option<i64>) {
        if *self == 1 || *self == -1 {
            Some(*self)
        } else {
            None
        }
    }

    proof fn lemma_ring_laws(x: i64) {
        assert(x * 1 == x && 1 * x == x && x * 0 == 0 && 0 * x == 0);
    }
}

/// A commutative ring with a total order, as the elements of expressions
/// need: the order canonicalises sums and products, and equality is the
/// order's zero.
pub trait OrderedRing: Ring {
    /// Sign of the comparison of `a` with `b`: -1, 0 or 1.
    spec fn cmp_spec(a: Self, b: Self) -> int;

    fn compare(&self, other: &Self) -> (r: i8)
        ensures
            r as int == Self::cmp_spec(*self, *other),
    ;

    /// The comparison is a strict total order whose zero is equality.
    proof fn lemma_order_laws(a: Self, b: Self, c: Self)
        ensures
            Self::cmp_spec(a, b) == -Self::cmp_spec(b, a),
            Self::cmp_spec(a, b) == 0 ==> a == b,
            Self::cmp_spec(a, b) < 0 && Self::cmp_spec(b, c) < 0 ==> Self::cmp_spec(a, c) < 0,
    ;

    /// Addition is associative and commutative.
    proof fn lemma_addition_laws(a: Self, b: Self, c: Self)
        ensures
            Self::add_spec(Self::add_spec(a, b), c) == Self::add_spec(a, Self::add_spec(b, c)),
            Self::add_spec(a, b) == Self::add_spec(b, a),
    ;

    /// Multiplication is associative and commutative.
    proof fn lemma_multiplication_laws(a: Self, b: Self, c: Self)
        ensures
            Self::mul_spec(Self::mul_spec(a, b), c) == Self::mul_spec(a, Self::mul_spec(b, c)),
            Self::mul_spec(a, b) == Self::mul_spec(b, a),
    ;
}

/// Cropping to 64 bits keeps the remainder modulo 2^64.
proof fn lemma_crop_congruent(x: int)
    ensures
        (vstd::wrapping::i64_specs::signed_crop(x) as int) % 0x1_0000_0000_0000_0000int == x
            % 0x1_0000_0000_0000_0000int,
{
    let m = 0x1_0000_0000_0000_0000int;
    let r = x % m;
    vstd::arithmetic::div_mod::lemma_small_mod(r as nat, m as nat);
    if r > i64::MAX {
        vstd::arithmetic::div_mod::lemma_mod_add_multiples_vanish(r - m, m);
    }
}

/// Integers modulo 2^64, in their usual order.
impl OrderedRing for i64 {
    open spec fn cmp_spec(a: i64, b: i64) -> int {
        if a < b {
            -1
        } else if a == b {
            0
        } else {
            1
        }
    }

    fn compare(&self, other: &i64) -> (r: i8) {
        if *self < *other {
            -1
        } else if *self == *other {
            0
        } else {
            1
        }
    }

    proof fn lemma_order_laws(a: i64, b: i64, c: i64) {
    }

    proof fn lemma_addition_laws(a: i64, b: i64, c: i64) {
    }

    proof fn lemma_multiplication_laws(a: i64, b: i64, c: i64) {
        let m = 0x1_0000_0000_0000_0000int;
        let p = <i64 as Ring>::mul_spec(a, b);
        let q = <i64 as Ring>::mul_spec(b, c);
        lemma_crop_congruent(a * b);
        lemma_crop_congruent(b * c);
        vstd::arithmetic::div_mod::lemma_mul_mod_noop_left(p as int, c as int, m);
        vstd::arithmetic::div_mod::lemma_mul_mod_noop_left(a * b, c as int, m);
        vstd::arithmetic::div_mod::lemma_mul_mod_noop_right(a as int, q as int, m);
        vstd::arithmetic::div_mod::lemma_mul_mod_noop_right(a as int, b * c, m);
        vstd::arithmetic::mul::lemma_mul_is_associative(a as int, b as int, c as int);
        vstd::arithmetic::mul::lemma_mul_is_commutative(a as int, b as int);
        assert((p * c) % m == (a * q) % m);
    }
}

} // verus!
