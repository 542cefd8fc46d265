//! Element types a gang lane can hold. [`Scalar`] is the common surface (ring-like arithmetic,
//! ordering, bit images); [`FloatScalar`] adds division, fused multiply-add and square root;
//! [`IntScalar`] adds shifts and bitwise operations. Each operation carries a `*_spec` function
//! stating its value, so kernels written against the trait are verified for every element type.

use vstd::prelude::*;

verus! {

/// A lane element. The `*_spec` functions give each operation's mathematical meaning for the
/// implementing type; the executable methods are proved (for the integer impls here) to compute it.
pub trait Scalar: Copy + Sized {
    spec fn zero_spec() -> Self;

    spec fn one_spec() -> Self;

    spec fn add_spec(self, o: Self) -> Self;

    spec fn sub_spec(self, o: Self) -> Self;

    spec fn mul_spec(self, o: Self) -> Self;

    spec fn neg_spec(self) -> Self;

    spec fn abs_spec(self) -> Self;

    spec fn min_spec(self, o: Self) -> Self;

    spec fn max_spec(self, o: Self) -> Self;

    spec fn le_spec(self, o: Self) -> bool;

    spec fn lt_spec(self, o: Self) -> bool;

    /// Numeric equality with zero (`-0.0` counts as zero for floats).
    spec fn is_zero_spec(self) -> bool;

    /// Numeric equality with one.
    spec fn is_one_spec(self) -> bool;

    spec fn to_bits_spec(self) -> u32;

    spec fn from_bits_spec(b: u32) -> Self;

    /// The element's width in bits.
    spec fn bit_width() -> u32;

    /// An element of at most 32 bits is read back exactly from its bit image.
    proof fn lemma_bits_round_trip(x: Self)
        requires
            Self::bit_width() <= 32,
        ensures
            Self::from_bits_spec(x.to_bits_spec()) == x,
    ;

    /// Zero and one are distinct, zero is numerically zero, and `0 < 1` but not `0 < 0`.
    proof fn lemma_zero_one()
        ensures
            Self::zero_spec().is_zero_spec(),
            !Self::one_spec().is_zero_spec(),
            Self::zero_spec().lt_spec(Self::one_spec()),
            !Self::zero_spec().lt_spec(Self::zero_spec()),
    ;

    fn zero() -> (r: Self)
        ensures
            r == Self::zero_spec(),
    ;

    fn one() -> (r: Self)
        ensures
            r == Self::one_spec(),
    ;

    /// Addition, wrapping for the integer elements.
    fn wadd(self, o: Self) -> (r: Self)
        ensures
            r == self.add_spec(o),
    ;

    /// Subtraction, wrapping for the integer elements.
    fn wsub(self, o: Self) -> (r: Self)
        ensures
            r == self.sub_spec(o),
    ;

    /// Multiplication, wrapping for the integer elements.
    fn wmul(self, o: Self) -> (r: Self)
        ensures
            r == self.mul_spec(o),
    ;

    fn neg(self) -> (r: Self)
        ensures
            r == self.neg_spec(),
    ;

    fn abs(self) -> (r: Self)
        ensures
            r == self.abs_spec(),
    ;

    /// Family-correct minimum: minimumNumber for floats, `Ord` for integers.
    fn min(self, o: Self) -> (r: Self)
        ensures
            r == self.min_spec(o),
    ;

    fn max(self, o: Self) -> (r: Self)
        ensures
            r == self.max_spec(o),
    ;

    fn le(self, o: Self) -> (r: bool)
        ensures
            r == self.le_spec(o),
    ;

    fn lt(self, o: Self) -> (r: bool)
        ensures
            r == self.lt_spec(o),
    ;

    fn is_zero(self) -> (r: bool)
        ensures
            r == self.is_zero_spec(),
    ;

    fn is_one(self) -> (r: bool)
        ensures
            r == self.is_one_spec(),
    ;

    /// The element's bit pattern as a `u32` (zero-extended for 16-bit, low half for 64-bit).
    fn to_bits32(self) -> (r: u32)
        ensures
            r == self.to_bits_spec(),
    ;

    fn from_bits32(b: u32) -> (r: Self)
        ensures
            r == Self::from_bits_spec(b),
    ;
}

/// Float-family elements.
pub trait FloatScalar: Scalar {
    spec fn div_spec(self, o: Self) -> Self;

    /// `self * b + c`, fused.
    spec fn fma_spec(self, b: Self, c: Self) -> Self;

    spec fn sqrt_spec(self) -> Self;

    /// `1 / self`, formed at the widest available precision.
    spec fn recip_spec(self) -> Self;

    fn div(self, o: Self) -> (r: Self)
        ensures
            r == self.div_spec(o),
    ;

    fn fma(self, b: Self, c: Self) -> (r: Self)
        ensures
            r == self.fma_spec(b, c),
    ;

    fn sqrt(self) -> (r: Self)
        ensures
            r == self.sqrt_spec(),
    ;

    fn recip(self) -> (r: Self)
        ensures
            r == self.recip_spec(),
    ;
}

/// Integer-family elements: 32-bit lanes with shifts and bitwise operations.
pub trait IntScalar: Scalar {
    spec fn shl_spec(self, k: u32) -> Self;

    spec fn shr_spec(self, k: u32) -> Self;

    spec fn and_spec(self, o: Self) -> Self;

    spec fn or_spec(self, o: Self) -> Self;

    spec fn xor_spec(self, o: Self) -> Self;

    spec fn not_spec(self) -> Self;

    /// Left shift by `k < 32`.
    fn unsigned_shl(self, k: u32) -> (r: Self)
        requires
            k < 32,
        ensures
            r == self.shl_spec(k),
    ;

    /// Right shift by `k < 32`: logical for unsigned, arithmetic for signed elements.
    fn shr(self, k: u32) -> (r: Self)
        requires
            k < 32,
        ensures
            r == self.shr_spec(k),
    ;

    fn bit_and(self, o: Self) -> (r: Self)
        ensures
            r == self.and_spec(o),
    ;

    fn bit_or(self, o: Self) -> (r: Self)
        ensures
            r == self.or_spec(o),
    ;

    fn bit_xor(self, o: Self) -> (r: Self)
        ensures
            r == self.xor_spec(o),
    ;

    fn bit_not(self) -> (r: Self)
        ensures
            r == self.not_spec(),
    ;
}

impl Scalar for u32 {
    open spec fn zero_spec() -> u32 {
        0
    }

    open spec fn one_spec() -> u32 {
        1
    }

    open spec fn add_spec(self, o: u32) -> u32 {
        vstd::wrapping::u32_specs::wrapping_add(self, o)
    }

    open spec fn sub_spec(self, o: u32) -> u32 {
        vstd::wrapping::u32_specs::wrapping_sub(self, o)
    }

    open spec fn mul_spec(self, o: u32) -> u32 {
        vstd::wrapping::u32_specs::wrapping_mul(self, o)
    }

    open spec fn neg_spec(self) -> u32 {
        vstd::wrapping::u32_specs::wrapping_sub(0, self)
    }

    open spec fn abs_spec(self) -> u32 {
        self
    }

    open spec fn min_spec(self, o: u32) -> u32 {
        if o < self {
            o
        } else {
            self
        }
    }

    open spec fn max_spec(self, o: u32) -> u32 {
        if o > self {
            o
        } else {
            self
        }
    }

    open spec fn le_spec(self, o: u32) -> bool {
        self <= o
    }

    open spec fn lt_spec(self, o: u32) -> bool {
        self < o
    }

    open spec fn is_zero_spec(self) -> bool {
        self == 0
    }

    open spec fn is_one_spec(self) -> bool {
        self == 1
    }

    open spec fn to_bits_spec(self) -> u32 {
        self
    }

    open spec fn from_bits_spec(b: u32) -> u32 {
        b
    }

    open spec fn bit_width() -> u32 {
        32
    }

    proof fn lemma_bits_round_trip(x: u32) {
    }

    proof fn lemma_zero_one() {
    }

    fn zero() -> u32 {
        0
    }

    fn one() -> u32 {
        1
    }

    fn wadd(self, o: u32) -> u32 {
        self.wrapping_add(o)
    }

    fn wsub(self, o: u32) -> u32 {
        self.wrapping_sub(o)
    }

    fn wmul(self, o: u32) -> u32 {
        self.wrapping_mul(o)
    }

    fn neg(self) -> u32 {
        0u32.wrapping_sub(self)
    }

    fn abs(self) -> u32 {
        self
    }

    fn min(self, o: u32) -> u32 {
        if o < self {
            o
        } else {
            self
        }
    }

    fn max(self, o: u32) -> u32 {
        if o > self {
            o
        } else {
            self
        }
    }

    fn le(self, o: u32) -> bool {
        self <= o
    }

    fn lt(self, o: u32) -> bool {
        self < o
    }

    fn is_zero(self) -> bool {
        self == 0
    }

    fn is_one(self) -> bool {
        self == 1
    }

    fn to_bits32(self) -> u32 {
        self
    }

    fn from_bits32(b: u32) -> u32 {
        b
    }
}

impl IntScalar for u32 {
    open spec fn shl_spec(self, k: u32) -> u32 {
        self << k
    }

    open spec fn shr_spec(self, k: u32) -> u32 {
        self >> k
    }

    open spec fn and_spec(self, o: u32) -> u32 {
        self & o
    }

    open spec fn or_spec(self, o: u32) -> u32 {
        self | o
    }

    open spec fn xor_spec(self, o: u32) -> u32 {
        self ^ o
    }

    open spec fn not_spec(self) -> u32 {
        !self
    }

    fn unsigned_shl(self, k: u32) -> u32 {
        self << k
    }

    fn shr(self, k: u32) -> u32 {
        self >> k
    }

    fn bit_and(self, o: u32) -> u32 {
        self & o
    }

    fn bit_or(self, o: u32) -> u32 {
        self | o
    }

    fn bit_xor(self, o: u32) -> u32 {
        self ^ o
    }

    fn bit_not(self) -> u32 {
        !self
    }
}

impl Scalar for i32 {
    open spec fn zero_spec() -> i32 {
        0
    }

    open spec fn one_spec() -> i32 {
        1
    }

    open spec fn add_spec(self, o: i32) -> i32 {
        vstd::wrapping::i32_specs::wrapping_add(self, o)
    }

    open spec fn sub_spec(self, o: i32) -> i32 {
        vstd::wrapping::i32_specs::wrapping_sub(self, o)
    }

    open spec fn mul_spec(self, o: i32) -> i32 {
        vstd::wrapping::i32_specs::wrapping_mul(self, o)
    }

    open spec fn neg_spec(self) -> i32 {
        vstd::wrapping::i32_specs::wrapping_sub(0, self)
    }

    open spec fn abs_spec(self) -> i32 {
        if self < 0 {
            vstd::wrapping::i32_specs::wrapping_sub(0, self)
        } else {
            self
        }
    }

    open spec fn min_spec(self, o: i32) -> i32 {
        if o < self {
            o
        } else {
            self
        }
    }

    open spec fn max_spec(self, o: i32) -> i32 {
        if o > self {
            o
        } else {
            self
        }
    }

    open spec fn le_spec(self, o: i32) -> bool {
        self <= o
    }

    open spec fn lt_spec(self, o: i32) -> bool {
        self < o
    }

    open spec fn is_zero_spec(self) -> bool {
        self == 0
    }

    open spec fn is_one_spec(self) -> bool {
        self == 1
    }

    open spec fn to_bits_spec(self) -> u32 {
        self as u32
    }

    open spec fn from_bits_spec(b: u32) -> i32 {
        b as i32
    }

    open spec fn bit_width() -> u32 {
        32
    }

    proof fn lemma_bits_round_trip(x: i32) {
        assert((x as u32) as i32 == x) by (bit_vector);
    }

    proof fn lemma_zero_one() {
    }

    fn zero() -> i32 {
        0
    }

    fn one() -> i32 {
        1
    }

    fn wadd(self, o: i32) -> i32 {
        self.wrapping_add(o)
    }

    fn wsub(self, o: i32) -> i32 {
        self.wrapping_sub(o)
    }

    fn wmul(self, o: i32) -> i32 {
        self.wrapping_mul(o)
    }

    fn neg(self) -> i32 {
        0i32.wrapping_sub(self)
    }

    fn abs(self) -> i32 {
        if self < 0 {
            0i32.wrapping_sub(self)
        } else {
            self
        }
    }

    fn min(self, o: i32) -> i32 {
        if o < self {
            o
        } else {
            self
        }
    }

    fn max(self, o: i32) -> i32 {
        if o > self {
            o
        } else {
            self
        }
    }

    fn le(self, o: i32) -> bool {
        self <= o
    }

    fn lt(self, o: i32) -> bool {
        self < o
    }

    fn is_zero(self) -> bool {
        self == 0
    }

    fn is_one(self) -> bool {
        self == 1
    }

    fn to_bits32(self) -> u32 {
        self as u32
    }

    fn from_bits32(b: u32) -> i32 {
        b as i32
    }
}

impl IntScalar for i32 {
    open spec fn shl_spec(self, k: u32) -> i32 {
        ((self as u32) << k) as i32
    }

    open spec fn shr_spec(self, k: u32) -> i32 {
        self >> k
    }

    open spec fn and_spec(self, o: i32) -> i32 {
        self & o
    }

    open spec fn or_spec(self, o: i32) -> i32 {
        self | o
    }

    open spec fn xor_spec(self, o: i32) -> i32 {
        self ^ o
    }

    open spec fn not_spec(self) -> i32 {
        !self
    }

    fn unsigned_shl(self, k: u32) -> i32 {
        ((self as u32) << k) as i32
    }

    fn shr(self, k: u32) -> i32 {
        self >> k
    }

    fn bit_and(self, o: i32) -> i32 {
        self & o
    }

    fn bit_or(self, o: i32) -> i32 {
        self | o
    }

    fn bit_xor(self, o: i32) -> i32 {
        self ^ o
    }

    fn bit_not(self) -> i32 {
        !self
    }
}

/// `n` copies of `v`.
pub fn filled<T: Copy>(v: T, n: usize) -> (r: Vec<T>)
    ensures
        r@ == Seq::new(n as nat, |i: int| v),
{
    let mut r: Vec<T> = Vec::new();
    let mut i: usize = 0;
    while i < n
        invariant
            i <= n,
            r@ == Seq::new(i as nat, |k: int| v),
        decreases n - i,
    {
        r.push(v);
        i += 1;
        proof {
            assert(r@ =~= Seq::new(i as nat, |k: int| v));
        }
    }
    r
}

/// Wrapping `u32` addition.
pub open spec fn wadd32(x: u32, y: u32) -> u32 {
    vstd::wrapping::u32_specs::wrapping_add(x, y)
}

/// Wrapping `u32` subtraction.
pub open spec fn wsub32(x: u32, y: u32) -> u32 {
    vstd::wrapping::u32_specs::wrapping_sub(x, y)
}

/// Wrapping `u32` multiplication.
pub open spec fn wmul32(x: u32, y: u32) -> u32 {
    vstd::wrapping::u32_specs::wrapping_mul(x, y)
}

/// The `i32` reading of a `u32` bit pattern.
pub open spec fn signed(x: u32) -> i32 {
    x as i32
}

/// Signed `<` on two `u32` bit patterns.
pub fn signed_lt(x: u32, y: u32) -> (r: bool)
    ensures
        r == (signed(x) < signed(y)),
{
    (x as i32) < (y as i32)
}

/// Left fold of `add_spec` over a lane sequence: the value a horizontal sum reduces to.
pub open spec fn fold_add<T: Scalar>(s: Seq<T>) -> T
    decreases s.len(),
{
    if s.len() == 0 {
        T::zero_spec()
    } else if s.len() == 1 {
        s[0]
    } else {
        fold_add(s.drop_last()).add_spec(s.last())
    }
}

/// Left fold of `min_spec` over a non-empty lane sequence.
pub open spec fn fold_min<T: Scalar>(s: Seq<T>) -> T
    decreases s.len(),
{
    if s.len() <= 1 {
        s[0]
    } else {
        fold_min(s.drop_last()).min_spec(s.last())
    }
}

/// Left fold of `max_spec` over a non-empty lane sequence.
pub open spec fn fold_max<T: Scalar>(s: Seq<T>) -> T
    decreases s.len(),
{
    if s.len() <= 1 {
        s[0]
    } else {
        fold_max(s.drop_last()).max_spec(s.last())
    }
}

} // verus!
