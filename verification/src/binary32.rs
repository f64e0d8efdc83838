//! Single-precision numbers held as their bit patterns.
//!
//! A [`Binary32`] is the 32-bit interchange format of IEEE 754. What the rest
//! of the library asks of such a number is decided here, on integers: how two
//! of them compare, how an integer becomes one, and what whole part one has.
//! Arithmetic is not done here; see [`crate::arith`].

use vstd::arithmetic::div_mod::*;
use vstd::arithmetic::power2::*;
use vstd::prelude::*;

verus! {

/// The bit pattern of a single-precision number.
///
/// `==` compares bit patterns. For the comparison of the numbers, in which the
/// two zeros are equal and a NaN equals nothing, see [`Binary32::same_number`].
#[derive(Clone, Copy, Debug, PartialEq, Eq, Structural)]
pub struct Binary32 {
    pub bits: u32,
}

/// The size of the number whose exponent and fraction fields are `k`, counted
/// in units of 2^-149, the smallest positive number of the format.
///
/// The pattern of infinity, the largest that is no NaN, comes out as 2^128.
pub open spec fn magnitude(k: int) -> int {
    let exponent = k / 0x80_0000;
    let fraction = k % 0x80_0000;
    if exponent == 0 {
        fraction
    } else {
        (0x80_0000 + fraction) * pow2((exponent - 1) as nat)
    }
}

/// The exponent and fraction fields of infinity.
pub open spec fn infinity() -> int {
    0x7f80_0000
}

/// The number at rank `k`: rank 0 is zero, rank 1 the smallest positive number,
/// rank -1 the negative number next to zero, and so on.
pub open spec fn value_at(k: int) -> int {
    if k < 0 {
        -magnitude(-k)
    } else {
        magnitude(k)
    }
}

/// The pattern at rank `k`.
pub open spec fn at_rank(k: int) -> Binary32 {
    Binary32 { bits: (if k < 0 { 0x8000_0000 - k } else { k }) as u32 }
}

pub open spec fn distance(x: int, y: int) -> int {
    if x < y {
        y - x
    } else {
        x - y
    }
}

impl Binary32 {
    pub open spec fn negative(self) -> bool {
        self.bits >= 0x8000_0000
    }

    /// The exponent and fraction fields.
    pub open spec fn fields(self) -> int {
        if self.negative() {
            self.bits - 0x8000_0000
        } else {
            self.bits as int
        }
    }

    pub open spec fn nan(self) -> bool {
        self.fields() > infinity()
    }

    /// The place of this number in the order of all of them.
    pub open spec fn rank(self) -> int {
        if self.negative() {
            -self.fields()
        } else {
            self.fields()
        }
    }

    /// The number itself, in units of 2^-149.
    pub open spec fn value(self) -> int {
        value_at(self.rank())
    }

    /// Positive zero.
    pub open spec fn zero() -> Binary32 {
        Binary32 { bits: 0 }
    }

    pub open spec fn below(self, other: Binary32) -> bool {
        !self.nan() && !other.nan() && self.value() < other.value()
    }

    pub open spec fn at_most(self, other: Binary32) -> bool {
        !self.nan() && !other.nan() && self.value() <= other.value()
    }

    pub open spec fn same(self, other: Binary32) -> bool {
        !self.nan() && !other.nan() && self.value() == other.value()
    }

    /// This number with its sign cleared.
    pub open spec fn size(self) -> Binary32 {
        Binary32 { bits: self.fields() as u32 }
    }

    /// A number that is neither infinite nor a NaN.
    pub open spec fn finite(self) -> bool {
        self.fields() < infinity()
    }

    /// This number with the other sign.
    pub open spec fn opposite(self) -> Binary32 {
        Binary32 {
            bits: (if self.negative() {
                self.bits - 0x8000_0000
            } else {
                self.bits + 0x8000_0000
            }) as u32,
        }
    }

    /// The same number, or both no number.
    pub open spec fn alike(self, other: Binary32) -> bool {
        (self.nan() && other.nan()) || self.same(other)
    }

    /// Numbers as far from zero on either side, or both no number.
    pub open spec fn mirrors(self, other: Binary32) -> bool {
        ||| self.nan() && other.nan()
        ||| !self.nan() && !other.nan() && self.value() == -other.value()
    }

    /// This number, or the bound that it lies beyond. A NaN stays what it is.
    pub open spec fn limited(self, low: Binary32, high: Binary32) -> Binary32 {
        if self.below(low) {
            low
        } else if high.below(self) {
            high
        } else {
            self
        }
    }

    /// The whole part, the fraction cut off towards zero; the nearest `i32`
    /// where it is out of range, and 0 for a NaN.
    pub open spec fn whole(self) -> int {
        let size = magnitude(self.fields()) / (pow2(149) as int);
        if self.nan() {
            0
        } else if self.negative() {
            if size > 0x8000_0000 {
                i32::MIN as int
            } else {
                -size
            }
        } else if size > i32::MAX {
            i32::MAX as int
        } else {
            size
        }
    }

    /// How far this number is from `num / den`, scaled by `den`.
    pub open spec fn gap(self, num: int, den: int) -> int {
        distance(self.value() * den, num * pow2(149))
    }

    /// This is the number nearest to `num / den`, and the even pattern of the
    /// two where two are equally near. The sign is that of `num`.
    pub open spec fn rounds(self, num: int, den: int) -> bool {
        &&& !self.nan()
        &&& self.negative() <==> num < 0
        &&& forall|c: Binary32|
            !c.nan() ==> self.gap(num, den) <= #[trigger] c.gap(num, den)
        &&& forall|c: Binary32|
            !c.nan() && c.value() != self.value() && #[trigger] c.gap(num, den) == self.gap(
                num,
                den,
            ) ==> self.bits % 2 == 0
    }
}

/// The number nearest to `num / den`: what the fraction is rounded to.
pub open spec fn nearest(num: int, den: int) -> Binary32 {
    choose|b: Binary32| b.rounds(num, den)
}

/// The step from the number with fields `k` to the next larger one.
spec fn step(k: int) -> int {
    let exponent = k / 0x80_0000;
    if exponent == 0 {
        1
    } else {
        pow2((exponent - 1) as nat) as int
    }
}

proof fn lemma_step(k: int)
    requires
        k >= 0,
    ensures
        magnitude(k + 1) == magnitude(k) + step(k),
        step(k) > 0,
{
    let e = k / 0x80_0000;
    let f = k % 0x80_0000;
    lemma2_to64();
    if e > 0 {
        lemma_pow2_pos((e - 1) as nat);
    }
    if f + 1 < 0x80_0000 {
        assert((k + 1) / 0x80_0000 == e && (k + 1) % 0x80_0000 == f + 1);
        if e > 0 {
            let p = pow2((e - 1) as nat) as int;
            assert((0x80_0000 + (f + 1)) * p == (0x80_0000 + f) * p + p) by (nonlinear_arith);
        }
    } else {
        assert((k + 1) / 0x80_0000 == e + 1 && (k + 1) % 0x80_0000 == 0);
        if e > 0 {
            lemma_pow2_unfold(e as nat);
            let p = pow2((e - 1) as nat) as int;
            assert(0x80_0000 * (2 * p) == (0x80_0000 + 0x7f_ffff) * p + p) by (nonlinear_arith);
        }
    }
}

proof fn lemma_magnitude_increases(j: int, k: int)
    requires
        0 <= j < k,
    ensures
        0 <= magnitude(j) < magnitude(k),
    decreases k,
{
    lemma_step(k - 1);
    if j < k - 1 {
        lemma_magnitude_increases(j, k - 1);
    } else if j > 0 {
        lemma_magnitude_increases(0, j);
    }
}

proof fn lemma_value_increases(j: int, k: int)
    requires
        j < k,
    ensures
        value_at(j) < value_at(k),
{
    if j >= 0 {
        lemma_magnitude_increases(j, k);
    } else if k <= 0 {
        lemma_magnitude_increases(-k, -j);
    } else {
        lemma_magnitude_increases(0, -j);
        lemma_magnitude_increases(0, k);
    }
}

/// The order of the numbers is the order of their ranks.
pub proof fn lemma_rank_orders(a: Binary32, b: Binary32)
    ensures
        a.value() < b.value() <==> a.rank() < b.rank(),
        a.value() == b.value() <==> a.rank() == b.rank(),
{
    if a.rank() < b.rank() {
        lemma_value_increases(a.rank(), b.rank());
    } else if b.rank() < a.rank() {
        lemma_value_increases(b.rank(), a.rank());
    }
}

proof fn lemma_at_rank(k: int)
    requires
        -infinity() <= k <= infinity(),
    ensures
        at_rank(k).rank() == k,
        !at_rank(k).nan(),
{
}

/// Only one number is nearest to a fraction.
pub proof fn lemma_rounds_unique(a: Binary32, b: Binary32, num: int, den: int)
    requires
        den > 0,
        a.rounds(num, den),
        b.rounds(num, den),
    ensures
        a == b,
{
    lemma_rank_orders(a, b);
    assert(a.gap(num, den) <= b.gap(num, den));
    assert(b.gap(num, den) <= a.gap(num, den));
    if a.rank() < b.rank() {
        lemma_no_second(a, b, num, den);
    } else if b.rank() < a.rank() {
        lemma_no_second(b, a, num, den);
    }
}

proof fn lemma_no_second(a: Binary32, b: Binary32, num: int, den: int)
    requires
        den > 0,
        a.rounds(num, den),
        b.rounds(num, den),
        a.rank() < b.rank(),
    ensures
        a.gap(num, den) != b.gap(num, den),
{
    let c = at_rank(a.rank() + 1);
    lemma_at_rank(a.rank() + 1);
    lemma_rank_orders(a, b);
    lemma_rank_orders(a, c);
    lemma_rank_orders(c, b);
    let (x, y, z) = (a.value(), b.value(), c.value());
    assert(x * den < y * den) by (nonlinear_arith)
        requires
            x < y,
            den > 0,
    ;
    if c.rank() < b.rank() {
        assert(x * den < z * den < y * den) by (nonlinear_arith)
            requires
                x < z < y,
                den > 0,
        ;
        assert(a.gap(num, den) <= c.gap(num, den));
    } else {
        assert(a.bits % 2 != b.bits % 2);
    }
}

/// A number is the nearest of all where it is nearer than the two beside it.
proof fn lemma_rounds_by_neighbours(b: Binary32, num: int, den: int)
    requires
        den > 0,
        !b.nan(),
        b.negative() <==> num < 0,
        b.rank() > -infinity() ==> {
            let c = at_rank(b.rank() - 1);
            &&& b.gap(num, den) <= c.gap(num, den)
            &&& b.gap(num, den) == c.gap(num, den) ==> b.bits % 2 == 0
        },
        b.rank() < infinity() ==> {
            let c = at_rank(b.rank() + 1);
            &&& b.gap(num, den) <= c.gap(num, den)
            &&& b.gap(num, den) == c.gap(num, den) ==> b.bits % 2 == 0
        },
    ensures
        b.rounds(num, den),
{
    assert forall|c: Binary32| !c.nan() implies b.gap(num, den) <= #[trigger] c.gap(num, den) && (
    c.value() != b.value() && c.gap(num, den) == b.gap(num, den) ==> b.bits % 2 == 0) by {
        lemma_neighbour_bounds(b, c, num, den);
    }
}

proof fn lemma_neighbour_bounds(b: Binary32, c: Binary32, num: int, den: int)
    requires
        den > 0,
        !b.nan(),
        !c.nan(),
        b.rank() > -infinity() ==> {
            let d = at_rank(b.rank() - 1);
            &&& b.gap(num, den) <= d.gap(num, den)
            &&& b.gap(num, den) == d.gap(num, den) ==> b.bits % 2 == 0
        },
        b.rank() < infinity() ==> {
            let d = at_rank(b.rank() + 1);
            &&& b.gap(num, den) <= d.gap(num, den)
            &&& b.gap(num, den) == d.gap(num, den) ==> b.bits % 2 == 0
        },
    ensures
        b.gap(num, den) <= c.gap(num, den),
        c.value() != b.value() && c.gap(num, den) == b.gap(num, den) ==> b.bits % 2 == 0,
{
    lemma_rank_orders(b, c);
    if b.rank() != c.rank() {
        let d = at_rank(if c.rank() < b.rank() { b.rank() - 1 } else { b.rank() + 1 });
        lemma_at_rank(if c.rank() < b.rank() { b.rank() - 1 } else { b.rank() + 1 });
        lemma_rank_orders(b, d);
        lemma_rank_orders(c, d);
        let (x, y, z) = (b.value(), c.value(), d.value());
        assert(x < y ==> x * den < y * den) by (nonlinear_arith)
            requires
                den > 0,
        ;
        assert(y < x ==> y * den < x * den) by (nonlinear_arith)
            requires
                den > 0,
        ;
        assert(x < z ==> x * den < z * den) by (nonlinear_arith)
            requires
                den > 0,
        ;
        assert(z < x ==> z * den < x * den) by (nonlinear_arith)
            requires
                den > 0,
        ;
        assert(y < z ==> y * den < z * den) by (nonlinear_arith)
            requires
                den > 0,
        ;
        assert(z < y ==> z * den < y * den) by (nonlinear_arith)
            requires
                den > 0,
        ;
    }
}

/// A number that is the fraction itself is the nearest to it.
proof fn lemma_rounds_exact(b: Binary32, num: int, den: int)
    requires
        den > 0,
        !b.nan(),
        b.negative() <==> num < 0,
        b.value() * den == num * pow2(149),
    ensures
        b.rounds(num, den),
{
    assert forall|c: Binary32| !c.nan() && c.value() != b.value() implies #[trigger] c.gap(num, den)
        > 0 by {
        let (x, y) = (b.value(), c.value());
        assert(x * den != y * den) by (nonlinear_arith)
            requires
                den > 0,
                x != y,
        ;
    }
}

/// Positive zero is nearest to zero.
proof fn lemma_zero_rounds()
    ensures
        Binary32::zero().rounds(0, 1),
        Binary32::zero() == nearest(0, 1),
        Binary32::zero().value() == 0,
{
    let b = Binary32::zero();
    let u = pow2(149) as int;
    assert(magnitude(0) == 0);
    assert(0 * u == 0) by (nonlinear_arith);
    lemma_rounds_exact(b, 0, 1);
    lemma_nearest(b, 0, 1);
}

proof fn lemma_nearest(b: Binary32, num: int, den: int)
    requires
        den > 0,
        b.rounds(num, den),
    ensures
        b == nearest(num, den),
{
    lemma_rounds_unique(b, nearest(num, den), num, den);
}

impl Binary32 {
    pub fn is_nan(self) -> (r: bool)
        ensures
            r == self.nan(),
    {
        if self.bits >= 0x8000_0000 {
            self.bits - 0x8000_0000 > 0x7f80_0000
        } else {
            self.bits > 0x7f80_0000
        }
    }

    fn place(self) -> (r: i64)
        ensures
            r == self.rank(),
    {
        if self.bits >= 0x8000_0000 {
            -((self.bits - 0x8000_0000) as i64)
        } else {
            self.bits as i64
        }
    }

    /// `self < other`.
    pub fn lt(self, other: Binary32) -> (r: bool)
        ensures
            r == self.below(other),
    {
        proof {
            lemma_rank_orders(self, other);
        }
        !self.is_nan() && !other.is_nan() && self.place() < other.place()
    }

    /// `self <= other`.
    pub fn le(self, other: Binary32) -> (r: bool)
        ensures
            r == self.at_most(other),
    {
        proof {
            lemma_rank_orders(self, other);
        }
        !self.is_nan() && !other.is_nan() && self.place() <= other.place()
    }

    /// Whether the two are the same number.
    pub fn same_number(self, other: Binary32) -> (r: bool)
        ensures
            r == self.same(other),
    {
        proof {
            lemma_rank_orders(self, other);
        }
        !self.is_nan() && !other.is_nan() && self.place() == other.place()
    }

    /// The absolute value.
    pub fn abs(self) -> (r: Binary32)
        ensures
            r == self.size(),
    {
        if self.bits >= 0x8000_0000 {
            Binary32 { bits: self.bits - 0x8000_0000 }
        } else {
            self
        }
    }

    /// The number, moved to the nearer bound where it lies outside.
    pub fn clamp(self, low: Binary32, high: Binary32) -> (r: Binary32)
        requires
            low.at_most(high),
        ensures
            r == self.limited(low, high),
    {
        if self.lt(low) {
            low
        } else if high.lt(self) {
            high
        } else {
            self
        }
    }
}

/// The fields that hold `q * 2^e`, for a `q` of 24 bits or one more.
proof fn lemma_fields_of(e: int, q: int)
    requires
        e >= 0,
        0x80_0000 <= q <= 0x100_0000,
    ensures
        magnitude(e * 0x80_0000 + q) == q * pow2(e as nat),
        step(e * 0x80_0000 + q) >= pow2(e as nat),
        q > 0x80_0000 ==> step(e * 0x80_0000 + q - 1) == pow2(e as nat),
{
    let k = e * 0x80_0000 + q;
    let p = pow2(e as nat) as int;
    lemma_pow2_pos(e as nat);
    if q < 0x100_0000 {
        assert(k / 0x80_0000 == e + 1 && k % 0x80_0000 == q - 0x80_0000);
    } else {
        assert(k / 0x80_0000 == e + 2 && k % 0x80_0000 == 0);
        lemma_pow2_unfold((e + 1) as nat);
        assert(0x80_0000 * (2 * p) == 0x100_0000 * p) by (nonlinear_arith);
    }
    if q > 0x80_0000 {
        assert((k - 1) / 0x80_0000 == e + 1);
    }
}

/// `q * d`, where `d` is a power of two and `q` has 24 bits or one more, is
/// nearest to `v` where it is within half of `d` of it.
proof fn lemma_rounds_to_multiple(b: Binary32, s: nat, q: int, v: int)
    requires
        s <= 40,
        0x80_0000 <= q <= 0x100_0000,
        b.bits == (s + 149) * 0x80_0000 + q,
        v > 0,
        2 * distance(q * pow2(s), v) <= pow2(s),
        2 * distance(q * pow2(s), v) == pow2(s) ==> q % 2 == 0,
        q == 0x80_0000 ==> q * pow2(s) <= v,
    ensures
        b.rounds(v, 1),
{
    let d = pow2(s) as int;
    let u = pow2(149) as int;
    lemma_pow2_pos(s);
    lemma_pow2_pos(149);
    lemma_pow2_adds(s, 149);
    lemma_fields_of(s as int + 149, q);
    let k = b.rank();
    assert(k == b.bits);
    let x = b.value();
    assert(x == q * (d * u));
    assert(x == (q * d) * u) by (nonlinear_arith)
        requires
            x == q * (d * u),
    ;
    let up = at_rank(k + 1);
    let down = at_rank(k - 1);
    lemma_at_rank(k + 1);
    lemma_at_rank(k - 1);
    lemma_step(k);
    lemma_step(k - 1);
    assert(up.value() == x + step(k));
    assert(down.value() == x - step(k - 1));
    let t = v * u;
    let g = distance(q * d, v);
    assert(distance(x, t) == g * u) by (nonlinear_arith)
        requires
            x == (q * d) * u,
            t == v * u,
            u > 0,
            g == distance(q * d, v),
    ;
    assert(2 * (g * u) <= d * u && (2 * g < d ==> 2 * (g * u) < d * u)) by (nonlinear_arith)
        requires
            2 * g <= d,
            u > 0,
    ;
    assert(q * d <= v ==> x <= t) by (nonlinear_arith)
        requires
            x == (q * d) * u,
            t == v * u,
            u > 0,
    ;
    assert(b.gap(v, 1) == g * u);
    if q % 2 == 0 {
        assert(b.bits % 2 == 0);
    }
    lemma_rounds_by_neighbours(b, v, 1);
}

proof fn lemma_rounds_negated(b: Binary32, c: Binary32, num: int, den: int)
    requires
        num > 0,
        b.rounds(num, den),
        c.bits == b.bits + 0x8000_0000,
    ensures
        c.rounds(-num, den),
{
    assert(c.rank() == -b.rank());
    lemma_gap_negated(b, c, num, den);
    assert forall|e: Binary32| !e.nan() implies c.gap(-num, den) <= #[trigger] e.gap(-num, den) && (
    e.value() != c.value() && e.gap(-num, den) == c.gap(-num, den) ==> c.bits % 2 == 0) by {
        let f = at_rank(-e.rank());
        lemma_at_rank(-e.rank());
        lemma_gap_negated(f, e, num, den);
        assert(b.gap(num, den) <= f.gap(num, den));
    }
}

proof fn lemma_gap_negated(b: Binary32, c: Binary32, num: int, den: int)
    requires
        c.rank() == -b.rank(),
    ensures
        c.value() == -b.value(),
        c.gap(-num, den) == b.gap(num, den),
{
    let (x, y, u) = (b.value(), c.value(), pow2(149) as int);
    assert(magnitude(0) == 0);
    assert(y * den == -(x * den)) by (nonlinear_arith)
        requires
            y == -x,
    ;
    assert((-num) * u == -(num * u)) by (nonlinear_arith);
}

/// `v`, whose highest bit is bit `e`, scaled to 24 bits: the excess bits are rounded
/// off, to the nearest and to an even number where both are equally near.
spec fn significand(v: int, e: nat) -> int {
    if e <= 23 {
        v * pow2((23 - e) as nat)
    } else {
        let d = pow2((e - 23) as nat) as int;
        let (low, rest) = (v / d, v % d);
        if 2 * rest > d || (2 * rest == d && low % 2 == 1) {
            low + 1
        } else {
            low
        }
    }
}

/// The pattern with that significand is nearest to `v`.
proof fn lemma_significand(v: int, e: nat)
    requires
        0 < v < 0x1_0000_0000_0000_0000,
        pow2(e) <= v < pow2(e + 1),
    ensures
        e <= 63,
        0x80_0000 <= significand(v, e) <= 0x100_0000,
        ({
            let b = Binary32 { bits: ((e + 126) * 0x80_0000 + significand(v, e)) as u32 };
            &&& b.rounds(v, 1)
            &&& v <= 0x100_0000 ==> b.value() == v * pow2(149)
        }),
{
    lemma2_to64();
    if e > 64 {
        lemma_pow2_strictly_increases(64, e);
    }
    let p = pow2(e) as int;
    let q = significand(v, e);
    let b = Binary32 { bits: ((e + 126) * 0x80_0000 + q) as u32 };
    lemma_pow2_unfold(e + 1);
    if e <= 23 {
        let up = pow2((23 - e) as nat) as int;
        lemma_pow2_adds((23 - e) as nat, e);
        assert(0x80_0000 <= v * up < 0x100_0000) by (nonlinear_arith)
            requires
                up * p == 0x80_0000,
                up > 0,
                p <= v < 2 * p,
        ;
        lemma_fields_of(e as int + 126, q);
        lemma_pow2_adds((23 - e) as nat, e + 126);
        let y = pow2(e + 126) as int;
        assert((v * up) * y == v * (up * y)) by (nonlinear_arith);
        lemma_rounds_exact(b, v, 1);
    } else {
        let d = pow2((e - 23) as nat) as int;
        lemma_pow2_pos((e - 23) as nat);
        lemma_pow2_adds((e - 23) as nat, 23);
        lemma_fundamental_div_mod(v, d);
        lemma_mod_bound(v, d);
        let (low, rest) = (v / d, v % d);
        assert(0x80_0000 <= low < 0x100_0000) by (nonlinear_arith)
            requires
                v == d * low + rest,
                0 <= rest < d,
                d * 0x80_0000 <= v < 2 * (d * 0x80_0000),
        ;
        assert(low * d == d * low && (low + 1) * d == d * low + d) by (nonlinear_arith);
        lemma_rounds_to_multiple(b, (e - 23) as nat, q, v);
        if v <= 0x100_0000 {
            if e > 24 {
                lemma_pow2_strictly_increases(24, e);
            }
            lemma_fields_of(e as int + 126, q);
            lemma_pow2_adds(1, 149);
            let u = pow2(149) as int;
            assert(e == 24 && v == 0x100_0000 && d == 2);
            assert(0x100_0000int / 2 == 0x80_0000 && 0x100_0000int % 2 == 0);
            assert(low == 0x80_0000 && rest == 0);
            assert(pow2(150) == 2 * u);
            assert(b.value() == 0x80_0000 * (2 * u));
            assert(0x80_0000 * (2 * u) == 0x100_0000 * u) by (nonlinear_arith);
        }
    }
}

fn power_of_two(e: u32) -> (r: u64)
    requires
        e <= 63,
    ensures
        r == pow2(e as nat),
{
    let mut i: u32 = 0;
    let mut p: u64 = 1;
    proof {
        lemma2_to64();
    }
    while i < e
        invariant
            i <= e <= 63,
            p == pow2(i as nat),
        decreases e - i,
    {
        proof {
            lemma_pow2_unfold((i + 1) as nat);
            lemma2_to64_rest();
            if i < 62 {
                lemma_pow2_strictly_increases((i + 1) as nat, 63);
            }
        }
        p = p * 2;
        i = i + 1;
    }
    p
}

impl Binary32 {
    /// The number nearest to an integer.
    pub fn from_u64(v: u64) -> (r: Binary32)
        ensures
            r.rounds(v as int, 1),
            r == nearest(v as int, 1),
    {
        if v == 0 {
            let r = Binary32 { bits: 0 };
            proof {
                lemma_zero_rounds();
            }
            return r;
        }
        // `p` becomes the largest power of two that is not above `v`.

        let mut e: u32 = 0;
        let mut p: u64 = 1;
        proof {
            lemma2_to64();
        }
        while p <= v / 2
            invariant
                e <= 63,
                p == pow2(e as nat),
                0 < p <= v,
            decreases v - p,
        {
            proof {
                lemma_pow2_unfold((e + 1) as nat);
                if e == 63 {
                    lemma2_to64_rest();
                }
            }
            p = p * 2;
            e = e + 1;
        }
        proof {
            lemma_pow2_unfold((e + 1) as nat);
            lemma_significand(v as int, e as nat);
        }
        let q: u64 = if e <= 23 {
            v * power_of_two(23 - e)
        } else {
            let d = power_of_two(e - 23);
            proof {
                lemma_pow2_pos((e - 23) as nat);
                lemma_mod_bound(v as int, d as int);
            }
            let low = v / d;
            let rest = v % d;
            if rest > d - rest || (rest == d - rest && low % 2 == 1) {
                low + 1
            } else {
                low
            }
        };
        let r = Binary32 { bits: (e + 126) * 0x80_0000 + q as u32 };
        proof {
            lemma_nearest(r, v as int, 1);
        }
        r
    }

    /// The number nearest to an integer.
    pub fn from_i32(v: i32) -> (r: Binary32)
        ensures
            r.rounds(v as int, 1),
            r == nearest(v as int, 1),
    {
        if v < 0 {
            let size = Binary32::from_u64((-(v as i64)) as u64);
            let r = Binary32 { bits: size.bits + 0x8000_0000 };
            proof {
                lemma_rounds_negated(size, r, -(v as int), 1);
                lemma_nearest(r, v as int, 1);
            }
            r
        } else {
            Binary32::from_u64(v as u64)
        }
    }
}

/// The whole part of a number that is below 1, at least 2^31, or between.
proof fn lemma_whole_part(k: int)
    requires
        0 <= k <= infinity(),
    ensures
        ({
            let e = k / 0x80_0000;
            let m = 0x80_0000 + k % 0x80_0000;
            let size = magnitude(k) / (pow2(149) as int);
            &&& e < 127 ==> size == 0
            &&& 127 <= e < 150 ==> size == m / (pow2((150 - e) as nat) as int)
            &&& 150 <= e < 158 ==> size == m * pow2((e - 150) as nat)
            &&& e >= 158 ==> size >= 0x8000_0000
        }),
{
    let e = k / 0x80_0000;
    let m = 0x80_0000 + k % 0x80_0000;
    let u = pow2(149) as int;
    let size = magnitude(k) / u;
    lemma2_to64();
    lemma_pow2_pos(149);
    if e < 127 {
        lemma_magnitude_increases(k, 127int * 0x80_0000);
        lemma_fields_of(126, 0x80_0000);
        lemma_pow2_adds(23, 126);
        lemma_basic_div(magnitude(k), u);
    } else {
        let p = pow2((e - 1) as nat) as int;
        lemma_pow2_pos((e - 1) as nat);
        if e < 150 {
            let d = pow2((150 - e) as nat) as int;
            lemma_pow2_pos((150 - e) as nat);
            lemma_pow2_adds((e - 1) as nat, (150 - e) as nat);
            lemma_div_denominator(m * p, p, d);
            lemma_div_multiples_vanish(m, p);
            assert(m * p == p * m) by (nonlinear_arith);
        } else {
            let d = pow2((e - 150) as nat) as int;
            lemma_pow2_adds((e - 150) as nat, 149);
            assert(m * (d * u) == u * (m * d)) by (nonlinear_arith);
            lemma_div_multiples_vanish(m * d, u);
            if e >= 158 {
                lemma_pow2_adds(8, (e - 158) as nat);
                lemma_pow2_pos((e - 158) as nat);
                let w = pow2((e - 158) as nat) as int;
                assert(m * (256 * w) >= 0x8000_0000) by (nonlinear_arith)
                    requires
                        m >= 0x80_0000,
                        w >= 1,
                ;
            }
        }
    }
}

impl Binary32 {
    /// The whole part as an `i32`.
    pub fn trunc_to_i32(self) -> (r: i32)
        ensures
            r == self.whole(),
    {
        if self.is_nan() {
            return 0;
        }
        let size = self.abs().bits;
        let e = size / 0x80_0000;
        proof {
            lemma_whole_part(size as int);
            lemma2_to64();
        }
        if e < 127 {
            0
        } else if e >= 158 {
            if self.bits >= 0x8000_0000 {
                i32::MIN
            } else {
                i32::MAX
            }
        } else {
            let m = 0x80_0000 + size % 0x80_0000;
            let w: u64 = if e < 150 {
                let d = power_of_two(150 - e);
                proof {
                    lemma_pow2_pos((150 - e) as nat);
                    lemma_div_is_ordered_by_denominator(m as int, 1, d as int);
                }
                m as u64 / d
            } else {
                let d = power_of_two(e - 150);
                proof {
                    if e < 157 {
                        lemma_pow2_strictly_increases((e - 150) as nat, 7);
                    }
                    assert(m * d < 0x8000_0000) by (nonlinear_arith)
                        requires
                            m < 0x100_0000,
                            d <= 128,
                    ;
                }
                m as u64 * d
            };
            if self.bits >= 0x8000_0000 {
                -(w as i32)
            } else {
                w as i32
            }
        }
    }
}

/// When a pattern is the nearest to a fraction, in small numbers: `m` is its
/// fraction field with the leading bit restored, and `c` the weight of 1 there.
pub open spec fn spells(bits: u32, num: int, den: int) -> bool {
    let e = bits as int / 0x80_0000;
    let m = 0x80_0000 + bits as int % 0x80_0000;
    let c = pow2((150 - e) as nat) as int;
    &&& 1 <= e <= 150
    &&& num > 0
    &&& den > 0
    &&& m * den == num * c || (m > 0x80_0000 && 2 * distance(m * den, num * c) < den)
}

/// A pattern that spells a fraction is the nearest to it.
pub proof fn lemma_spells(bits: u32, num: int, den: int)
    requires
        spells(bits, num, den),
    ensures
        (Binary32 { bits }).rounds(num, den),
        (Binary32 { bits }) == nearest(num, den),
{
    let b = Binary32 { bits };
    let e = bits as int / 0x80_0000;
    let m = 0x80_0000 + bits as int % 0x80_0000;
    let c = pow2((150 - e) as nat) as int;
    let p = pow2((e - 1) as nat) as int;
    let k = b.rank();
    lemma_pow2_pos((e - 1) as nat);
    lemma_pow2_adds((150 - e) as nat, (e - 1) as nat);
    let x = b.value();
    let t = num * pow2(149);
    assert(x == m * p);
    assert(x * den == (m * den) * p) by (nonlinear_arith)
        requires
            x == m * p,
    ;
    assert(t == (num * c) * p) by (nonlinear_arith)
        requires
            t == num * (c * p),
    ;
    if m * den == num * c {
        lemma_rounds_exact(b, num, den);
    } else {
        lemma_at_rank(k + 1);
        lemma_at_rank(k - 1);
        lemma_step(k);
        lemma_step(k - 1);
        let (up, down) = (at_rank(k + 1), at_rank(k - 1));
        assert((k - 1) / 0x80_0000 == e);
        assert(up.value() == x + p);
        assert(down.value() == x - p);
        assert((x + p) * den == (m * den + den) * p && (x - p) * den == (m * den - den) * p)
            by (nonlinear_arith)
            requires
                x == m * p,
        ;
        let (y, z) = (m * den, num * c);
        assert(distance(y * p, z * p) < distance((y + den) * p, z * p) && distance(y * p, z * p)
            < distance((y - den) * p, z * p)) by (nonlinear_arith)
            requires
                p > 0,
                den > 0,
                2 * distance(y, z) < den,
        ;
        lemma_rounds_by_neighbours(b, num, den);
    }
    lemma_nearest(b, num, den);
}

proof fn lemma_top_bit(v: int) -> (e: nat)
    requires
        v > 0,
    ensures
        pow2(e) <= v < pow2(e + 1),
    decreases v,
{
    lemma2_to64();
    if v == 1 {
        0
    } else {
        let e = lemma_top_bit(v / 2);
        lemma_pow2_unfold(e + 1);
        lemma_pow2_unfold(e + 2);
        e + 1
    }
}

/// The number nearest to a positive integer below 2^64.
proof fn lemma_some_rounds(v: int) -> (b: Binary32)
    requires
        0 < v < 0x1_0000_0000_0000_0000,
    ensures
        b.rounds(v, 1),
        v <= 0x100_0000 ==> b.value() == v * pow2(149),
        0 < b.bits < infinity(),
{
    let e = lemma_top_bit(v);
    lemma_significand(v, e);
    Binary32 { bits: ((e + 126) * 0x80_0000 + significand(v, e)) as u32 }
}

/// A positive integer of 64 bits has a nearest number, which is positive and finite.
pub proof fn lemma_positive_integer(v: int)
    requires
        0 < v < 0x1_0000_0000_0000_0000,
    ensures
        nearest(v, 1).rounds(v, 1),
        nearest(v, 1).finite(),
        Binary32::zero().below(nearest(v, 1)),
{
    let b = lemma_some_rounds(v);
    lemma_nearest(b, v, 1);
    lemma_rank_orders(Binary32::zero(), b);
}

/// Turning the sign mirrors a number, and the sign tells its side of zero.
pub proof fn lemma_signs(a: Binary32)
    ensures
        a.opposite().mirrors(a),
        a.negative() ==> a.value() <= 0,
        !a.negative() ==> a.value() >= 0,
{
    lemma_rank_orders(a, Binary32::zero());
}

/// Every integer of 32 bits has a nearest number.
pub proof fn lemma_integer_rounds(v: int)
    requires
        i32::MIN <= v <= i32::MAX,
    ensures
        nearest(v, 1).rounds(v, 1),
{
    if v == 0 {
        lemma_zero_rounds();
    } else if v > 0 {
        let b = lemma_some_rounds(v);
        assert(b.rounds(v, 1));
    } else {
        let b = lemma_some_rounds(-v);
        let c = Binary32 { bits: (b.bits + 0x8000_0000) as u32 };
        lemma_rounds_negated(b, c, -v, 1);
        assert(c.rounds(v, 1));
    }
}

/// Integers of up to 24 bits are held exactly, and come back as their whole part.
pub proof fn law_small_integers_are_exact(v: int)
    requires
        -0x100_0000 <= v <= 0x100_0000,
    ensures
        nearest(v, 1).value() == v * pow2(149),
        nearest(v, 1).whole() == v,
{
    let u = pow2(149) as int;
    lemma_pow2_pos(149);
    lemma_integer_rounds(v);
    let r = nearest(v, 1);
    if v == 0 {
        lemma_zero_rounds();
        assert(0 * u == 0 && u * 0 == 0) by (nonlinear_arith);
        lemma_div_multiples_vanish(0, u);
    } else if v > 0 {
        let b = lemma_some_rounds(v);
        lemma_nearest(b, v, 1);
        assert(v * u == u * v) by (nonlinear_arith);
        lemma_div_multiples_vanish(v, u);
    } else {
        let b = lemma_some_rounds(-v);
        let c = Binary32 { bits: (b.bits + 0x8000_0000) as u32 };
        lemma_rounds_negated(b, c, -v, 1);
        lemma_nearest(c, v, 1);
        assert(c.rank() == -b.rank());
        assert(c.value() == -b.value());
        assert((-v) * u == -(v * u) && (-v) * u == u * (-v)) by (nonlinear_arith);
        lemma_div_multiples_vanish(-v, u);
    }
}

/// The whole part is the largest integer, in size, that is not beyond the number;
/// it has the number's sign.
pub proof fn law_whole_part_is_not_beyond(b: Binary32)
    requires
        !b.nan(),
        magnitude(b.fields()) < 0x8000_0000 * pow2(149),
    ensures
        b.negative() ==> b.whole() <= 0 && (b.whole() - 1) * pow2(149) < b.value() <= b.whole()
            * pow2(149),
        !b.negative() ==> b.whole() >= 0 && b.whole() * pow2(149) <= b.value() < (b.whole() + 1)
            * pow2(149),
{
    let u = pow2(149) as int;
    let x = magnitude(b.fields());
    lemma_pow2_pos(149);
    if b.fields() > 0 {
        lemma_magnitude_increases(0, b.fields());
    }
    lemma_fundamental_div_mod(x, u);
    lemma_mod_bound(x, u);
    let w = x / u;
    assert(0 <= w < 0x8000_0000) by (nonlinear_arith)
        requires
            x == u * w + x % u,
            0 <= x % u < u,
            0 <= x < 0x8000_0000 * u,
    ;
    assert(w * u == u * w && (w + 1) * u == u * w + u && (-w) * u == -(u * w) && (-w - 1) * u == -(u
        * w) - u) by (nonlinear_arith);
    assert(magnitude(0) == 0);
}

/// Of two numbers one is below the other or they are the same; a NaN is neither
/// below, above nor the same as anything.
pub proof fn law_numbers_are_ordered(a: Binary32, b: Binary32)
    ensures
        a.nan() || b.nan() ==> !a.below(b) && !b.below(a) && !a.same(b) && !a.at_most(b),
        !a.nan() && !b.nan() ==> {
            ||| a.below(b) && !b.below(a) && !a.same(b)
            ||| b.below(a) && !a.below(b) && !a.same(b)
            ||| a.same(b) && !a.below(b) && !b.below(a)
        },
        a.at_most(b) <==> a.below(b) || a.same(b),
{
}

/// A number that was limited lies between the limits, and one that lay there
/// before is left alone.
pub proof fn law_limits_hold(v: Binary32, low: Binary32, high: Binary32)
    requires
        !v.nan(),
        low.at_most(high),
    ensures
        low.at_most(v.limited(low, high)),
        v.limited(low, high).at_most(high),
        low.at_most(v) && v.at_most(high) ==> v.limited(low, high) == v,
        v.below(low) ==> v.limited(low, high) == low,
        high.below(v) ==> v.limited(low, high) == high,
{
}

/// What is no number is not limited.
pub proof fn law_limits_leave_a_nan_alone(v: Binary32, low: Binary32, high: Binary32)
    requires
        v.nan(),
    ensures
        v.limited(low, high) == v,
{
}

/// Numbers are ordered as their patterns are, those with the sign bit the other way
/// round and before the others; the patterns behind infinity are no numbers.
pub proof fn law_order_is_that_of_the_patterns(a: Binary32, b: Binary32)
    ensures
        ({
            let (x, y) = (a.bits as int, b.bits as int);
            let sign = 0x8000_0000int;
            &&& a.nan() <==> 0x7f80_0000 < x < sign || x > sign + 0x7f80_0000
            &&& !a.nan() && !b.nan() ==> {
                &&& x < sign && y < sign ==> (a.below(b) <==> x < y)
                &&& x >= sign && y >= sign ==> (a.below(b) <==> x > y)
                &&& x >= sign && y < sign ==> (a.below(b) <==> x > sign || y > 0)
                &&& x < sign && y >= sign ==> !a.below(b)
            }
        }),
{
    lemma_rank_orders(a, b);
}

/// The size of a number is how far it is from zero, and a number that is not
/// negative is its own size.
pub proof fn law_size_is_the_distance_from_zero(a: Binary32)
    ensures
        a.size().value() == distance(a.value(), 0),
        a.size().nan() <==> a.nan(),
        a.size().bits < 0x8000_0000,
        a.bits < 0x8000_0000 ==> a.size() == a,
{
    lemma_rank_orders(a, Binary32::zero());
}

/// An integer becomes the number nearest to it: no number is nearer, and of two that
/// are equally near it is the one with the even pattern.
pub proof fn law_integers_become_the_nearest_number(v: int, c: Binary32)
    requires
        i32::MIN <= v < 0x1_0000_0000_0000_0000,
        !c.nan(),
    ensures
        ({
            let b = nearest(v, 1);
            let there = v * pow2(149);
            &&& !b.nan()
            &&& b.bits >= 0x8000_0000 <==> v < 0
            &&& distance(b.value(), there) <= distance(c.value(), there)
            &&& distance(b.value(), there) == distance(c.value(), there) && b.value() != c.value()
                ==> b.bits % 2 == 0
        }),
{
    if v <= i32::MAX {
        lemma_integer_rounds(v);
    } else {
        lemma_positive_integer(v);
    }
    let b = nearest(v, 1);
    assert(b.gap(v, 1) <= c.gap(v, 1));
    assert(b.value() * 1 == b.value() && c.value() * 1 == c.value()) by (nonlinear_arith);
}

/// A number too large for an integer of 32 bits has the last of them as its whole
/// part, and what is no number has none.
pub proof fn law_whole_part_stays_in_range(b: Binary32)
    ensures
        b.nan() ==> b.whole() == 0,
        !b.nan() && b.value() >= 0x8000_0000 * pow2(149) ==> b.whole() == 0x7fff_ffff,
        !b.nan() && b.value() <= -(0x8000_0000 * pow2(149)) ==> b.whole() == -0x8000_0000,
{
    let u = pow2(149) as int;
    let x = magnitude(b.fields());
    lemma_pow2_pos(149);
    lemma_rank_orders(b, Binary32::zero());
    if x >= 0x8000_0000 * u {
        lemma_div_is_ordered(0x8000_0000 * u, x, u);
        assert(0x8000_0000 * u == u * 0x8000_0000) by (nonlinear_arith);
        lemma_div_multiples_vanish(0x8000_0000, u);
    }
}

} // verus!
