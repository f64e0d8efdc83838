//! What the library asks of single-precision arithmetic.
//!
//! The library never adds or multiplies single-precision numbers itself. A
//! function that needs the result of such an operation takes the arithmetic as
//! a parameter, `host`, and hands it one [`Op`] after another. Its contract
//! then says which operations it asks for and what it does with the results:
//! it holds for whatever function `host` computes.
//!
//! Some laws of the library speak of the numbers that come out. They hold of an
//! arithmetic that behaves as the arithmetic of real numbers does in a stated
//! way; IEEE 754 arithmetic does so in each of the ways named here, as far as
//! its power and its hypotenuse are rounded well enough to keep the order.

use crate::binary32::{distance, nearest, Binary32};
use vstd::arithmetic::power2::pow2;
use vstd::prelude::*;

verus! {

/// One operation on single-precision numbers.
#[derive(Clone, Copy, Debug)]
pub enum Op {
    Add(Binary32, Binary32),
    Sub(Binary32, Binary32),
    Mul(Binary32, Binary32),
    Div(Binary32, Binary32),
    /// The first number raised to the power of the second.
    Pow(Binary32, Binary32),
    /// The length of the vector with these two coordinates.
    Hypot(Binary32, Binary32),
    Square(Binary32),
    Sqrt(Binary32),
    /// A time span, given in nanoseconds, in seconds.
    Seconds(u64),
}

/// What an arithmetic computes: a result for each operation.
pub type Arith = spec_fn(Op) -> Binary32;

/// `host` takes every operation.
pub open spec fn takes_all<F: Fn(Op) -> Binary32>(host: F) -> bool {
    forall|op: Op| #[trigger] host.requires((op,))
}

/// `host` computes `m`.
pub open spec fn computes<F: Fn(Op) -> Binary32>(host: F, m: Arith) -> bool {
    forall|op: Op, r: Binary32| #[trigger] host.ensures((op,), r) ==> r == m(op)
}

/// The operation is done on finite numbers and comes out without rounding. Values
/// count units of 2^-149, so that a product is to be divided by the number of units
/// in 1, and a quotient multiplied by it. Nothing is said of the other operations.
pub open spec fn exact(m: Arith, op: Op) -> bool {
    let r = m(op).value();
    let one = pow2(149) as int;
    m(op).finite() && match op {
        Op::Add(a, b) => a.finite() && b.finite() && r == a.value() + b.value(),
        Op::Sub(a, b) => a.finite() && b.finite() && r == a.value() - b.value(),
        Op::Mul(a, b) => a.finite() && b.finite() && r * one == a.value() * b.value(),
        Op::Div(a, b) => {
            &&& a.finite() && b.finite()
            &&& b.value() != 0
            &&& r * b.value() == a.value() * one
        },
        Op::Hypot(a, b) => {
            &&& a.finite() && b.finite()
            &&& r >= 0
            &&& r * r == a.value() * a.value() + b.value() * b.value()
        },
        Op::Seconds(n) => r * 1_000_000_000 == n * one,
        _ => false,
    }
}

/// The operation is done on numbers, and what comes out is at most `error` units of
/// 2^-149 off the result in real numbers. Of a root and a hypotenuse it is the
/// square that is at most so far off. Nothing is said of powers.
pub open spec fn near(m: Arith, op: Op, error: int) -> bool {
    let r = m(op).value();
    let one = pow2(149) as int;
    !m(op).nan() && match op {
        Op::Add(a, b) => !a.nan() && !b.nan() && distance(r, a.value() + b.value()) <= error,
        Op::Sub(a, b) => !a.nan() && !b.nan() && distance(r, a.value() - b.value()) <= error,
        Op::Mul(a, b) => {
            &&& !a.nan() && !b.nan()
            &&& distance(r * one, a.value() * b.value()) <= error * one
        },
        Op::Div(a, b) => {
            &&& !a.nan() && !b.nan()
            &&& b.value() != 0
            &&& distance(r * b.value(), a.value() * one) <= error * distance(b.value(), 0)
        },
        Op::Square(a) => !a.nan() && distance(r * one, a.value() * a.value()) <= error * one,
        Op::Sqrt(a) => !a.nan() && r >= 0 && distance(r * r, a.value() * one) <= error * one,
        Op::Hypot(a, b) => {
            &&& !a.nan() && !b.nan()
            &&& r >= 0
            &&& distance(r * r, a.value() * a.value() + b.value() * b.value()) <= error * one
        },
        Op::Seconds(n) => distance(r * 1_000_000_000, n * one) <= error * 1_000_000_000,
        Op::Pow(..) => false,
    }
}

/// A number from 0 to 1.
pub open spec fn fraction(f: Binary32) -> bool {
    Binary32::zero().at_most(f) && f.at_most(nearest(1, 1))
}

/// `a` can be multiplied by the finite number `f`: it is not infinity by zero.
pub open spec fn multiplies(a: Binary32, f: Binary32) -> bool {
    !a.nan() && f.finite() && (a.finite() || !f.same(Binary32::zero()))
}

/// Multiplying by a fraction makes nothing larger.
pub open spec fn shrinks(m: Arith) -> bool {
    forall|a: Binary32, f: Binary32|
        fraction(f) && multiplies(a, f) ==> (#[trigger] m(Op::Mul(a, f))).size().at_most(a.size())
}

/// A fraction raised to a power that is not negative is a fraction, and what is
/// not negative stays so when it is divided by a positive number.
pub open spec fn keeps_fractions(m: Arith) -> bool {
    &&& forall|a: Binary32, e: Binary32|
        fraction(a) && Binary32::zero().at_most(e) ==> fraction(#[trigger] m(Op::Pow(a, e)))
    &&& forall|a: Binary32, b: Binary32|
        Binary32::zero().at_most(a) && Binary32::zero().below(b) && b.finite()
            ==> Binary32::zero().at_most(#[trigger] m(Op::Div(a, b)))
}

/// What comes of a NaN is one, and a product or quotient that is none has the
/// sign that the signs of its two numbers give it.
pub open spec fn keeps_signs(m: Arith) -> bool {
    &&& forall|a: Binary32, b: Binary32|
        {
            let r = #[trigger] m(Op::Mul(a, b));
            &&& a.nan() || b.nan() ==> r.nan()
            &&& !r.nan() ==> r.negative() == (a.negative() != b.negative())
        }
    &&& forall|a: Binary32, b: Binary32|
        {
            let r = #[trigger] m(Op::Div(a, b));
            &&& a.nan() || b.nan() ==> r.nan()
            &&& !r.nan() ==> r.negative() == (a.negative() != b.negative())
        }
}

/// The operations keep the order of the numbers that they are given, or turn it
/// round where they subtract.
pub open spec fn keeps_order(m: Arith) -> bool {
    let o = Binary32::zero();
    &&& forall|a: u64, b: u64|
        #![trigger m(Op::Seconds(a)), m(Op::Seconds(b))]
        a <= b ==> o.at_most(m(Op::Seconds(a))) && m(Op::Seconds(a)).at_most(m(Op::Seconds(b)))
    &&& forall|a: Binary32, b: Binary32, f: Binary32|
        #![trigger m(Op::Mul(a, f)), m(Op::Mul(b, f))]
        o.at_most(a) && a.at_most(b) && o.at_most(f) && multiplies(b, f) ==> o.at_most(
            m(Op::Mul(a, f)),
        ) && m(Op::Mul(a, f)).at_most(m(Op::Mul(b, f)))
    &&& forall|a: Binary32, f: Binary32, g: Binary32|
        #![trigger m(Op::Mul(a, f)), m(Op::Mul(a, g))]
        o.at_most(f) && f.at_most(g) && multiplies(a, f) && multiplies(a, g) ==> m(
            Op::Mul(a, f),
        ).size().at_most(m(Op::Mul(a, g)).size())
    &&& forall|a: Binary32, b: Binary32, c: Binary32|
        #![trigger m(Op::Div(a, c)), m(Op::Div(b, c))]
        o.at_most(a) && a.at_most(b) && o.below(c) && c.finite() ==> o.at_most(m(Op::Div(a, c)))
            && m(Op::Div(a, c)).at_most(m(Op::Div(b, c)))
    &&& forall|a: Binary32, b: Binary32, c: Binary32|
        #![trigger m(Op::Sub(c, a)), m(Op::Sub(c, b))]
        a.at_most(b) && c.finite() ==> m(Op::Sub(c, b)).at_most(m(Op::Sub(c, a)))
    &&& forall|a: Binary32, b: Binary32, c: Binary32, d: Binary32|
        #![trigger m(Op::Hypot(a, b)), m(Op::Hypot(c, d))]
        a.size().at_most(c.size()) && b.size().at_most(d.size()) ==> o.at_most(m(Op::Hypot(a, b)))
            && m(Op::Hypot(a, b)).at_most(m(Op::Hypot(c, d)))
}

/// Operations on the same numbers, whichever zero or NaN stands for one, and
/// squares and hypotenuses of numbers that differ in sign alone. Two quotients
/// are not divided by two different zeros.
pub open spec fn alike_ops(p: Op, q: Op) -> bool {
    match (p, q) {
        (Op::Add(a, b), Op::Add(c, d)) => a.alike(c) && b.alike(d),
        (Op::Sub(a, b), Op::Sub(c, d)) => a.alike(c) && b.alike(d),
        (Op::Mul(a, b), Op::Mul(c, d)) => a.alike(c) && b.alike(d),
        (Op::Div(a, b), Op::Div(c, d)) => a.alike(c) && b.alike(d) && !b.same(Binary32::zero()),
        (Op::Hypot(a, b), Op::Hypot(c, d)) => (a.alike(c) || a.mirrors(c)) && (b.alike(d)
            || b.mirrors(d)),
        (Op::Square(a), Op::Square(c)) => a.alike(c) || a.mirrors(c),
        (Op::Sqrt(a), Op::Sqrt(c)) => a.alike(c),
        _ => false,
    }
}

/// Operations on numbers so turned in sign that the sign of the result turns.
pub open spec fn mirrored_ops(p: Op, q: Op) -> bool {
    match (p, q) {
        (Op::Add(a, b), Op::Add(c, d)) => a.mirrors(c) && b.mirrors(d),
        (Op::Sub(a, b), Op::Sub(c, d)) => a.mirrors(c) && b.mirrors(d),
        (Op::Mul(a, b), Op::Mul(c, d)) => (a.alike(c) && b.mirrors(d)) || (a.mirrors(c)
            && b.alike(d)),
        (Op::Div(a, b), Op::Div(c, d)) => a.mirrors(c) && b == d,
        _ => false,
    }
}

/// Turning signs does to a result what it does to the result in real numbers.
pub open spec fn symmetric(m: Arith) -> bool {
    &&& forall|p: Op, q: Op| #[trigger] alike_ops(p, q) ==> m(p).alike(m(q))
    &&& forall|p: Op, q: Op| #[trigger] mirrored_ops(p, q) ==> m(p).mirrors(m(q))
}

/// The order of two summands, and of the two sides of a hypotenuse, is all one.
pub open spec fn commutative(m: Arith) -> bool {
    &&& forall|a: Binary32, b: Binary32|
        (#[trigger] m(Op::Add(a, b))).alike(m(Op::Add(b, a)))
    &&& forall|a: Binary32, b: Binary32|
        (#[trigger] m(Op::Hypot(a, b))).alike(m(Op::Hypot(b, a)))
}

} // verus!
