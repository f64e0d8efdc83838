//! What the regression over the samples computes, in real numbers.
//!
//! Values count units of 2^-149, of which `pow2(149)` make up 1.

use crate::arith::{near, Arith, Op};
use crate::binary32::{
    distance, law_size_is_the_distance_from_zero, law_small_integers_are_exact, lemma_spells,
    nearest, Binary32,
};
use crate::motion::{cross, slopes, sums, time_between, Sample};
use vstd::arithmetic::power2::{lemma2_to64, lemma2_to64_rest, lemma_pow2_pos, pow2};
use vstd::prelude::*;

verus! {

/// The sum of `f` over the indices below `n`.
pub open spec fn total(n: int, f: spec_fn(int) -> int) -> int
    decreases n,
{
    if n <= 0 {
        0
    } else {
        total(n - 1, f) + f(n - 1)
    }
}

proof fn lemma_total_scaled(n: int, f: spec_fn(int) -> int, g: spec_fn(int) -> int, c: int, d: int)
    requires
        forall|i: int| 0 <= i < n ==> c * #[trigger] f(i) == d * g(i),
    ensures
        c * total(n, f) == d * total(n, g),
    decreases n,
{
    if n > 0 {
        lemma_total_scaled(n - 1, f, g, c, d);
        assert(c * f(n - 1) == d * g(n - 1));
        assert(c * (total(n - 1, f) + f(n - 1)) == c * total(n - 1, f) + c * f(n - 1))
            by (nonlinear_arith);
        assert(d * (total(n - 1, g) + g(n - 1)) == d * total(n - 1, g) + d * g(n - 1))
            by (nonlinear_arith);
    } else {
        assert(c * 0 == 0 && d * 0 == 0) by (nonlinear_arith);
    }
}

/// The weight of sample `i`.
pub open spec fn weight(m: Arith, i: int) -> Binary32 {
    m(Op::Add(nearest(1, 1), nearest(i, 1)))
}

/// The seconds from the first sample to sample `i`.
pub open spec fn secs(m: Arith, samples: Seq<Sample>, i: int) -> Binary32 {
    m(Op::Seconds(time_between(samples[i].t, samples[0].t)))
}

/// The seconds of sample `i` by its weight.
pub open spec fn weighted_secs(m: Arith, samples: Seq<Sample>, i: int) -> Binary32 {
    m(Op::Mul(weight(m, i), secs(m, samples, i)))
}

/// No operation in the sums over the first `n` samples is more than `error` off.
pub open spec fn near_sums(m: Arith, samples: Seq<Sample>, n: int, error: int) -> bool
    decreases n,
{
    n <= 0 || {
        let b = sums(m, samples, n - 1);
        let s = samples[n - 1];
        let w = weight(m, n - 1);
        let t = secs(m, samples, n - 1);
        let wt = weighted_secs(m, samples, n - 1);
        let ok = |op: Op| near(m, op, error);
        &&& near_sums(m, samples, n - 1, error)
        &&& ok(Op::Add(nearest(1, 1), nearest(n - 1, 1)))
        &&& ok(Op::Seconds(time_between(s.t, samples[0].t)))
        &&& ok(Op::Mul(w, t)) && ok(Op::Mul(wt, t))
        &&& ok(Op::Mul(w, s.x)) && ok(Op::Mul(wt, s.x))
        &&& ok(Op::Mul(w, s.y)) && ok(Op::Mul(wt, s.y))
        &&& ok(Op::Add(b.w, w)) && ok(Op::Add(b.t, wt))
        &&& ok(Op::Add(b.x, m(Op::Mul(w, s.x))))
        &&& ok(Op::Add(b.y, m(Op::Mul(w, s.y))))
        &&& ok(Op::Add(b.tt, m(Op::Mul(wt, t))))
        &&& ok(Op::Add(b.tx, m(Op::Mul(wt, s.x))))
        &&& ok(Op::Add(b.ty, m(Op::Mul(wt, s.y))))
    }
}

/// One more product in a sum of products.
proof fn lemma_one_more(
    u: int,
    e: int,
    k: int,
    new: int,
    old_sum: int,
    p: int,
    product: int,
    products: int,
)
    requires
        u > 0,
        distance(new, old_sum + p) <= e,
        distance(p * u, product) <= e * u,
        distance(old_sum * u, products) <= 2 * k * e * u,
    ensures
        distance(new * u, products + product) <= 2 * (k + 1) * e * u,
{
    assert(-(e * u) <= new * u - old_sum * u - p * u <= e * u) by (nonlinear_arith)
        requires
            -e <= new - old_sum - p <= e,
            u > 0,
    ;
    assert(2 * (k + 1) * e * u == 2 * k * e * u + 2 * (e * u)) by (nonlinear_arith);
}

/// The sums are those of a regression in which sample `i` has the weight `i + 1`,
/// over all samples and with nothing left out: each is the sum of its products over
/// every index, but for what the operations are off. The weights, the times and the
/// weighted times are off by no more than one operation each.
pub proof fn law_sums_add_up(m: Arith, samples: Seq<Sample>, n: int, error: int)
    requires
        0 <= n <= samples.len(),
        n <= 0x100_0000,
        near_sums(m, samples, n, error),
    ensures
        ({
            let u = pow2(149) as int;
            let s = sums(m, samples, n);
            let w = |i: int| weight(m, i).value();
            let t = |i: int| secs(m, samples, i).value();
            let wt = |i: int| weighted_secs(m, samples, i).value();
            let x = |i: int| samples[i].x.value();
            let y = |i: int| samples[i].y.value();
            &&& distance(s.w.value(), total(n, w)) <= n * error
            &&& distance(s.t.value(), total(n, wt)) <= n * error
            &&& distance(s.x.value() * u, total(n, |i: int| w(i) * x(i))) <= 2 * n * error * u
            &&& distance(s.y.value() * u, total(n, |i: int| w(i) * y(i))) <= 2 * n * error * u
            &&& distance(s.tt.value() * u, total(n, |i: int| wt(i) * t(i))) <= 2 * n * error * u
            &&& distance(s.tx.value() * u, total(n, |i: int| wt(i) * x(i))) <= 2 * n * error * u
            &&& distance(s.ty.value() * u, total(n, |i: int| wt(i) * y(i))) <= 2 * n * error * u
            &&& forall|i: int|
                #![trigger weight(m, i)]
                0 <= i < n ==> {
                    &&& distance(w(i), (i + 1) * u) <= error
                    &&& distance(wt(i) * u, w(i) * t(i)) <= error * u
                    &&& distance(
                        t(i) * 1_000_000_000,
                        (if samples[i].t > samples[0].t {
                            samples[i].t - samples[0].t
                        } else {
                            0
                        }) * u,
                    ) <= error * 1_000_000_000
                }
        }),
    decreases n,
{
    let u = pow2(149) as int;
    let e = error;
    lemma_pow2_pos(149);
    let w = |i: int| weight(m, i).value();
    let t = |i: int| secs(m, samples, i).value();
    let wt = |i: int| weighted_secs(m, samples, i).value();
    let x = |i: int| samples[i].x.value();
    let y = |i: int| samples[i].y.value();
    if n <= 0 {
        assert(Binary32::zero().value() == 0);
        assert(0 * u == 0 && 0 * e == 0 && 2 * 0 * e * u == 0) by (nonlinear_arith);
    } else {
        let k = n - 1;
        law_sums_add_up(m, samples, k, error);
        let b = sums(m, samples, k);
        let s = sums(m, samples, n);
        let p = samples[k];
        let (fw, ft, fwt) = (weight(m, k), secs(m, samples, k), weighted_secs(m, samples, k));
        assert(n * e == k * e + e) by (nonlinear_arith)
            requires
                n == k + 1,
        ;
        law_small_integers_are_exact(1);
        law_small_integers_are_exact(k);
        assert((k + 1) * u == 1 * u + k * u) by (nonlinear_arith);
        lemma_one_more(
            u,
            e,
            k,
            s.x.value(),
            b.x.value(),
            m(Op::Mul(fw, p.x)).value(),
            w(k) * x(k),
            total(k, |i: int| w(i) * x(i)),
        );
        lemma_one_more(
            u,
            e,
            k,
            s.y.value(),
            b.y.value(),
            m(Op::Mul(fw, p.y)).value(),
            w(k) * y(k),
            total(k, |i: int| w(i) * y(i)),
        );
        lemma_one_more(
            u,
            e,
            k,
            s.tt.value(),
            b.tt.value(),
            m(Op::Mul(fwt, ft)).value(),
            wt(k) * t(k),
            total(k, |i: int| wt(i) * t(i)),
        );
        lemma_one_more(
            u,
            e,
            k,
            s.tx.value(),
            b.tx.value(),
            m(Op::Mul(fwt, p.x)).value(),
            wt(k) * x(k),
            total(k, |i: int| wt(i) * x(i)),
        );
        lemma_one_more(
            u,
            e,
            k,
            s.ty.value(),
            b.ty.value(),
            m(Op::Mul(fwt, p.y)).value(),
            wt(k) * y(k),
            total(k, |i: int| wt(i) * y(i)),
        );
    }
}

/// No operation in `a * b - c * d` is more than `error` off.
pub open spec fn near_cross(
    m: Arith,
    a: Binary32,
    b: Binary32,
    c: Binary32,
    d: Binary32,
    error: int,
) -> bool {
    &&& near(m, Op::Mul(a, b), error)
    &&& near(m, Op::Mul(c, d), error)
    &&& near(m, Op::Sub(m(Op::Mul(a, b)), m(Op::Mul(c, d))), error)
}

proof fn lemma_near_cross(
    m: Arith,
    a: Binary32,
    b: Binary32,
    c: Binary32,
    d: Binary32,
    error: int,
)
    requires
        near_cross(m, a, b, c, d, error),
    ensures
        distance(
            cross(m, a, b, c, d).value() * pow2(149),
            a.value() * b.value() - c.value() * d.value(),
        ) <= 3 * error * pow2(149),
{
    let u = pow2(149) as int;
    let e = error;
    lemma_pow2_pos(149);
    let (p, q) = (m(Op::Mul(a, b)).value(), m(Op::Mul(c, d)).value());
    let r = cross(m, a, b, c, d).value();
    assert(-(e * u) <= r * u - p * u + q * u <= e * u) by (nonlinear_arith)
        requires
            -e <= r - (p - q) <= e,
            u > 0,
    ;
    assert(3 * e * u == 3 * (e * u)) by (nonlinear_arith);
}

/// No operation of the regression is more than `error` off.
pub open spec fn near_slopes(m: Arith, samples: Seq<Sample>, error: int) -> bool {
    let s = sums(m, samples, samples.len() as int);
    let denom = cross(m, s.w, s.tt, s.t, s.t);
    &&& near_sums(m, samples, samples.len() as int, error)
    &&& near_cross(m, s.w, s.tt, s.t, s.t, error)
    &&& near_cross(m, s.w, s.tx, s.t, s.x, error)
    &&& near_cross(m, s.w, s.ty, s.t, s.y, error)
    &&& slopes(m, samples) is Some ==> near(
        m,
        Op::Div(cross(m, s.w, s.tx, s.t, s.x), denom),
        error,
    )
    &&& slopes(m, samples) is Some ==> near(
        m,
        Op::Div(cross(m, s.w, s.ty, s.t, s.y), denom),
        error,
    )
}

/// The slopes are those of the regression lines. With the sums as they come out of
/// the samples, the slope times `W * TT - T * T` is `W * TX - T * X`, but for what
/// the operations are off; there are none exactly where there are fewer than two
/// samples or that factor is less than a millionth.
pub proof fn law_slopes_solve_the_regression(m: Arith, samples: Seq<Sample>, error: int) -> (r: (
    Binary32,
    Binary32,
    Binary32,
))
    requires
        near_slopes(m, samples, error),
    ensures
        ({
            let u = pow2(149) as int;
            let s = sums(m, samples, samples.len() as int);
            let (w, t, tt) = (s.w.value(), s.t.value(), s.tt.value());
            let (denom, nx, ny) = r;
            &&& distance(denom.value() * u, w * tt - t * t) <= 3 * error * u
            &&& distance(nx.value() * u, w * s.tx.value() - t * s.x.value()) <= 3 * error * u
            &&& distance(ny.value() * u, w * s.ty.value() - t * s.y.value()) <= 3 * error * u
            &&& slopes(m, samples) is None <==> samples.len() < 2 || distance(denom.value(), 0)
                < nearest(1, 1_000_000).value()
            &&& slopes(m, samples) matches Some(v) ==> {
                &&& distance(v.0.value() * denom.value(), nx.value() * u) <= error * distance(
                    denom.value(),
                    0,
                )
                &&& distance(v.1.value() * denom.value(), ny.value() * u) <= error * distance(
                    denom.value(),
                    0,
                )
            }
        }),
{
    let s = sums(m, samples, samples.len() as int);
    let denom = cross(m, s.w, s.tt, s.t, s.t);
    lemma_near_cross(m, s.w, s.tt, s.t, s.t, error);
    lemma_near_cross(m, s.w, s.tx, s.t, s.x, error);
    lemma_near_cross(m, s.w, s.ty, s.t, s.y, error);
    law_size_is_the_distance_from_zero(denom);
    lemma2_to64();
    lemma2_to64_rest();
    lemma_spells(0x3586_37bd, 1, 1_000_000);
    (denom, cross(m, s.w, s.tx, s.t, s.x), cross(m, s.w, s.ty, s.t, s.y))
}

/// The nanoseconds from the first sample to sample `i`.
pub open spec fn nanos(samples: Seq<Sample>, i: int) -> int {
    if samples[i].t > samples[0].t {
        samples[i].t - samples[0].t
    } else {
        0
    }
}

proof fn lemma_fit(
    u: int,
    w: int,
    st: int,
    sp: int,
    stt: int,
    stp: int,
    fw: int,
    ft: int,
    ftt: int,
    ftp: int,
    d: int,
    n: int,
    r: int,
)
    requires
        u > 0,
        fw == w * u,
        1_000_000_000 * ft == u * st,
        1_000_000_000_000_000_000 * ftt == u * stt,
        1_000_000_000 * ftp == stp,
        d * u == fw * ftt - ft * ft,
        n * u == fw * ftp - ft * sp,
        r * d == n * u,
    ensures
        r * (w * stt - st * st) == 1_000_000_000 * (w * stp - st * sp),
{
    let g = 1_000_000_000int;
    let h = 1_000_000_000_000_000_000int;
    // The denominator.
    assert(h * (fw * ftt) == u * (u * (w * stt))) by (nonlinear_arith)
        requires
            fw == w * u,
            h * ftt == u * stt,
    ;
    assert(h * (ft * ft) == u * (u * (st * st))) by (nonlinear_arith)
        requires
            g * ft == u * st,
            h == g * g,
    ;
    assert(h * (d * u) == h * (fw * ftt) - h * (ft * ft)) by (nonlinear_arith)
        requires
            d * u == fw * ftt - ft * ft,
    ;
    assert(h * d == u * (w * stt - st * st)) by (nonlinear_arith)
        requires
            h * (d * u) == u * (u * (w * stt)) - u * (u * (st * st)),
            u > 0,
    ;
    // The numerator.
    assert(g * (fw * ftp) == u * (w * stp)) by (nonlinear_arith)
        requires
            fw == w * u,
            g * ftp == stp,
    ;
    assert(g * (ft * sp) == u * (st * sp)) by (nonlinear_arith)
        requires
            g * ft == u * st,
    ;
    assert(g * n == w * stp - st * sp) by (nonlinear_arith)
        requires
            n * u == fw * ftp - ft * sp,
            g * (fw * ftp) == u * (w * stp),
            g * (ft * sp) == u * (st * sp),
            u > 0,
    ;
    let (delta, num) = (w * stt - st * st, w * stp - st * sp);
    assert(r * delta == g * num) by (nonlinear_arith)
        requires
            h * d == u * delta,
            g * n == num,
            r * d == n * u,
            h == g * g,
            u > 0,
    {
        assert(r * (h * d) == h * (n * u));
        assert(r * (u * delta) == u * (r * delta));
        assert(h * (n * u) == u * (g * (g * n)));
        assert(u * (r * delta) == u * (g * num));
    }
}

/// The slopes are those of the lines that fit the samples best: where nothing is
/// rounded they solve the normal equations of least squares with the weight `i + 1`
/// for sample `i`. The sums are of integers and run over every sample; times are
/// nanoseconds since the first one. This holds of any path.
pub proof fn law_slopes_fit_the_samples_best(m: Arith, samples: Seq<Sample>)
    requires
        near_slopes(m, samples, 0),
        samples.len() <= 0x100_0000,
    ensures
        slopes(m, samples) matches Some(v) ==> {
            let n = samples.len() as int;
            let w = total(n, |i: int| i + 1);
            let st = total(n, |i: int| (i + 1) * nanos(samples, i));
            let stt = total(n, |i: int| (i + 1) * (nanos(samples, i) * nanos(samples, i)));
            let sx = total(n, |i: int| (i + 1) * samples[i].x.value());
            let sy = total(n, |i: int| (i + 1) * samples[i].y.value());
            let stx = total(n, |i: int| (i + 1) * (nanos(samples, i) * samples[i].x.value()));
            let sty = total(n, |i: int| (i + 1) * (nanos(samples, i) * samples[i].y.value()));
            &&& v.0.value() * (w * stt - st * st) == 1_000_000_000 * (w * stx - st * sx)
            &&& v.1.value() * (w * stt - st * st) == 1_000_000_000 * (w * sty - st * sy)
        },
{
    let u = pow2(149) as int;
    let n = samples.len() as int;
    lemma_pow2_pos(149);
    let s = sums(m, samples, n);
    if slopes(m, samples) is Some {
        let (denom, nx, ny) = law_slopes_solve_the_regression(m, samples, 0);
        assert(3 * 0 * u == 0) by (nonlinear_arith);
        lemma_fit_sums(m, samples);
        let iw = total(n, |i: int| i + 1);
        let ist = total(n, |i: int| (i + 1) * nanos(samples, i));
        let istt = total(n, |i: int| (i + 1) * (nanos(samples, i) * nanos(samples, i)));
        let isx = total(n, |i: int| (i + 1) * samples[i].x.value());
        let isy = total(n, |i: int| (i + 1) * samples[i].y.value());
        let istx = total(n, |i: int| (i + 1) * (nanos(samples, i) * samples[i].x.value()));
        let isty = total(n, |i: int| (i + 1) * (nanos(samples, i) * samples[i].y.value()));
        let v = slopes(m, samples)->0;
        assert(0 * distance(denom.value(), 0) == 0) by (nonlinear_arith);
        lemma_fit(
            u,
            iw,
            ist,
            isx,
            istt,
            istx,
            s.w.value(),
            s.t.value(),
            s.tt.value(),
            s.tx.value(),
            denom.value(),
            nx.value(),
            v.0.value(),
        );
        lemma_fit(
            u,
            iw,
            ist,
            isy,
            istt,
            isty,
            s.w.value(),
            s.t.value(),
            s.tt.value(),
            s.ty.value(),
            denom.value(),
            ny.value(),
            v.1.value(),
        );
    }
}

/// Where nothing is rounded the sums are those of integers.
proof fn lemma_fit_sums(m: Arith, samples: Seq<Sample>)
    requires
        near_sums(m, samples, samples.len() as int, 0),
        samples.len() <= 0x100_0000,
    ensures
        ({
            let u = pow2(149) as int;
            let n = samples.len() as int;
            let s = sums(m, samples, n);
            &&& s.w.value() == total(n, |i: int| i + 1) * u
            &&& 1_000_000_000 * s.t.value() == u * total(
                n,
                |i: int| (i + 1) * nanos(samples, i),
            )
            &&& 1_000_000_000_000_000_000 * s.tt.value() == u * total(
                n,
                |i: int| (i + 1) * (nanos(samples, i) * nanos(samples, i)),
            )
            &&& s.x.value() == total(n, |i: int| (i + 1) * samples[i].x.value())
            &&& s.y.value() == total(n, |i: int| (i + 1) * samples[i].y.value())
            &&& 1_000_000_000 * s.tx.value() == total(
                n,
                |i: int| (i + 1) * (nanos(samples, i) * samples[i].x.value()),
            )
            &&& 1_000_000_000 * s.ty.value() == total(
                n,
                |i: int| (i + 1) * (nanos(samples, i) * samples[i].y.value()),
            )
        }),
{
    let u = pow2(149) as int;
    let n = samples.len() as int;
    let g = 1_000_000_000int;
    let h = 1_000_000_000_000_000_000int;
    lemma_pow2_pos(149);
    law_sums_add_up(m, samples, n, 0);
    let s = sums(m, samples, n);
    assert(n * 0 == 0 && 2 * n * 0 * u == 0 && 0 * u == 0) by (nonlinear_arith);
    let w = |i: int| weight(m, i).value();
    let t = |i: int| secs(m, samples, i).value();
    let wt = |i: int| weighted_secs(m, samples, i).value();
    let x = |i: int| samples[i].x.value();
    let y = |i: int| samples[i].y.value();
    let k = |i: int| nanos(samples, i);
    let whole = |i: int| i + 1;
    assert forall|i: int| 0 <= i < n implies #[trigger] w(i) == (i + 1) * u && g * t(i) == k(i) * u
        && wt(i) == (i + 1) * t(i) by {
        assert(w(i) == weight(m, i).value());
        assert(wt(i) == (i + 1) * t(i)) by (nonlinear_arith)
            requires
                wt(i) * u == w(i) * t(i),
                w(i) == (i + 1) * u,
                u > 0,
        ;
    }
    // The weights.
    assert forall|i: int| 0 <= i < n implies 1 * #[trigger] w(i) == u * whole(i) by {
        assert(1 * w(i) == u * (i + 1)) by (nonlinear_arith)
            requires
                w(i) == (i + 1) * u,
        ;
    }
    lemma_total_scaled(n, w, whole, 1, u);
    assert(1 * total(n, w) == total(n, w) && u * total(n, whole) == total(n, whole) * u)
        by (nonlinear_arith);
    // The times.
    let kt = |i: int| (i + 1) * nanos(samples, i);
    assert forall|i: int| 0 <= i < n implies g * #[trigger] wt(i) == u * kt(i) by {
        assert(w(i) == (i + 1) * u);
        assert(g * wt(i) == u * ((i + 1) * k(i))) by (nonlinear_arith)
            requires
                g * t(i) == k(i) * u,
                wt(i) == (i + 1) * t(i),
        ;
    }
    lemma_total_scaled(n, wt, kt, g, u);
    // Their squares.
    let (ftt, ktt) = (
        |i: int| wt(i) * t(i),
        |i: int| (i + 1) * (nanos(samples, i) * nanos(samples, i)),
    );
    assert forall|i: int| 0 <= i < n implies h * #[trigger] ftt(i) == (u * u) * ktt(i) by {
        assert(w(i) == (i + 1) * u);
        let (a, b) = (t(i), k(i));
        assert(h * (((i + 1) * a) * a) == (u * u) * ((i + 1) * (b * b))) by (nonlinear_arith)
            requires
                g * a == b * u,
                h == g * g,
        {
            assert(h * (((i + 1) * a) * a) == (i + 1) * ((g * a) * (g * a)));
            assert((u * u) * ((i + 1) * (b * b)) == (i + 1) * ((b * u) * (b * u)));
        }
    }
    lemma_total_scaled(n, ftt, ktt, h, u * u);
    let (tt, itt) = (s.tt.value(), total(n, ktt));
    assert(h * tt == u * itt) by (nonlinear_arith)
        requires
            h * (tt * u) == (u * u) * itt,
            u > 0,
    ;
    assert((|i: int| w(i) * x(i)) =~= (|i: int| weight(m, i).value() * x(i)));
    assert((|i: int| w(i) * y(i)) =~= (|i: int| weight(m, i).value() * y(i)));
    assert((|i: int| wt(i) * x(i)) =~= (|i: int| weighted_secs(m, samples, i).value() * x(i)));
    assert((|i: int| wt(i) * y(i)) =~= (|i: int| weighted_secs(m, samples, i).value() * y(i)));
    lemma_fit_place(m, samples, x, s.x.value(), s.tx.value());
    lemma_fit_place(m, samples, y, s.y.value(), s.ty.value());
    assert((|i: int| (i + 1) * x(i)) =~= (|i: int| (i + 1) * samples[i].x.value()));
    assert((|i: int| (i + 1) * y(i)) =~= (|i: int| (i + 1) * samples[i].y.value()));
    assert((|i: int| (i + 1) * (nanos(samples, i) * x(i))) =~= (|i: int|
        (i + 1) * (nanos(samples, i) * samples[i].x.value())));
    assert((|i: int| (i + 1) * (nanos(samples, i) * y(i))) =~= (|i: int|
        (i + 1) * (nanos(samples, i) * samples[i].y.value())));
}

proof fn lemma_fit_place(
    m: Arith,
    samples: Seq<Sample>,
    p: spec_fn(int) -> int,
    sp: int,
    stp: int,
)
    requires
        near_sums(m, samples, samples.len() as int, 0),
        samples.len() <= 0x100_0000,
        sp * pow2(149) == total(
            samples.len() as int,
            |i: int| weight(m, i).value() * p(i),
        ),
        stp * pow2(149) == total(
            samples.len() as int,
            |i: int| weighted_secs(m, samples, i).value() * p(i),
        ),
    ensures
        sp == total(samples.len() as int, |i: int| (i + 1) * p(i)),
        1_000_000_000 * stp == total(
            samples.len() as int,
            |i: int| (i + 1) * (nanos(samples, i) * p(i)),
        ),
{
    let u = pow2(149) as int;
    let n = samples.len() as int;
    let g = 1_000_000_000int;
    lemma_pow2_pos(149);
    law_sums_add_up(m, samples, n, 0);
    assert(0 * u == 0) by (nonlinear_arith);
    let (fp, kp) = (|i: int| weight(m, i).value() * p(i), |i: int| (i + 1) * p(i));
    assert forall|i: int| 0 <= i < n implies 1 * #[trigger] fp(i) == u * kp(i) by {
        let (a, b) = (weight(m, i).value(), p(i));
        assert(1 * (a * b) == u * ((i + 1) * b)) by (nonlinear_arith)
            requires
                a == (i + 1) * u,
        ;
    }
    lemma_total_scaled(n, fp, kp, 1, u);
    let sum = total(n, kp);
    assert(sp == sum) by (nonlinear_arith)
        requires
            1 * (sp * u) == u * sum,
            u > 0,
    ;
    let (ft, kt) = (
        |i: int| weighted_secs(m, samples, i).value() * p(i),
        |i: int| (i + 1) * (nanos(samples, i) * p(i)),
    );
    assert forall|i: int| 0 <= i < n implies g * #[trigger] ft(i) == u * kt(i) by {
        let (a, b, c, d, q) = (
            weight(m, i).value(),
            secs(m, samples, i).value(),
            weighted_secs(m, samples, i).value(),
            nanos(samples, i),
            p(i),
        );
        assert(c == (i + 1) * b) by (nonlinear_arith)
            requires
                c * u == a * b,
                a == (i + 1) * u,
                u > 0,
        ;
        assert(g * (c * q) == u * ((i + 1) * (d * q))) by (nonlinear_arith)
            requires
                c == (i + 1) * b,
                g * b == d * u,
        {
            assert(g * (((i + 1) * b) * q) == (i + 1) * ((g * b) * q));
            assert(u * ((i + 1) * (d * q)) == (i + 1) * ((d * u) * q));
        }
    }
    lemma_total_scaled(n, ft, kt, g, u);
    let sum_t = total(n, kt);
    assert(g * stp == sum_t) by (nonlinear_arith)
        requires
            g * (stp * u) == u * sum_t,
            u > 0,
    ;
}

} // verus!
