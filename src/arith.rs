//! Integer helpers: truncating division, square roots and clamping.
use vstd::prelude::*;
use vstd::arithmetic::div_mod::{lemma_fundamental_div_mod, lemma_div_basics_5};

verus! {

/// Division rounding toward zero, as Rust's `/` does on signed integers.
pub open spec fn tdiv(a: int, d: int) -> int {
    if a >= 0 {
        a / d
    } else {
        -((-a) / d)
    }
}

/// `v` limited to `[lo, hi]`.
pub open spec fn clamp_spec(v: int, lo: int, hi: int) -> int {
    if v < lo {
        lo
    } else if v > hi {
        hi
    } else {
        v
    }
}

/// `s` is the smallest natural number whose square is at least `q`.
pub open spec fn is_ceil_sqrt(q: int, s: int) -> bool {
    0 <= s && q <= s * s && (s == 0 || (s - 1) * (s - 1) < q)
}

/// The rounded-up square root of a natural number.
pub open spec fn ceil_sqrt(q: int) -> int {
    choose|s: int| is_ceil_sqrt(q, s)
}

pub proof fn lemma_ceil_sqrt_unique(q: int, s: int, t: int)
    requires
        is_ceil_sqrt(q, s),
        is_ceil_sqrt(q, t),
    ensures
        s == t,
{
    if s < t {
        assert(s * s <= (t - 1) * (t - 1)) by (nonlinear_arith)
            requires
                0 <= s <= t - 1,
        ;
    } else if t < s {
        assert(t * t <= (s - 1) * (s - 1)) by (nonlinear_arith)
            requires
                0 <= t <= s - 1,
        ;
    }
}

/// Absolute value.
pub open spec fn abs(a: int) -> int {
    if a >= 0 {
        a
    } else {
        -a
    }
}

/// A quotient that rounds toward zero has the magnitude of the rounded-down
/// quotient of the magnitudes.
pub proof fn lemma_tdiv_abs(a: int, d: int)
    requires
        d > 0,
    ensures
        abs(tdiv(a, d)) == abs(a) / d,
        abs(a) / d >= 0,
{
    lemma_div_basics_5(abs(a), d);
}

/// `x / d <= m` whenever `x <= d * m`.
pub proof fn lemma_div_at_most(x: int, d: int, m: int)
    requires
        x >= 0,
        d > 0,
        x <= d * m,
    ensures
        x / d <= m,
{
    lemma_fundamental_div_mod(x, d);
    let q = x / d;
    let r = x % d;
    assert(q <= m) by (nonlinear_arith)
        requires
            x == d * q + r,
            0 <= r,
            d > 0,
            x <= d * m,
    ;
}

/// Dividing rounds toward zero, so never grows a magnitude.
pub proof fn lemma_tdiv_shrinks(a: int, d: int)
    requires
        d > 0,
    ensures
        abs(tdiv(a, d)) <= abs(a),
{
    lemma_tdiv_abs(a, d);
}

/// `v * m / d` has magnitude at most `m` when `v` is at most `d` in magnitude.
pub proof fn lemma_tdiv_scaled(v: int, m: int, d: int)
    requires
        d > 0,
        m >= 0,
        abs(v) <= d,
    ensures
        abs(tdiv(v * m, d)) <= m,
{
    lemma_tdiv_abs(v * m, d);
    assert(abs(v * m) == abs(v) * m && abs(v) * m <= d * m) by (nonlinear_arith)
        requires
            m >= 0,
            abs(v) <= d,
            abs(v) == (if v >= 0 { v } else { -v }),
            abs(v * m) == (if v * m >= 0 { v * m } else { -(v * m) }),
    ;
    lemma_div_at_most(abs(v * m), d, m);
}

/// `w * m / d` has magnitude at most that of `w` when `m <= d`.
pub proof fn lemma_tdiv_fraction(w: int, m: int, d: int)
    requires
        d > 0,
        0 <= m <= d,
    ensures
        abs(tdiv(w * m, d)) <= abs(w),
{
    lemma_tdiv_abs(w * m, d);
    assert(abs(w * m) == abs(w) * m && abs(w) * m <= d * abs(w)) by (nonlinear_arith)
        requires
            0 <= m <= d,
            abs(w) == (if w >= 0 { w } else { -w }),
            abs(w * m) == (if w * m >= 0 { w * m } else { -(w * m) }),
    ;
    lemma_div_at_most(abs(w * m), d, abs(w));
}

/// A component is no larger in magnitude than the vector.
pub proof fn lemma_component_within(v: int, w: int, s: int)
    requires
        s >= 0,
        v * v + w * w <= s * s,
    ensures
        abs(v) <= s,
{
    assert(abs(v) <= s) by (nonlinear_arith)
        requires
            s >= 0,
            v * v + w * w <= s * s,
            abs(v) == (if v >= 0 { v } else { -v }),
    ;
}

/// The magnitude of `v * m` for `m >= 0`.
pub proof fn lemma_abs_mul(v: int, m: int)
    requires
        m >= 0,
    ensures
        abs(v * m) == abs(v) * m,
{
    assert(abs(v * m) == abs(v) * m) by (nonlinear_arith)
        requires
            m >= 0,
            abs(v) == (if v >= 0 { v } else { -v }),
            abs(v * m) == (if v * m >= 0 { v * m } else { -(v * m) }),
    ;
}

/// Every natural number has a rounded-up square root.
pub proof fn lemma_ceil_sqrt_exists(q: int)
    requires
        q >= 0,
    ensures
        is_ceil_sqrt(q, ceil_sqrt(q)),
    decreases q,
{
    if q == 0 {
        assert(is_ceil_sqrt(0, 0));
    } else {
        lemma_ceil_sqrt_exists(q - 1);
        let p = ceil_sqrt(q - 1);
        if q <= p * p {
            assert(is_ceil_sqrt(q, p));
        } else {
            assert(is_ceil_sqrt(q, p + 1)) by (nonlinear_arith)
                requires
                    p >= 0,
                    q - 1 <= p * p,
                    q > p * p,
            ;
        }
    }
}

/// Scaling a vector no longer than `s` by `m / s`, rounding each component
/// toward zero, gives a vector no longer than `m`.
pub proof fn lemma_scaled_vector(vx: int, vy: int, m: int, s: int)
    requires
        s > 0,
        m >= 0,
        vx * vx + vy * vy <= s * s,
    ensures
        tdiv(vx * m, s) * tdiv(vx * m, s) + tdiv(vy * m, s) * tdiv(vy * m, s) <= m * m,
{
    let tx = tdiv(vx * m, s);
    let ty = tdiv(vy * m, s);
    lemma_tdiv_abs(vx * m, s);
    lemma_tdiv_abs(vy * m, s);
    lemma_fundamental_div_mod(abs(vx * m), s);
    lemma_fundamental_div_mod(abs(vy * m), s);
    lemma_abs_mul(vx, m);
    lemma_abs_mul(vy, m);
    let ax = abs(tx);
    let ay = abs(ty);
    assert(tx * tx == ax * ax && ty * ty == ay * ay && abs(vx) * abs(vx) == vx * vx && abs(vy) * abs(vy)
        == vy * vy) by (nonlinear_arith)
        requires
            ax == (if tx >= 0 { tx } else { -tx }),
            ay == (if ty >= 0 { ty } else { -ty }),
            abs(vx) == (if vx >= 0 { vx } else { -vx }),
            abs(vy) == (if vy >= 0 { vy } else { -vy }),
    ;
    assert(ax * s <= abs(vx) * m) by (nonlinear_arith)
        requires
            ax == abs(vx * m) / s,
            abs(vx * m) == s * (abs(vx * m) / s) + abs(vx * m) % s,
            abs(vx * m) % s >= 0,
            abs(vx * m) == abs(vx) * m,
    {
    }
    assert(ay * s <= abs(vy) * m) by (nonlinear_arith)
        requires
            ay == abs(vy * m) / s,
            abs(vy * m) == s * (abs(vy * m) / s) + abs(vy * m) % s,
            abs(vy * m) % s >= 0,
            abs(vy * m) == abs(vy) * m,
    {
    }
    assert(tx * tx + ty * ty <= m * m) by (nonlinear_arith)
        requires
            s > 0,
            ax >= 0,
            ay >= 0,
            ax * s <= abs(vx) * m,
            ay * s <= abs(vy) * m,
            tx * tx == ax * ax,
            ty * ty == ay * ay,
            abs(vx) * abs(vx) + abs(vy) * abs(vy) <= s * s,
            abs(vx) >= 0,
            abs(vy) >= 0,
            m >= 0,
    {
        assert(ax * s * (ax * s) <= abs(vx) * m * (abs(vx) * m));
        assert(ay * s * (ay * s) <= abs(vy) * m * (abs(vy) * m));
    }
}

/// Squaring keeps the order of natural numbers.
pub proof fn lemma_square_grows(x: int, a: int)
    requires
        x >= a >= 0,
    ensures
        x * x >= a * a,
{
    assert(x * x >= a * a) by (nonlinear_arith)
        requires
            x >= a >= 0,
    ;
}

/// Scaling a vector at least `s - 1` long by `m / s`, rounding each component
/// toward zero, loses at most a fraction `1 / d` of `m` once each component's
/// rounding (less than one) is added back, when `s >= d`.
pub proof fn lemma_scaled_vector_floor(wx: int, wy: int, m: int, s: int, d: int)
    requires
        s >= d >= 1,
        m >= 0,
        (s - 1) * (s - 1) < wx * wx + wy * wy,
    ensures
        ({
            let ex = abs(tdiv(wx * m, s)) + 1;
            let ey = abs(tdiv(wy * m, s)) + 1;
            (ex * ex + ey * ey) * (d * d) >= m * m * ((d - 1) * (d - 1))
        }),
{
    lemma_tdiv_abs(wx * m, s);
    lemma_tdiv_abs(wy * m, s);
    lemma_fundamental_div_mod(abs(wx * m), s);
    lemma_fundamental_div_mod(abs(wy * m), s);
    lemma_abs_mul(wx, m);
    lemma_abs_mul(wy, m);
    let ex = abs(tdiv(wx * m, s)) + 1;
    let ey = abs(tdiv(wy * m, s)) + 1;
    let ax = abs(wx);
    let ay = abs(wy);
    assert(ex * s >= ax * m) by (nonlinear_arith)
        requires
            ex - 1 == abs(wx * m) / s,
            abs(wx * m) == s * (abs(wx * m) / s) + abs(wx * m) % s,
            abs(wx * m) % s < s,
            abs(wx * m) == ax * m,
    ;
    assert(ey * s >= ay * m) by (nonlinear_arith)
        requires
            ey - 1 == abs(wy * m) / s,
            abs(wy * m) == s * (abs(wy * m) / s) + abs(wy * m) % s,
            abs(wy * m) % s < s,
            abs(wy * m) == ay * m,
    ;
    assert(ax * ax == wx * wx && ay * ay == wy * wy && ax >= 0 && ay >= 0) by (nonlinear_arith)
        requires
            ax == (if wx >= 0 { wx } else { -wx }),
            ay == (if wy >= 0 { wy } else { -wy }),
    ;
    assert(ex >= 1 && ey >= 1);
    let e2 = ex * ex + ey * ey;
    lemma_square_grows(ex * s, ax * m);
    lemma_square_grows(ey * s, ay * m);
    assert(ex * s * (ex * s) == ex * ex * (s * s) && ax * m * (ax * m) == wx * wx * (m * m)) by (nonlinear_arith)
        requires
            ax * ax == wx * wx,
    ;
    assert(ey * s * (ey * s) == ey * ey * (s * s) && ay * m * (ay * m) == wy * wy * (m * m)) by (nonlinear_arith)
        requires
            ay * ay == wy * wy,
    ;
    assert(e2 * (s * s) >= (wx * wx + wy * wy) * (m * m)) by (nonlinear_arith)
        requires
            ex * ex * (s * s) >= wx * wx * (m * m),
            ey * ey * (s * s) >= wy * wy * (m * m),
            e2 == ex * ex + ey * ey,
    ;
    assert((wx * wx + wy * wy) * (m * m) >= (s - 1) * (s - 1) * (m * m)) by (nonlinear_arith)
        requires
            (s - 1) * (s - 1) < wx * wx + wy * wy,
            m * m >= 0,
    ;
    assert((s - 1) * d >= s * (d - 1)) by (nonlinear_arith)
        requires
            s >= d,
    ;
    assert((s - 1) * (s - 1) * (d * d) >= s * s * ((d - 1) * (d - 1))) by (nonlinear_arith)
        requires
            (s - 1) * d >= s * (d - 1),
            s * (d - 1) >= 0,
    {
        assert((s - 1) * d * ((s - 1) * d) >= s * (d - 1) * (s * (d - 1)));
    }
    assert(e2 * (d * d) >= m * m * ((d - 1) * (d - 1))) by (nonlinear_arith)
        requires
            e2 * (s * s) >= (s - 1) * (s - 1) * (m * m),
            (s - 1) * (s - 1) * (d * d) >= s * s * ((d - 1) * (d - 1)),
            s > 0,
            m * m >= 0,
    {
        assert(e2 * (s * s) * (d * d) >= (s - 1) * (s - 1) * (m * m) * (d * d));
        assert((s - 1) * (s - 1) * (d * d) * (m * m) >= s * s * ((d - 1) * (d - 1)) * (m * m));
    }
}

/// Relies on num::clamp: `input` below `min` gives `min`, above `max` gives
/// `max`, otherwise `input` itself.
#[verifier::external_body]
pub(crate) fn clamp_i128(input: i128, min: i128, max: i128) -> (r: i128)
    requires
        min <= max,
    ensures
        r == clamp_spec(input as int, min as int, max as int),
{
    num::clamp(input, min, max)
}

/// Relies on num::integer::Roots::sqrt on `u128`: the truncated square root,
/// `r * r <= q < (r + 1) * (r + 1)`.
#[verifier::external_body]
fn floor_sqrt(q: u128) -> (r: u128)
    ensures
        r * r <= q,
        q < (r + 1) * (r + 1),
{
    num::integer::Roots::sqrt(&q)
}

/// The rounded-up square root of `q`.
pub fn ceil_sqrt_u128(q: u128) -> (r: u128)
    ensures
        r as int == ceil_sqrt(q as int),
        is_ceil_sqrt(q as int, r as int),
{
    let f = floor_sqrt(q);
    assert(f < 0x1_0000_0000_0000_0000) by (nonlinear_arith)
        requires
            f * f <= q,
            q <= u128::MAX,
            f >= 0,
    ;
    let r: u128 = if f * f == q {
        f
    } else {
        f + 1
    };
    assert(is_ceil_sqrt(q as int, r as int)) by (nonlinear_arith)
        requires
            f * f <= q,
            q < (f + 1) * (f + 1),
            r == (if f * f == q { f as int } else { f + 1 }),
    ;
    proof {
        lemma_ceil_sqrt_unique(q as int, r as int, ceil_sqrt(q as int));
    }
    r
}

/// Division of `a` by a positive `d`, rounding toward zero.
pub fn div_toward_zero(a: i128, d: i128) -> (r: i128)
    requires
        d > 0,
        a > i128::MIN,
    ensures
        r == tdiv(a as int, d as int),
{
    if a >= 0 {
        a / d
    } else {
        -((-a) / d)
    }
}

} // verus!
