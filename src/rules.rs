//! The flocking rules: the new state of one agent from the tick's snapshot.
use vstd::prelude::*;
use crate::arith::{tdiv, clamp_spec, ceil_sqrt, ceil_sqrt_u128, div_toward_zero, clamp_i128, abs, is_ceil_sqrt, lemma_tdiv_shrinks, lemma_tdiv_scaled, lemma_tdiv_fraction, lemma_component_within, lemma_ceil_sqrt_unique, lemma_ceil_sqrt_exists, lemma_scaled_vector, lemma_scaled_vector_floor};
use crate::model::{Agent, SimulationConfig, all_wf, UNIT, PPM, COHESION_PPM, LIMIT, MAX_AGENTS, MAX_IMPACT};

verus! {

/// Running sums over the neighbours that the rules take into account.
pub struct Sums {
    pub close_x: int,
    pub close_y: int,
    pub vel_x: int,
    pub vel_y: int,
    pub pos_x: int,
    pub pos_y: int,
}

/// How many of `n` neighbours the rules process.
pub open spec fn processed(n: int, accuracy: u32) -> int {
    if n < accuracy {
        n
    } else {
        accuracy as int
    }
}

/// Neighbour `b` is close enough to `a` to repel it.
pub open spec fn separates(a: Agent, b: Agent, cfg: SimulationConfig) -> bool {
    let dx = a.x - b.x;
    let dy = a.y - b.y;
    cfg.separation && dx * dx + dy * dy < cfg.separation_range * UNIT
}

/// The sums over the first `k` neighbours `nb` (indices into `snap`) of agent `a`.
pub open spec fn sums(snap: Seq<Agent>, a: Agent, nb: Seq<usize>, k: nat, cfg: SimulationConfig) -> Sums
    decreases k,
{
    if k == 0 || k > nb.len() {
        Sums { close_x: 0, close_y: 0, vel_x: 0, vel_y: 0, pos_x: 0, pos_y: 0 }
    } else {
        let s = sums(snap, a, nb, (k - 1) as nat, cfg);
        let b = snap[nb[k - 1] as int];
        let sep = separates(a, b, cfg);
        Sums {
            close_x: if sep { s.close_x + (a.x - b.x) } else { s.close_x },
            close_y: if sep { s.close_y + (a.y - b.y) } else { s.close_y },
            vel_x: if cfg.alignment { s.vel_x + b.vx } else { s.vel_x },
            vel_y: if cfg.alignment { s.vel_y + b.vy } else { s.vel_y },
            pos_x: if !sep && cfg.cohesion { s.pos_x + b.x } else { s.pos_x },
            pos_y: if !sep && cfg.cohesion { s.pos_y + b.y } else { s.pos_y },
        }
    }
}

/// One velocity component after alignment, cohesion and separation.
/// `n` neighbours, sums `vel` and `pos` over them, own velocity `v` and
/// coordinate `p`, separation sum `close`.
pub open spec fn steer(n: int, vel: int, pos: int, close: int, v: int, p: int, cfg: SimulationConfig) -> int {
    let flocked = if n > 0 {
        v + tdiv((vel - n * v) * cfg.alignment_impact, n * PPM) + tdiv(
            (pos - n * p) * (COHESION_PPM as int),
            n * (PPM as int),
        )
    } else {
        v
    };
    flocked + tdiv(close * cfg.separation_impact, PPM as int)
}

/// One velocity component pushed back toward the box `[-border_size, border_size]`.
pub open spec fn border_push(p: int, v: int, cfg: SimulationConfig) -> int {
    if !cfg.border {
        v
    } else {
        let size = cfg.border_size * UNIT;
        let v1 = if p > size { v - cfg.border_impact } else { v };
        if p < -size { v1 + cfg.border_impact } else { v1 }
    }
}

/// Speeds are measured in units of `1 / FINE` micro-units when limiting.
pub const FINE: i64 = 1_048_576;

/// The squared magnitude of `(vx, vy)` in units of `1 / FINE` micro-units.
pub open spec fn fine_square(vx: int, vy: int) -> int {
    (vx * vx + vy * vy) * (FINE * FINE)
}

/// One component `v` of velocity `(vx, vy)` after speed limiting: rescaled by
/// `min_speed / speed` when slower than `min_speed`, then by `max_speed / speed`
/// when faster than `max_speed`, `speed` being the magnitude rounded up to a
/// multiple of `1 / FINE`. A velocity of zero stays zero.
pub open spec fn limit(v: int, vx: int, vy: int, cfg: SimulationConfig) -> int {
    if !cfg.speed_limit {
        v
    } else {
        let s = ceil_sqrt(fine_square(vx, vy));
        let lo = cfg.min_speed * FINE;
        let hi = cfg.max_speed * FINE;
        let v1 = if 0 < s < lo { tdiv(v * lo, s) } else { v };
        if s > hi { tdiv(v1 * hi, s) } else { v1 }
    }
}

/// The velocity of agent `a` once the rules have acted, before its magnitude is limited.
pub open spec fn steered(snap: Seq<Agent>, a: Agent, nb: Seq<usize>, cfg: SimulationConfig) -> (int, int) {
    let n = nb.len() as int;
    let s = sums(snap, a, nb, processed(n, cfg.accuracy) as nat, cfg);
    let vx = steer(n, s.vel_x, s.pos_x, s.close_x, a.vx as int, a.x as int, cfg);
    let vy = steer(n, s.vel_y, s.pos_y, s.close_y, a.vy as int, a.y as int, cfg);
    (
        clamp_spec(border_push(a.x as int, vx, cfg), -LIMIT as int, LIMIT as int),
        clamp_spec(border_push(a.y as int, vy, cfg), -LIMIT as int, LIMIT as int),
    )
}

/// The new state of agent `a`, given its neighbours `nb` in the snapshot `snap`.
pub open spec fn advance(snap: Seq<Agent>, a: Agent, nb: Seq<usize>, cfg: SimulationConfig) -> Agent {
    let (vx, vy) = steered(snap, a, nb, cfg);
    let nvx = limit(vx, vx, vy, cfg);
    let nvy = limit(vy, vx, vy, cfg);
    Agent {
        id: a.id,
        x: clamp_spec(a.x + nvx, -LIMIT as int, LIMIT as int) as i64,
        y: clamp_spec(a.y + nvy, -LIMIT as int, LIMIT as int) as i64,
        vx: nvx as i64,
        vy: nvy as i64,
        neighbor_count: nb.len() as u64,
    }
}

/// `nb` holds valid indices into `snap`.
pub open spec fn indices_into(nb: Seq<usize>, n: int) -> bool {
    forall|m: int| 0 <= m < nb.len() ==> (#[trigger] nb[m]) < n
}

/// Bound on the magnitude of a velocity component once the rules have acted.
pub open spec fn steer_bound() -> int {
    0x8_0000_0000_0000_0000_0000_0000
}

/// `a * b` stays within `x * y` when `a` and `b` stay within `x` and `y`.
proof fn lemma_mul_within(a: int, b: int, x: int, y: int)
    requires
        abs(a) <= x,
        abs(b) <= y,
    ensures
        abs(a * b) <= x * y,
{
    assert(abs(a * b) <= x * y) by (nonlinear_arith)
        requires
            abs(a) <= x,
            abs(b) <= y,
            abs(a) == (if a >= 0 { a } else { -a }),
            abs(b) == (if b >= 0 { b } else { -b }),
            abs(a * b) == (if a * b >= 0 { a * b } else { -(a * b) }),
    ;
}

/// One velocity component after alignment, cohesion and separation.
fn steer_component(n: i128, vel: i128, pos: i128, close: i128, v: i128, p: i128, cfg: &SimulationConfig) -> (r: i128)
    requires
        cfg.wf(),
        0 <= n <= MAX_AGENTS,
        abs(vel as int) <= n * LIMIT,
        abs(pos as int) <= n * LIMIT,
        abs(close as int) <= 2 * n * LIMIT,
        abs(v as int) <= LIMIT,
        abs(p as int) <= LIMIT,
    ensures
        r == steer(n as int, vel as int, pos as int, close as int, v as int, p as int, *cfg),
        abs(r as int) <= steer_bound(),
{
    proof {
        lemma_mul_within(n as int, v as int, MAX_AGENTS as int, LIMIT as int);
        lemma_mul_within(n as int, p as int, MAX_AGENTS as int, LIMIT as int);
        lemma_mul_within(close as int, cfg.separation_impact as int, 2 * MAX_AGENTS * LIMIT, MAX_IMPACT as int);
        lemma_tdiv_shrinks(close * cfg.separation_impact, PPM as int);
    }
    let separation = div_toward_zero(close * cfg.separation_impact as i128, PPM as i128);
    if n > 0 {
        let dv = vel - n * v;
        let dp = pos - n * p;
        proof {
            lemma_mul_within(dv as int, cfg.alignment_impact as int, 2 * MAX_AGENTS * LIMIT, MAX_IMPACT as int);
            lemma_mul_within(dp as int, COHESION_PPM as int, 2 * MAX_AGENTS * LIMIT, COHESION_PPM as int);
            lemma_mul_within(n as int, PPM as int, MAX_AGENTS as int, PPM as int);
            lemma_tdiv_shrinks(dv * cfg.alignment_impact, n * PPM);
            lemma_tdiv_shrinks(dp * COHESION_PPM, n * PPM);
        }
        let alignment = div_toward_zero(dv * cfg.alignment_impact as i128, n * PPM as i128);
        let cohesion = div_toward_zero(dp * COHESION_PPM as i128, n * PPM as i128);
        v + alignment + cohesion + separation
    } else {
        v + separation
    }
}

/// One velocity component pushed back toward the bordered box.
fn border_component(p: i128, v: i128, cfg: &SimulationConfig) -> (r: i128)
    requires
        cfg.wf(),
        abs(v as int) <= steer_bound(),
    ensures
        r == border_push(p as int, v as int, *cfg),
        abs(r as int) <= steer_bound() + 2 * LIMIT,
{
    if !cfg.border {
        v
    } else {
        let size = cfg.border_size as i128 * UNIT as i128;
        let v1 = if p > size { v - cfg.border_impact as i128 } else { v };
        if p < -size { v1 + cfg.border_impact as i128 } else { v1 }
    }
}

/// One component `v` of a velocity whose rounded-up magnitude is `s`, after speed limiting.
fn limit_component(v: i128, vx: Ghost<int>, vy: Ghost<int>, s: u128, cfg: &SimulationConfig) -> (r: i128)
    requires
        cfg.wf(),
        abs(v as int) <= LIMIT,
        v == vx@ || v == vy@,
        is_ceil_sqrt(fine_square(vx@, vy@), s as int),
        s <= 2 * LIMIT * FINE,
    ensures
        r == limit(v as int, vx@, vy@, *cfg),
        abs(r as int) <= LIMIT,
{
    let ghost f = FINE as int;
    proof {
        lemma_ceil_sqrt_unique(fine_square(vx@, vy@), s as int, ceil_sqrt(fine_square(vx@, vy@)));
        assert(fine_square(vx@, vy@) == (vx@ * f) * (vx@ * f) + (vy@ * f) * (vy@ * f)) by (nonlinear_arith)
            requires
                fine_square(vx@, vy@) == (vx@ * vx@ + vy@ * vy@) * (f * f),
        ;
        if v == vx@ {
            lemma_component_within(vx@ * f, vy@ * f, s as int);
        } else {
            lemma_component_within(vy@ * f, vx@ * f, s as int);
        }
        assert(abs(v * f) == abs(v as int) * f) by {
            crate::arith::lemma_abs_mul(v as int, f);
        }
    }
    if !cfg.speed_limit {
        return v;
    }
    let s = s as i128;
    let lo: i128 = cfg.min_speed as i128 * 1_048_576;
    let hi: i128 = cfg.max_speed as i128 * 1_048_576;
    proof {
        lemma_mul_within(v as int, lo as int, LIMIT as int, LIMIT * f);
    }
    let v1 = if 0 < s && s < lo {
        proof {
            lemma_tdiv_scaled(v * f, cfg.min_speed as int, s as int);
            assert(v * lo == (v * f) * cfg.min_speed) by (nonlinear_arith)
                requires
                    lo == cfg.min_speed * f,
            ;
        }
        div_toward_zero(v * lo, s)
    } else {
        v
    };
    if s > hi {
        proof {
            lemma_mul_within(v1 as int, hi as int, LIMIT as int, LIMIT * f);
            lemma_tdiv_fraction(v1 as int, hi as int, s as int);
        }
        div_toward_zero(v1 * hi, s)
    } else {
        v1
    }
}

/// The new state of agent `a` from its neighbours `nb`, indices into the
/// snapshot `snap`: the rules read the snapshot only.
pub fn advance_agent(snap: &Vec<Agent>, a: Agent, nb: &Vec<usize>, cfg: &SimulationConfig) -> (r: Agent)
    requires
        all_wf(snap@),
        a.wf(),
        cfg.wf(),
        indices_into(nb@, snap@.len() as int),
        nb@.len() <= MAX_AGENTS,
    ensures
        r == advance(snap@, a, nb@, *cfg),
        r.wf(),
{
    let n = nb.len();
    let k: usize = if n < cfg.accuracy as usize { n } else { cfg.accuracy as usize };
    let mut close_x: i128 = 0;
    let mut close_y: i128 = 0;
    let mut vel_x: i128 = 0;
    let mut vel_y: i128 = 0;
    let mut pos_x: i128 = 0;
    let mut pos_y: i128 = 0;
    let mut j: usize = 0;
    while j < k
        invariant
            all_wf(snap@),
            a.wf(),
            cfg.wf(),
            indices_into(nb@, snap@.len() as int),
            n == nb@.len(),
            k as int == processed(n as int, cfg.accuracy),
            k <= n <= MAX_AGENTS,
            j <= k,
            sums(snap@, a, nb@, j as nat, *cfg) == (Sums {
                close_x: close_x as int,
                close_y: close_y as int,
                vel_x: vel_x as int,
                vel_y: vel_y as int,
                pos_x: pos_x as int,
                pos_y: pos_y as int,
            }),
            abs(close_x as int) <= 2 * j * LIMIT,
            abs(close_y as int) <= 2 * j * LIMIT,
            abs(vel_x as int) <= j * LIMIT,
            abs(vel_y as int) <= j * LIMIT,
            abs(pos_x as int) <= j * LIMIT,
            abs(pos_y as int) <= j * LIMIT,
        decreases k - j,
    {
        let b = snap[nb[j]];
        assert(b.wf());
        let dx: i128 = a.x as i128 - b.x as i128;
        let dy: i128 = a.y as i128 - b.y as i128;
        proof {
            lemma_mul_within(dx as int, dx as int, 2 * LIMIT, 2 * LIMIT);
            lemma_mul_within(dy as int, dy as int, 2 * LIMIT, 2 * LIMIT);
        }
        let sep = cfg.separation && dx * dx + dy * dy < cfg.separation_range as i128 * UNIT as i128;
        if sep {
            close_x = close_x + dx;
            close_y = close_y + dy;
        } else if cfg.cohesion {
            pos_x = pos_x + b.x as i128;
            pos_y = pos_y + b.y as i128;
        }
        if cfg.alignment {
            vel_x = vel_x + b.vx as i128;
            vel_y = vel_y + b.vy as i128;
        }
        j = j + 1;
    }
    let vx0 = steer_component(n as i128, vel_x, pos_x, close_x, a.vx as i128, a.x as i128, cfg);
    let vy0 = steer_component(n as i128, vel_y, pos_y, close_y, a.vy as i128, a.y as i128, cfg);
    let vx1 = border_component(a.x as i128, vx0, cfg);
    let vy1 = border_component(a.y as i128, vy0, cfg);
    let vx = clamp_i128(vx1, -(LIMIT as i128), LIMIT as i128);
    let vy = clamp_i128(vy1, -(LIMIT as i128), LIMIT as i128);
    proof {
        lemma_mul_within(vx as int, vx as int, LIMIT as int, LIMIT as int);
        lemma_mul_within(vy as int, vy as int, LIMIT as int, LIMIT as int);
        assert(0 <= vx * vx && 0 <= vy * vy) by (nonlinear_arith);
    }
    let q0: u128 = (vx * vx + vy * vy) as u128;
    assert(q0 <= 2 * LIMIT * LIMIT);
    let q: u128 = q0 * 1_099_511_627_776;
    assert(q == fine_square(vx as int, vy as int));
    let s = ceil_sqrt_u128(q);
    proof {
        assert(s <= 2 * LIMIT * FINE) by (nonlinear_arith)
            requires
                s == 0 || (s - 1) * (s - 1) < q,
                q <= 2 * LIMIT * LIMIT * (FINE * FINE),
                s >= 0,
        ;
    }
    let nvx = limit_component(vx, Ghost(vx as int), Ghost(vy as int), s, cfg);
    let nvy = limit_component(vy, Ghost(vx as int), Ghost(vy as int), s, cfg);
    let x = clamp_i128(a.x as i128 + nvx, -(LIMIT as i128), LIMIT as i128);
    let y = clamp_i128(a.y as i128 + nvy, -(LIMIT as i128), LIMIT as i128);
    Agent { id: a.id, x: x as i64, y: y as i64, vx: nvx as i64, vy: nvy as i64, neighbor_count: n as u64 }
}

/// Facts on the fine magnitude of the velocity the rules produce.
proof fn lemma_fine_speed(vx: int, vy: int) -> (s: int)
    requires
        -LIMIT <= vx <= LIMIT,
        -LIMIT <= vy <= LIMIT,
    ensures
        s == ceil_sqrt(fine_square(vx, vy)),
        is_ceil_sqrt(fine_square(vx, vy), s),
        fine_square(vx, vy) == (vx * FINE) * (vx * FINE) + (vy * FINE) * (vy * FINE),
        fine_square(vx, vy) >= 0,
        s == 0 ==> vx == 0 && vy == 0,
        (vx != 0 || vy != 0) ==> s >= FINE,
{
    let f = FINE as int;
    let q = vx * vx + vy * vy;
    assert(fine_square(vx, vy) == (vx * f) * (vx * f) + (vy * f) * (vy * f)) by (nonlinear_arith)
        requires
            fine_square(vx, vy) == (vx * vx + vy * vy) * (f * f),
    ;
    assert(q >= 0 && (q == 0 ==> vx == 0 && vy == 0) && ((vx != 0 || vy != 0) ==> q >= 1)) by (nonlinear_arith)
        requires
            q == vx * vx + vy * vy,
    ;
    lemma_ceil_sqrt_exists(fine_square(vx, vy));
    let s = ceil_sqrt(fine_square(vx, vy));
    assert(fine_square(vx, vy) >= q * (f * f) && q * (f * f) >= 0) by (nonlinear_arith)
        requires
            fine_square(vx, vy) == q * (f * f),
            q >= 0,
    ;
    if s == 0 {
        assert(s * s == 0) by (nonlinear_arith)
            requires
                s == 0,
        ;
        assert(q == 0) by (nonlinear_arith)
            requires
                q * (f * f) <= 0,
                q >= 0,
                f > 0,
        ;
    }
    if vx != 0 || vy != 0 {
        assert(s >= f) by (nonlinear_arith)
            requires
                s * s >= q * (f * f),
                q >= 1,
                s >= 0,
                f > 0,
        ;
    }
    s
}

/// With speed limiting on and `min_speed <= max_speed`, no agent is faster
/// than `max_speed` after a step. A velocity of zero stays zero.
pub proof fn lemma_speed_within_max(snap: Seq<Agent>, a: Agent, nb: Seq<usize>, cfg: SimulationConfig)
    requires
        cfg.wf(),
        cfg.speed_limit,
        cfg.min_speed <= cfg.max_speed,
    ensures
        ({
            let b = advance(snap, a, nb, cfg);
            b.vx * b.vx + b.vy * b.vy <= cfg.max_speed * cfg.max_speed
        }),
{
    let (vx, vy) = steered(snap, a, nb, cfg);
    let f = FINE as int;
    let max = cfg.max_speed as int;
    let min = cfg.min_speed as int;
    let s = lemma_fine_speed(vx, vy);
    let nvx = limit(vx, vx, vy, cfg);
    let nvy = limit(vy, vx, vy, cfg);
    assert(min * min <= max * max) by (nonlinear_arith)
        requires
            0 <= min <= max,
    ;
    if s == 0 {
        assert(nvx == 0 && nvy == 0);
    } else if s < min * f {
        lemma_component_within(vx * f, vy * f, s);
        lemma_component_within(vy * f, vx * f, s);
        lemma_tdiv_scaled(vx * f, min, s);
        lemma_tdiv_scaled(vy * f, min, s);
        lemma_scaled_vector(vx * f, vy * f, min, s);
        assert(vx * (min * f) == (vx * f) * min && vy * (min * f) == (vy * f) * min) by (nonlinear_arith);
        assert(s <= max * f) by (nonlinear_arith)
            requires
                s < min * f,
                min <= max,
                f > 0,
        ;
        assert(nvx == tdiv((vx * f) * min, s) && nvy == tdiv((vy * f) * min, s));
    } else if s > max * f {
        lemma_component_within(vx * f, vy * f, s);
        lemma_component_within(vy * f, vx * f, s);
        lemma_tdiv_scaled(vx * f, max, s);
        lemma_tdiv_scaled(vy * f, max, s);
        lemma_scaled_vector(vx * f, vy * f, max, s);
        assert(vx * (max * f) == (vx * f) * max && vy * (max * f) == (vy * f) * max) by (nonlinear_arith);
        assert(nvx == tdiv((vx * f) * max, s) && nvy == tdiv((vy * f) * max, s));
    } else {
        assert(vx * vx + vy * vy <= max * max) by (nonlinear_arith)
            requires
                (vx * vx + vy * vy) * (f * f) <= s * s,
                0 < s <= max * f,
                f > 0,
        {
            assert(s * s <= (max * f) * (max * f));
        }
        assert(nvx == vx && nvy == vy);
    }
}

/// The squared speed of `b` once each velocity component is moved one
/// micro-unit away from zero, undoing the rounding of the rescale.
pub open spec fn padded_speed_square(b: Agent) -> int {
    (abs(b.vx as int) + 1) * (abs(b.vx as int) + 1) + (abs(b.vy as int) + 1) * (abs(b.vy as int) + 1)
}

/// With speed limiting on and `0 < min_speed <= max_speed`, an agent that
/// moves after the rules is, after a step, no slower than `min_speed` less a
/// fraction `1 / FINE` of it, up to the rounding of each velocity component
/// toward zero (less than one micro-unit).
pub proof fn lemma_speed_within_min(snap: Seq<Agent>, a: Agent, nb: Seq<usize>, cfg: SimulationConfig)
    requires
        cfg.wf(),
        cfg.speed_limit,
        0 < cfg.min_speed <= cfg.max_speed,
        steered(snap, a, nb, cfg) != (0int, 0int),
    ensures
        padded_speed_square(advance(snap, a, nb, cfg)) * (FINE * FINE) >= cfg.min_speed * cfg.min_speed * ((
        FINE - 1) * (FINE - 1)),
{
    let (vx, vy) = steered(snap, a, nb, cfg);
    let f = FINE as int;
    let max = cfg.max_speed as int;
    let min = cfg.min_speed as int;
    let s = lemma_fine_speed(vx, vy);
    let nvx = limit(vx, vx, vy, cfg);
    let nvy = limit(vy, vx, vy, cfg);
    let target = min * min * ((f - 1) * (f - 1));
    assert(min * min * ((f - 1) * (f - 1)) <= max * max * ((f - 1) * (f - 1))) by (nonlinear_arith)
        requires
            0 <= min <= max,
    ;
    assert(s > 0 && (s - 1) * (s - 1) < (vx * f) * (vx * f) + (vy * f) * (vy * f));
    if s < min * f {
        lemma_component_within(vx * f, vy * f, s);
        lemma_component_within(vy * f, vx * f, s);
        lemma_tdiv_scaled(vx * f, min, s);
        lemma_tdiv_scaled(vy * f, min, s);
        lemma_scaled_vector_floor(vx * f, vy * f, min, s, f);
        assert(vx * (min * f) == (vx * f) * min && vy * (min * f) == (vy * f) * min) by (nonlinear_arith);
        assert(s <= max * f) by (nonlinear_arith)
            requires
                s < min * f,
                min <= max,
                f > 0,
        ;
        assert(nvx == tdiv((vx * f) * min, s) && nvy == tdiv((vy * f) * min, s));
    } else if s > max * f {
        lemma_component_within(vx * f, vy * f, s);
        lemma_component_within(vy * f, vx * f, s);
        lemma_tdiv_scaled(vx * f, max, s);
        lemma_tdiv_scaled(vy * f, max, s);
        lemma_scaled_vector_floor(vx * f, vy * f, max, s, f);
        assert(vx * (max * f) == (vx * f) * max && vy * (max * f) == (vy * f) * max) by (nonlinear_arith);
        assert(nvx == tdiv((vx * f) * max, s) && nvy == tdiv((vy * f) * max, s));
    } else {
        assert(nvx == vx && nvy == vy);
        let q = vx * vx + vy * vy;
        assert(q * (f * f) > (s - 1) * (s - 1)) by (nonlinear_arith)
            requires
                (s - 1) * (s - 1) < (vx * f) * (vx * f) + (vy * f) * (vy * f),
                q == vx * vx + vy * vy,
        ;
        assert((s - 1) * (s - 1) >= (min * (f - 1)) * (min * (f - 1))) by (nonlinear_arith)
            requires
                s >= min * f,
                min >= 1,
                f >= 1,
        {
            assert(s - 1 >= min * (f - 1));
            crate::arith::lemma_square_grows(s - 1, min * (f - 1));
        }
        let ax = abs(vx) + 1;
        let ay = abs(vy) + 1;
        assert(ax * ax + ay * ay >= q) by (nonlinear_arith)
            requires
                ax == (if vx >= 0 { vx } else { -vx }) + 1,
                ay == (if vy >= 0 { vy } else { -vy }) + 1,
                q == vx * vx + vy * vy,
        ;
        assert((ax * ax + ay * ay) * (f * f) >= target) by (nonlinear_arith)
            requires
                ax * ax + ay * ay >= q,
                q * (f * f) > (s - 1) * (s - 1),
                (s - 1) * (s - 1) >= (min * (f - 1)) * (min * (f - 1)),
                target == min * min * ((f - 1) * (f - 1)),
                f > 0,
        {
            assert((ax * ax + ay * ay) * (f * f) >= q * (f * f));
        }
    }
}
} // verus!
