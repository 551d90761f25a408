use vstd::prelude::*;
use rand::Rng;
use crate::arith::{
    adiv, tdiv, div_away_from_zero, div_toward_zero, ceil_sqrt, ceil_sqrt_spec, lemma_adiv_bound,
    lemma_tdiv_bound,
};

verus! {

/// Thousandths of a world unit in one world unit.
pub const UNIT: i64 = 1000;
/// The population of a default flock.
pub const N_BOIDS: usize = 300;
/// The largest population a flock may hold.
pub const MAX_POPULATION: usize = 100_000;
/// The largest speed, in thousandths of a world unit per second.
pub const SPEED_LIMIT: i64 = 250_000;
/// Closer than this, another boid pushes away.
pub const MIN_DISTANCE: i64 = 9_000;
/// Closer than this, another boid counts as a neighbour.
pub const VISUAL_RANGE: i64 = 16_000;
/// Cohesion moves the velocity by one twentieth of the offset to the centre.
pub const CENTERING_DIV: i64 = 20;
/// Separation moves the velocity by one half of the summed push.
pub const AVOID_DIV: i64 = 2;
/// Alignment moves the velocity by one tenth of the gap to the mean.
pub const MATCHING_DIV: i64 = 10;
/// Width of the band along each edge used by containment.
pub const EDGE_BUFFER: i64 = 40_000;
/// Velocity change of one containment push.
pub const TURN_FACTOR: i64 = 16_000;
/// Containment damping multiplies by `DAMPING_NUM / DAMPING_DEN`.
pub const DAMPING_NUM: i64 = 4;
/// See `DAMPING_NUM`.
pub const DAMPING_DEN: i64 = 5;
/// New boids start at least this far inside the world.
pub const SPAWN_INSET: i64 = 50_000;
/// Largest magnitude of a coordinate.
pub const COORD_MAX: i64 = 0x100_0000_0000;
/// Largest magnitude of a velocity component that the rules take.
pub const VEL_MAX: i64 = 0x2000_0000;
/// Microseconds in one second.
pub const MICROS: i64 = 1_000_000;

/// A vector of two fixed-point components.
#[derive(Clone, Copy, Debug, PartialEq, Eq, Structural)]
pub struct Vec2 {
    pub x: i64,
    pub y: i64,
}

/// One member of the flock.
#[derive(Clone, Copy, Debug, PartialEq, Eq, Structural)]
pub struct Boid {
    pub pos: Vec2,
    pub vel: Vec2,
}

pub open spec fn abs(a: int) -> int {
    if a < 0 { -a } else { a }
}

pub open spec fn dist_sq(a: Vec2, b: Vec2) -> int {
    (a.x - b.x) * (a.x - b.x) + (a.y - b.y) * (a.y - b.y)
}

pub open spec fn speed_sq(v: Vec2) -> int {
    v.x * v.x + v.y * v.y
}

/// `q` is close enough to `p` to count as a neighbour (`p` itself included).
pub open spec fn sees(p: Vec2, q: Vec2) -> bool {
    dist_sq(p, q) < VISUAL_RANGE * VISUAL_RANGE
}

/// `q` is another point closer to `p` than the minimum distance.
pub open spec fn crowds(p: Vec2, q: Vec2) -> bool {
    0 < dist_sq(p, q) < MIN_DISTANCE * MIN_DISTANCE
}

/// Number of boids of `flock` that `p` sees.
pub open spec fn neighbor_count(p: Vec2, flock: Seq<Boid>) -> int
    decreases flock.len(),
{
    if flock.len() == 0 {
        0
    } else {
        neighbor_count(p, flock.drop_last()) + if sees(p, flock.last().pos) { 1int } else { 0int }
    }
}

/// Sum of the offsets from `p` to the boids of `flock` that `p` sees.
pub open spec fn neighbor_offset(p: Vec2, flock: Seq<Boid>) -> (int, int)
    decreases flock.len(),
{
    if flock.len() == 0 {
        (0, 0)
    } else {
        let s = neighbor_offset(p, flock.drop_last());
        let q = flock.last().pos;
        if sees(p, q) { (s.0 + (q.x - p.x), s.1 + (q.y - p.y)) } else { s }
    }
}

/// Sum of the velocities of the boids of `flock` that `p` sees.
pub open spec fn neighbor_velocity(p: Vec2, flock: Seq<Boid>) -> (int, int)
    decreases flock.len(),
{
    if flock.len() == 0 {
        (0, 0)
    } else {
        let s = neighbor_velocity(p, flock.drop_last());
        let b = flock.last();
        if sees(p, b.pos) { (s.0 + b.vel.x, s.1 + b.vel.y) } else { s }
    }
}

/// Sum of the pushes `p - q` from the boids of `flock` that crowd `p`.
pub open spec fn crowding(p: Vec2, flock: Seq<Boid>) -> (int, int)
    decreases flock.len(),
{
    if flock.len() == 0 {
        (0, 0)
    } else {
        let s = crowding(p, flock.drop_last());
        let q = flock.last().pos;
        if crowds(p, q) { (s.0 + (p.x - q.x), s.1 + (p.y - q.y)) } else { s }
    }
}

pub open spec fn with_vel(b: Boid, vx: int, vy: int) -> Boid {
    Boid { pos: b.pos, vel: Vec2 { x: vx as i64, y: vy as i64 } }
}

/// Cohesion: steer toward the mean position of the neighbours.
pub open spec fn cohere(b: Boid, flock: Seq<Boid>) -> Boid {
    let n = neighbor_count(b.pos, flock);
    let s = neighbor_offset(b.pos, flock);
    if n > 0 {
        with_vel(b, b.vel.x + tdiv(s.0, n * CENTERING_DIV as int), b.vel.y + tdiv(s.1, n * CENTERING_DIV as int))
    } else {
        b
    }
}

/// Separation: steer away from the boids that crowd this one; the push is
/// rounded away from zero, so a crowded boid always gets one.
pub open spec fn separate(b: Boid, flock: Seq<Boid>) -> Boid {
    let c = crowding(b.pos, flock);
    with_vel(b, b.vel.x + adiv(c.0, AVOID_DIV as int), b.vel.y + adiv(c.1, AVOID_DIV as int))
}

/// Alignment: steer toward the mean velocity of the neighbours.
pub open spec fn align(b: Boid, flock: Seq<Boid>) -> Boid {
    let n = neighbor_count(b.pos, flock);
    let s = neighbor_velocity(b.pos, flock);
    if n > 0 {
        with_vel(
            b,
            b.vel.x + tdiv(s.0 - n * b.vel.x, n * MATCHING_DIV as int),
            b.vel.y + tdiv(s.1 - n * b.vel.y, n * MATCHING_DIV as int),
        )
    } else {
        b
    }
}

/// Containment along one axis: a push up below `bound - EDGE_BUFFER`, a push
/// down above `EDGE_BUFFER`, and damping (rounded away from zero) where both apply.
pub open spec fn steer(p: int, v: int, bound: int) -> int {
    let up = p < bound - EDGE_BUFFER;
    let down = p > EDGE_BUFFER;
    if up && down {
        adiv(v * DAMPING_NUM, DAMPING_DEN as int)
    } else if up {
        v + TURN_FACTOR
    } else if down {
        v - TURN_FACTOR
    } else {
        v
    }
}

pub open spec fn contain(b: Boid, width: int, height: int) -> Boid {
    with_vel(b, steer(b.pos.x as int, b.vel.x as int, width), steer(b.pos.y as int, b.vel.y as int, height))
}

/// The speed cap: a velocity over the limit is scaled by the limit over its
/// length (rounded up), each component rounded toward zero.
pub open spec fn limit(b: Boid) -> Boid {
    let n = speed_sq(b.vel);
    if n > SPEED_LIMIT * SPEED_LIMIT {
        let r = ceil_sqrt_spec(n);
        with_vel(b, tdiv(b.vel.x * SPEED_LIMIT, r), tdiv(b.vel.y * SPEED_LIMIT, r))
    } else {
        b
    }
}

pub open spec fn clamp_coord(c: int) -> int {
    if c > COORD_MAX {
        COORD_MAX as int
    } else if c < -COORD_MAX {
        -COORD_MAX
    } else {
        c
    }
}

/// Moves by the velocity over `elapsed_us` microseconds, rounded away from
/// zero (a moving boid always moves), held to the coordinate range.
pub open spec fn integrate(b: Boid, elapsed_us: int) -> Boid {
    Boid {
        pos: Vec2 {
            x: clamp_coord(b.pos.x + adiv(b.vel.x * elapsed_us, MICROS as int)) as i64,
            y: clamp_coord(b.pos.y + adiv(b.vel.y * elapsed_us, MICROS as int)) as i64,
        },
        vel: b.vel,
    }
}

pub open spec fn pos_fits(p: Vec2) -> bool {
    -COORD_MAX <= p.x <= COORD_MAX && -COORD_MAX <= p.y <= COORD_MAX
}

pub open spec fn vel_fits(v: Vec2, m: int) -> bool {
    -m <= v.x <= m && -m <= v.y <= m
}

/// The boid's coordinates and velocity are in the range the rules take.
pub open spec fn fits(b: Boid) -> bool {
    pos_fits(b.pos) && vel_fits(b.vel, VEL_MAX as int)
}

/// Every boid of the flock fits, and the flock is not too large.
pub open spec fn flock_fits(flock: Seq<Boid>) -> bool {
    &&& flock.len() <= MAX_POPULATION
    &&& forall|i: int| 0 <= i < flock.len() ==> fits(#[trigger] flock[i])
}


proof fn lemma_square_at_least(d: int, r: int)
    requires
        0 < r,
        d >= r || d <= -r,
    ensures
        d * d >= r * r,
{
    assert(d * d >= r * r) by (nonlinear_arith) requires 0 < r, d >= r || d <= -r;
}

proof fn lemma_nonzero_square(d: int)
    ensures
        d != 0 ==> d * d > 0,
        d * d >= 0,
{
    assert(d != 0 ==> d * d > 0) by (nonlinear_arith);
    assert(d * d >= 0) by (nonlinear_arith);
}

/// Whether `q` lies closer to `p` than `r`.
fn within(p: Vec2, q: Vec2, r: i64) -> (res: bool)
    requires
        pos_fits(p),
        pos_fits(q),
        0 < r <= 0x1000_0000,
    ensures
        res == (dist_sq(p, q) < r * r),
        res ==> abs(q.x - p.x) < r && abs(q.y - p.y) < r,
{
    let dx: i64 = p.x - q.x;
    let dy: i64 = p.y - q.y;
    proof {
        lemma_nonzero_square(dx as int);
        lemma_nonzero_square(dy as int);
    }
    if dx >= r || dx <= -r {
        proof {
            lemma_square_at_least(dx as int, r as int);
        }
        false
    } else if dy >= r || dy <= -r {
        proof {
            lemma_square_at_least(dy as int, r as int);
        }
        false
    } else {
        assert(dx * dx < r * r) by (nonlinear_arith) requires -r < dx < r;
        assert(dy * dy < r * r) by (nonlinear_arith) requires -r < dy < r;
        assert(r * r <= 0x100_0000_0000_0000) by (nonlinear_arith) requires 0 < r <= 0x1000_0000;
        dx * dx + dy * dy < r * r
    }
}

/// Counts the neighbours of `p` and sums their offsets from `p`.
fn scan_offsets(p: Vec2, boids: &[Boid]) -> (r: (i64, i64, i64))
    requires
        pos_fits(p),
        flock_fits(boids@),
    ensures
        r.0 == neighbor_count(p, boids@),
        (r.1 as int, r.2 as int) == neighbor_offset(p, boids@),
        0 <= r.0 <= boids@.len(),
        abs(r.1 as int) <= r.0 * VISUAL_RANGE,
        abs(r.2 as int) <= r.0 * VISUAL_RANGE,
{
    let mut count: i64 = 0;
    let mut sx: i64 = 0;
    let mut sy: i64 = 0;
    let mut i: usize = 0;
    while i < boids.len()
        invariant
            0 <= i <= boids@.len(),
            pos_fits(p),
            flock_fits(boids@),
            count == neighbor_count(p, boids@.subrange(0, i as int)),
            (sx as int, sy as int) == neighbor_offset(p, boids@.subrange(0, i as int)),
            0 <= count <= i,
            abs(sx as int) <= count * VISUAL_RANGE,
            abs(sy as int) <= count * VISUAL_RANGE,
        decreases boids@.len() - i,
    {
        let q = boids[i].pos;
        proof {
            assert(fits(boids@[i as int]));
            assert(boids@.subrange(0, i + 1).drop_last() =~= boids@.subrange(0, i as int));
        }
        if within(p, q, VISUAL_RANGE) {
            count = count + 1;
            sx = sx + (q.x - p.x);
            sy = sy + (q.y - p.y);
        }
        i = i + 1;
    }
    assert(boids@.subrange(0, boids@.len() as int) =~= boids@);
    (count, sx, sy)
}

/// Counts the neighbours of `p` and sums their velocities.
fn scan_velocities(p: Vec2, boids: &[Boid]) -> (r: (i64, i64, i64))
    requires
        pos_fits(p),
        flock_fits(boids@),
    ensures
        r.0 == neighbor_count(p, boids@),
        (r.1 as int, r.2 as int) == neighbor_velocity(p, boids@),
        0 <= r.0 <= boids@.len(),
        abs(r.1 as int) <= r.0 * VEL_MAX,
        abs(r.2 as int) <= r.0 * VEL_MAX,
{
    let mut count: i64 = 0;
    let mut sx: i64 = 0;
    let mut sy: i64 = 0;
    let mut i: usize = 0;
    while i < boids.len()
        invariant
            0 <= i <= boids@.len(),
            pos_fits(p),
            flock_fits(boids@),
            count == neighbor_count(p, boids@.subrange(0, i as int)),
            (sx as int, sy as int) == neighbor_velocity(p, boids@.subrange(0, i as int)),
            0 <= count <= i,
            abs(sx as int) <= count * VEL_MAX,
            abs(sy as int) <= count * VEL_MAX,
        decreases boids@.len() - i,
    {
        let b = boids[i];
        proof {
            assert(fits(boids@[i as int]));
            assert(boids@.subrange(0, i + 1).drop_last() =~= boids@.subrange(0, i as int));
        }
        if within(p, b.pos, VISUAL_RANGE) {
            count = count + 1;
            sx = sx + b.vel.x;
            sy = sy + b.vel.y;
        }
        i = i + 1;
    }
    assert(boids@.subrange(0, boids@.len() as int) =~= boids@);
    (count, sx, sy)
}

/// Sums the pushes on `p` from the boids that crowd it.
fn scan_crowding(p: Vec2, boids: &[Boid]) -> (r: (i64, i64))
    requires
        pos_fits(p),
        flock_fits(boids@),
    ensures
        (r.0 as int, r.1 as int) == crowding(p, boids@),
        abs(r.0 as int) <= boids@.len() * MIN_DISTANCE,
        abs(r.1 as int) <= boids@.len() * MIN_DISTANCE,
{
    let mut sx: i64 = 0;
    let mut sy: i64 = 0;
    let mut i: usize = 0;
    while i < boids.len()
        invariant
            0 <= i <= boids@.len(),
            pos_fits(p),
            flock_fits(boids@),
            (sx as int, sy as int) == crowding(p, boids@.subrange(0, i as int)),
            abs(sx as int) <= i * MIN_DISTANCE,
            abs(sy as int) <= i * MIN_DISTANCE,
        decreases boids@.len() - i,
    {
        let q = boids[i].pos;
        proof {
            assert(fits(boids@[i as int]));
            assert(boids@.subrange(0, i + 1).drop_last() =~= boids@.subrange(0, i as int));
            lemma_nonzero_square(p.x - q.x);
            lemma_nonzero_square(p.y - q.y);
        }
        if within(p, q, MIN_DISTANCE) && (p.x != q.x || p.y != q.y) {
            sx = sx + (p.x - q.x);
            sy = sy + (p.y - q.y);
        }
        i = i + 1;
    }
    assert(boids@.subrange(0, boids@.len() as int) =~= boids@);
    (sx, sy)
}

/// A quotient by `n * k` of a sum of at most `n` terms of size `m` is at most `m / k`.
proof fn lemma_mean_bound(a: int, n: int, k: int, m: int)
    requires
        n > 0,
        k > 0,
        abs(a) <= n * m,
    ensures
        k * abs(tdiv(a, n * k)) <= m,
{
    assert(n * k > 0) by (nonlinear_arith) requires n > 0, k > 0;
    lemma_tdiv_bound(a, n * k);
    let t = abs(tdiv(a, n * k));
    let q = tdiv(a, n * k);
    assert((n * k) * (-q) == -((n * k) * q)) by (nonlinear_arith);
    assert((n * k) * t <= n * m);
    assert(n * (k * t) <= n * m) by (nonlinear_arith) requires (n * k) * t <= n * m;
    assert(k * t <= m) by (nonlinear_arith) requires n * (k * t) <= n * m, n > 0;
}


/// Relies on `rand::Rng::gen_range` over `rand::thread_rng()`: a value of the
/// half-open range `lo..hi`, which must not be empty.
#[verifier::external_body]
fn random_in(lo: i64, hi: i64) -> (r: i64)
    requires
        lo < hi,
    ensures
        lo <= r < hi,
{
    rand::thread_rng().gen_range(lo..hi)
}

/// A step toward a mean, `v + (s / n - v) / k`, stays within any bound `m`
/// that holds `v` and the mean.
proof fn lemma_blend_bound(v: int, s: int, n: int, k: int, m: int)
    requires
        n > 0,
        k >= 1,
        abs(v) <= m,
        abs(s) <= n * m,
    ensures
        abs(v + tdiv(s - n * v, n * k)) <= m,
{
    let d = n * k;
    assert(d > 0) by (nonlinear_arith) requires n > 0, k >= 1, d == n * k;
    let e = s - n * v;
    let t = tdiv(e, d);
    lemma_tdiv_bound(e, d);
    assert(d * (v + t) == d * v + d * t) by (nonlinear_arith);
    assert(d * v == n * (k - 1) * v + n * v) by (nonlinear_arith) requires d == n * k;
    assert(d * m == n * (k - 1) * m + n * m) by (nonlinear_arith) requires d == n * k;
    assert(n * (k - 1) * v <= n * (k - 1) * m) by (nonlinear_arith) requires n > 0, k >= 1, v <= m;
    assert(n * (k - 1) * v >= -(n * (k - 1) * m)) by (nonlinear_arith) requires n > 0, k >= 1, v >= -m;
    assert(n * v <= n * m) by (nonlinear_arith) requires n > 0, v <= m;
    assert(n * v >= -(n * m)) by (nonlinear_arith) requires n > 0, v >= -m;
    assert(t >= 0 ==> d * t >= 0) by (nonlinear_arith) requires d > 0;
    assert(t <= 0 ==> d * t <= 0) by (nonlinear_arith) requires d > 0;
    if e >= 0 {
        assert(d * (v + t) <= d * m);
        assert(d * (v + t) >= -(d * m));
    } else {
        assert(d * (v + t) <= d * m);
        assert(d * (v + t) >= -(d * m));
    }
    assert(v + t <= m) by (nonlinear_arith) requires d * (v + t) <= d * m, d > 0;
    assert(v + t >= -m) by (nonlinear_arith) requires d * (v + t) >= -(d * m), d > 0;
}

proof fn lemma_square_le(a: int, b: int)
    requires
        abs(a) <= abs(b),
    ensures
        a * a <= b * b,
{
    assert(abs(a) * abs(a) <= abs(b) * abs(b)) by (nonlinear_arith)
        requires 0 <= abs(a) <= abs(b);
    assert(abs(a) * abs(a) == a * a) by (nonlinear_arith);
    assert(abs(b) * abs(b) == b * b) by (nonlinear_arith);
}

/// Scaling a vector by `l / r`, with `r` at least its length, gives one no longer than `l`.
proof fn lemma_scaled_length(vx: int, vy: int, r: int, l: int)
    requires
        r > 0,
        l >= 0,
        vx * vx + vy * vy <= r * r,
    ensures
        tdiv(vx * l, r) * tdiv(vx * l, r) + tdiv(vy * l, r) * tdiv(vy * l, r) <= l * l,
{
    let tx = tdiv(vx * l, r);
    let ty = tdiv(vy * l, r);
    lemma_tdiv_bound(vx * l, r);
    lemma_tdiv_bound(vy * l, r);
    assert(tx >= 0 ==> r * tx >= 0) by (nonlinear_arith) requires r > 0;
    assert(tx <= 0 ==> r * tx <= 0) by (nonlinear_arith) requires r > 0;
    assert(ty >= 0 ==> r * ty >= 0) by (nonlinear_arith) requires r > 0;
    assert(ty <= 0 ==> r * ty <= 0) by (nonlinear_arith) requires r > 0;
    lemma_square_le(r * tx, vx * l);
    lemma_square_le(r * ty, vy * l);
    assert(r * tx * (r * tx) == (r * r) * (tx * tx)) by (nonlinear_arith);
    assert(r * ty * (r * ty) == (r * r) * (ty * ty)) by (nonlinear_arith);
    assert((vx * l) * (vx * l) == (vx * vx) * (l * l)) by (nonlinear_arith);
    assert((vy * l) * (vy * l) == (vy * vy) * (l * l)) by (nonlinear_arith);
    assert((r * r) * (tx * tx + ty * ty) == (r * r) * (tx * tx) + (r * r) * (ty * ty)) by (nonlinear_arith);
    assert((vx * vx + vy * vy) * (l * l) == (vx * vx) * (l * l) + (vy * vy) * (l * l)) by (nonlinear_arith);
    assert((vx * vx + vy * vy) * (l * l) <= (r * r) * (l * l)) by (nonlinear_arith)
        requires
            vx * vx + vy * vy <= r * r,
    ;
    assert(tx * tx + ty * ty <= l * l) by (nonlinear_arith)
        requires
            (r * r) * (tx * tx + ty * ty) <= (r * r) * (l * l),
            r > 0,
    ;
}

/// Containment along one axis.
fn steer_axis(p: i64, v: i64, bound: i64) -> (r: i64)
    requires
        -COORD_MAX <= p <= COORD_MAX,
        -VEL_MAX <= v <= VEL_MAX,
        0 < bound <= COORD_MAX,
    ensures
        r == steer(p as int, v as int, bound as int),
        -VEL_MAX - TURN_FACTOR <= r <= VEL_MAX + TURN_FACTOR,
{
    let up = p < bound - EDGE_BUFFER;
    let down = p > EDGE_BUFFER;
    if up && down {
        let r = div_away_from_zero(v * DAMPING_NUM, DAMPING_DEN);
        proof {
            lemma_adiv_bound(v * DAMPING_NUM, DAMPING_DEN as int);
        }
        r
    } else if up {
        v + TURN_FACTOR
    } else if down {
        v - TURN_FACTOR
    } else {
        v
    }
}

impl Boid {
    /// A boid at a random position at least `SPAWN_INSET` inside the world,
    /// with each velocity component drawn from `[-SPEED_LIMIT / 2, SPEED_LIMIT / 2)`.
    pub fn new(win_width: i64, win_height: i64) -> (r: Boid)
        requires
            2 * SPAWN_INSET < win_width <= COORD_MAX,
            2 * SPAWN_INSET < win_height <= COORD_MAX,
        ensures
            SPAWN_INSET <= r.pos.x < win_width - SPAWN_INSET,
            SPAWN_INSET <= r.pos.y < win_height - SPAWN_INSET,
            -SPEED_LIMIT / 2 <= r.vel.x < SPEED_LIMIT / 2,
            -SPEED_LIMIT / 2 <= r.vel.y < SPEED_LIMIT / 2,
            fits(r),
            speed_sq(r.vel) <= SPEED_LIMIT * SPEED_LIMIT,
    {
        let x = random_in(SPAWN_INSET, win_width - SPAWN_INSET);
        let y = random_in(SPAWN_INSET, win_height - SPAWN_INSET);
        let vx = random_in(-SPEED_LIMIT / 2, SPEED_LIMIT / 2);
        let vy = random_in(-SPEED_LIMIT / 2, SPEED_LIMIT / 2);
        assert(vx * vx + vy * vy <= SPEED_LIMIT * SPEED_LIMIT) by (nonlinear_arith)
            requires
                -125_000 <= vx <= 125_000,
                -125_000 <= vy <= 125_000,
        ;
        Boid { pos: Vec2 { x, y }, vel: Vec2 { x: vx, y: vy } }
    }

    /// Cohesion: adds one twentieth of the mean offset to the boids in visual
    /// range (this one included), rounded toward zero.
    pub fn fly_to_center_of_mass(&mut self, boids: &[Boid])
        requires
            fits(*old(self)),
            flock_fits(boids@),
        ensures
            *final(self) == cohere(*old(self), boids@),
            abs(final(self).vel.x - old(self).vel.x) <= VISUAL_RANGE / CENTERING_DIV,
            abs(final(self).vel.y - old(self).vel.y) <= VISUAL_RANGE / CENTERING_DIV,
    {
        let (n, sx, sy) = scan_offsets(self.pos, boids);
        if n > 0 {
            let d = n * CENTERING_DIV;
            let ax = div_toward_zero(sx, d);
            let ay = div_toward_zero(sy, d);
            proof {
                lemma_mean_bound(sx as int, n as int, CENTERING_DIV as int, VISUAL_RANGE as int);
                lemma_mean_bound(sy as int, n as int, CENTERING_DIV as int, VISUAL_RANGE as int);
            }
            self.vel.x = self.vel.x + ax;
            self.vel.y = self.vel.y + ay;
        }
    }

    /// Separation: adds one half of the summed pushes `self.pos - other.pos`
    /// from the other boids closer than `MIN_DISTANCE`, rounded away from zero.
    pub fn avoid_others(&mut self, boids: &[Boid])
        requires
            fits(*old(self)),
            flock_fits(boids@),
        ensures
            *final(self) == separate(*old(self), boids@),
            abs(final(self).vel.x - old(self).vel.x) <= boids@.len() * (MIN_DISTANCE / AVOID_DIV),
            abs(final(self).vel.y - old(self).vel.y) <= boids@.len() * (MIN_DISTANCE / AVOID_DIV),
    {
        let (cx, cy) = scan_crowding(self.pos, boids);
        let ax = div_away_from_zero(cx, AVOID_DIV);
        let ay = div_away_from_zero(cy, AVOID_DIV);
        proof {
            let m = boids@.len() * MIN_DISTANCE;
            lemma_adiv_bound(cx as int, AVOID_DIV as int);
            lemma_adiv_bound(cy as int, AVOID_DIV as int);
            assert(MIN_DISTANCE / AVOID_DIV == 4500);
            assert(boids@.len() * 4500 * 2 == m);
        }
        self.vel.x = self.vel.x + ax;
        self.vel.y = self.vel.y + ay;
    }

    /// Alignment: adds one tenth of the gap between the mean velocity of the
    /// boids in visual range (this one included) and this one's velocity,
    /// rounded toward zero.
    pub fn match_velocity(&mut self, boids: &[Boid])
        requires
            fits(*old(self)),
            flock_fits(boids@),
        ensures
            *final(self) == align(*old(self), boids@),
            vel_fits(final(self).vel, VEL_MAX as int),
    {
        let (n, sx, sy) = scan_velocities(self.pos, boids);
        if n > 0 {
            let d = n * MATCHING_DIV;
            assert(-0x40_0000_0000_0000 <= n * self.vel.x <= 0x40_0000_0000_0000) by (nonlinear_arith)
                requires 0 <= n <= 100_000, -VEL_MAX <= self.vel.x <= VEL_MAX;
            assert(-0x40_0000_0000_0000 <= n * self.vel.y <= 0x40_0000_0000_0000) by (nonlinear_arith)
                requires 0 <= n <= 100_000, -VEL_MAX <= self.vel.y <= VEL_MAX;
            let ax = div_toward_zero(sx - n * self.vel.x, d);
            let ay = div_toward_zero(sy - n * self.vel.y, d);
            proof {
                lemma_blend_bound(self.vel.x as int, sx as int, n as int, MATCHING_DIV as int, VEL_MAX as int);
                lemma_blend_bound(self.vel.y as int, sy as int, n as int, MATCHING_DIV as int, VEL_MAX as int);
            }
            self.vel.x = self.vel.x + ax;
            self.vel.y = self.vel.y + ay;
        }
    }

    /// Containment: per axis, pushes up by `TURN_FACTOR` below
    /// `bound - EDGE_BUFFER`, down above `EDGE_BUFFER`, and where both pushes
    /// apply they cancel and the component is damped by four fifths, rounded away from zero.
    pub fn keep_within_bounds(&mut self, win_width: i64, win_height: i64)
        requires
            fits(*old(self)),
            0 < win_width <= COORD_MAX,
            0 < win_height <= COORD_MAX,
        ensures
            *final(self) == contain(*old(self), win_width as int, win_height as int),
            vel_fits(final(self).vel, VEL_MAX + TURN_FACTOR),
    {
        self.vel.x = steer_axis(self.pos.x, self.vel.x, win_width);
        self.vel.y = steer_axis(self.pos.y, self.vel.y, win_height);
    }

    /// The speed cap: a velocity longer than `SPEED_LIMIT` is scaled back to
    /// at most `SPEED_LIMIT`, keeping its direction up to rounding.
    pub fn limit_speed(&mut self)
        requires
            vel_fits(old(self).vel, 2 * VEL_MAX),
        ensures
            *final(self) == limit(*old(self)),
            speed_sq(final(self).vel) <= SPEED_LIMIT * SPEED_LIMIT,
    {
        let vx = self.vel.x;
        let vy = self.vel.y;
        assert(0 <= vx * vx <= 0x1000_0000_0000_0000) by (nonlinear_arith)
            requires -0x4000_0000 <= vx <= 0x4000_0000;
        assert(0 <= vy * vy <= 0x1000_0000_0000_0000) by (nonlinear_arith)
            requires -0x4000_0000 <= vy <= 0x4000_0000;
        assert(vx * vx + vy * vy <= 0x2000_0000_0000_0000) by (nonlinear_arith)
            requires
                -0x4000_0000 <= vx <= 0x4000_0000,
                -0x4000_0000 <= vy <= 0x4000_0000,
        ;
        let n = vx * vx + vy * vy;
        if n > SPEED_LIMIT * SPEED_LIMIT {
            let root = ceil_sqrt(n as u64);
            let r = root as i64;
            assert(n <= r * r);
            if r == 0 {
                assert(r * r == 0);
            }
            proof {
                lemma_scaled_length(vx as int, vy as int, r as int, SPEED_LIMIT as int);
            }
            self.vel.x = div_toward_zero(vx * SPEED_LIMIT, r);
            self.vel.y = div_toward_zero(vy * SPEED_LIMIT, r);
        }
    }

    /// Moves the boid by its velocity over `elapsed_us` microseconds, each
    /// step rounded away from zero and held to the coordinate range.
    pub fn advance_position(&mut self, elapsed_us: u32)
        requires
            pos_fits(old(self).pos),
            vel_fits(old(self).vel, 2 * VEL_MAX),
        ensures
            *final(self) == integrate(*old(self), elapsed_us as int),
            pos_fits(final(self).pos),
    {
        let t = elapsed_us as i64;
        assert(-0x4000_0000_0000_0000 <= self.vel.x * t <= 0x4000_0000_0000_0000) by (nonlinear_arith)
            requires -0x4000_0000 <= self.vel.x <= 0x4000_0000, 0 <= t <= 0xffff_ffff;
        assert(-0x4000_0000_0000_0000 <= self.vel.y * t <= 0x4000_0000_0000_0000) by (nonlinear_arith)
            requires -0x4000_0000 <= self.vel.y <= 0x4000_0000, 0 <= t <= 0xffff_ffff;
        let dx = div_away_from_zero(self.vel.x * t, MICROS);
        let dy = div_away_from_zero(self.vel.y * t, MICROS);
        proof {
            lemma_adiv_bound(self.vel.x * t, MICROS as int);
            lemma_adiv_bound(self.vel.y * t, MICROS as int);
        }
        self.pos.x = clamp(self.pos.x + dx);
        self.pos.y = clamp(self.pos.y + dy);
    }
}

fn clamp(c: i64) -> (r: i64)
    ensures
        r == clamp_coord(c as int),
{
    if c > COORD_MAX {
        COORD_MAX
    } else if c < -COORD_MAX {
        -COORD_MAX
    } else {
        c
    }
}

} // verus!
