use vstd::prelude::*;
use vstd::seq_lib::{commutative_foldl, lemma_fold_left_permutation};
use crate::arith::{adiv, tdiv, lemma_adiv_bound, lemma_tdiv_bound};
use crate::boids::{
    Boid, Vec2, align, dist_sq, cohere, contain, crowding, crowds, integrate, limit, neighbor_count,
    neighbor_offset, neighbor_velocity, pos_fits, separate, sees, clamp_coord, COORD_MAX, DAMPING_DEN,
    DAMPING_NUM, EDGE_BUFFER, MICROS, MIN_DISTANCE,
};
use crate::simulation::{advance, tick};

verus! {

/// A boid alone: cohesion, separation and alignment leave it as it is (it
/// is its own only neighbour, and never crowds itself), so a tick only
/// contains, caps and moves it.
pub proof fn lone_boid_is_only_contained_and_moved(b: Boid, width: int, height: int, elapsed_us: int)
    ensures
        cohere(b, seq![b]) == b,
        separate(b, seq![b]) == b,
        align(b, seq![b]) == b,
        advance(b, seq![b], width, height, elapsed_us) == integrate(limit(contain(b, width, height)), elapsed_us),
{
    let f = seq![b];
    assert(f.drop_last() =~= Seq::<Boid>::empty());
    assert(f.last() == b);
    assert(sees(b.pos, b.pos));
    assert(!crowds(b.pos, b.pos));
    assert(neighbor_count(b.pos, Seq::<Boid>::empty()) == 0);
    assert(neighbor_offset(b.pos, Seq::<Boid>::empty()) == (0int, 0int));
    assert(neighbor_velocity(b.pos, Seq::<Boid>::empty()) == (0int, 0int));
    assert(crowding(b.pos, Seq::<Boid>::empty()) == (0int, 0int));
    assert(neighbor_count(b.pos, f) == 1);
    assert(neighbor_offset(b.pos, f) == (0int, 0int));
    assert(neighbor_velocity(b.pos, f) == (b.vel.x as int, b.vel.y as int));
    assert(crowding(b.pos, f) == (0int, 0int));
}

pub open spec fn rest(p: Vec2) -> Boid {
    Boid { pos: p, vel: Vec2 { x: 0, y: 0 } }
}

/// The velocity a boid has after the three flocking rules.
pub open spec fn flocking_vel(b: Boid, flock: Seq<Boid>) -> Vec2 {
    align(separate(cohere(b, flock), flock), flock).vel
}

/// Velocity after the flocking rules, along one axis, for a boid at rest
/// whose only other neighbour, also at rest, is offset by `-d` from it.
pub open spec fn pair_push(d: int) -> int {
    let g = tdiv(-d, 2int * 20int) + adiv(d, 2int);
    g + tdiv(0 - 2 * g, 2int * 10int)
}

proof fn lemma_pair_push_nonneg(d: int)
    requires
        0 <= d < MIN_DISTANCE,
    ensures
        pair_push(-d) == -pair_push(d),
        0 <= pair_push(d) < MIN_DISTANCE,
        d >= 1 ==> pair_push(d) > 0,
{
    lemma_adiv_bound(d, 2);
    let h = adiv(d, 2);
    let k = d / 40;
    assert(d <= 2 * h < d + 2);
    assert(40 * k <= d < 40 * k + 40);
    assert(tdiv(-d, 40) == -k);
    let g = h - k;
    assert(0 <= g <= h);
    assert(d >= 1 ==> g >= 1);
    let m = (2 * g) / 20;
    assert(20 * m <= 2 * g < 20 * m + 20);
    assert(tdiv(0 - 2 * g, 20) == -m);
    assert(pair_push(d) == g - m);
    assert(tdiv(d, 40) == k);
    assert(adiv(-d, 2) == -h);
    assert(tdiv(0 - 2 * (-g), 20) == m);
    assert(pair_push(-d) == -g + m);
}

proof fn lemma_pair_push(d: int)
    requires
        -MIN_DISTANCE < d < MIN_DISTANCE,
    ensures
        pair_push(-d) == -pair_push(d),
        d > 0 ==> pair_push(d) > 0,
        d < 0 ==> pair_push(d) < 0,
        d == 0 ==> pair_push(d) == 0,
        -MIN_DISTANCE < pair_push(d) < MIN_DISTANCE,
{
    if d >= 0 {
        lemma_pair_push_nonneg(d);
    } else {
        lemma_pair_push_nonneg(-d);
        assert(pair_push(d) == -pair_push(-d));
    }
}

proof fn lemma_pair_flocking(p: Vec2, q: Vec2)
    requires
        pos_fits(p),
        pos_fits(q),
        crowds(p, q),
    ensures
        -MIN_DISTANCE < p.x - q.x < MIN_DISTANCE,
        -MIN_DISTANCE < p.y - q.y < MIN_DISTANCE,
        ({
            let flock = seq![rest(p), rest(q)];
            let c = align(separate(cohere(rest(p), flock), flock), flock);
            &&& c.pos == p
            &&& c.vel == Vec2 { x: pair_push(p.x - q.x) as i64, y: pair_push(p.y - q.y) as i64 }
        }),
        ({
            let flock = seq![rest(p), rest(q)];
            let c = align(separate(cohere(rest(q), flock), flock), flock);
            &&& c.pos == q
            &&& c.vel == Vec2 { x: pair_push(q.x - p.x) as i64, y: pair_push(q.y - p.y) as i64 }
        }),
{
    let a = rest(p);
    let b = rest(q);
    let flock = seq![a, b];
    let dx = p.x - q.x;
    let dy = p.y - q.y;
    assert(dx * dx >= 0 && dy * dy >= 0) by (nonlinear_arith);
    assert(-MIN_DISTANCE < dx < MIN_DISTANCE) by (nonlinear_arith)
        requires dx * dx + dy * dy < 81_000_000, dy * dy >= 0;
    assert(-MIN_DISTANCE < dy < MIN_DISTANCE) by (nonlinear_arith)
        requires dx * dx + dy * dy < 81_000_000, dx * dx >= 0;
    lemma_pair_push(dx);
    lemma_pair_push(dy);
    assert(flock.drop_last() =~= seq![a]);
    assert(seq![a].drop_last() =~= Seq::<Boid>::empty());
    assert(flock.last() == b);
    assert(seq![a].last() == a);
    assert((q.x - p.x) * (q.x - p.x) == (p.x - q.x) * (p.x - q.x)) by (nonlinear_arith);
    assert((q.y - p.y) * (q.y - p.y) == (p.y - q.y) * (p.y - q.y)) by (nonlinear_arith);
    assert(dist_sq(q, p) == dist_sq(p, q));
    assert(dist_sq(p, p) == 0 && dist_sq(q, q) == 0);
    assert(sees(p, p) && sees(q, q));
    assert(sees(p, q) && sees(q, p));
    assert(crowds(q, p));
    assert(!crowds(p, p) && !crowds(q, q));
    let e = Seq::<Boid>::empty();
    assert(neighbor_count(p, e) == 0 && neighbor_count(q, e) == 0);
    assert(neighbor_offset(p, e) == (0int, 0int) && neighbor_offset(q, e) == (0int, 0int));
    assert(neighbor_velocity(p, e) == (0int, 0int) && neighbor_velocity(q, e) == (0int, 0int));
    assert(crowding(p, e) == (0int, 0int) && crowding(q, e) == (0int, 0int));
    let one = seq![a];
    assert(neighbor_count(p, one) == 1 && neighbor_count(q, one) == 1);
    assert(neighbor_offset(p, one) == (0int, 0int));
    assert(neighbor_offset(q, one) == (dx, dy));
    assert(neighbor_velocity(p, one) == (0int, 0int) && neighbor_velocity(q, one) == (0int, 0int));
    assert(crowding(p, one) == (0int, 0int));
    assert(crowding(q, one) == (-dx, -dy));
    assert(neighbor_count(p, flock) == 2 && neighbor_count(q, flock) == 2);
    assert(neighbor_offset(p, flock) == (-dx, -dy));
    assert(neighbor_offset(q, flock) == (dx, dy));
    assert(neighbor_velocity(p, flock) == (0int, 0int));
    assert(neighbor_velocity(q, flock) == (0int, 0int));
    assert(crowding(p, flock) == (dx, dy));
    assert(crowding(q, flock) == (-dx, -dy));
    lemma_tdiv_bound(dx, 40);
    lemma_tdiv_bound(dy, 40);
    lemma_adiv_bound(dx, 2);
    lemma_adiv_bound(dy, 2);
    let ca = cohere(a, flock);
    assert(ca.pos == p && ca.vel.x == tdiv(-dx, 2int * 20int) && ca.vel.y == tdiv(-dy, 2int * 20int));
    let sa = separate(ca, flock);
    assert(sa.pos == p && sa.vel.x == tdiv(-dx, 2int * 20int) + adiv(dx, 2int));
    assert(sa.vel.y == tdiv(-dy, 2int * 20int) + adiv(dy, 2int));
    let cb = cohere(b, flock);
    assert(cb.pos == q && cb.vel.x == tdiv(dx, 2int * 20int) && cb.vel.y == tdiv(dy, 2int * 20int));
    let sb = separate(cb, flock);
    assert(sb.pos == q && sb.vel.x == tdiv(dx, 2int * 20int) + adiv(-dx, 2int));
    assert(sb.vel.y == tdiv(dy, 2int * 20int) + adiv(-dy, 2int));
    assert(flocking_vel(a, flock) == Vec2 { x: pair_push(dx) as i64, y: pair_push(dy) as i64 });
    assert(flocking_vel(b, flock) == Vec2 { x: pair_push(-dx) as i64, y: pair_push(-dy) as i64 });
    assert(q.x - p.x == -dx && q.y - p.y == -dy);
}

/// Two boids at rest closer than the minimum distance: after cohesion,
/// separation and alignment their velocities are opposite, and each points
/// away from the other along each axis on which they are apart.
pub proof fn crowded_pair_pushed_apart(p: Vec2, q: Vec2)
    requires
        pos_fits(p),
        pos_fits(q),
        crowds(p, q),
    ensures
        ({
            let flock = seq![rest(p), rest(q)];
            let va = flocking_vel(rest(p), flock);
            let vb = flocking_vel(rest(q), flock);
            &&& va.x == -vb.x
            &&& va.y == -vb.y
            &&& p.x > q.x ==> va.x > 0
            &&& p.x < q.x ==> va.x < 0
            &&& p.x == q.x ==> va.x == 0
            &&& p.y > q.y ==> va.y > 0
            &&& p.y < q.y ==> va.y < 0
            &&& p.y == q.y ==> va.y == 0
        }),
{
    lemma_pair_flocking(p, q);
    lemma_pair_push(p.x - q.x);
    lemma_pair_push(p.y - q.y);
    assert(q.x - p.x == -(p.x - q.x));
    assert(q.y - p.y == -(p.y - q.y));
}

/// `p` lies where containment damps both axes: farther than `EDGE_BUFFER`
/// from every edge of the world.
pub open spec fn in_middle_band(p: Vec2, width: int, height: int) -> bool {
    &&& EDGE_BUFFER < p.x < width - EDGE_BUFFER
    &&& EDGE_BUFFER < p.y < height - EDGE_BUFFER
}

proof fn lemma_damp(v: int)
    requires
        -MIN_DISTANCE < v < MIN_DISTANCE,
    ensures
        adiv(v * DAMPING_NUM, DAMPING_DEN as int) == -adiv(-v * DAMPING_NUM, DAMPING_DEN as int),
        v > 0 ==> 0 < adiv(v * DAMPING_NUM, DAMPING_DEN as int) <= v,
        v < 0 ==> v <= adiv(v * DAMPING_NUM, DAMPING_DEN as int) < 0,
        v == 0 ==> adiv(v * DAMPING_NUM, DAMPING_DEN as int) == 0,
{
    lemma_adiv_bound(v * 4, 5);
    assert(-v * 4 == -(v * 4));
}

proof fn lemma_move_along(c: int, v: int, t: int)
    requires
        -COORD_MAX < c < COORD_MAX,
        -MIN_DISTANCE < v < MIN_DISTANCE,
        t > 0,
    ensures
        v > 0 ==> clamp_coord(c + adiv(v * t, MICROS as int)) > c,
        v < 0 ==> clamp_coord(c + adiv(v * t, MICROS as int)) < c,
        v == 0 ==> clamp_coord(c + adiv(v * t, MICROS as int)) == c,
{
    assert(v > 0 ==> v * t > 0) by (nonlinear_arith) requires t > 0;
    assert(v < 0 ==> v * t < 0) by (nonlinear_arith) requires t > 0;
    assert(v == 0 ==> v * t == 0);
    lemma_adiv_bound(v * t, MICROS as int);
    assert(v == 0 ==> adiv(v * t, MICROS as int) == 0) by (nonlinear_arith)
        requires
            v == 0 ==> v * t == 0,
            v * t >= 0 ==> 0 <= adiv(v * t, MICROS as int) && MICROS * adiv(v * t, MICROS as int) < v * t + MICROS,
            MICROS == 1_000_000;
}

proof fn lemma_axis_apart(d: int, e: int)
    requires
        d > 0 ==> e > d,
        d < 0 ==> e < d,
        d == 0 ==> e == 0,
    ensures
        e * e >= d * d,
        d != 0 ==> e * e > d * d,
{
    assert(e * e >= d * d && (d != 0 ==> e * e > d * d)) by (nonlinear_arith)
        requires d > 0 ==> e > d, d < 0 ==> e < d, d == 0 ==> e == 0;
}

/// Two boids at rest closer than the minimum distance, both in the middle
/// band of the world: after one tick of positive length their velocities are
/// opposite, along each axis on which they are apart each has moved away
/// from the other, and they end strictly farther apart.
pub proof fn crowded_pair_moves_apart(p: Vec2, q: Vec2, width: int, height: int, elapsed_us: int)
    requires
        pos_fits(p),
        pos_fits(q),
        crowds(p, q),
        width <= COORD_MAX,
        height <= COORD_MAX,
        in_middle_band(p, width, height),
        in_middle_band(q, width, height),
        elapsed_us > 0,
    ensures
        ({
            let flock = seq![rest(p), rest(q)];
            let a = advance(rest(p), flock, width, height, elapsed_us);
            let b = advance(rest(q), flock, width, height, elapsed_us);
            &&& a.vel.x == -b.vel.x
            &&& a.vel.y == -b.vel.y
            &&& p.x > q.x ==> a.pos.x > p.x && b.pos.x < q.x
            &&& p.x < q.x ==> a.pos.x < p.x && b.pos.x > q.x
            &&& p.x == q.x ==> a.pos.x == p.x && b.pos.x == q.x
            &&& p.y > q.y ==> a.pos.y > p.y && b.pos.y < q.y
            &&& p.y < q.y ==> a.pos.y < p.y && b.pos.y > q.y
            &&& p.y == q.y ==> a.pos.y == p.y && b.pos.y == q.y
            &&& dist_sq(a.pos, b.pos) > dist_sq(p, q)
        }),
{
    let dx = p.x - q.x;
    let dy = p.y - q.y;
    lemma_pair_flocking(p, q);
    lemma_pair_push(dx);
    lemma_pair_push(dy);
    assert(q.x - p.x == -dx);
    assert(q.y - p.y == -dy);
    let (ux, uy) = (pair_push(dx), pair_push(dy));
    lemma_damp(ux);
    lemma_damp(uy);
    let (wx, wy) = (adiv(ux * DAMPING_NUM, DAMPING_DEN as int), adiv(uy * DAMPING_NUM, DAMPING_DEN as int));
    let flock = seq![rest(p), rest(q)];
    let ca = contain(align(separate(cohere(rest(p), flock), flock), flock), width, height);
    let cb = contain(align(separate(cohere(rest(q), flock), flock), flock), width, height);
    assert(ca.pos == p && ca.vel.x == wx && ca.vel.y == wy);
    assert(cb.pos == q && cb.vel.x == -wx && cb.vel.y == -wy);
    assert(wx * wx <= 81_000_000 && wy * wy <= 81_000_000) by (nonlinear_arith)
        requires -9000 < wx < 9000, -9000 < wy < 9000;
    assert((-wx) * (-wx) == wx * wx && (-wy) * (-wy) == wy * wy) by (nonlinear_arith);
    assert(limit(ca) == ca);
    assert(limit(cb) == cb);
    lemma_move_along(p.x as int, wx, elapsed_us);
    lemma_move_along(p.y as int, wy, elapsed_us);
    lemma_move_along(q.x as int, -wx, elapsed_us);
    lemma_move_along(q.y as int, -wy, elapsed_us);
    let a = integrate(ca, elapsed_us);
    let b = integrate(cb, elapsed_us);
    lemma_axis_apart(dx, a.pos.x - b.pos.x);
    lemma_axis_apart(dy, a.pos.y - b.pos.y);
    assert(dx != 0 || dy != 0);
}

/// A tick is a function of the flock, the world and the elapsed time alone:
/// two ticks from the same snapshot agree, boid by boid.
pub proof fn tick_is_deterministic(
    f1: Seq<Boid>,
    f2: Seq<Boid>,
    width: int,
    height: int,
    elapsed_us: int,
)
    requires
        f1 == f2,
    ensures
        tick(f1, width, height, elapsed_us) == tick(f2, width, height, elapsed_us),
        forall|i: int|
            0 <= i < f1.len() ==> #[trigger] tick(f1, width, height, elapsed_us)[i] == advance(
                f2[i],
                f2,
                width,
                height,
                elapsed_us,
            ),
{
}


pub open spec fn count_step(p: Vec2) -> spec_fn(int, Boid) -> int {
    |acc: int, b: Boid| acc + if sees(p, b.pos) { 1int } else { 0int }
}

pub open spec fn offset_step(p: Vec2) -> spec_fn((int, int), Boid) -> (int, int) {
    |acc: (int, int), b: Boid|
        if sees(p, b.pos) { (acc.0 + (b.pos.x - p.x), acc.1 + (b.pos.y - p.y)) } else { acc }
}

pub open spec fn velocity_step(p: Vec2) -> spec_fn((int, int), Boid) -> (int, int) {
    |acc: (int, int), b: Boid| if sees(p, b.pos) { (acc.0 + b.vel.x, acc.1 + b.vel.y) } else { acc }
}

pub open spec fn crowding_step(p: Vec2) -> spec_fn((int, int), Boid) -> (int, int) {
    |acc: (int, int), b: Boid|
        if crowds(p, b.pos) { (acc.0 + (p.x - b.pos.x), acc.1 + (p.y - b.pos.y)) } else { acc }
}

proof fn lemma_sums_are_folds(p: Vec2, s: Seq<Boid>)
    ensures
        neighbor_count(p, s) == s.fold_left(0int, count_step(p)),
        neighbor_offset(p, s) == s.fold_left((0int, 0int), offset_step(p)),
        neighbor_velocity(p, s) == s.fold_left((0int, 0int), velocity_step(p)),
        crowding(p, s) == s.fold_left((0int, 0int), crowding_step(p)),
    decreases s.len(),
{
    if s.len() > 0 {
        lemma_sums_are_folds(p, s.drop_last());
    }
}

proof fn lemma_sums_ignore_order(p: Vec2, f1: Seq<Boid>, f2: Seq<Boid>)
    requires
        f1.to_multiset() == f2.to_multiset(),
    ensures
        neighbor_count(p, f1) == neighbor_count(p, f2),
        neighbor_offset(p, f1) == neighbor_offset(p, f2),
        neighbor_velocity(p, f1) == neighbor_velocity(p, f2),
        crowding(p, f1) == crowding(p, f2),
{
    lemma_sums_are_folds(p, f1);
    lemma_sums_are_folds(p, f2);
    assert(commutative_foldl(count_step(p)));
    assert(commutative_foldl(offset_step(p)));
    assert(commutative_foldl(velocity_step(p)));
    assert(commutative_foldl(crowding_step(p)));
    lemma_fold_left_permutation(f1, f2, count_step(p), 0int);
    lemma_fold_left_permutation(f1, f2, offset_step(p), (0int, 0int));
    lemma_fold_left_permutation(f1, f2, velocity_step(p), (0int, 0int));
    lemma_fold_left_permutation(f1, f2, crowding_step(p), (0int, 0int));
}

/// A boid's tick does not depend on the order in which the flock is held:
/// two flocks with the same members give it the same next state.
pub proof fn advance_ignores_flock_order(
    b: Boid,
    f1: Seq<Boid>,
    f2: Seq<Boid>,
    width: int,
    height: int,
    elapsed_us: int,
)
    requires
        f1.to_multiset() == f2.to_multiset(),
    ensures
        advance(b, f1, width, height, elapsed_us) == advance(b, f2, width, height, elapsed_us),
{
    lemma_sums_ignore_order(b.pos, f1, f2);
    let c1 = cohere(b, f1);
    assert(c1 == cohere(b, f2));
    lemma_sums_ignore_order(c1.pos, f1, f2);
    let s1 = separate(c1, f1);
    assert(s1 == separate(c1, f2));
    lemma_sums_ignore_order(s1.pos, f1, f2);
    assert(align(s1, f1) == align(s1, f2));
}

/// Reordering the flock reorders the tick the same way: a boid held at
/// place `i` of one order and at place `j` of another gets the same next
/// state in both.
pub proof fn tick_ignores_flock_order(
    f1: Seq<Boid>,
    f2: Seq<Boid>,
    width: int,
    height: int,
    elapsed_us: int,
)
    requires
        f1.to_multiset() == f2.to_multiset(),
    ensures
        forall|i: int, j: int|
            0 <= i < f2.len() && 0 <= j < f1.len() && f2[i] == f1[j] ==> #[trigger] tick(
                f2,
                width,
                height,
                elapsed_us,
            )[i] == #[trigger] tick(f1, width, height, elapsed_us)[j],
{
    assert forall|i: int, j: int|
        0 <= i < f2.len() && 0 <= j < f1.len() && f2[i] == f1[j] implies #[trigger] tick(
            f2,
            width,
            height,
            elapsed_us,
        )[i] == #[trigger] tick(f1, width, height, elapsed_us)[j] by {
        advance_ignores_flock_order(f1[j], f1, f2, width, height, elapsed_us);
    }
}

} // verus!
