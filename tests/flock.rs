use boids::arith::{ceil_sqrt, div_away_from_zero, div_toward_zero};
use boids::boids::{Boid, Vec2, COORD_MAX, MAX_POPULATION, SPAWN_INSET, SPEED_LIMIT};
use boids::simulation::{agent_in_range, ConfigError, Simulation};

const W: i64 = 1_280_000;
const H: i64 = 720_000;

fn boid(px: i64, py: i64, vx: i64, vy: i64) -> Boid {
    Boid { pos: Vec2 { x: px, y: py }, vel: Vec2 { x: vx, y: vy } }
}

fn speed_sq(b: &Boid) -> i64 {
    b.vel.x * b.vel.x + b.vel.y * b.vel.y
}

#[test]
fn pair_separates_along_x() {
    let a = boid(100_000, 100_000, 0, 0);
    let b = boid(105_000, 100_000, 0, 0);
    let mut sim = Simulation::from_agents(vec![a, b], W, H).unwrap();
    sim.step(16_667);
    let after = sim.agents();
    assert!(after[0].pos.x < 100_000);
    assert!(after[1].pos.x > 105_000);
    assert_eq!(after[0], boid(99_971, 100_000, -1711, 0));
    assert_eq!(after[1], boid(105_029, 100_000, 1711, 0));
}

#[test]
fn pair_separates_along_y() {
    let a = boid(640_000, 360_000, 0, 0);
    let b = boid(640_000, 362_000, 0, 0);
    let mut sim = Simulation::from_agents(vec![a, b], W, H).unwrap();
    sim.step(100_000);
    let after = sim.agents();
    assert!(after[0].pos.y < 360_000);
    assert!(after[1].pos.y > 362_000);
    assert_eq!(after[0].vel.x, 0);
    assert_eq!(after[0].vel.y, -after[1].vel.y);
}

#[test]
fn close_pair_moves_apart() {
    let a = boid(100_000, 100_000, 0, 0);
    let b = boid(100_100, 100_000, 0, 0);
    let mut sim = Simulation::from_agents(vec![a, b], W, H).unwrap();
    sim.step(16_667);
    let after = sim.agents();
    assert_eq!(after[0], boid(99_999, 100_000, -36, 0));
    assert_eq!(after[1], boid(100_101, 100_000, 36, 0));
}

#[test]
fn touching_pair_moves_apart() {
    let a = boid(100_000, 100_000, 0, 0);
    let b = boid(100_001, 100_000, 0, 0);
    let mut sim = Simulation::from_agents(vec![a, b], W, H).unwrap();
    sim.step(16_667);
    let after = sim.agents();
    assert_eq!(after[0].pos, Vec2 { x: 99_999, y: 100_000 });
    assert_eq!(after[1].pos, Vec2 { x: 100_002, y: 100_000 });
}

#[test]
fn speed_stays_capped() {
    let mut sim = Simulation::new(300, W, H).unwrap();
    for _ in 0..20 {
        sim.step(16_667);
        for b in sim.agents() {
            assert!(speed_sq(b) <= SPEED_LIMIT * SPEED_LIMIT);
        }
    }
}

#[test]
fn crowded_flock_stays_capped() {
    let agents: Vec<Boid> = (0..50).map(|i| boid(640_000 + i * 10, 360_000, 0, 0)).collect();
    let mut sim = Simulation::from_agents(agents, W, H).unwrap();
    for _ in 0..5 {
        sim.step(16_667);
        for b in sim.agents() {
            assert!(speed_sq(b) <= SPEED_LIMIT * SPEED_LIMIT);
        }
    }
}

#[test]
fn lone_boid_is_only_contained_and_moved() {
    let mut sim = Simulation::from_agents(vec![boid(640_000, 360_000, 1000, -2000)], W, H).unwrap();
    sim.step(1_000_000);
    assert_eq!(sim.agents()[0], boid(640_800, 358_400, 800, -1600));
}

#[test]
fn lone_boid_near_edge_turns_back() {
    let mut sim = Simulation::from_agents(vec![boid(20_000, 700_000, 0, 0)], W, H).unwrap();
    sim.step(500_000);
    assert_eq!(sim.agents()[0], boid(28_000, 692_000, 16_000, -16_000));
}

#[test]
fn step_is_deterministic() {
    let first = Simulation::new(40, W, H).unwrap();
    let agents: Vec<Boid> = first.agents().to_vec();
    let mut one = Simulation::from_agents(agents.clone(), W, H).unwrap();
    let mut two = Simulation::from_agents(agents, W, H).unwrap();
    for _ in 0..10 {
        one.step(16_667);
        two.step(16_667);
    }
    assert_eq!(one.agents(), two.agents());
}

#[test]
fn step_reads_the_snapshot() {
    let a = boid(100_000, 100_000, 0, 0);
    let b = boid(105_000, 100_000, 0, 0);
    let mut forward = Simulation::from_agents(vec![a, b], W, H).unwrap();
    let mut backward = Simulation::from_agents(vec![b, a], W, H).unwrap();
    forward.step(16_667);
    backward.step(16_667);
    assert_eq!(forward.agents()[0], backward.agents()[1]);
    assert_eq!(forward.agents()[1], backward.agents()[0]);
}

#[test]
fn population_size_is_kept() {
    let mut sim = Simulation::new(7, W, H).unwrap();
    assert_eq!(sim.agents().len(), 7);
    for _ in 0..10 {
        sim.step(16_667);
        assert_eq!(sim.agents().len(), 7);
    }
    assert_eq!(sim.width(), W);
    assert_eq!(sim.height(), H);
}

#[test]
fn new_places_boids_inside_the_inset() {
    let sim = Simulation::new(300, W, H).unwrap();
    assert_eq!(sim.agents().len(), 300);
    for b in sim.agents() {
        assert!(SPAWN_INSET <= b.pos.x && b.pos.x < W - SPAWN_INSET);
        assert!(SPAWN_INSET <= b.pos.y && b.pos.y < H - SPAWN_INSET);
        assert!(-SPEED_LIMIT / 2 <= b.vel.x && b.vel.x < SPEED_LIMIT / 2);
        assert!(-SPEED_LIMIT / 2 <= b.vel.y && b.vel.y < SPEED_LIMIT / 2);
    }
}

#[test]
fn new_boids_are_spread_out() {
    let first = Boid::new(W, H);
    let spread = (0..50).map(|_| Boid::new(W, H)).any(|b| b.pos != first.pos || b.vel != first.vel);
    assert!(spread);
}

#[test]
fn empty_population_is_refused() {
    assert_eq!(Simulation::new(0, W, H).err(), Some(ConfigError::EmptyPopulation));
    assert_eq!(Simulation::from_agents(vec![], W, H).err(), Some(ConfigError::EmptyPopulation));
}

#[test]
fn too_large_population_is_refused() {
    assert_eq!(Simulation::new(MAX_POPULATION + 1, W, H).err(), Some(ConfigError::PopulationTooLarge));
}

#[test]
fn bad_world_size_is_refused() {
    assert_eq!(Simulation::new(10, 0, H).err(), Some(ConfigError::BadWorldSize));
    assert_eq!(Simulation::new(10, W, -5).err(), Some(ConfigError::BadWorldSize));
    assert_eq!(Simulation::new(10, 2 * SPAWN_INSET, H).err(), Some(ConfigError::BadWorldSize));
    assert_eq!(Simulation::new(10, COORD_MAX + 1, H).err(), Some(ConfigError::BadWorldSize));
    let one = vec![boid(10, 10, 0, 0)];
    assert_eq!(Simulation::from_agents(one.clone(), 0, H).err(), Some(ConfigError::BadWorldSize));
    assert!(Simulation::from_agents(one, 1, 1).is_ok());
}

#[test]
fn bad_agent_is_refused() {
    let fast = vec![boid(10, 10, 0, 0), boid(10, 10, 200_000, 200_000)];
    assert_eq!(Simulation::from_agents(fast, W, H).err(), Some(ConfigError::BadAgent));
    let far = vec![boid(COORD_MAX + 1, 0, 0, 0)];
    assert_eq!(Simulation::from_agents(far, W, H).err(), Some(ConfigError::BadAgent));
    assert!(!agent_in_range(&boid(0, 0, SPEED_LIMIT + 1, 0)));
    assert!(agent_in_range(&boid(0, 0, SPEED_LIMIT, 0)));
    assert!(agent_in_range(&boid(-COORD_MAX, COORD_MAX, 150_000, -200_000)));
}

#[test]
fn cohesion_moves_toward_the_centre() {
    let mut me = boid(0, 0, 0, 0);
    let flock = [me, boid(10_000, 0, 0, 0), boid(100_000, 0, 0, 0)];
    me.fly_to_center_of_mass(&flock);
    assert_eq!(me, boid(0, 0, 250, 0));
}

#[test]
fn cohesion_without_neighbours_changes_nothing() {
    let mut me = boid(0, 0, 7, 9);
    me.fly_to_center_of_mass(&[boid(50_000, 0, 0, 0)]);
    assert_eq!(me, boid(0, 0, 7, 9));
}

#[test]
fn separation_push_is_never_lost() {
    let mut me = boid(0, 0, 0, 0);
    me.avoid_others(&[me, boid(1, 0, 0, 0)]);
    assert_eq!(me.vel, Vec2 { x: -1, y: 0 });
}

#[test]
fn separation_pushes_away() {
    let mut me = boid(0, 0, 10, 10);
    let flock = [me, boid(3_000, 4_000, 0, 0), boid(9_000, 0, 0, 0)];
    me.avoid_others(&flock);
    assert_eq!(me, boid(0, 0, -1_490, -1_990));
}

#[test]
fn alignment_matches_the_mean() {
    let mut me = boid(0, 0, 100, 0);
    let flock = [me, boid(1_000, 0, 300, -50)];
    me.match_velocity(&flock);
    assert_eq!(me, boid(0, 0, 110, -2));
}

#[test]
fn containment_pushes_and_damps() {
    let mut near = boid(20_000, 700_000, 0, 0);
    near.keep_within_bounds(W, H);
    assert_eq!(near.vel, Vec2 { x: 16_000, y: -16_000 });
    let mut middle = boid(640_000, 360_000, 1_000, -999);
    middle.keep_within_bounds(W, H);
    assert_eq!(middle.vel, Vec2 { x: 800, y: -800 });
    let mut tiny = boid(60, 60, 5, 5);
    tiny.keep_within_bounds(100, 100);
    assert_eq!(tiny.vel, Vec2 { x: 5, y: 5 });
}

#[test]
fn speed_limit_rescales() {
    let mut b = boid(0, 0, 300_000, 400_000);
    b.limit_speed();
    assert_eq!(b.vel, Vec2 { x: 150_000, y: 200_000 });
    let mut c = boid(0, 0, -250_001, 0);
    c.limit_speed();
    assert_eq!(c.vel, Vec2 { x: -250_000, y: 0 });
    let mut d = boid(0, 0, 200_000, 150_000);
    d.limit_speed();
    assert_eq!(d.vel, Vec2 { x: 200_000, y: 150_000 });
    let mut e = boid(0, 0, 300_000, 300_000);
    e.limit_speed();
    assert_eq!(e.vel, Vec2 { x: 176_776, y: 176_776 });
    assert!(speed_sq(&e) <= SPEED_LIMIT * SPEED_LIMIT);
}

#[test]
fn position_follows_velocity() {
    let mut b = boid(1_000, 2_000, 3_000, -4_000);
    b.advance_position(500_000);
    assert_eq!(b.pos, Vec2 { x: 2_500, y: 0 });
    let mut edge = boid(COORD_MAX - 10, -COORD_MAX + 10, 250_000, -250_000);
    edge.advance_position(1_000_000);
    assert_eq!(edge.pos, Vec2 { x: COORD_MAX, y: -COORD_MAX });
}

#[test]
fn integer_helpers() {
    assert_eq!(div_toward_zero(-7, 2), -3);
    assert_eq!(div_toward_zero(7, 2), 3);
    assert_eq!(div_away_from_zero(7, 2), 4);
    assert_eq!(div_away_from_zero(-7, 2), -4);
    assert_eq!(div_away_from_zero(-6, 2), -3);
    assert_eq!(div_away_from_zero(0, 5), 0);
    assert_eq!(ceil_sqrt(0), 0);
    assert_eq!(ceil_sqrt(10), 4);
    assert_eq!(ceil_sqrt(16), 4);
    assert_eq!(ceil_sqrt(180_000_000_000), 424_265);
}

#[test]
fn reversed_flock_gives_the_same_tick() {
    let first = Simulation::new(30, 200_000, 200_000).unwrap();
    let agents: Vec<Boid> = first.agents().to_vec();
    let mut reversed_agents = agents.clone();
    reversed_agents.reverse();
    let mut forward = Simulation::from_agents(agents, 200_000, 200_000).unwrap();
    let mut backward = Simulation::from_agents(reversed_agents, 200_000, 200_000).unwrap();
    forward.step(16_667);
    backward.step(16_667);
    let n = forward.agents().len();
    for i in 0..n {
        assert_eq!(forward.agents()[i], backward.agents()[n - 1 - i]);
    }
}
