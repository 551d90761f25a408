use vstd::prelude::*;
use crate::boids::{
    Boid, Vec2, align, cohere, contain, fits, flock_fits, integrate, limit, pos_fits, separate, speed_sq,
    vel_fits, COORD_MAX, MAX_POPULATION, VEL_MAX, SPAWN_INSET, SPEED_LIMIT,
};

verus! {

/// Why a simulation could not be set up.
#[derive(Clone, Copy, Debug, PartialEq, Eq, Structural)]
pub enum ConfigError {
    /// The population is empty.
    EmptyPopulation,
    /// The population is over `MAX_POPULATION`.
    PopulationTooLarge,
    /// A world dimension is not positive, is over `COORD_MAX`, or (for a
    /// random flock) leaves no room inside the spawn inset.
    BadWorldSize,
    /// A given boid lies outside the coordinate range or is over the speed limit.
    BadAgent,
}

/// A boid whose position is in range and whose speed is within the limit.
pub open spec fn agent_ok(b: Boid) -> bool {
    pos_fits(b.pos) && speed_sq(b.vel) <= SPEED_LIMIT * SPEED_LIMIT
}

pub open spec fn world_ok(width: int, height: int) -> bool {
    0 < width <= COORD_MAX && 0 < height <= COORD_MAX
}

pub open spec fn spawn_ok(width: int, height: int) -> bool {
    2 * SPAWN_INSET < width <= COORD_MAX && 2 * SPAWN_INSET < height <= COORD_MAX
}

/// One boid's next state in a tick: the five rules in order against the
/// flock as it stood at the start of the tick, then the move.
pub open spec fn advance(b: Boid, flock: Seq<Boid>, width: int, height: int, elapsed_us: int) -> Boid {
    integrate(limit(contain(align(separate(cohere(b, flock), flock), flock), width, height)), elapsed_us)
}

/// The whole flock after one tick.
pub open spec fn tick(flock: Seq<Boid>, width: int, height: int, elapsed_us: int) -> Seq<Boid> {
    Seq::new(flock.len(), |i: int| advance(flock[i], flock, width, height, elapsed_us))
}

/// The flock and the world it lives in.
pub struct Simulation {
    agents: Vec<Boid>,
    width: i64,
    height: i64,
}

proof fn lemma_speed_bounds_components(v: Vec2)
    requires
        speed_sq(v) <= SPEED_LIMIT * SPEED_LIMIT,
    ensures
        vel_fits(v, SPEED_LIMIT as int),
{
    lemma_component_bound(v.x as int, v.y as int);
    lemma_component_bound(v.y as int, v.x as int);
}

proof fn lemma_component_bound(a: int, b: int)
    requires
        a * a + b * b <= SPEED_LIMIT * SPEED_LIMIT,
    ensures
        -SPEED_LIMIT <= a <= SPEED_LIMIT,
{
    assert(b * b >= 0) by (nonlinear_arith);
    if a > SPEED_LIMIT || a < -SPEED_LIMIT {
        assert(a * a > SPEED_LIMIT * SPEED_LIMIT) by (nonlinear_arith)
            requires a > 250_000 || a < -250_000;
    }
}

/// Every boid of the flock is in range and within the speed limit.
pub open spec fn flock_ok(flock: Seq<Boid>) -> bool {
    &&& 1 <= flock.len() <= MAX_POPULATION
    &&& forall|i: int| 0 <= i < flock.len() ==> agent_ok(#[trigger] flock[i])
}

proof fn lemma_flock_ok_fits(flock: Seq<Boid>)
    requires
        flock_ok(flock),
    ensures
        flock_fits(flock),
{
    assert forall|i: int| 0 <= i < flock.len() implies fits(#[trigger] flock[i]) by {
        assert(agent_ok(flock[i]));
        lemma_speed_bounds_components(flock[i].vel);
    }
}

/// One boid's next state, read against the unchanging `flock`.
fn advance_boid(b: Boid, flock: &[Boid], width: i64, height: i64, elapsed_us: u32) -> (r: Boid)
    requires
        agent_ok(b),
        flock_ok(flock@),
        world_ok(width as int, height as int),
    ensures
        r == advance(b, flock@, width as int, height as int, elapsed_us as int),
        agent_ok(r),
{
    proof {
        lemma_flock_ok_fits(flock@);
        lemma_speed_bounds_components(b.vel);
    }
    let mut c = b;
    c.fly_to_center_of_mass(flock);
    assert(vel_fits(c.vel, SPEED_LIMIT + 800));
    c.avoid_others(flock);
    assert(flock@.len() * 4500 <= 450_000_000);
    assert(vel_fits(c.vel, VEL_MAX as int));
    c.match_velocity(flock);
    c.keep_within_bounds(width, height);
    c.limit_speed();
    proof {
        lemma_speed_bounds_components(c.vel);
    }
    c.advance_position(elapsed_us);
    c
}

impl Simulation {
    /// The boids, in order.
    pub closed spec fn flock(&self) -> Seq<Boid> {
        self.agents@
    }

    pub closed spec fn world_width(&self) -> int {
        self.width as int
    }

    pub closed spec fn world_height(&self) -> int {
        self.height as int
    }

    /// The flock is non-empty and not too large, every boid is in range and
    /// within the speed limit, and the world has a positive size.
    pub open spec fn wf(&self) -> bool {
        flock_ok(self.flock()) && world_ok(self.world_width(), self.world_height())
    }

    /// A flock of `population_size` boids at random places at least
    /// `SPAWN_INSET` inside a world of the given size, each velocity component
    /// drawn from `[-SPEED_LIMIT / 2, SPEED_LIMIT / 2)`.
    pub fn new(population_size: usize, world_width: i64, world_height: i64) -> (r: Result<Simulation, ConfigError>)
        ensures
            population_size == 0 ==> r == Err::<Simulation, ConfigError>(ConfigError::EmptyPopulation),
            0 < population_size && population_size > MAX_POPULATION ==> r == Err::<Simulation, ConfigError>(
                ConfigError::PopulationTooLarge,
            ),
            0 < population_size <= MAX_POPULATION && !spawn_ok(world_width as int, world_height as int) ==> r
                == Err::<Simulation, ConfigError>(ConfigError::BadWorldSize),
            0 < population_size <= MAX_POPULATION && spawn_ok(world_width as int, world_height as int)
                ==> r is Ok,
            r matches Ok(s) ==> {
                &&& s.wf()
                &&& s.flock().len() == population_size
                &&& s.world_width() == world_width
                &&& s.world_height() == world_height
                &&& forall|i: int|
                    0 <= i < population_size ==> {
                        let b = #[trigger] s.flock()[i];
                        &&& SPAWN_INSET <= b.pos.x < world_width - SPAWN_INSET
                        &&& SPAWN_INSET <= b.pos.y < world_height - SPAWN_INSET
                        &&& -SPEED_LIMIT / 2 <= b.vel.x < SPEED_LIMIT / 2
                        &&& -SPEED_LIMIT / 2 <= b.vel.y < SPEED_LIMIT / 2
                    }
            },
    {
        if population_size == 0 {
            return Err(ConfigError::EmptyPopulation);
        }
        if population_size > MAX_POPULATION {
            return Err(ConfigError::PopulationTooLarge);
        }
        if !(2 * SPAWN_INSET < world_width && world_width <= COORD_MAX && 2 * SPAWN_INSET < world_height
            && world_height <= COORD_MAX) {
            return Err(ConfigError::BadWorldSize);
        }
        let mut agents: Vec<Boid> = Vec::new();
        let mut i: usize = 0;
        while i < population_size
            invariant
                0 <= i <= population_size <= MAX_POPULATION,
                spawn_ok(world_width as int, world_height as int),
                agents@.len() == i,
                forall|j: int|
                    0 <= j < i ==> {
                        let b = #[trigger] agents@[j];
                        &&& agent_ok(b)
                        &&& SPAWN_INSET <= b.pos.x < world_width - SPAWN_INSET
                        &&& SPAWN_INSET <= b.pos.y < world_height - SPAWN_INSET
                        &&& -SPEED_LIMIT / 2 <= b.vel.x < SPEED_LIMIT / 2
                        &&& -SPEED_LIMIT / 2 <= b.vel.y < SPEED_LIMIT / 2
                    },
            decreases population_size - i,
        {
            let b = Boid::new(world_width, world_height);
            agents.push(b);
            i = i + 1;
        }
        Ok(Simulation { agents, width: world_width, height: world_height })
    }

    /// A simulation of the given boids, which must each lie in the coordinate
    /// range and within the speed limit.
    pub fn from_agents(agents: Vec<Boid>, world_width: i64, world_height: i64) -> (r: Result<Simulation, ConfigError>)
        ensures
            agents@.len() == 0 ==> r == Err::<Simulation, ConfigError>(ConfigError::EmptyPopulation),
            0 < agents@.len() && agents@.len() > MAX_POPULATION ==> r == Err::<Simulation, ConfigError>(
                ConfigError::PopulationTooLarge,
            ),
            0 < agents@.len() <= MAX_POPULATION && !world_ok(world_width as int, world_height as int) ==> r
                == Err::<Simulation, ConfigError>(ConfigError::BadWorldSize),
            0 < agents@.len() <= MAX_POPULATION && world_ok(world_width as int, world_height as int) ==> (r
                == Err::<Simulation, ConfigError>(ConfigError::BadAgent) <==> exists|i: int|
                0 <= i < agents@.len() && !agent_ok(#[trigger] agents@[i])),
            0 < agents@.len() <= MAX_POPULATION && world_ok(world_width as int, world_height as int) && (forall|
                i: int,
            | 0 <= i < agents@.len() ==> agent_ok(#[trigger] agents@[i])) ==> r is Ok,
            r matches Ok(s) ==> {
                &&& s.wf()
                &&& s.flock() == agents@
                &&& s.world_width() == world_width
                &&& s.world_height() == world_height
            },
    {
        if agents.len() == 0 {
            return Err(ConfigError::EmptyPopulation);
        }
        if agents.len() > MAX_POPULATION {
            return Err(ConfigError::PopulationTooLarge);
        }
        if !(0 < world_width && world_width <= COORD_MAX && 0 < world_height && world_height <= COORD_MAX) {
            return Err(ConfigError::BadWorldSize);
        }
        let mut i: usize = 0;
        while i < agents.len()
            invariant
                0 <= i <= agents@.len(),
                0 < agents@.len() <= MAX_POPULATION,
                world_ok(world_width as int, world_height as int),
                forall|j: int| 0 <= j < i ==> agent_ok(#[trigger] agents@[j]),
            decreases agents@.len() - i,
        {
            if !agent_in_range(&agents[i]) {
                return Err(ConfigError::BadAgent);
            }
            i = i + 1;
        }
        Ok(Simulation { agents, width: world_width, height: world_height })
    }

    /// Advances every boid by one tick of `elapsed_us` microseconds. Each boid's
    /// rules read the flock as it stood before the tick; the new flock
    /// replaces the old one only once every boid has been computed.
    pub fn step(&mut self, elapsed_us: u32)
        requires
            old(self).wf(),
        ensures
            final(self).wf(),
            final(self).flock() == tick(
                old(self).flock(),
                old(self).world_width(),
                old(self).world_height(),
                elapsed_us as int,
            ),
            final(self).flock().len() == old(self).flock().len(),
            final(self).world_width() == old(self).world_width(),
            final(self).world_height() == old(self).world_height(),
            forall|i: int|
                0 <= i < final(self).flock().len() ==> speed_sq(#[trigger] final(self).flock()[i].vel)
                    <= SPEED_LIMIT * SPEED_LIMIT,
    {
        let n = self.agents.len();
        let mut next: Vec<Boid> = Vec::new();
        let mut i: usize = 0;
        while i < n
            invariant
                n == self.agents@.len(),
                self.wf(),
                0 <= i <= n,
                next@.len() == i,
                forall|j: int|
                    0 <= j < i ==> #[trigger] next@[j] == advance(
                        self.agents@[j],
                        self.agents@,
                        self.width as int,
                        self.height as int,
                        elapsed_us as int,
                    ),
                forall|j: int| 0 <= j < i ==> agent_ok(#[trigger] next@[j]),
            decreases n - i,
        {
            assert(agent_ok(self.agents@[i as int]));
            let b = advance_boid(self.agents[i], self.agents.as_slice(), self.width, self.height, elapsed_us);
            next.push(b);
            i = i + 1;
        }
        assert(next@ =~= tick(self.agents@, self.width as int, self.height as int, elapsed_us as int));
        self.agents = next;
    }

    /// The boids, read-only, for drawing.
    pub fn agents(&self) -> (r: &[Boid])
        ensures
            r@ == self.flock(),
    {
        self.agents.as_slice()
    }

    pub fn width(&self) -> (r: i64)
        ensures
            r == self.world_width(),
    {
        self.width
    }

    pub fn height(&self) -> (r: i64)
        ensures
            r == self.world_height(),
    {
        self.height
    }
}

/// Whether `b` lies in the coordinate range and within the speed limit.
pub fn agent_in_range(b: &Boid) -> (r: bool)
    ensures
        r == agent_ok(*b),
{
    if b.pos.x < -COORD_MAX || b.pos.x > COORD_MAX || b.pos.y < -COORD_MAX || b.pos.y > COORD_MAX {
        return false;
    }
    if b.vel.x < -SPEED_LIMIT || b.vel.x > SPEED_LIMIT || b.vel.y < -SPEED_LIMIT || b.vel.y > SPEED_LIMIT {
        proof {
            if speed_sq(b.vel) <= SPEED_LIMIT * SPEED_LIMIT {
                lemma_speed_bounds_components(b.vel);
            }
        }
        return false;
    }
    assert(b.vel.x * b.vel.x <= SPEED_LIMIT * SPEED_LIMIT) by (nonlinear_arith)
        requires -250_000 <= b.vel.x <= 250_000;
    assert(b.vel.x * b.vel.x >= 0) by (nonlinear_arith);
    assert(b.vel.y * b.vel.y >= 0) by (nonlinear_arith);
    assert(b.vel.y * b.vel.y <= SPEED_LIMIT * SPEED_LIMIT) by (nonlinear_arith)
        requires -250_000 <= b.vel.y <= 250_000;
    b.vel.x * b.vel.x + b.vel.y * b.vel.y <= SPEED_LIMIT * SPEED_LIMIT
}

} // verus!
