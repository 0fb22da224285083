use vstd::prelude::*;
use crate::obstacle::{Obstacle, LaneCar, SCALE, clamp_position, clamp_position_exec};
use crate::following::{intelligent_acceleration, idm_acceleration};
use crate::signal::{in_phase, signal_at, signal_state, is_phase, is_next_phase, TRAFFIC_LOGIC_THROTTLING, PATHFINDING_THROTTLING};
use crate::resolver::{obstacles_for_interaction, resolve};
use crate::lane::{Lane, LaneLikeId, Interaction, InteractionKind, OverlapKind, Outbound, cars_sorted};

verus! {

/// Largest time step a tick accepts.
pub const MAX_DT: i64 = 100_000;

/// Factor by which traffic time runs slower than simulation time.
pub const SLOWDOWN: i64 = 20;

/// Headway towards the vehicle ahead.
pub const CAR_HEADWAY: i64 = 2000;

/// Headway towards a received obstacle.
pub const OBSTACLE_HEADWAY: i64 = 4000;

/// Margin ahead of a vehicle from which received obstacles count.
pub const OBSTACLE_EPSILON: i64 = 100;

/// Distance before a red `Next` interaction at which vehicles stop.
pub const STOP_LINE_MARGIN: i64 = 2000;

/// A vehicle only leaves into a transfer overlap within this distance of
/// its end.
pub const TRANSFER_LOOKAHEAD: i64 = 300_000;

/// Index of the received obstacle with the smallest position at or past
/// `bound` (the first of equals).
pub open spec fn next_obstacle_index(obstacles: Seq<(Obstacle, LaneLikeId)>, bound: int) -> Option<int>
    decreases obstacles.len(),
{
    if obstacles.len() == 0 {
        None
    } else {
        let rest = next_obstacle_index(obstacles.drop_last(), bound);
        let last = obstacles.last().0;
        if last.position >= bound && (rest matches Some(k) ==> last.position
            < obstacles[k].0.position) {
            Some(obstacles.len() - 1)
        } else {
            rest
        }
    }
}

pub open spec fn min_int(a: int, b: int) -> int {
    if a <= b { a } else { b }
}

/// The acceleration the car-following law gives vehicle `i` of `cars`,
/// given the received `obstacles` and the lane's `interactions`: the
/// least of what the vehicle ahead, the next received obstacle and (when its
/// next hop is a red `Next`) the stop line ask for.
pub open spec fn desired_acceleration(
    cars: Seq<LaneCar>,
    obstacles: Seq<(Obstacle, LaneLikeId)>,
    interactions: Seq<Interaction>,
    i: int,
) -> int {
    let car = cars[i];
    let leader = if cars.len() - i > 1 { Some(cars[i + 1].as_obstacle) } else { None };
    let a1 = idm_acceleration(car.as_obstacle, leader, CAR_HEADWAY as int);
    let a2 = match next_obstacle_index(obstacles, car.position() + OBSTACLE_EPSILON) {
        Some(k) => min_int(a1, idm_acceleration(car.as_obstacle, Some(obstacles[k].0), OBSTACLE_HEADWAY as int)),
        None => a1,
    };
    let hop = interactions[car.next_hop_interaction as int];
    match hop.kind {
        InteractionKind::Next { green } => if !green {
            min_int(a2, idm_acceleration(car.as_obstacle, Some(stop_line(hop.start as int)), CAR_HEADWAY as int))
        } else {
            a2
        },
        _ => a2,
    }
}

pub open spec fn stop_line(start: int) -> Obstacle {
    Obstacle { position: clamp_position(start - STOP_LINE_MARGIN) as i64, velocity: 0, max_velocity: 0 }
}

/// Whether `car` has passed the boundary of its next-hop interaction.
pub open spec fn passed_hop(interactions: Seq<Interaction>, car: LaneCar) -> bool {
    let hop = interactions[car.next_hop_interaction as int];
    &&& car.position() > hop.start
    &&& (hop.kind matches InteractionKind::Overlap { end, kind: OverlapKind::Transfer }
        ==> car.position() > end - TRANSFER_LOOKAHEAD)
}

pub open spec fn index_of(o: Option<usize>) -> Option<int> {
    match o {
        Some(k) => Some(k as int),
        None => None,
    }
}

fn find_next_obstacle(obstacles: &Vec<(Obstacle, LaneLikeId)>, bound: i64) -> (r: Option<usize>)
    ensures
        next_obstacle_index(obstacles@, bound as int) == index_of(r),
        r matches Some(k) ==> k < obstacles@.len(),
{
    let mut best: Option<usize> = None;
    let mut i: usize = 0;
    while i < obstacles.len()
        invariant
            0 <= i <= obstacles@.len(),
            next_obstacle_index(obstacles@.subrange(0, i as int), bound as int) == index_of(best),
            best matches Some(b) ==> b < i,
        decreases obstacles@.len() - i,
    {
        let ghost prefix = obstacles@.subrange(0, i + 1);
        assert(prefix.drop_last() =~= obstacles@.subrange(0, i as int));
        let p = obstacles[i].0.position;
        if p >= bound {
            match best {
                Some(b) => {
                    if p < obstacles[b].0.position {
                        best = Some(i);
                    }
                },
                None => {
                    best = Some(i);
                },
            }
        }
        i += 1;
    }
    assert(obstacles@.subrange(0, i as int) =~= obstacles@);
    best
}

impl Lane {
    /// The acceleration of vehicle `i` under the car-following law.
    fn car_acceleration(&self, i: usize) -> (r: i64)
        requires
            self.wf(),
            i < self.microtraffic.cars@.len(),
        ensures
            r == desired_acceleration(self.microtraffic.cars@, self.microtraffic.obstacles@, self.interactions@, i as int),
            -14000 <= r <= 1000,
    {
        let cars = &self.microtraffic.cars;
        let car = cars[i].as_obstacle;
        assert(cars@[i as int].wf());
        let leader = if cars.len() - i > 1 { Some(cars[i + 1].as_obstacle) } else { None };
        let mut a = intelligent_acceleration(&car, leader, CAR_HEADWAY);
        match find_next_obstacle(&self.microtraffic.obstacles, car.position + OBSTACLE_EPSILON) {
            Some(k) => {
                let b = intelligent_acceleration(&car, Some(self.microtraffic.obstacles[k].0), OBSTACLE_HEADWAY);
                if b < a {
                    a = b;
                }
            },
            None => {},
        }
        let hop = self.interactions[cars[i].next_hop_interaction as usize];
        assert(self.interactions@[cars@[i as int].next_hop_interaction as int].wf());
        match hop.kind {
            InteractionKind::Next { green } => {
                if !green {
                    let line = Obstacle::stationary(clamp_position_exec(hop.start - STOP_LINE_MARGIN));
                    let c = intelligent_acceleration(&car, Some(line), CAR_HEADWAY);
                    if c < a {
                        a = c;
                    }
                }
            },
            _ => {},
        }
        a
    }

    /// Sets every vehicle's acceleration by the car-following law.
    fn update_accelerations(&mut self)
        requires
            old(self).wf(),
        ensures
            final(self).wf(),
            accelerations_set(old(self).microtraffic.cars@, old(self).microtraffic.obstacles@, old(self).interactions@, final(self).microtraffic.cars@),
            final(self).microtraffic.cars@.len() == old(self).microtraffic.cars@.len(),
            forall|i: int| 0 <= i < final(self).microtraffic.cars@.len() ==> (#[trigger] final(self).microtraffic.cars@[i]) == (LaneCar {
                acceleration: desired_acceleration(old(self).microtraffic.cars@, old(self).microtraffic.obstacles@, old(self).interactions@, i) as i64,
                ..old(self).microtraffic.cars@[i]
            }),
            final(self).microtraffic.obstacles@ == old(self).microtraffic.obstacles@,
            final(self).interactions@ == old(self).interactions@,
            final(self).routes@ == old(self).routes@,
            final(self).id == old(self).id,
            final(self).length == old(self).length,
            final(self).last_spawn_position == old(self).last_spawn_position,
            final(self).microtraffic.timings@ == old(self).microtraffic.timings@,
            final(self).microtraffic.green == old(self).microtraffic.green,
    {
        let n = self.microtraffic.cars.len();
        let mut accelerations: Vec<i64> = Vec::new();
        let mut i: usize = 0;
        while i < n
            invariant
                *self == *old(self),
                self.wf(),
                n == self.microtraffic.cars@.len(),
                0 <= i <= n,
                accelerations@.len() == i,
                forall|j: int| 0 <= j < i ==> accelerations@[j] == desired_acceleration(old(self).microtraffic.cars@, old(self).microtraffic.obstacles@, old(self).interactions@, j)
                    && -14000 <= accelerations@[j] <= 1000,
            decreases n - i,
        {
            let a = self.car_acceleration(i);
            accelerations.push(a);
            i += 1;
        }
        let mut j: usize = 0;
        while j < n
            invariant
                0 <= j <= n,
                n == self.microtraffic.cars@.len(),
                accelerations@.len() == n,
                forall|k: int| 0 <= k < n ==> accelerations@[k] == desired_acceleration(old(self).microtraffic.cars@, old(self).microtraffic.obstacles@, old(self).interactions@, k)
                    && -14000 <= accelerations@[k] <= 1000,
                forall|k: int| 0 <= k < j ==> (#[trigger] self.microtraffic.cars@[k]) == (LaneCar {
                    acceleration: accelerations@[k],
                    ..old(self).microtraffic.cars@[k]
                }),
                forall|k: int| j <= k < n ==> (#[trigger] self.microtraffic.cars@[k]) == old(self).microtraffic.cars@[k],
                old(self).wf(),
                self.microtraffic.obstacles@ == old(self).microtraffic.obstacles@,
                self.interactions@ == old(self).interactions@,
                self.routes@ == old(self).routes@,
                self.id == old(self).id,
                self.length == old(self).length,
                self.last_spawn_position == old(self).last_spawn_position,
                self.microtraffic.timings@ == old(self).microtraffic.timings@,
                self.microtraffic.green == old(self).microtraffic.green,
            decreases n - j,
        {
            let mut car = self.microtraffic.cars[j];
            car.acceleration = accelerations[j];
            self.microtraffic.cars.set(j, car);
            j += 1;
        }
        proof {
            let cars = self.microtraffic.cars@;
            let old_cars = old(self).microtraffic.cars@;
            assert forall|a: int, b: int| 0 <= a < b < cars.len() implies cars[a].position() <= cars[b].position() by {
                assert(cars[a].position() == old_cars[a].position());
                assert(cars[b].position() == old_cars[b].position());
            }
            assert forall|k: int| 0 <= k < cars.len() implies (#[trigger] cars[k]).wf()
                && cars[k].next_hop_interaction < self.interactions@.len() by {
                assert(old_cars[k].wf());
            }
        }
    }
}

/// `x / d` rounded toward zero.
pub open spec fn div_toward_zero(x: int, d: int) -> int {
    if x >= 0 { x / d } else { -((-x) / d) }
}

/// `car` after a time step `dt`: moved by its velocity, and its velocity
/// changed by its acceleration within `[0, max_velocity]`.
pub open spec fn integrated(car: LaneCar, dt: int) -> LaneCar {
    let o = car.as_obstacle;
    let v = o.velocity + div_toward_zero(dt * car.acceleration, SCALE as int);
    let v = if v > o.max_velocity { o.max_velocity as int } else { v };
    let v = if v < 0 { 0 } else { v };
    LaneCar {
        as_obstacle: Obstacle {
            position: clamp_position(o.position + dt * o.velocity / (SCALE as int)) as i64,
            velocity: v as i64,
            max_velocity: o.max_velocity,
        },
        ..car
    }
}

/// An obstacle after a time step `dt`: moved by its velocity.
pub open spec fn drifted(o: Obstacle, dt: int) -> Obstacle {
    Obstacle { position: clamp_position(o.position + dt * o.velocity / (SCALE as int)) as i64, ..o }
}

pub fn integrate_car(car: LaneCar, dt: i64) -> (r: LaneCar)
    requires
        car.wf(),
        0 <= dt <= MAX_DT,
    ensures
        r == integrated(car, dt as int),
        r.wf(),
        r.position() >= car.position(),
{
    let o = car.as_obstacle;
    assert(0 <= dt * o.velocity <= 10_000_000_000) by (nonlinear_arith)
        requires 0 <= dt <= 100_000, 0 <= o.velocity <= 100_000;
    assert(-400_000_000_000_000 <= dt * car.acceleration <= 400_000_000_000_000) by (nonlinear_arith)
        requires 0 <= dt <= 100_000, -4_000_000_000 <= car.acceleration <= 4_000_000_000;
    let moved = dt * o.velocity / SCALE;
    let x = dt * car.acceleration;
    let dv = if x >= 0 { x / SCALE } else { -((-x) / SCALE) };
    let mut v = o.velocity + dv;
    if v > o.max_velocity {
        v = o.max_velocity;
    }
    if v < 0 {
        v = 0;
    }
    LaneCar {
        as_obstacle: Obstacle {
            position: clamp_position_exec(o.position + moved),
            velocity: v,
            max_velocity: o.max_velocity,
        },
        ..car
    }
}

/// Moves every received obstacle by one time step.
fn drift_obstacles(obstacles: &mut Vec<(Obstacle, LaneLikeId)>, dt: i64)
    requires
        0 <= dt <= MAX_DT,
        forall|k: int| 0 <= k < old(obstacles)@.len() ==> (#[trigger] old(obstacles)@[k]).0.wf(),
    ensures
        final(obstacles)@.len() == old(obstacles)@.len(),
        forall|k: int| 0 <= k < final(obstacles)@.len() ==> (#[trigger] final(obstacles)@[k]) == (drifted(old(obstacles)@[k].0, dt as int), old(obstacles)@[k].1),
        forall|k: int| 0 <= k < final(obstacles)@.len() ==> (#[trigger] final(obstacles)@[k]).0.wf(),
{
    let m = obstacles.len();
    let mut i: usize = 0;
    while i < m
        invariant
            0 <= i <= m,
            0 <= dt <= MAX_DT,
            m == obstacles@.len(),
            old(obstacles)@.len() == m,
            forall|k: int| 0 <= k < m ==> (#[trigger] old(obstacles)@[k]).0.wf(),
            forall|k: int| 0 <= k < i ==> (#[trigger] obstacles@[k]) == (drifted(old(obstacles)@[k].0, dt as int), old(obstacles)@[k].1)
                && obstacles@[k].0.wf(),
            forall|k: int| i <= k < m ==> (#[trigger] obstacles@[k]) == old(obstacles)@[k],
        decreases m - i,
    {
        let (o, id) = obstacles[i];
        assert(old(obstacles)@[i as int].0.wf());
        assert(0 <= dt * o.velocity <= 10_000_000_000) by (nonlinear_arith)
            requires 0 <= dt <= 100_000, 0 <= o.velocity <= 100_000;
        let moved = Obstacle { position: clamp_position_exec(o.position + dt * o.velocity / SCALE), ..o };
        obstacles.set(i, (moved, id));
        i += 1;
    }
}

impl Lane {
    /// Moves every vehicle and received obstacle by one time step, then pulls
    /// each vehicle back so that it does not pass the one ahead. No vehicle
    /// ends behind where it started, and the order by position is kept.
    pub fn advance(&mut self, dt: i64)
        requires
            old(self).wf(),
            0 <= dt <= MAX_DT,
        ensures
            final(self).wf(),
            cars_sorted(final(self).microtraffic.cars@),
            advanced_cars(old(self).microtraffic.cars@, dt as int, final(self).microtraffic.cars@),
            final(self).microtraffic.cars@.len() == old(self).microtraffic.cars@.len(),
            forall|i: int| 0 <= i < final(self).microtraffic.cars@.len() ==> {
                let q = integrated(old(self).microtraffic.cars@[i], dt as int);
                let c = #[trigger] final(self).microtraffic.cars@[i];
                &&& c == (LaneCar { as_obstacle: Obstacle { position: c.as_obstacle.position, ..q.as_obstacle }, ..q })
                &&& c.position() == if i + 1 < final(self).microtraffic.cars@.len() {
                        min_int(q.position(), final(self).microtraffic.cars@[i + 1].position())
                    } else {
                        q.position()
                    }
                &&& c.position() >= old(self).microtraffic.cars@[i].position()
            },
            final(self).microtraffic.obstacles@.len() == old(self).microtraffic.obstacles@.len(),
            forall|i: int| 0 <= i < final(self).microtraffic.obstacles@.len() ==>
                (#[trigger] final(self).microtraffic.obstacles@[i]) == (drifted(old(self).microtraffic.obstacles@[i].0, dt as int), old(self).microtraffic.obstacles@[i].1),
            final(self).interactions@ == old(self).interactions@,
            final(self).routes@ == old(self).routes@,
            final(self).id == old(self).id,
            final(self).length == old(self).length,
            final(self).last_spawn_position == old(self).last_spawn_position,
            final(self).microtraffic.timings@ == old(self).microtraffic.timings@,
            final(self).microtraffic.green == old(self).microtraffic.green,
    {
        let n = self.microtraffic.cars.len();
        let mut i: usize = 0;
        while i < n
            invariant
                0 <= i <= n,
                0 <= dt <= MAX_DT,
                n == self.microtraffic.cars@.len(),
                old(self).microtraffic.cars@.len() == n,
                old(self).wf(),
                forall|k: int| 0 <= k < i ==> (#[trigger] self.microtraffic.cars@[k]) == integrated(old(self).microtraffic.cars@[k], dt as int)
                    && self.microtraffic.cars@[k].wf(),
                forall|k: int| i <= k < n ==> (#[trigger] self.microtraffic.cars@[k]) == old(self).microtraffic.cars@[k],
                self.microtraffic.obstacles@ == old(self).microtraffic.obstacles@,
                self.interactions@ == old(self).interactions@,
                self.routes@ == old(self).routes@,
                self.id == old(self).id,
                self.length == old(self).length,
                self.last_spawn_position == old(self).last_spawn_position,
                self.microtraffic.timings@ == old(self).microtraffic.timings@,
                self.microtraffic.green == old(self).microtraffic.green,
            decreases n - i,
        {
            let car = self.microtraffic.cars[i];
            assert(old(self).microtraffic.cars@[i as int].wf());
            let moved = integrate_car(car, dt);
            self.microtraffic.cars.set(i, moved);
            i += 1;
        }
        let ghost q = self.microtraffic.cars@;
        assert(self.microtraffic.cars@.len() == n);
        if n > 1 {
            let mut j: usize = n - 1;
            while j > 0
                invariant
                    0 <= j < n,
                    n == self.microtraffic.cars@.len(),
                    q.len() == n,
                    old(self).microtraffic.cars@.len() == n,
                    old(self).wf(),
                    forall|k: int| 0 <= k < n ==> (#[trigger] q[k]) == integrated(old(self).microtraffic.cars@[k], dt as int)
                        && q[k].wf() && q[k].position() >= old(self).microtraffic.cars@[k].position(),
                    forall|k: int| 0 <= k < j ==> (#[trigger] self.microtraffic.cars@[k]) == q[k],
                    forall|k: int| j <= k < n ==> {
                        let c = #[trigger] self.microtraffic.cars@[k];
                        &&& c == (LaneCar { as_obstacle: Obstacle { position: c.as_obstacle.position, ..q[k].as_obstacle }, ..q[k] })
                        &&& c.position() == if k + 1 < n { min_int(q[k].position(), self.microtraffic.cars@[k + 1].position()) } else { q[k].position() }
                        &&& c.position() >= old(self).microtraffic.cars@[k].position()
                    },
                    forall|k: int| j <= k < n ==> self.microtraffic.cars@[k].position() <= #[trigger] q[k].position(),
                    forall|a: int, b: int| j <= a < b < n ==> self.microtraffic.cars@[a].position() <= self.microtraffic.cars@[b].position(),
                    self.microtraffic.obstacles@ == old(self).microtraffic.obstacles@,
                    self.interactions@ == old(self).interactions@,
                    self.routes@ == old(self).routes@,
                    self.id == old(self).id,
                    self.length == old(self).length,
                    self.last_spawn_position == old(self).last_spawn_position,
                    self.microtraffic.timings@ == old(self).microtraffic.timings@,
                    self.microtraffic.green == old(self).microtraffic.green,
                decreases j,
            {
                let k = j - 1;
                let ahead = self.microtraffic.cars[j].as_obstacle.position;
                let mut car = self.microtraffic.cars[k];
                if ahead < car.as_obstacle.position {
                    car.as_obstacle.position = ahead;
                }
                proof {
                    assert(old(self).microtraffic.cars@[k as int].position() <= old(self).microtraffic.cars@[j as int].position());
                }
                self.microtraffic.cars.set(k, car);
                j = k;
            }
        }
        proof {
            let cars = self.microtraffic.cars@;
            assert forall|k: int| 0 <= k < n implies (#[trigger] cars[k]).wf()
                && cars[k].next_hop_interaction < self.interactions@.len() by {
                assert(old(self).microtraffic.cars@[k].wf());
                assert(q[k].wf());
            }
        }
        drift_obstacles(&mut self.microtraffic.obstacles, dt);
    }
}

/// The vehicles that stay on a lane: those that have not passed their next
/// hop, in order.
pub open spec fn kept(cars: Seq<LaneCar>, interactions: Seq<Interaction>) -> Seq<LaneCar>
    decreases cars.len(),
{
    if cars.len() == 0 {
        cars
    } else if passed_hop(interactions, cars[0]) {
        kept(cars.drop_first(), interactions)
    } else {
        seq![cars[0]] + kept(cars.drop_first(), interactions)
    }
}

proof fn lemma_kept_unpassed(cars: Seq<LaneCar>, interactions: Seq<Interaction>)
    ensures
        forall|j: int| 0 <= j < kept(cars, interactions).len() ==> !passed_hop(interactions, #[trigger] kept(cars, interactions)[j]),
    decreases cars.len(),
{
    if cars.len() > 0 {
        lemma_kept_unpassed(cars.drop_first(), interactions);
        let rest = kept(cars.drop_first(), interactions);
        if !passed_hop(interactions, cars[0]) {
            assert forall|j: int| 0 <= j < kept(cars, interactions).len() implies !passed_hop(interactions, #[trigger] kept(cars, interactions)[j]) by {
                if j > 0 {
                    assert(kept(cars, interactions)[j] == rest[j - 1]);
                }
            }
        }
    }
}

/// What lane `id` sends for a vehicle leaving it at tick `tick`.
pub open spec fn handoff_message(car: LaneCar, interactions: Seq<Interaction>, id: u32, tick: u64) -> Outbound {
    let hop = interactions[car.next_hop_interaction as int];
    if car.destination.node == id as u64 {
        Outbound::TripSucceeded { trip: car.trip, tick }
    } else {
        Outbound::AddCar {
            to: hop.partner_lane,
            car: LaneCar { as_obstacle: car.as_obstacle.offset_by_spec(hop.partner_start - hop.start), ..car },
            from: LaneLikeId::Plain(id),
        }
    }
}

/// The messages for the vehicles that leave, rearmost first.
pub open spec fn handoff_messages(cars: Seq<LaneCar>, interactions: Seq<Interaction>, id: u32, tick: u64) -> Seq<Outbound>
    decreases cars.len(),
{
    if cars.len() == 0 {
        Seq::empty()
    } else if passed_hop(interactions, cars[0]) {
        handoff_messages(cars.drop_first(), interactions, id, tick).push(handoff_message(cars[0], interactions, id, tick))
    } else {
        handoff_messages(cars.drop_first(), interactions, id, tick)
    }
}

/// `moved` is `cars` with the accelerations the car-following law gives
/// them.
pub open spec fn accelerations_set(
    cars: Seq<LaneCar>,
    obstacles: Seq<(Obstacle, LaneLikeId)>,
    interactions: Seq<Interaction>,
    moved: Seq<LaneCar>,
) -> bool {
    &&& moved.len() == cars.len()
    &&& forall|i: int| 0 <= i < moved.len() ==> #[trigger] moved[i] == (LaneCar {
        acceleration: desired_acceleration(cars, obstacles, interactions, i) as i64,
        ..cars[i]
    })
}

/// Received obstacles ordered by position, ascending.
pub open spec fn obstacles_sorted(obstacles: Seq<(Obstacle, LaneLikeId)>) -> bool {
    forall|a: int, b: int| 0 <= a < b < obstacles.len() ==> obstacles[a].0.position <= obstacles[b].0.position
}

/// On the traffic phase the received obstacles are put in order of
/// position; otherwise they keep their order.
pub open spec fn obstacle_order(before: Seq<(Obstacle, LaneLikeId)>, after: Seq<(Obstacle, LaneLikeId)>, phase: bool) -> bool {
    if phase {
        obstacles_sorted(after) && after.len() == before.len() && after.to_multiset() == before.to_multiset()
    } else {
        after == before
    }
}

/// Sorts the received obstacles by position, keeping the order of equal
/// positions.
fn sort_obstacles(obstacles: &mut Vec<(Obstacle, LaneLikeId)>)
    requires
        forall|k: int| 0 <= k < old(obstacles)@.len() ==> (#[trigger] old(obstacles)@[k]).0.wf(),
    ensures
        obstacles_sorted(final(obstacles)@),
        final(obstacles)@.len() == old(obstacles)@.len(),
        final(obstacles)@.to_multiset() == old(obstacles)@.to_multiset(),
        forall|k: int| 0 <= k < final(obstacles)@.len() ==> (#[trigger] final(obstacles)@[k]).0.wf(),
{
    let n = obstacles.len();
    let mut i: usize = 0;
    while i < n
        invariant
            0 <= i <= n,
            n == obstacles@.len(),
            obstacles@.to_multiset() == old(obstacles)@.to_multiset(),
            forall|k: int| 0 <= k < n ==> (#[trigger] obstacles@[k]).0.wf(),
            forall|a: int, b: int| 0 <= a < b < i ==> obstacles@[a].0.position <= obstacles@[b].0.position,
        decreases n - i,
    {
        let mut j: usize = i;
        while j > 0 && obstacles[j - 1].0.position > obstacles[j].0.position
            invariant
                0 <= j <= i < n,
                n == obstacles@.len(),
                obstacles@.to_multiset() == old(obstacles)@.to_multiset(),
                forall|k: int| 0 <= k < n ==> (#[trigger] obstacles@[k]).0.wf(),
                forall|a: int, b: int| 0 <= a < b <= i && a != j && b != j ==> obstacles@[a].0.position <= obstacles@[b].0.position,
                forall|k: int| j < k <= i ==> obstacles@[j as int].0.position <= obstacles@[k].0.position,
            decreases j,
        {
            let k = j - 1;
            let a = obstacles[k];
            let b = obstacles[j];
            let ghost s0 = obstacles@;
            obstacles.set(k, b);
            let ghost s1 = obstacles@;
            obstacles.set(j, a);
            proof {
                s0.to_multiset_ensures();
                s1.to_multiset_ensures();
                obstacles@.to_multiset_ensures();
                vstd::seq_lib::to_multiset_update(s0, k as int, b);
                vstd::seq_lib::to_multiset_update(s1, j as int, a);
                assert forall|x: int, y: int| 0 <= x < y <= i && x != k && y != k implies obstacles@[x].0.position <= obstacles@[y].0.position by {
                    if y == j as int {
                        assert(s0[x].0.position <= s0[k as int].0.position);
                    } else if x == j as int {
                        assert(s0[k as int].0.position <= s0[y].0.position);
                    } else {
                        assert(obstacles@[x] == s0[x] && obstacles@[y] == s0[y]);
                    }
                }
                assert forall|y: int| k < y <= i implies obstacles@[k as int].0.position <= obstacles@[y].0.position by {
                    if y != j as int {
                        assert(obstacles@[y] == s0[y]);
                    }
                }
            }
            j = k;
        }
        proof {
            assert forall|a: int, b: int| 0 <= a < b < i + 1 implies obstacles@[a].0.position <= obstacles@[b].0.position by {
                if b == j as int && a < b {
                    assert(obstacles@[a].0.position <= obstacles@[j - 1].0.position || a == j - 1);
                }
            }
        }
        i += 1;
    }
}

/// `after` is `before` integrated over `dt` and then pulled back, from the
/// front to the rear, so that no vehicle passes the one ahead; so no vehicle
/// ends behind where it started.
pub open spec fn advanced_cars(before: Seq<LaneCar>, dt: int, after: Seq<LaneCar>) -> bool {
    &&& after.len() == before.len()
    &&& forall|i: int| 0 <= i < after.len() ==> {
        let q = integrated(before[i], dt);
        let c = #[trigger] after[i];
        &&& c == (LaneCar { as_obstacle: Obstacle { position: c.as_obstacle.position, ..q.as_obstacle }, ..q })
        &&& c.position() == if i + 1 < after.len() { min_int(q.position(), after[i + 1].position()) } else { q.position() }
        &&& c.position() >= before[i].position()
    }
}

/// The signal announcements to every upstream (`Previous`) partner.
pub open spec fn announcements(interactions: Seq<Interaction>, id: u32, green: bool) -> Seq<Outbound>
    decreases interactions.len(),
{
    if interactions.len() == 0 {
        Seq::empty()
    } else {
        let rest = announcements(interactions.drop_last(), id, green);
        let i = interactions.last();
        if i.kind is Previous {
            rest.push(Outbound::SignalChanged { to: i.partner_lane, from: LaneLikeId::Plain(id), green })
        } else {
            rest
        }
    }
}

/// `msgs` are the obstacle publications of lane `id` at tick `tick`: one
/// `AddObstacles` with the resolved obstacles for each interaction whose
/// partner's phase comes next tick and that publishes at all, in order.
pub open spec fn publications(
    interactions: Seq<Interaction>,
    tick: u64,
    cars: Seq<LaneCar>,
    obstacles: Seq<(Obstacle, LaneLikeId)>,
    id: u32,
    msgs: Seq<Outbound>,
) -> bool
    decreases interactions.len(),
{
    if interactions.len() == 0 {
        msgs.len() == 0
    } else {
        let i = interactions.last();
        if in_phase(tick + 1, i.partner_lane.instance_spec() as int, TRAFFIC_LOGIC_THROTTLING as int)
            && resolve(i, cars, obstacles) is Some {
            &&& msgs.len() >= 1
            &&& msgs.last() matches Outbound::AddObstacles { to, obstacles: v, from }
                && to == i.partner_lane && from == LaneLikeId::Plain(id) && v@ == resolve(i, cars, obstacles).unwrap()
            &&& publications(interactions.drop_last(), tick, cars, obstacles, id, msgs.drop_last())
        } else {
            publications(interactions.drop_last(), tick, cars, obstacles, id, msgs)
        }
    }
}

/// `new` is `old` with more messages appended.
pub open spec fn extends(new: Seq<Outbound>, old: Seq<Outbound>) -> bool {
    new.len() >= old.len() && new.subrange(0, old.len() as int) == old
}

pub proof fn lemma_extends_push(a: Seq<Outbound>, b: Seq<Outbound>, m: Outbound)
    requires
        extends(b, a),
    ensures
        extends(b.push(m), a),
{
    assert(b.push(m).subrange(0, a.len() as int) =~= b.subrange(0, a.len() as int));
}

impl Lane {
    /// Removes, rearmost first, every vehicle that has passed its next hop:
    /// its trip succeeds when this lane is its destination, else it is handed
    /// to the partner lane, moved into the partner's coordinates.
    fn resolve_handoffs(&mut self, tick: u64, outbox: &mut Vec<Outbound>)
        requires
            old(self).wf(),
        ensures
            final(self).wf(),
            final(self).microtraffic.cars@ == kept(old(self).microtraffic.cars@, old(self).interactions@),
            forall|j: int| 0 <= j < final(self).microtraffic.cars@.len() ==> !passed_hop(final(self).interactions@, #[trigger] final(self).microtraffic.cars@[j]),
            final(outbox)@ == old(outbox)@ + handoff_messages(old(self).microtraffic.cars@, old(self).interactions@, old(self).id, tick),
            final(self).microtraffic.obstacles@ == old(self).microtraffic.obstacles@,
            final(self).interactions@ == old(self).interactions@,
            final(self).routes@ == old(self).routes@,
            final(self).id == old(self).id,
            final(self).length == old(self).length,
            final(self).last_spawn_position == old(self).last_spawn_position,
            final(self).microtraffic.timings@ == old(self).microtraffic.timings@,
            final(self).microtraffic.green == old(self).microtraffic.green,
    {
        let ghost s = old(self).microtraffic.cars@;
        let ghost n = s.len() as int;
        let mut i: usize = self.microtraffic.cars.len();
        assert(self.microtraffic.cars@ =~= s.subrange(0, n) + kept(s.subrange(n, n), self.interactions@));
        assert(outbox@ =~= old(outbox)@ + handoff_messages(s.subrange(n, n), self.interactions@, self.id, tick));
        while i > 0
            invariant
                self.wf(),
                0 <= i <= n,
                n == s.len(),
                s == old(self).microtraffic.cars@,
                self.microtraffic.cars@ == s.subrange(0, i as int) + kept(s.subrange(i as int, n), self.interactions@),
                outbox@ == old(outbox)@ + handoff_messages(s.subrange(i as int, n), self.interactions@, self.id, tick),
                self.microtraffic.obstacles@ == old(self).microtraffic.obstacles@,
                self.interactions@ == old(self).interactions@,
                self.routes@ == old(self).routes@,
                self.id == old(self).id,
                self.length == old(self).length,
                self.last_spawn_position == old(self).last_spawn_position,
                self.microtraffic.timings@ == old(self).microtraffic.timings@,
                self.microtraffic.green == old(self).microtraffic.green,
            decreases i,
        {
            i -= 1;
            let ghost suffix = s.subrange(i as int, n);
            assert(suffix.drop_first() =~= s.subrange(i + 1, n));
            assert(suffix[0] == s[i as int]);
            assert(self.microtraffic.cars@[i as int] == s[i as int]);
            let car = self.microtraffic.cars[i];
            assert(self.microtraffic.cars@[i as int].wf());
            assert(car.next_hop_interaction < self.interactions@.len());
            let hop = self.interactions[car.next_hop_interaction as usize];
            assert(hop.wf());
            let p = car.as_obstacle.position;
            let passed = match hop.kind {
                InteractionKind::Overlap { end, kind: OverlapKind::Transfer } => p > hop.start && p > end - TRANSFER_LOOKAHEAD,
                _ => p > hop.start,
            };
            assert(passed == passed_hop(self.interactions@, car));
            if passed {
                let ghost before = self.microtraffic.cars@;
                self.microtraffic.cars.remove(i);
                proof {
                    let cars = self.microtraffic.cars@;
                    assert(cars =~= s.subrange(0, i as int) + kept(suffix, self.interactions@));
                    assert forall|a: int, b: int| 0 <= a < b < cars.len() implies cars[a].position() <= cars[b].position() by {
                        let a0 = if a < i { a } else { a + 1 };
                        let b0 = if b < i { b } else { b + 1 };
                        assert(cars[a] == before[a0]);
                        assert(cars[b] == before[b0]);
                    }
                    assert forall|k: int| 0 <= k < cars.len() implies (#[trigger] cars[k]).wf()
                        && cars[k].next_hop_interaction < self.interactions@.len() by {
                        let k0 = if k < i { k } else { k + 1 };
                        assert(cars[k] == before[k0]);
                    }
                }
                let m = if car.destination.node == self.id as u64 {
                    Outbound::TripSucceeded { trip: car.trip, tick }
                } else {
                    Outbound::AddCar {
                        to: hop.partner_lane,
                        car: car.offset_by(hop.partner_start - hop.start),
                        from: LaneLikeId::Plain(self.id),
                    }
                };
                assert(m == handoff_message(car, self.interactions@, self.id, tick));
                outbox.push(m);
                assert(outbox@ =~= old(outbox)@ + handoff_messages(suffix, self.interactions@, self.id, tick));
            } else {
                assert(self.microtraffic.cars@ =~= s.subrange(0, i as int) + kept(suffix, self.interactions@));
            }
        }
        assert(s.subrange(0, 0) + kept(s.subrange(0, n), self.interactions@) =~= kept(s, self.interactions@));
        assert(s.subrange(0, n) =~= s);
        proof { lemma_kept_unpassed(s, self.interactions@); }
    }

    /// Tells every upstream lane (through a `Previous` interaction) whether
    /// this lane is green.
    fn announce_signal(&self, outbox: &mut Vec<Outbound>)
        ensures
            final(outbox)@ == old(outbox)@ + announcements(self.interactions@, self.id, self.microtraffic.green),
    {
        let mut i: usize = 0;
        assert(outbox@ =~= old(outbox)@ + announcements(self.interactions@.subrange(0, 0), self.id, self.microtraffic.green));
        while i < self.interactions.len()
            invariant
                0 <= i <= self.interactions@.len(),
                outbox@ == old(outbox)@ + announcements(self.interactions@.subrange(0, i as int), self.id, self.microtraffic.green),
            decreases self.interactions@.len() - i,
        {
            assert(self.interactions@.subrange(0, i + 1).drop_last() =~= self.interactions@.subrange(0, i as int));
            let interaction = self.interactions[i];
            match interaction.kind {
                InteractionKind::Previous => {
                    outbox.push(Outbound::SignalChanged {
                        to: interaction.partner_lane,
                        from: LaneLikeId::Plain(self.id),
                        green: self.microtraffic.green,
                    });
                },
                _ => {},
            }
            assert(outbox@ =~= old(outbox)@ + announcements(self.interactions@.subrange(0, i + 1), self.id, self.microtraffic.green));
            i += 1;
        }
        assert(self.interactions@.subrange(0, i as int) =~= self.interactions@);
    }

    /// Publishes, to each partner whose phase comes next tick, the
    /// obstacles its interaction calls for.
    fn publish_obstacles(&self, tick: u64, outbox: &mut Vec<Outbound>)
        requires
            self.wf(),
        ensures
            extends(final(outbox)@, old(outbox)@),
            publications(self.interactions@, tick, self.microtraffic.cars@, self.microtraffic.obstacles@, self.id,
                final(outbox)@.subrange(old(outbox)@.len() as int, final(outbox)@.len() as int)),
    {
        assert(old(outbox)@.subrange(0, old(outbox)@.len() as int) =~= old(outbox)@);
        let ghost base = old(outbox)@.len() as int;
        let mut i: usize = 0;
        assert(outbox@.subrange(base, outbox@.len() as int) =~= Seq::<Outbound>::empty());
        while i < self.interactions.len()
            invariant
                0 <= i <= self.interactions@.len(),
                self.wf(),
                base == old(outbox)@.len(),
                extends(outbox@, old(outbox)@),
                publications(self.interactions@.subrange(0, i as int), tick, self.microtraffic.cars@, self.microtraffic.obstacles@, self.id,
                    outbox@.subrange(base, outbox@.len() as int)),
            decreases self.interactions@.len() - i,
        {
            assert(self.interactions@.subrange(0, i + 1).drop_last() =~= self.interactions@.subrange(0, i as int));
            let interaction = self.interactions[i];
            let ghost prev = outbox@;
            if is_next_phase(tick, interaction.partner_lane.instance_id(), TRAFFIC_LOGIC_THROTTLING) {
                assert(interaction.wf());
                let cars = &self.microtraffic.cars;
                assert forall|k: int| 0 <= k < cars@.len() implies (#[trigger] cars@[k]).wf() by {}
                match obstacles_for_interaction(&interaction, cars, &self.microtraffic.obstacles) {
                    Some(obstacles) => {
                        outbox.push(Outbound::AddObstacles {
                            to: interaction.partner_lane,
                            obstacles,
                            from: LaneLikeId::Plain(self.id),
                        });
                        proof {
                            lemma_extends_push(old(outbox)@, prev, outbox@.last());
                            assert(outbox@ == prev.push(outbox@.last()));
                            assert(outbox@.subrange(base, outbox@.len() as int).drop_last() =~= prev.subrange(base, prev.len() as int));
                        }
                    },
                    None => {},
                }
            }
            i += 1;
        }
        assert(self.interactions@.subrange(0, i as int) =~= self.interactions@);
    }

    /// Advances the lane by one tick of length `dt`: signal flags, signal
    /// announcements, route refresh requests, obstacle sorting and
    /// car-following (on this lane's traffic phase), integration, hand-offs
    /// and obstacle publication.
    pub fn tick(&mut self, dt: i64, tick: u64, outbox: &mut Vec<Outbound>)
        requires
            old(self).wf(),
            0 <= dt <= MAX_DT,
        ensures
            final(self).wf(),
            cars_sorted(final(self).microtraffic.cars@),
            final(self).microtraffic.green == signal_at(old(self).microtraffic.timings@, tick as int).green,
            final(self).microtraffic.yellow_to_green == signal_at(old(self).microtraffic.timings@, tick as int).yellow_to_green,
            final(self).microtraffic.yellow_to_red == signal_at(old(self).microtraffic.timings@, tick as int).yellow_to_red,
            forall|j: int| 0 <= j < final(self).microtraffic.cars@.len() ==> !passed_hop(final(self).interactions@, #[trigger] final(self).microtraffic.cars@[j]),
            final(self).interactions@ == old(self).interactions@,
            final(self).routes@ == old(self).routes@,
            final(self).id == old(self).id,
            final(self).length == old(self).length,
            final(self).last_spawn_position == old(self).last_spawn_position,
            final(self).microtraffic.timings@ == old(self).microtraffic.timings@,
            ({
                let phase = in_phase(tick as int, old(self).id as int, TRAFFIC_LOGIC_THROTTLING as int);
                let green = final(self).microtraffic.green;
                let signals = if green != old(self).microtraffic.green || phase {
                    announcements(old(self).interactions@, old(self).id, green)
                } else {
                    Seq::empty()
                };
                let routes = if in_phase(tick as int, old(self).id as int, PATHFINDING_THROTTLING as int) {
                    seq![Outbound::RefreshRoutes]
                } else {
                    Seq::empty()
                };
                exists|ordered: Seq<(Obstacle, LaneLikeId)>, moved: Seq<LaneCar>, advanced: Seq<LaneCar>|
                    #![trigger obstacle_order(old(self).microtraffic.obstacles@, ordered, phase), advanced_cars(moved, dt / SLOWDOWN, advanced)] {
                    let sent = old(outbox)@ + signals + routes + handoff_messages(advanced, old(self).interactions@, old(self).id, tick);
                    &&& obstacle_order(old(self).microtraffic.obstacles@, ordered, phase)
                    &&& (if phase {
                            accelerations_set(old(self).microtraffic.cars@, ordered, old(self).interactions@, moved)
                        } else {
                            moved == old(self).microtraffic.cars@
                        })
                    &&& final(self).microtraffic.obstacles@.len() == ordered.len()
                    &&& forall|i: int| 0 <= i < ordered.len() ==>
                        (#[trigger] final(self).microtraffic.obstacles@[i]) == (drifted(ordered[i].0, dt / SLOWDOWN), ordered[i].1)
                    &&& advanced_cars(moved, dt / SLOWDOWN, advanced)
                    &&& final(self).microtraffic.cars@ == kept(advanced, old(self).interactions@)
                    &&& final(outbox)@.len() >= sent.len()
                    &&& final(outbox)@.subrange(0, sent.len() as int) == sent
                    &&& publications(old(self).interactions@, tick, final(self).microtraffic.cars@, final(self).microtraffic.obstacles@,
                        old(self).id, final(outbox)@.subrange(sent.len() as int, final(outbox)@.len() as int))
                }
            }),
    {
        let ghost dt0 = dt;
        let dt = dt / SLOWDOWN;
        let do_traffic = is_phase(tick, self.id, TRAFFIC_LOGIC_THROTTLING);
        let old_green = self.microtraffic.green;
        let state = signal_state(&self.microtraffic.timings, tick);
        self.microtraffic.green = state.green;
        let ghost green = state.green;
        let ghost signals = if old_green != green || do_traffic {
            announcements(old(self).interactions@, old(self).id, green)
        } else {
            Seq::empty()
        };
        let ghost routes: Seq<Outbound> = if in_phase(tick as int, old(self).id as int, PATHFINDING_THROTTLING as int) {
            seq![Outbound::RefreshRoutes]
        } else {
            Seq::empty()
        };
        if old_green != self.microtraffic.green || do_traffic {
            self.announce_signal(outbox);
        }
        assert(outbox@ =~= old(outbox)@ + signals);
        if is_phase(tick, self.id, PATHFINDING_THROTTLING) {
            outbox.push(Outbound::RefreshRoutes);
        }
        assert(outbox@ =~= old(outbox)@ + signals + routes);
        if do_traffic {
            sort_obstacles(&mut self.microtraffic.obstacles);
            self.update_accelerations();
        }
        let ghost ordered = self.microtraffic.obstacles@;
        let ghost moved = self.microtraffic.cars@;
        self.advance(dt);
        let ghost advanced = self.microtraffic.cars@;
        let ghost mid = outbox@;
        self.resolve_handoffs(tick, outbox);
        let ghost sent = outbox@;
        assert(sent == old(outbox)@ + signals + routes + handoff_messages(advanced, old(self).interactions@, old(self).id, tick));
        self.publish_obstacles(tick, outbox);
        self.microtraffic.yellow_to_green = state.yellow_to_green;
        self.microtraffic.yellow_to_red = state.yellow_to_red;
        proof {
            assert(outbox@.subrange(0, sent.len() as int) == sent);
            assert(advanced_cars(moved, dt0 / SLOWDOWN, advanced));
            assert(obstacle_order(old(self).microtraffic.obstacles@, ordered, do_traffic));
        }
    }
}


} // verus!
