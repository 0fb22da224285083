use vstd::prelude::*;
use crate::obstacle::{Obstacle, LaneCar, Location, POS_LIMIT};
use crate::tick::extends;

verus! {

/// Spacing between two vehicles spawned in a row at a lane's entry.
pub const SPAWN_SPACING: i64 = 6000;

/// The spawn cursor must lie beyond this for a forced spawn to succeed.
pub const SPAWN_MIN_CURSOR: i64 = 2000;

/// A handle of a lane-like entity: a plain lane or a transfer lane, with
/// its instance number.
#[derive(Clone, Copy, Debug, PartialEq, Eq, Structural)]
pub enum LaneLikeId {
    Plain(u32),
    Transfer(u32),
}

impl LaneLikeId {
    pub open spec fn instance_spec(&self) -> u32 {
        match *self {
            LaneLikeId::Plain(i) => i,
            LaneLikeId::Transfer(i) => i,
        }
    }

    pub fn instance_id(&self) -> (r: u32)
        ensures
            r == self.instance_spec(),
    {
        match *self {
            LaneLikeId::Plain(i) => i,
            LaneLikeId::Transfer(i) => i,
        }
    }
}

#[derive(Clone, Copy, Debug, PartialEq, Eq, Structural)]
pub enum OverlapKind {
    Parallel,
    Transfer,
    Conflicting,
}

#[derive(Clone, Copy, Debug, PartialEq, Eq, Structural)]
pub enum InteractionKind {
    Next { green: bool },
    Previous,
    Overlap { end: i64, kind: OverlapKind },
}

/// A directed relationship to a neighbouring lane; `start` on this lane
/// corresponds to `partner_start` on the partner.
#[derive(Clone, Copy, Debug, PartialEq, Eq, Structural)]
pub struct Interaction {
    pub partner_lane: LaneLikeId,
    pub start: i64,
    pub partner_start: i64,
    pub kind: InteractionKind,
}

impl Interaction {
    pub open spec fn wf(&self) -> bool {
        &&& -POS_LIMIT <= self.start <= POS_LIMIT
        &&& -POS_LIMIT <= self.partner_start <= POS_LIMIT
        &&& (self.kind matches InteractionKind::Overlap { end, .. } ==> -POS_LIMIT <= end
            <= POS_LIMIT)
    }
}

/// A route table entry: vehicles for `destination` leave through the
/// interaction at `outgoing_idx`.
#[derive(Clone, Copy, Debug, PartialEq, Eq, Structural)]
pub struct RoutingInfo {
    pub destination: Location,
    pub outgoing_idx: u8,
}

/// What a lane hands to its collaborators during one call.
#[derive(Debug)]
pub enum Outbound {
    SignalChanged { to: LaneLikeId, from: LaneLikeId, green: bool },
    AddCar { to: LaneLikeId, car: LaneCar, from: LaneLikeId },
    AddObstacles { to: LaneLikeId, obstacles: Vec<Obstacle>, from: LaneLikeId },
    TripSucceeded { trip: u64, tick: u64 },
    TripFailed { trip: u64, location: LaneLikeId, tick: u64 },
    RefreshRoutes,
}

/// The traffic state of a plain lane.
pub struct Microtraffic {
    pub obstacles: Vec<(Obstacle, LaneLikeId)>,
    pub cars: Vec<LaneCar>,
    pub timings: Vec<bool>,
    pub green: bool,
    pub yellow_to_green: bool,
    pub yellow_to_red: bool,
}

impl Microtraffic {
    pub fn new(timings: Vec<bool>) -> (r: Microtraffic)
        ensures
            r.obstacles@.len() == 0,
            r.cars@.len() == 0,
            r.timings@ == timings@,
            !r.green && !r.yellow_to_green && !r.yellow_to_red,
    {
        Microtraffic {
            obstacles: Vec::new(),
            cars: Vec::new(),
            timings,
            green: false,
            yellow_to_green: false,
            yellow_to_red: false,
        }
    }
}

/// Vehicles ordered by position, ascending.
pub open spec fn cars_sorted(cars: Seq<LaneCar>) -> bool {
    forall|i: int, j: int| 0 <= i < j < cars.len() ==> cars[i].position() <= cars[j].position()
}

/// The first route table entry for `d`, searched from the front.
pub open spec fn route_for(routes: Seq<RoutingInfo>, d: Location) -> Option<u8>
    decreases routes.len(),
{
    if routes.len() == 0 {
        None
    } else {
        match route_for(routes.drop_last(), d) {
            Some(x) => Some(x),
            None => if routes.last().destination == d {
                Some(routes.last().outgoing_idx)
            } else {
                None
            },
        }
    }
}

/// A vehicle with a negative position asks for a forced spawn at the entry.
pub open spec fn forced_spawn(car: LaneCar) -> bool {
    car.as_obstacle.position < 0
}

/// The next hop chosen for `car`: its exact destination, else its landmark,
/// else (for a vehicle that is not a forced spawn, on a lane that knows some
/// route) the entry picked by its velocity.
pub open spec fn route_choice(routes: Seq<RoutingInfo>, car: LaneCar) -> Option<u8> {
    let d = car.destination;
    match route_for(routes, d) {
        Some(x) => Some(x),
        None => match route_for(routes, Location { landmark: d.landmark, node: d.landmark }) {
            Some(x) => Some(x),
            None => if forced_spawn(car) || routes.len() == 0 {
                None
            } else {
                Some(routes[(car.as_obstacle.velocity as int) % (routes.len() as int)].outgoing_idx)
            },
        },
    }
}

pub struct Lane {
    pub id: u32,
    pub length: i64,
    pub interactions: Vec<Interaction>,
    pub routes: Vec<RoutingInfo>,
    pub last_spawn_position: i64,
    pub microtraffic: Microtraffic,
}

impl Lane {
    pub open spec fn wf(&self) -> bool {
        &&& 0 <= self.length <= POS_LIMIT
        &&& -POS_LIMIT <= self.last_spawn_position <= POS_LIMIT
        &&& self.interactions@.len() <= 256
        &&& forall|i: int| 0 <= i < self.interactions@.len() ==> #[trigger] self.interactions@[i].wf()
        &&& forall|i: int| 0 <= i < self.routes@.len()
            ==> (#[trigger] self.routes@[i].outgoing_idx) < self.interactions@.len()
        &&& forall|i: int| 0 <= i < self.microtraffic.obstacles@.len()
            ==> (#[trigger] self.microtraffic.obstacles@[i]).0.wf()
        &&& self.cars_wf()
    }

    pub open spec fn cars_wf(&self) -> bool {
        let cars = self.microtraffic.cars@;
        &&& cars_sorted(cars)
        &&& forall|i: int| 0 <= i < cars.len() ==> (#[trigger] cars[i]).wf()
            && cars[i].next_hop_interaction < self.interactions@.len()
    }

    pub open spec fn self_id(&self) -> LaneLikeId {
        LaneLikeId::Plain(self.id)
    }

    /// A lane without vehicles or obstacles; its spawn cursor starts at its
    /// end.
    pub fn new(
        id: u32,
        length: i64,
        interactions: Vec<Interaction>,
        routes: Vec<RoutingInfo>,
        timings: Vec<bool>,
    ) -> (r: Lane)
        requires
            0 <= length <= POS_LIMIT,
            interactions@.len() <= 256,
            forall|i: int| 0 <= i < interactions@.len() ==> #[trigger] interactions@[i].wf(),
            forall|i: int| 0 <= i < routes@.len()
                ==> (#[trigger] routes@[i].outgoing_idx) < interactions@.len(),
        ensures
            r.wf(),
            r.id == id,
            r.length == length,
            r.interactions@ == interactions@,
            r.routes@ == routes@,
            r.last_spawn_position == length,
            r.microtraffic.cars@.len() == 0,
            r.microtraffic.obstacles@.len() == 0,
            r.microtraffic.timings@ == timings@,
    {
        Lane {
            id,
            length,
            interactions,
            routes,
            last_spawn_position: length,
            microtraffic: Microtraffic::new(timings),
        }
    }

    /// Whether `add_car` keeps `car` on this lane.
    pub open spec fn accepts(&self, car: LaneCar) -> bool {
        &&& route_choice(self.routes@, car) is Some
        &&& (forced_spawn(car) ==> self.last_spawn_position > SPAWN_MIN_CURSOR)
    }

    /// The vehicle as `add_car` stores it: routed, and moved to the spawn
    /// cursor when it is a forced spawn.
    pub open spec fn routed(&self, car: LaneCar) -> LaneCar {
        LaneCar {
            next_hop_interaction: route_choice(self.routes@, car).unwrap(),
            as_obstacle: if forced_spawn(car) {
                Obstacle { position: self.last_spawn_position, ..car.as_obstacle }
            } else {
                car.as_obstacle
            },
            ..car
        }
    }
}

fn find_route(routes: &Vec<RoutingInfo>, d: Location) -> (r: Option<u8>)
    ensures
        r == route_for(routes@, d),
{
    let mut i: usize = 0;
    while i < routes.len()
        invariant
            0 <= i <= routes@.len(),
            route_for(routes@.subrange(0, i as int), d) is None,
        decreases routes@.len() - i,
    {
        assert(routes@.subrange(0, i + 1).drop_last() =~= routes@.subrange(0, i as int));
        if routes[i].destination == d {
            proof { lemma_route_prefix(routes@, i as int + 1, d); }
            return Some(routes[i].outgoing_idx);
        }
        i += 1;
    }
    assert(routes@.subrange(0, i as int) =~= routes@);
    None
}

/// A route found in a prefix is the route of the whole table.
proof fn lemma_route_prefix(routes: Seq<RoutingInfo>, n: int, d: Location)
    requires
        0 <= n <= routes.len(),
        route_for(routes.subrange(0, n), d) is Some,
    ensures
        route_for(routes, d) == route_for(routes.subrange(0, n), d),
    decreases routes.len() - n,
{
    if n < routes.len() {
        assert(routes.subrange(0, n + 1).drop_last() =~= routes.subrange(0, n));
        lemma_route_prefix(routes, n + 1, d);
    } else {
        assert(routes.subrange(0, n) =~= routes);
    }
}

/// Every route in the table names one of its entries' hops.
proof fn lemma_route_in_table(routes: Seq<RoutingInfo>, d: Location)
    ensures
        route_for(routes, d) matches Some(x) ==> exists|i: int| 0 <= i < routes.len()
            && routes[i].outgoing_idx == x,
    decreases routes.len(),
{
    if routes.len() > 0 {
        lemma_route_in_table(routes.drop_last(), d);
        if let Some(x) = route_for(routes.drop_last(), d) {
            let i = choose|i: int| 0 <= i < routes.drop_last().len()
                && routes.drop_last()[i].outgoing_idx == x;
            assert(routes[i].outgoing_idx == x);
        } else if route_for(routes, d) is Some {
            assert(routes[routes.len() - 1].outgoing_idx == routes.last().outgoing_idx);
        }
    }
}

/// Inserts `car` before the first vehicle strictly ahead of it.
fn insert_sorted(cars: &mut Vec<LaneCar>, car: LaneCar)
    requires
        cars_sorted(old(cars)@),
    ensures
        cars_sorted(final(cars)@),
        exists|k: int| 0 <= k <= old(cars)@.len() && final(cars)@ == old(cars)@.insert(k, car)
            && (forall|j: int| 0 <= j < k ==> old(cars)@[j].position() <= car.position())
            && (forall|j: int| k <= j < old(cars)@.len() ==> old(cars)@[j].position()
                > car.position()),
{
    let mut k: usize = 0;
    while k < cars.len()
        invariant
            0 <= k <= cars@.len(),
            cars@ == old(cars)@,
            forall|j: int| 0 <= j < k ==> cars@[j].position() <= car.position(),
        ensures
            0 <= k <= cars@.len(),
            cars@ == old(cars)@,
            forall|j: int| 0 <= j < k ==> cars@[j].position() <= car.position(),
            k < cars@.len() ==> cars@[k as int].position() > car.position(),
        decreases cars@.len() - k,
    {
        if cars[k].as_obstacle.position > car.as_obstacle.position {
            break;
        }
        k += 1;
    }
    let ghost before = cars@;
    cars.insert(k, car);
    proof {
        let kk = k as int;
        assert(forall|j: int| kk <= j < before.len() ==> before[j].position() > car.position())
            by {
            assert forall|j: int| kk <= j < before.len() implies before[j].position()
                > car.position() by {
                assert(before[kk].position() <= before[j].position());
            }
        }
        assert(cars_sorted(cars@)) by {
            assert forall|i: int, j: int| 0 <= i < j < cars@.len() implies cars@[i].position()
                <= cars@[j].position() by {
                if i < kk && j > kk {
                    assert(cars@[j] == before[j - 1]);
                } else if i > kk {
                    assert(cars@[i] == before[i - 1]);
                    assert(cars@[j] == before[j - 1]);
                } else if i == kk && j > kk {
                    assert(cars@[j] == before[j - 1]);
                }
            }
        }
        assert(cars@ == before.insert(kk, car));
    }
}

impl Lane {
    /// Takes a vehicle onto this lane. It is routed (see `route_choice`); a
    /// forced spawn also needs the spawn cursor beyond `SPAWN_MIN_CURSOR`,
    /// and is then placed at the cursor, which moves back by
    /// `SPAWN_SPACING`. A vehicle that cannot be taken is dropped and its
    /// trip reported failed at this lane.
    pub fn add_car(&mut self, car: LaneCar, from: Option<LaneLikeId>, tick: u64, outbox: &mut Vec<Outbound>)
        requires
            old(self).wf(),
            car.wf(),
        ensures
            final(self).wf(),
            final(self).id == old(self).id,
            final(self).length == old(self).length,
            final(self).interactions@ == old(self).interactions@,
            final(self).routes@ == old(self).routes@,
            final(self).microtraffic.obstacles@ == old(self).microtraffic.obstacles@,
            final(self).microtraffic.timings@ == old(self).microtraffic.timings@,
            final(self).microtraffic.green == old(self).microtraffic.green,
            final(self).microtraffic.yellow_to_green == old(self).microtraffic.yellow_to_green,
            final(self).microtraffic.yellow_to_red == old(self).microtraffic.yellow_to_red,
            old(self).accepts(car) ==> {
                &&& final(outbox)@ == old(outbox)@
                &&& taken(*old(self), car, *final(self))
            },
            !old(self).accepts(car) ==> {
                &&& final(self).microtraffic.cars@ == old(self).microtraffic.cars@
                &&& final(self).last_spawn_position == old(self).last_spawn_position
                &&& final(outbox)@.len() == old(outbox)@.len() + 1
                &&& final(outbox)@.subrange(0, old(outbox)@.len() as int) == old(outbox)@
                &&& final(outbox)@.last() matches Outbound::TripFailed { trip, location, tick: t }
                    && trip == car.trip && location == old(self).self_id() && t == tick
            },
    {
        let forced = car.as_obstacle.position < 0;
        let choice = match find_route(&self.routes, car.destination) {
            Some(x) => Some(x),
            None => match find_route(&self.routes, car.destination.landmark_destination()) {
                Some(x) => Some(x),
                None => if forced || self.routes.len() == 0 {
                    None
                } else {
                    let n = self.routes.len();
                    Some(self.routes[(car.as_obstacle.velocity as usize) % n].outgoing_idx)
                },
            },
        };
        proof {
            let d = car.destination;
            lemma_route_in_table(self.routes@, d);
            lemma_route_in_table(self.routes@, Location { landmark: d.landmark, node: d.landmark });
        }
        let spawn_possible = !forced || self.last_spawn_position > SPAWN_MIN_CURSOR;
        if choice.is_some() && spawn_possible {
            let next_hop = choice.unwrap();
            let mut as_obstacle = car.as_obstacle;
            if forced {
                as_obstacle.position = self.last_spawn_position;
                self.last_spawn_position = self.last_spawn_position - SPAWN_SPACING;
            }
            let routed = LaneCar { next_hop_interaction: next_hop, as_obstacle, ..car };
            assert(routed == old(self).routed(car));
            insert_sorted(&mut self.microtraffic.cars, routed);
            proof {
                let k = choose|k: int| 0 <= k <= old(self).microtraffic.cars@.len()
                    && self.microtraffic.cars@ == old(self).microtraffic.cars@.insert(k, routed)
                    && (forall|j: int| 0 <= j < k ==> old(self).microtraffic.cars@[j].position() <= routed.position())
                    && (forall|j: int| k <= j < old(self).microtraffic.cars@.len() ==> old(self).microtraffic.cars@[j].position() > routed.position());
                assert forall|i: int| 0 <= i < self.microtraffic.cars@.len() implies
                    (#[trigger] self.microtraffic.cars@[i]).wf()
                    && self.microtraffic.cars@[i].next_hop_interaction < self.interactions@.len() by {
                    if i < k {
                        assert(self.microtraffic.cars@[i] == old(self).microtraffic.cars@[i]);
                    } else if i > k {
                        assert(self.microtraffic.cars@[i] == old(self).microtraffic.cars@[i - 1]);
                    }
                }
            }
        } else {
            outbox.push(Outbound::TripFailed { trip: car.trip, location: LaneLikeId::Plain(self.id), tick });
            assert(outbox@.subrange(0, old(outbox)@.len() as int) =~= old(outbox)@);
        }
    }

    /// Replaces the obstacles last received from `from` by `obstacles`,
    /// keeping those of every other source.
    pub fn add_obstacles(&mut self, obstacles: &Vec<Obstacle>, from: LaneLikeId)
        requires
            old(self).wf(),
            forall|i: int| 0 <= i < obstacles@.len() ==> (#[trigger] obstacles@[i]).wf(),
        ensures
            final(self).wf(),
            final(self).microtraffic.obstacles@ == without_source(
                old(self).microtraffic.obstacles@, from) + tagged(obstacles@, from),
            final(self).microtraffic.cars@ == old(self).microtraffic.cars@,
            final(self).interactions@ == old(self).interactions@,
            final(self).routes@ == old(self).routes@,
            final(self).id == old(self).id,
            final(self).length == old(self).length,
            final(self).last_spawn_position == old(self).last_spawn_position,
            final(self).microtraffic.timings@ == old(self).microtraffic.timings@,
            final(self).microtraffic.green == old(self).microtraffic.green,
            final(self).microtraffic.yellow_to_green == old(self).microtraffic.yellow_to_green,
            final(self).microtraffic.yellow_to_red == old(self).microtraffic.yellow_to_red,
    {
        let mut kept: Vec<(Obstacle, LaneLikeId)> = Vec::new();
        let n = self.microtraffic.obstacles.len();
        let mut i: usize = 0;
        while i < n
            invariant
                n == self.microtraffic.obstacles@.len(),
                self == old(self),
                old(self).wf(),
                0 <= i <= n,
                kept@ == without_source(self.microtraffic.obstacles@.subrange(0, i as int), from),
                forall|j: int| 0 <= j < kept@.len() ==> (#[trigger] kept@[j]).0.wf(),
            decreases n - i,
        {
            let entry = self.microtraffic.obstacles[i];
            assert(self.microtraffic.obstacles@.subrange(0, i + 1).drop_last()
                =~= self.microtraffic.obstacles@.subrange(0, i as int));
            if entry.1 != from {
                kept.push(entry);
            }
            i += 1;
        }
        assert(self.microtraffic.obstacles@.subrange(0, n as int) =~= self.microtraffic.obstacles@);
        let ghost base = kept@;
        let mut j: usize = 0;
        while j < obstacles.len()
            invariant
                0 <= j <= obstacles@.len(),
                kept@ == base + tagged(obstacles@.subrange(0, j as int), from),
                forall|i: int| 0 <= i < obstacles@.len() ==> (#[trigger] obstacles@[i]).wf(),
                forall|k: int| 0 <= k < kept@.len() ==> (#[trigger] kept@[k]).0.wf(),
            decreases obstacles@.len() - j,
        {
            kept.push((obstacles[j], from));
            assert(tagged(obstacles@.subrange(0, j + 1), from) =~= tagged(
                obstacles@.subrange(0, j as int), from).push((obstacles@[j as int], from)));
            j += 1;
        }
        assert(obstacles@.subrange(0, j as int) =~= obstacles@);
        self.microtraffic.obstacles = kept;
    }

    /// Records the signal state `green` of the lane `from` on the `Next`
    /// interaction towards it; a message from a lane not yet known is
    /// ignored.
    pub fn on_signal_changed(&mut self, from: LaneLikeId, green: bool)
        requires
            old(self).wf(),
        ensures
            final(self).wf(),
            final(self).microtraffic.cars@ == old(self).microtraffic.cars@,
            final(self).microtraffic.obstacles@ == old(self).microtraffic.obstacles@,
            final(self).routes@ == old(self).routes@,
            final(self).id == old(self).id,
            final(self).length == old(self).length,
            final(self).last_spawn_position == old(self).last_spawn_position,
            final(self).microtraffic.timings@ == old(self).microtraffic.timings@,
            final(self).microtraffic.green == old(self).microtraffic.green,
            final(self).microtraffic.yellow_to_green == old(self).microtraffic.yellow_to_green,
            final(self).microtraffic.yellow_to_red == old(self).microtraffic.yellow_to_red,
            match first_next_to(old(self).interactions@, from) {
                Some(k) => final(self).interactions@ == old(self).interactions@.update(
                    k,
                    Interaction {
                        kind: InteractionKind::Next { green },
                        ..old(self).interactions@[k]
                    },
                ),
                None => final(self).interactions@ == old(self).interactions@,
            },
    {
        let mut i: usize = 0;
        while i < self.interactions.len()
            invariant
                0 <= i <= self.interactions@.len(),
                *self == *old(self),
                old(self).wf(),
                forall|j: int| 0 <= j < i ==> !is_next_to(#[trigger] self.interactions@[j], from),
            decreases self.interactions@.len() - i,
        {
            let interaction = self.interactions[i];
            let hit = match interaction.kind {
                InteractionKind::Next { .. } => interaction.partner_lane == from,
                _ => false,
            };
            if hit {
                proof { lemma_first_next_to(self.interactions@, from, i as int); }
                let ghost before = self.interactions@;
                self.interactions.set(i, Interaction { kind: InteractionKind::Next { green }, ..interaction });
                assert forall|j: int| 0 <= j < self.interactions@.len() implies
                    #[trigger] self.interactions@[j].wf() by {
                    if j != i {
                        assert(self.interactions@[j] == before[j]);
                    } else {
                        assert(old(self).interactions@[j].wf());
                    }
                }
                return;
            }
            i += 1;
        }
        proof { lemma_first_next_to_none(self.interactions@, from); }
    }
}

/// What every lane-like entity offers its neighbours: taking over a vehicle
/// and receiving the obstacles a neighbour projects onto it.
pub trait LaneLike {
    /// The entity's internal invariant.
    spec fn ready(&self) -> bool;

    /// Whether the entity can take a vehicle coming from `from`.
    spec fn takes_from(&self, from: Option<LaneLikeId>) -> bool;

    fn add_car(&mut self, car: LaneCar, from: Option<LaneLikeId>, tick: u64, outbox: &mut Vec<Outbound>)
        requires
            old(self).ready(),
            car.wf(),
            old(self).takes_from(from),
        ensures
            final(self).ready(),
            extends(final(outbox)@, old(outbox)@),
    ;

    fn add_obstacles(&mut self, obstacles: &Vec<Obstacle>, from: LaneLikeId)
        requires
            old(self).ready(),
            forall|i: int| 0 <= i < obstacles@.len() ==> (#[trigger] obstacles@[i]).wf(),
        ensures
            final(self).ready(),
    ;
}

impl LaneLike for Lane {
    open spec fn ready(&self) -> bool {
        self.wf()
    }

    open spec fn takes_from(&self, from: Option<LaneLikeId>) -> bool {
        true
    }

    fn add_car(&mut self, car: LaneCar, from: Option<LaneLikeId>, tick: u64, outbox: &mut Vec<Outbound>) {
        assert(old(outbox)@.subrange(0, old(outbox)@.len() as int) =~= old(outbox)@);
        Lane::add_car(self, car, from, tick, outbox);
    }

    fn add_obstacles(&mut self, obstacles: &Vec<Obstacle>, from: LaneLikeId) {
        Lane::add_obstacles(self, obstacles, from);
    }
}

/// `after` is `before` once it has taken `car`: the routed vehicle stands
/// before the first vehicle strictly ahead of it, and a forced spawn moves
/// the spawn cursor back by `SPAWN_SPACING`.
pub open spec fn taken(before: Lane, car: LaneCar, after: Lane) -> bool {
    let cars = before.microtraffic.cars@;
    let r = before.routed(car);
    &&& exists|k: int| 0 <= k <= cars.len() && after.microtraffic.cars@ == cars.insert(k, r)
        && (forall|j: int| 0 <= j < k ==> cars[j].position() <= r.position())
        && (forall|j: int| k <= j < cars.len() ==> cars[j].position() > r.position())
    &&& after.last_spawn_position == if forced_spawn(car) {
        before.last_spawn_position - SPAWN_SPACING
    } else {
        before.last_spawn_position as int
    }
}

/// Forced spawns are refused while the spawn cursor is at or below
/// `SPAWN_MIN_CURSOR`. Spawning `n` vehicles in a row on an empty lane,
/// each accepted, leaves `n` vehicles spaced by exactly `SPAWN_SPACING`, the
/// first one at the front, at the cursor where the run started.
pub proof fn lemma_spawn_spacing(lanes: Seq<Lane>, cars: Seq<LaneCar>)
    requires
        lanes.len() == cars.len() + 1,
        lanes[0].microtraffic.cars@.len() == 0,
        forall|k: int| 0 <= k < cars.len() ==> forced_spawn(#[trigger] cars[k]) && lanes[k].accepts(cars[k])
            && taken(lanes[k], cars[k], lanes[k + 1]),
    ensures
        forall|k: int| 0 <= k < lanes.len() && lanes[k].last_spawn_position <= SPAWN_MIN_CURSOR
            ==> k == cars.len() || !(#[trigger] lanes[k]).accepts(cars[k]),
        lanes.last().microtraffic.cars@.len() == cars.len(),
        forall|j: int| 0 <= j < cars.len() ==> (#[trigger] lanes.last().microtraffic.cars@[j]).position()
            == lanes[0].last_spawn_position - SPAWN_SPACING * (cars.len() - 1 - j),
{
    lemma_spawn_prefix(lanes, cars, cars.len() as int);
}

proof fn lemma_spawn_prefix(lanes: Seq<Lane>, cars: Seq<LaneCar>, n: int)
    requires
        lanes.len() == cars.len() + 1,
        0 <= n <= cars.len(),
        lanes[0].microtraffic.cars@.len() == 0,
        forall|k: int| 0 <= k < cars.len() ==> forced_spawn(#[trigger] cars[k]) && lanes[k].accepts(cars[k])
            && taken(lanes[k], cars[k], lanes[k + 1]),
    ensures
        lanes[n].microtraffic.cars@.len() == n,
        lanes[n].last_spawn_position == lanes[0].last_spawn_position - SPAWN_SPACING * n,
        forall|j: int| 0 <= j < n ==> (#[trigger] lanes[n].microtraffic.cars@[j]).position()
            == lanes[0].last_spawn_position - SPAWN_SPACING * (n - 1 - j),
    decreases n,
{
    if n > 0 {
        let m = n - 1;
        lemma_spawn_prefix(lanes, cars, m);
        assert(forced_spawn(cars[m]) && lanes[m].accepts(cars[m]) && taken(lanes[m], cars[m], lanes[m + 1]));
        let before = lanes[m].microtraffic.cars@;
        let r = lanes[m].routed(cars[m]);
        assert(r.position() == lanes[0].last_spawn_position - SPAWN_SPACING * m);
        let k = choose|k: int| 0 <= k <= before.len() && lanes[m + 1].microtraffic.cars@ == before.insert(k, r)
            && (forall|j: int| 0 <= j < k ==> before[j].position() <= r.position())
            && (forall|j: int| k <= j < before.len() ==> before[j].position() > r.position());
        if k > 0 {
            assert(before[0].position() <= r.position());
            assert(false);
        }
        let after = lanes[n].microtraffic.cars@;
        assert forall|j: int| 0 <= j < n implies (#[trigger] after[j]).position()
            == lanes[0].last_spawn_position - SPAWN_SPACING * (n - 1 - j) by {
            if j > 0 {
                assert(after[j] == before[j - 1]);
            }
        }
    }
}

/// Whether `interaction` is the `Next` interaction towards `partner`.
pub open spec fn is_next_to(interaction: Interaction, partner: LaneLikeId) -> bool {
    interaction.kind is Next && interaction.partner_lane == partner
}

/// Index of the first `Next` interaction towards `partner`.
pub open spec fn first_next_to(interactions: Seq<Interaction>, partner: LaneLikeId) -> Option<int> {
    if exists|k: int| 0 <= k < interactions.len() && is_next_to(#[trigger] interactions[k], partner) {
        Some(choose|k: int| 0 <= k < interactions.len() && is_next_to(#[trigger] interactions[k], partner)
            && forall|j: int| 0 <= j < k ==> !is_next_to(#[trigger] interactions[j], partner))
    } else {
        None
    }
}

proof fn lemma_first_next_to(interactions: Seq<Interaction>, partner: LaneLikeId, k: int)
    requires
        0 <= k < interactions.len(),
        is_next_to(interactions[k], partner),
        forall|j: int| 0 <= j < k ==> !is_next_to(#[trigger] interactions[j], partner),
    ensures
        first_next_to(interactions, partner) == Some(k),
{
    let c = choose|c: int| 0 <= c < interactions.len() && is_next_to(#[trigger] interactions[c], partner)
        && forall|j: int| 0 <= j < c ==> !is_next_to(#[trigger] interactions[j], partner);
    assert(0 <= c < interactions.len() && is_next_to(interactions[c], partner)
        && forall|j: int| 0 <= j < c ==> !is_next_to(#[trigger] interactions[j], partner));
    if c < k {
        assert(!is_next_to(interactions[c], partner));
    } else if c > k {
        assert(!is_next_to(interactions[k], partner));
    }
}

proof fn lemma_first_next_to_none(interactions: Seq<Interaction>, partner: LaneLikeId)
    requires
        forall|j: int| 0 <= j < interactions.len() ==> !is_next_to(#[trigger] interactions[j], partner),
    ensures
        first_next_to(interactions, partner) is None,
{
}

/// `s` without the entries received from `from`, in order.
pub open spec fn without_source(s: Seq<(Obstacle, LaneLikeId)>, from: LaneLikeId) -> Seq<(Obstacle, LaneLikeId)>
    decreases s.len(),
{
    if s.len() == 0 {
        s
    } else {
        let rest = without_source(s.drop_last(), from);
        if s.last().1 != from {
            rest.push(s.last())
        } else {
            rest
        }
    }
}

/// Each obstacle tagged with its source `from`.
pub open spec fn tagged(obstacles: Seq<Obstacle>, from: LaneLikeId) -> Seq<(Obstacle, LaneLikeId)> {
    obstacles.map_values(|o: Obstacle| (o, from))
}

} // verus!
