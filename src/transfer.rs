use vstd::prelude::*;
use crate::obstacle::{LATERAL_SPEED_DIVISOR, Obstacle, LaneCar, TransferringLaneCar, POS_LIMIT, SCALE, TRANSFER_LIMIT, clamp_position_exec};
use crate::following::{intelligent_acceleration, idm_acceleration};
use crate::lane::{LaneLike, LaneLikeId, Outbound};
use crate::signal::{in_phase, is_phase, is_next_phase, TRAFFIC_LOGIC_THROTTLING};
use crate::tick::{drifted, MAX_DT, SLOWDOWN, integrate_car, integrated, div_toward_zero, min_int};

verus! {

/// Lateral acceleration of a vehicle that has just entered a transfer lane.
pub const ENTRY_TRANSFER_ACCELERATION: i64 = 300;

/// Lateral position past which a vehicle still counts as biased to a side.
pub const SIDE_BIAS: i64 = 300;

/// Distance behind a vehicle from which side obstacles count.
pub const SIDE_MARGIN: i64 = 5000;

/// A candidate obstacle closer than this ahead of a vehicle is a danger.
pub const COLLISION_MARGIN: i64 = 100;

/// Headway of the car-following law on a transfer lane.
pub const TRANSFER_HEADWAY: i64 = 1000;


/// The traffic state of a transfer lane.
pub struct TransferringMicrotraffic {
    pub left_obstacles: Vec<Obstacle>,
    pub right_obstacles: Vec<Obstacle>,
    pub cars: Vec<TransferringLaneCar>,
}

impl TransferringMicrotraffic {
    pub fn new() -> (r: TransferringMicrotraffic)
        ensures
            r.left_obstacles@.len() == 0,
            r.right_obstacles@.len() == 0,
            r.cars@.len() == 0,
    {
        TransferringMicrotraffic { left_obstacles: Vec::new(), right_obstacles: Vec::new(), cars: Vec::new() }
    }
}

/// A lane between a left and a right neighbour that vehicles cross
/// laterally. It runs alongside its neighbours, so its coordinates are those
/// of its interactions; a neighbour is known with the offset (`start`) that
/// maps them to the neighbour's own coordinates.
pub struct TransferLane {
    pub id: u32,
    pub length: i64,
    pub left: Option<(LaneLikeId, i64)>,
    pub right: Option<(LaneLikeId, i64)>,
    pub microtraffic: TransferringMicrotraffic,
}

/// Whether `car` leaves toward the right neighbour.
pub open spec fn exits_right(car: TransferringLaneCar, length: int) -> bool {
    car.transfer_position > SCALE || (car.position() > length && car.transfer_acceleration > 0)
}

/// Whether `car` leaves toward the left neighbour.
pub open spec fn exits_left(car: TransferringLaneCar, length: int) -> bool {
    car.transfer_position < -SCALE || (car.position() > length && car.transfer_acceleration <= 0)
}

/// Whether `car` is still biased toward (or heading to) the left.
pub open spec fn left_biased(car: TransferringLaneCar) -> bool {
    car.transfer_position < SIDE_BIAS || car.transfer_acceleration < 0
}

/// Whether `car` is still biased toward (or heading to) the right.
pub open spec fn right_biased(car: TransferringLaneCar) -> bool {
    car.transfer_position > -SIDE_BIAS || car.transfer_acceleration > 0
}

pub open spec fn side_wf(side: Option<(LaneLikeId, i64)>) -> bool {
    side matches Some((_, start)) ==> -POS_LIMIT <= start <= POS_LIMIT
}

/// The first vehicle, in list order, positioned beyond `p`.
pub open spec fn first_ahead(cars: Seq<TransferringLaneCar>, p: int) -> Option<Obstacle>
    decreases cars.len(),
{
    if cars.len() == 0 {
        None
    } else if cars[0].position() > p {
        Some(cars[0].as_lane_car.as_obstacle)
    } else {
        first_ahead(cars.drop_first(), p)
    }
}

/// The obstacle of least position beyond `bound` (the first of equals).
pub open spec fn lowest_beyond(obstacles: Seq<Obstacle>, bound: int) -> Option<Obstacle>
    decreases obstacles.len(),
{
    if obstacles.len() == 0 {
        None
    } else {
        let rest = lowest_beyond(obstacles.drop_last(), bound);
        let o = obstacles.last();
        if o.position > bound && (rest matches Some(r) ==> o.position < r.position) {
            Some(o)
        } else {
            rest
        }
    }
}

/// Folds one candidate obstacle into the running (acceleration, danger)
/// pair of `car`.
pub open spec fn consider(car: Obstacle, acc: (int, bool), candidate: Option<Obstacle>) -> (int, bool) {
    match candidate {
        Some(o) => if o.position < car.position + COLLISION_MARGIN {
            (acc.0, true)
        } else {
            (min_int(acc.0, idm_acceleration(car, Some(o), TRANSFER_HEADWAY as int)), acc.1)
        },
        None => acc,
    }
}

/// Acceleration that brings a vehicle at `p` with velocity `v` to a stop at
/// the physical end of a lane of length `length`.
pub open spec fn before_end_acceleration(length: int, p: int, v: int) -> int {
    div_toward_zero((length + SCALE - p) * SCALE, 1500) - v
}

/// The longitudinal acceleration of vehicle `i` and whether one of its
/// obstacles is dangerously close.
pub open spec fn transfer_plan(lane: TransferLane, i: int) -> (int, bool) {
    let cars = lane.microtraffic.cars@;
    let car = cars[i];
    let o = car.as_lane_car.as_obstacle;
    let p = car.position();
    let left = if left_biased(car) { lowest_beyond(lane.microtraffic.left_obstacles@, p - SIDE_MARGIN) } else { None };
    let right = if right_biased(car) { lowest_beyond(lane.microtraffic.right_obstacles@, p - SIDE_MARGIN) } else { None };
    let free = (idm_acceleration(o, None, TRANSFER_HEADWAY as int), false);
    let acc = consider(o, consider(o, consider(o, free, first_ahead(cars, p)), left), right);
    (min_int(acc.0, before_end_acceleration(lane.length as int, p, o.velocity as int)), acc.1)
}

/// A vehicle as it enters a transfer lane from the left (or else the right).
pub open spec fn entered_car(car: LaneCar, from_left: bool) -> TransferringLaneCar {
    TransferringLaneCar {
        as_lane_car: car,
        transfer_position: if from_left { -SCALE } else { SCALE as int } as i64,
        transfer_velocity: 0,
        transfer_acceleration: if from_left { ENTRY_TRANSFER_ACCELERATION as int } else { -ENTRY_TRANSFER_ACCELERATION } as i64,
        cancelling: false,
    }
}

/// `after` is `before` with `car` inserted before the first vehicle
/// strictly ahead of it, scanning from the front.
pub open spec fn inserted_at(before: Seq<TransferringLaneCar>, after: Seq<TransferringLaneCar>, car: TransferringLaneCar) -> bool {
    exists|k: int| 0 <= k <= before.len() && after == before.insert(k, car)
        && (forall|j: int| 0 <= j < k ==> before[j].position() <= car.position())
        && (k < before.len() ==> before[k].position() > car.position())
}

impl TransferLane {
    pub open spec fn wf(&self) -> bool {
        &&& 0 <= self.length <= POS_LIMIT
        &&& side_wf(self.left)
        &&& side_wf(self.right)
        &&& forall|i: int| 0 <= i < self.microtraffic.cars@.len() ==> (#[trigger] self.microtraffic.cars@[i]).wf()
        &&& forall|i: int| 0 <= i < self.microtraffic.left_obstacles@.len() ==> (#[trigger] self.microtraffic.left_obstacles@[i]).wf()
        &&& forall|i: int| 0 <= i < self.microtraffic.right_obstacles@.len() ==> (#[trigger] self.microtraffic.right_obstacles@[i]).wf()
    }

    pub fn new(id: u32, length: i64, left: Option<(LaneLikeId, i64)>, right: Option<(LaneLikeId, i64)>) -> (r: TransferLane)
        requires
            0 <= length <= POS_LIMIT,
            side_wf(left),
            side_wf(right),
        ensures
            r.wf(),
            r.id == id,
            r.length == length,
            r.left == left,
            r.right == right,
            r.microtraffic.cars@.len() == 0,
            r.microtraffic.left_obstacles@.len() == 0,
            r.microtraffic.right_obstacles@.len() == 0,
    {
        TransferLane { id, length, left, right, microtraffic: TransferringMicrotraffic::new() }
    }

    /// Takes a vehicle from neighbour `from`: it starts fully on that side
    /// (lateral -1 from the left, +1 from the right), at rest laterally and
    /// accelerating toward the other side, and is inserted before the first
    /// vehicle strictly ahead of it.
    pub fn add_car(&mut self, car: LaneCar, from: Option<LaneLikeId>)
        requires
            old(self).wf(),
            car.wf(),
            from is Some,
            old(self).left is Some,
        ensures
            final(self).wf(),
            final(self).id == old(self).id,
            final(self).length == old(self).length,
            final(self).left == old(self).left,
            final(self).right == old(self).right,
            final(self).microtraffic.left_obstacles@ == old(self).microtraffic.left_obstacles@,
            final(self).microtraffic.right_obstacles@ == old(self).microtraffic.right_obstacles@,
            inserted_at(old(self).microtraffic.cars@, final(self).microtraffic.cars@,
                entered_car(car, from.unwrap() == old(self).left.unwrap().0)),
    {
        let from_left = from.unwrap() == self.left.unwrap().0;
        let entered = TransferringLaneCar {
            as_lane_car: car,
            transfer_position: if from_left { -SCALE } else { SCALE },
            transfer_velocity: 0,
            transfer_acceleration: if from_left { ENTRY_TRANSFER_ACCELERATION } else { -ENTRY_TRANSFER_ACCELERATION },
            cancelling: false,
        };
        let mut k: usize = 0;
        while k < self.microtraffic.cars.len()
            invariant
                0 <= k <= self.microtraffic.cars@.len(),
                *self == *old(self),
                forall|j: int| 0 <= j < k ==> self.microtraffic.cars@[j].position() <= car.position(),
            ensures
                0 <= k <= self.microtraffic.cars@.len(),
                *self == *old(self),
                forall|j: int| 0 <= j < k ==> self.microtraffic.cars@[j].position() <= car.position(),
                k < self.microtraffic.cars@.len() ==> self.microtraffic.cars@[k as int].position() > car.position(),
            decreases self.microtraffic.cars@.len() - k,
        {
            if self.microtraffic.cars[k].as_lane_car.as_obstacle.position > car.as_obstacle.position {
                break;
            }
            k += 1;
        }
        let ghost before = self.microtraffic.cars@;
        self.microtraffic.cars.insert(k, entered);
        proof {
            let cars = self.microtraffic.cars@;
            assert(cars == before.insert(k as int, entered));
            assert(entered.transfer_position == if from_left { -SCALE } else { SCALE as int } as i64);
            assert(entered.transfer_acceleration == if from_left { ENTRY_TRANSFER_ACCELERATION as int } else { -ENTRY_TRANSFER_ACCELERATION } as i64);
            assert(before == old(self).microtraffic.cars@);
            assert(entered == entered_car(car, from_left));
            let kk = k as int;
            assert(0 <= kk <= before.len() && cars == before.insert(kk, entered)
                && (forall|j: int| 0 <= j < kk ==> before[j].position() <= entered.position())
                && (kk < before.len() ==> before[kk].position() > entered.position()));
            assert forall|i: int| 0 <= i < cars.len() implies (#[trigger] cars[i]).wf() by {
                if i < k {
                    assert(cars[i] == before[i]);
                } else if i > k {
                    assert(cars[i] == before[i - 1]);
                }
            }
        }
    }

    /// Stores `obstacles` as those of the neighbour `from`; until both
    /// neighbours are known, obstacles are dropped.
    pub fn add_obstacles(&mut self, obstacles: &Vec<Obstacle>, from: LaneLikeId)
        requires
            old(self).wf(),
            forall|i: int| 0 <= i < obstacles@.len() ==> (#[trigger] obstacles@[i]).wf(),
        ensures
            final(self).wf(),
            final(self).id == old(self).id,
            final(self).length == old(self).length,
            final(self).left == old(self).left,
            final(self).right == old(self).right,
            final(self).microtraffic.cars@ == old(self).microtraffic.cars@,
            (old(self).left is Some && old(self).right is Some && from == old(self).left.unwrap().0) ==> {
                &&& final(self).microtraffic.left_obstacles@ == obstacles@
                &&& final(self).microtraffic.right_obstacles@ == old(self).microtraffic.right_obstacles@
            },
            (old(self).left is Some && old(self).right is Some && from != old(self).left.unwrap().0) ==> {
                &&& final(self).microtraffic.right_obstacles@ == obstacles@
                &&& final(self).microtraffic.left_obstacles@ == old(self).microtraffic.left_obstacles@
            },
            (old(self).left is None || old(self).right is None) ==> {
                &&& final(self).microtraffic.left_obstacles@ == old(self).microtraffic.left_obstacles@
                &&& final(self).microtraffic.right_obstacles@ == old(self).microtraffic.right_obstacles@
            },
    {
        match (self.left, self.right) {
            (Some((left_id, _)), Some(_)) => {
                if left_id == from {
                    self.microtraffic.left_obstacles = obstacles.clone();
                } else {
                    self.microtraffic.right_obstacles = obstacles.clone();
                }
            },
            _ => {},
        }
    }
}

fn find_first_ahead(cars: &Vec<TransferringLaneCar>, p: i64) -> (r: Option<Obstacle>)
    requires
        forall|i: int| 0 <= i < cars@.len() ==> (#[trigger] cars@[i]).wf(),
    ensures
        r == first_ahead(cars@, p as int),
        r matches Some(o) ==> o.wf(),
{
    let mut i: usize = 0;
    assert(cars@.subrange(0, cars@.len() as int) =~= cars@);
    while i < cars.len()
        invariant
            0 <= i <= cars@.len(),
            forall|i: int| 0 <= i < cars@.len() ==> (#[trigger] cars@[i]).wf(),
            first_ahead(cars@, p as int) == first_ahead(cars@.subrange(i as int, cars@.len() as int), p as int),
        decreases cars@.len() - i,
    {
        assert(cars@.subrange(i as int, cars@.len() as int).drop_first() =~= cars@.subrange(i + 1, cars@.len() as int));
        if cars[i].as_lane_car.as_obstacle.position > p {
            assert(cars@[i as int].wf());
            return Some(cars[i].as_lane_car.as_obstacle);
        }
        i += 1;
    }
    None
}

fn find_lowest_beyond(obstacles: &Vec<Obstacle>, bound: i64) -> (r: Option<Obstacle>)
    requires
        forall|i: int| 0 <= i < obstacles@.len() ==> (#[trigger] obstacles@[i]).wf(),
    ensures
        r == lowest_beyond(obstacles@, bound as int),
        r matches Some(o) ==> o.wf(),
{
    let mut best: Option<Obstacle> = None;
    let mut i: usize = 0;
    while i < obstacles.len()
        invariant
            0 <= i <= obstacles@.len(),
            forall|i: int| 0 <= i < obstacles@.len() ==> (#[trigger] obstacles@[i]).wf(),
            best == lowest_beyond(obstacles@.subrange(0, i as int), bound as int),
            best matches Some(o) ==> o.wf(),
        decreases obstacles@.len() - i,
    {
        assert(obstacles@.subrange(0, i + 1).drop_last() =~= obstacles@.subrange(0, i as int));
        let o = obstacles[i];
        if o.position > bound {
            match best {
                Some(b) => {
                    if o.position < b.position {
                        best = Some(o);
                    }
                },
                None => {
                    best = Some(o);
                },
            }
        }
        i += 1;
    }
    assert(obstacles@.subrange(0, i as int) =~= obstacles@);
    best
}

fn consider_exec(car: &Obstacle, acc: (i64, bool), candidate: Option<Obstacle>) -> (r: (i64, bool))
    requires
        car.wf(),
        car.max_velocity >= 1,
        candidate matches Some(o) ==> o.wf(),
        -14000 <= acc.0 <= 1000,
    ensures
        r.0 as int == consider(*car, (acc.0 as int, acc.1), candidate).0,
        r.1 == consider(*car, (acc.0 as int, acc.1), candidate).1,
        -14000 <= r.0 <= 1000,
{
    match candidate {
        Some(o) => {
            if o.position < car.position + COLLISION_MARGIN {
                (acc.0, true)
            } else {
                let a = intelligent_acceleration(car, Some(o), TRANSFER_HEADWAY);
                (if a < acc.0 { a } else { acc.0 }, acc.1)
            }
        },
        None => acc,
    }
}

/// `x` limited to the lateral range.
pub open spec fn clamp_lateral(x: int) -> int {
    if x < -TRANSFER_LIMIT { -TRANSFER_LIMIT as int } else if x > TRANSFER_LIMIT { TRANSFER_LIMIT as int } else { x }
}

/// The lateral state of `car` after a time step `dt`, once its longitudinal
/// velocity is `v`: lateral speed is capped at `v / 12`.
pub open spec fn lateral_step(car: TransferringLaneCar, v: int, dt: int) -> (int, int) {
    let tp = clamp_lateral(car.transfer_position + div_toward_zero(dt * car.transfer_velocity, SCALE as int));
    let tv = car.transfer_velocity + div_toward_zero(dt * car.transfer_acceleration, SCALE as int);
    let cap = v / LATERAL_SPEED_DIVISOR as int;
    let tv = if tv > cap { cap } else if tv < -cap { -cap } else { tv };
    (tp, tv)
}

/// `car` after a time step `dt`.
pub open spec fn transfer_integrated(car: TransferringLaneCar, dt: int) -> TransferringLaneCar {
    let moved = integrated(car.as_lane_car, dt);
    let (tp, tv) = lateral_step(car, moved.as_obstacle.velocity as int, dt);
    TransferringLaneCar { as_lane_car: moved, transfer_position: tp as i64, transfer_velocity: tv as i64, ..car }
}

fn integrate_transferring(car: TransferringLaneCar, dt: i64) -> (r: TransferringLaneCar)
    requires
        car.wf(),
        0 <= dt <= MAX_DT,
    ensures
        r == transfer_integrated(car, dt as int),
        r.wf(),
{
    let moved = integrate_car(car.as_lane_car, dt);
    assert(-10_000_000_000 <= dt * car.transfer_velocity <= 10_000_000_000) by (nonlinear_arith)
        requires 0 <= dt <= 100_000, -100_000 <= car.transfer_velocity <= 100_000;
    assert(-100_000_000 <= dt * car.transfer_acceleration <= 100_000_000) by (nonlinear_arith)
        requires 0 <= dt <= 100_000, -1000 <= car.transfer_acceleration <= 1000;
    let x = dt * car.transfer_velocity;
    let dp = if x >= 0 { x / SCALE } else { -((-x) / SCALE) };
    let mut tp = car.transfer_position + dp;
    if tp < -TRANSFER_LIMIT {
        tp = -TRANSFER_LIMIT;
    } else if tp > TRANSFER_LIMIT {
        tp = TRANSFER_LIMIT;
    }
    let y = dt * car.transfer_acceleration;
    let dv = if y >= 0 { y / SCALE } else { -((-y) / SCALE) };
    let mut tv = car.transfer_velocity + dv;
    let cap = moved.as_obstacle.velocity / LATERAL_SPEED_DIVISOR;
    if tv > cap {
        tv = cap;
    } else if tv < -cap {
        tv = -cap;
    }
    TransferringLaneCar { as_lane_car: moved, transfer_position: tp, transfer_velocity: tv, ..car }
}

impl TransferLane {
    /// The acceleration of vehicle `i` and whether it is in danger.
    fn car_plan(&self, i: usize) -> (r: (i64, bool))
        requires
            self.wf(),
            i < self.microtraffic.cars@.len(),
        ensures
            r.0 as int == transfer_plan(*self, i as int).0,
            r.1 == transfer_plan(*self, i as int).1,
            -ACCEL_BOUND <= r.0 <= 1000,
    {
        let car = self.microtraffic.cars[i];
        assert(self.microtraffic.cars@[i as int].wf());
        let o = car.as_lane_car.as_obstacle;
        let p = o.position;
        let left = if car.transfer_position < SIDE_BIAS || car.transfer_acceleration < 0 {
            find_lowest_beyond(&self.microtraffic.left_obstacles, p - SIDE_MARGIN)
        } else {
            None
        };
        let right = if car.transfer_position > -SIDE_BIAS || car.transfer_acceleration > 0 {
            find_lowest_beyond(&self.microtraffic.right_obstacles, p - SIDE_MARGIN)
        } else {
            None
        };
        let free = (intelligent_acceleration(&o, None, TRANSFER_HEADWAY), false);
        let ahead = find_first_ahead(&self.microtraffic.cars, p);
        let acc = consider_exec(&o, consider_exec(&o, consider_exec(&o, free, ahead), left), right);
        let z = (self.length + SCALE - p) * SCALE;
        let q = if z >= 0 { z / 1500 } else { -((-z) / 1500) };
        let before_end = q - o.velocity;
        (if before_end < acc.0 { before_end } else { acc.0 }, acc.1)
    }
}

/// The message sent when `car` leaves for the neighbour `side` (with its
/// offset `start`) of the transfer lane `from`: its trip succeeds when that
/// neighbour is its destination, else it is handed over.
pub open spec fn exit_message(car: TransferringLaneCar, side: (LaneLikeId, i64), from: u32, tick: u64) -> Outbound {
    if car.as_lane_car.destination.node == side.0.instance_spec() as u64 {
        Outbound::TripSucceeded { trip: car.as_lane_car.trip, tick }
    } else {
        Outbound::AddCar {
            to: side.0,
            car: LaneCar { as_obstacle: car.as_lane_car.as_obstacle.offset_by_spec(side.1 as int), ..car.as_lane_car },
            from: LaneLikeId::Transfer(from),
        }
    }
}

/// The vehicles that stay on a transfer lane of length `length`, in order.
pub open spec fn staying(cars: Seq<TransferringLaneCar>, length: int) -> Seq<TransferringLaneCar>
    decreases cars.len(),
{
    if cars.len() == 0 {
        cars
    } else {
        let rest = staying(cars.drop_last(), length);
        let c = cars.last();
        if exits_right(c, length) || exits_left(c, length) { rest } else { rest.push(c) }
    }
}

/// The messages for the vehicles that leave, front to back: toward the
/// right when a vehicle exits right, else toward the left.
pub open spec fn exit_messages(
    cars: Seq<TransferringLaneCar>,
    length: int,
    left: (LaneLikeId, i64),
    right: (LaneLikeId, i64),
    id: u32,
    tick: u64,
) -> Seq<Outbound>
    decreases cars.len(),
{
    if cars.len() == 0 {
        Seq::empty()
    } else {
        let rest = exit_messages(cars.drop_last(), length, left, right, id, tick);
        let c = cars.last();
        if exits_right(c, length) {
            rest.push(exit_message(c, right, id, tick))
        } else if exits_left(c, length) {
            rest.push(exit_message(c, left, id, tick))
        } else {
            rest
        }
    }
}

fn exit_message_exec(car: &TransferringLaneCar, side: (LaneLikeId, i64), from: u32, tick: u64) -> (m: Outbound)
    requires
        car.wf(),
        -POS_LIMIT <= side.1 <= POS_LIMIT,
    ensures
        m == exit_message(*car, side, from, tick),
{
    if car.as_lane_car.destination.node == side.0.instance_id() as u64 {
        Outbound::TripSucceeded { trip: car.as_lane_car.trip, tick }
    } else {
        Outbound::AddCar { to: side.0, car: car.as_lane_car.offset_by(side.1), from: LaneLikeId::Transfer(from) }
    }
}

impl TransferLane {
    /// Sets each vehicle's acceleration by its plan; a vehicle in danger that
    /// is not yet cancelling its lane change reverses its lateral
    /// acceleration, once.
    fn update_plans(&mut self)
        requires
            old(self).wf(),
        ensures
            final(self).wf(),
            plans_set(*old(self), final(self).microtraffic.cars@),
            final(self).microtraffic.cars@.len() == old(self).microtraffic.cars@.len(),
            forall|i: int| 0 <= i < final(self).microtraffic.cars@.len() ==> {
                let c = old(self).microtraffic.cars@[i];
                let (a, danger) = transfer_plan(*old(self), i);
                let flip = danger && !c.cancelling;
                #[trigger] final(self).microtraffic.cars@[i] == TransferringLaneCar {
                    as_lane_car: LaneCar { acceleration: a as i64, ..c.as_lane_car },
                    transfer_acceleration: if flip { -c.transfer_acceleration } else { c.transfer_acceleration as int } as i64,
                    cancelling: c.cancelling || danger,
                    ..c
                }
            },
            final(self).microtraffic.left_obstacles@ == old(self).microtraffic.left_obstacles@,
            final(self).microtraffic.right_obstacles@ == old(self).microtraffic.right_obstacles@,
            final(self).id == old(self).id,
            final(self).length == old(self).length,
            final(self).left == old(self).left,
            final(self).right == old(self).right,
    {
        let n = self.microtraffic.cars.len();
        let mut plans: Vec<(i64, bool)> = Vec::new();
        let mut i: usize = 0;
        while i < n
            invariant
                *self == *old(self),
                self.wf(),
                n == self.microtraffic.cars@.len(),
                0 <= i <= n,
                plans@.len() == i,
                forall|j: int| 0 <= j < i ==> plans@[j].0 as int == transfer_plan(*old(self), j).0
                    && plans@[j].1 == transfer_plan(*old(self), j).1
                    && -ACCEL_BOUND <= plans@[j].0 <= 1000,
            decreases n - i,
        {
            let plan = self.car_plan(i);
            plans.push(plan);
            i += 1;
        }
        let mut j: usize = 0;
        while j < n
            invariant
                0 <= j <= n,
                n == self.microtraffic.cars@.len(),
                old(self).microtraffic.cars@.len() == n,
                old(self).wf(),
                plans@.len() == n,
                forall|k: int| 0 <= k < n ==> plans@[k].0 as int == transfer_plan(*old(self), k).0
                    && plans@[k].1 == transfer_plan(*old(self), k).1
                    && -ACCEL_BOUND <= plans@[k].0 <= 1000,
                forall|k: int| 0 <= k < j ==> {
                    let c = old(self).microtraffic.cars@[k];
                    let (a, danger) = transfer_plan(*old(self), k);
                    let flip = danger && !c.cancelling;
                    #[trigger] self.microtraffic.cars@[k] == TransferringLaneCar {
                        as_lane_car: LaneCar { acceleration: a as i64, ..c.as_lane_car },
                        transfer_acceleration: if flip { -c.transfer_acceleration } else { c.transfer_acceleration as int } as i64,
                        cancelling: c.cancelling || danger,
                        ..c
                    }
                },
                forall|k: int| 0 <= k < j ==> (#[trigger] self.microtraffic.cars@[k]).wf(),
                forall|k: int| j <= k < n ==> (#[trigger] self.microtraffic.cars@[k]) == old(self).microtraffic.cars@[k],
                self.microtraffic.left_obstacles@ == old(self).microtraffic.left_obstacles@,
                self.microtraffic.right_obstacles@ == old(self).microtraffic.right_obstacles@,
                self.id == old(self).id,
                self.length == old(self).length,
                self.left == old(self).left,
                self.right == old(self).right,
            decreases n - j,
        {
            let mut car = self.microtraffic.cars[j];
            assert(old(self).microtraffic.cars@[j as int].wf());
            let (a, danger) = plans[j];
            car.as_lane_car.acceleration = a;
            if danger && !car.cancelling {
                car.transfer_acceleration = -car.transfer_acceleration;
                car.cancelling = true;
            }
            self.microtraffic.cars.set(j, car);
            j += 1;
        }
        proof {
            assert forall|k: int| 0 <= k < n implies (#[trigger] self.microtraffic.cars@[k]).wf() by {}
        }
    }
}

fn drift_side(obstacles: &mut Vec<Obstacle>, dt: i64)
    requires
        0 <= dt <= MAX_DT,
        forall|k: int| 0 <= k < old(obstacles)@.len() ==> (#[trigger] old(obstacles)@[k]).wf(),
    ensures
        final(obstacles)@.len() == old(obstacles)@.len(),
        forall|k: int| 0 <= k < final(obstacles)@.len() ==> #[trigger] final(obstacles)@[k] == drifted(old(obstacles)@[k], dt as int),
        forall|k: int| 0 <= k < final(obstacles)@.len() ==> (#[trigger] final(obstacles)@[k]).wf(),
{
    let m = obstacles.len();
    let mut i: usize = 0;
    while i < m
        invariant
            0 <= i <= m,
            0 <= dt <= MAX_DT,
            m == obstacles@.len(),
            old(obstacles)@.len() == m,
            forall|k: int| 0 <= k < m ==> (#[trigger] old(obstacles)@[k]).wf(),
            forall|k: int| 0 <= k < i ==> #[trigger] obstacles@[k] == drifted(old(obstacles)@[k], dt as int) && obstacles@[k].wf(),
            forall|k: int| i <= k < m ==> (#[trigger] obstacles@[k]) == old(obstacles)@[k],
        decreases m - i,
    {
        let o = obstacles[i];
        assert(old(obstacles)@[i as int].wf());
        assert(0 <= dt * o.velocity <= 10_000_000_000) by (nonlinear_arith)
            requires 0 <= dt <= 100_000, 0 <= o.velocity <= 100_000;
        obstacles.set(i, Obstacle { position: clamp_position_exec(o.position + dt * o.velocity / SCALE), ..o });
        i += 1;
    }
}

/// Vehicles ordered by position, ascending.
pub open spec fn transfer_sorted(cars: Seq<TransferringLaneCar>) -> bool {
    forall|a: int, b: int| 0 <= a < b < cars.len() ==> cars[a].position() <= cars[b].position()
}

/// Sorts the vehicles by position, keeping the order of equal positions, by
/// swapping out-of-order neighbours.
fn sort_by_position(cars: &mut Vec<TransferringLaneCar>)
    requires
        forall|k: int| 0 <= k < old(cars)@.len() ==> (#[trigger] old(cars)@[k]).wf(),
    ensures
        transfer_sorted(final(cars)@),
        final(cars)@.len() == old(cars)@.len(),
        final(cars)@.to_multiset() == old(cars)@.to_multiset(),
        forall|k: int| 0 <= k < final(cars)@.len() ==> (#[trigger] final(cars)@[k]).wf(),
{
    let n = cars.len();
    let mut i: usize = 0;
    while i < n
        invariant
            0 <= i <= n,
            n == cars@.len(),
            cars@.to_multiset() == old(cars)@.to_multiset(),
            forall|k: int| 0 <= k < n ==> (#[trigger] cars@[k]).wf(),
            forall|a: int, b: int| 0 <= a < b < i ==> cars@[a].position() <= cars@[b].position(),
        decreases n - i,
    {
        let mut j: usize = i;
        while j > 0 && cars[j - 1].as_lane_car.as_obstacle.position > cars[j].as_lane_car.as_obstacle.position
            invariant
                0 <= j <= i < n,
                n == cars@.len(),
                cars@.to_multiset() == old(cars)@.to_multiset(),
                forall|k: int| 0 <= k < n ==> (#[trigger] cars@[k]).wf(),
                forall|a: int, b: int| 0 <= a < b <= i && a != j && b != j ==> cars@[a].position() <= cars@[b].position(),
                forall|k: int| j < k <= i ==> cars@[j as int].position() <= cars@[k].position(),
            decreases j,
        {
            let k = j - 1;
            let a = cars[k];
            let b = cars[j];
            let ghost s0 = cars@;
            cars.set(k, b);
            let ghost s1 = cars@;
            cars.set(j, a);
            proof {
                s0.to_multiset_ensures();
                s1.to_multiset_ensures();
                cars@.to_multiset_ensures();
                vstd::seq_lib::to_multiset_update(s0, k as int, b);
                vstd::seq_lib::to_multiset_update(s1, j as int, a);
                assert forall|x: int, y: int| 0 <= x < y <= i && x != k && y != k implies cars@[x].position() <= cars@[y].position() by {
                    if y == j as int {
                        assert(s0[x].position() <= s0[k as int].position());
                    } else if x == j as int {
                        assert(s0[k as int].position() <= s0[y].position());
                    } else {
                        assert(cars@[x] == s0[x] && cars@[y] == s0[y]);
                    }
                }
                assert forall|y: int| k < y <= i implies cars@[k as int].position() <= cars@[y].position() by {
                    if y != j as int {
                        assert(cars@[y] == s0[y]);
                    }
                }
            }
            j = k;
        }
        proof {
            assert forall|a: int, b: int| 0 <= a < b < i + 1 implies cars@[a].position() <= cars@[b].position() by {
                if b == j as int && a < b {
                    assert(cars@[a].position() <= cars@[j - 1].position() || a == j - 1);
                }
            }
        }
        i += 1;
    }
}

impl TransferLane {
    /// Moves every vehicle (longitudinally and laterally) and every side
    /// obstacle by one time step, then swaps adjacent vehicles that are out
    /// of order until they are sorted by position.
    fn advance(&mut self, dt: i64)
        requires
            old(self).wf(),
            0 <= dt <= MAX_DT,
        ensures
            final(self).wf(),
            final(self).microtraffic.cars@.len() == old(self).microtraffic.cars@.len(),
            transfer_sorted(final(self).microtraffic.cars@),
            final(self).microtraffic.left_obstacles@.len() == old(self).microtraffic.left_obstacles@.len(),
            forall|k: int| 0 <= k < final(self).microtraffic.left_obstacles@.len() ==> #[trigger] final(self).microtraffic.left_obstacles@[k]
                == drifted(old(self).microtraffic.left_obstacles@[k], dt as int),
            final(self).microtraffic.right_obstacles@.len() == old(self).microtraffic.right_obstacles@.len(),
            forall|k: int| 0 <= k < final(self).microtraffic.right_obstacles@.len() ==> #[trigger] final(self).microtraffic.right_obstacles@[k]
                == drifted(old(self).microtraffic.right_obstacles@[k], dt as int),
            final(self).microtraffic.cars@.to_multiset() == old(self).microtraffic.cars@.map_values(
                |c: TransferringLaneCar| transfer_integrated(c, dt as int)).to_multiset(),
            final(self).id == old(self).id,
            final(self).length == old(self).length,
            final(self).left == old(self).left,
            final(self).right == old(self).right,
    {
        let n = self.microtraffic.cars.len();
        let ghost moved = old(self).microtraffic.cars@.map_values(|c: TransferringLaneCar| transfer_integrated(c, dt as int));
        let mut i: usize = 0;
        while i < n
            invariant
                0 <= i <= n,
                0 <= dt <= MAX_DT,
                n == self.microtraffic.cars@.len(),
                old(self).microtraffic.cars@.len() == n,
                moved == old(self).microtraffic.cars@.map_values(|c: TransferringLaneCar| transfer_integrated(c, dt as int)),
                old(self).wf(),
                forall|k: int| 0 <= k < i ==> #[trigger] self.microtraffic.cars@[k] == moved[k] && self.microtraffic.cars@[k].wf(),
                forall|k: int| i <= k < n ==> (#[trigger] self.microtraffic.cars@[k]) == old(self).microtraffic.cars@[k],
                self.microtraffic.left_obstacles@ == old(self).microtraffic.left_obstacles@,
                self.microtraffic.right_obstacles@ == old(self).microtraffic.right_obstacles@,
                self.id == old(self).id,
                self.length == old(self).length,
                self.left == old(self).left,
                self.right == old(self).right,
            decreases n - i,
        {
            let car = self.microtraffic.cars[i];
            assert(old(self).microtraffic.cars@[i as int].wf());
            self.microtraffic.cars.set(i, integrate_transferring(car, dt));
            i += 1;
        }
        assert(self.microtraffic.cars@ =~= moved);
        drift_side(&mut self.microtraffic.left_obstacles, dt);
        drift_side(&mut self.microtraffic.right_obstacles, dt);
        sort_by_position(&mut self.microtraffic.cars);
    }

    /// Removes every vehicle that leaves toward a neighbour, with its
    /// message; needs both neighbours.
    fn resolve_exits(&mut self, tick: u64, outbox: &mut Vec<Outbound>)
        requires
            old(self).wf(),
            old(self).left is Some,
            old(self).right is Some,
        ensures
            final(self).wf(),
            final(self).microtraffic.cars@ == staying(old(self).microtraffic.cars@, old(self).length as int),
            final(outbox)@ == old(outbox)@ + exit_messages(old(self).microtraffic.cars@, old(self).length as int,
                old(self).left.unwrap(), old(self).right.unwrap(), old(self).id, tick),
            final(self).id == old(self).id,
            final(self).length == old(self).length,
            final(self).left == old(self).left,
            final(self).right == old(self).right,
            final(self).microtraffic.left_obstacles@ == old(self).microtraffic.left_obstacles@,
            final(self).microtraffic.right_obstacles@ == old(self).microtraffic.right_obstacles@,
    {
        let right = self.right.unwrap();
        let left = self.left.unwrap();
        let ghost s = old(self).microtraffic.cars@;
        let ghost n = s.len() as int;
        let ghost mut j: int = 0;
        let mut i: usize = 0;
        assert(self.microtraffic.cars@ =~= staying(s.subrange(0, 0), self.length as int) + s.subrange(0, n));
        assert(outbox@ =~= old(outbox)@ + exit_messages(s.subrange(0, 0), self.length as int, left, right, self.id, tick));
        while i < self.microtraffic.cars.len()
            invariant
                self.wf(),
                0 <= j <= n,
                n == s.len(),
                s == old(self).microtraffic.cars@,
                i == staying(s.subrange(0, j), self.length as int).len(),
                self.microtraffic.cars@ == staying(s.subrange(0, j), self.length as int) + s.subrange(j, n),
                outbox@ == old(outbox)@ + exit_messages(s.subrange(0, j), self.length as int, left, right, self.id, tick),
                self.right == Some(right),
                self.left == Some(left),
                self.id == old(self).id,
                self.length == old(self).length,
                self.left == old(self).left,
                self.right == old(self).right,
                self.microtraffic.left_obstacles@ == old(self).microtraffic.left_obstacles@,
                self.microtraffic.right_obstacles@ == old(self).microtraffic.right_obstacles@,
            decreases self.microtraffic.cars@.len() - i,
        {
            let car = self.microtraffic.cars[i];
            assert(car == s[j]);
            assert(s.subrange(0, j + 1).drop_last() =~= s.subrange(0, j));
            assert(s.subrange(0, j + 1).last() == s[j]);
            assert(self.microtraffic.cars@[i as int].wf());
            let p = car.as_lane_car.as_obstacle.position;
            let to_right = car.transfer_position > SCALE || (p > self.length && car.transfer_acceleration > 0);
            let to_left = car.transfer_position < -SCALE || (p > self.length && car.transfer_acceleration <= 0);
            if to_right || to_left {
                let m = if to_right { exit_message_exec(&car, right, self.id, tick) } else { exit_message_exec(&car, left, self.id, tick) };
                outbox.push(m);
                let ghost before = self.microtraffic.cars@;
                self.microtraffic.cars.remove(i);
                proof {
                    let cars = self.microtraffic.cars@;
                    assert(cars =~= staying(s.subrange(0, j + 1), self.length as int) + s.subrange(j + 1, n));
                    assert(outbox@ =~= old(outbox)@ + exit_messages(s.subrange(0, j + 1), self.length as int, left, right, self.id, tick));
                    assert forall|k: int| 0 <= k < cars.len() implies (#[trigger] cars[k]).wf() by {
                        let k0 = if k < i { k } else { k + 1 };
                        assert(cars[k] == before[k0]);
                    }
                    j = j + 1;
                }
            } else {
                proof {
                    assert(self.microtraffic.cars@ =~= staying(s.subrange(0, j + 1), self.length as int) + s.subrange(j + 1, n));
                    j = j + 1;
                }
                i += 1;
            }
        }
        proof {
            assert(j == n) by {
                if j < n {
                    assert(self.microtraffic.cars@.len() > i);
                }
            }
            assert(s.subrange(0, n) =~= s);
            assert(self.microtraffic.cars@ =~= staying(s, self.length as int));
        }
    }
}

/// The vehicles biased toward the left (or else the right) side, as
/// obstacles moved by `start` into that neighbour's coordinates.
pub open spec fn side_projection(cars: Seq<TransferringLaneCar>, to_left: bool, start: int) -> Seq<Obstacle>
    decreases cars.len(),
{
    if cars.len() == 0 {
        Seq::empty()
    } else {
        let rest = side_projection(cars.drop_last(), to_left, start);
        let c = cars.last();
        if (to_left && left_biased(c)) || (!to_left && right_biased(c)) {
            rest.push(c.as_lane_car.as_obstacle.offset_by_spec(start))
        } else {
            rest
        }
    }
}

impl TransferLane {
    /// The obstacles this lane publishes to its left (or else right)
    /// neighbour, whose offset is `start`.
    pub fn side_obstacles(&self, to_left: bool, start: i64) -> (r: Vec<Obstacle>)
        requires
            self.wf(),
            -POS_LIMIT <= start <= POS_LIMIT,
        ensures
            r@ == side_projection(self.microtraffic.cars@, to_left, start as int),
    {
        let mut out: Vec<Obstacle> = Vec::new();
        let mut i: usize = 0;
        while i < self.microtraffic.cars.len()
            invariant
                self.wf(),
                -POS_LIMIT <= start <= POS_LIMIT,
                0 <= i <= self.microtraffic.cars@.len(),
                out@ == side_projection(self.microtraffic.cars@.subrange(0, i as int), to_left, start as int),
            decreases self.microtraffic.cars@.len() - i,
        {
            assert(self.microtraffic.cars@.subrange(0, i + 1).drop_last() =~= self.microtraffic.cars@.subrange(0, i as int));
            let c = self.microtraffic.cars[i];
            assert(self.microtraffic.cars@[i as int].wf());
            let biased = if to_left {
                c.transfer_position < SIDE_BIAS || c.transfer_acceleration < 0
            } else {
                c.transfer_position > -SIDE_BIAS || c.transfer_acceleration > 0
            };
            if biased {
                out.push(c.as_lane_car.as_obstacle.offset_by(start));
            }
            i += 1;
        }
        assert(self.microtraffic.cars@.subrange(0, i as int) =~= self.microtraffic.cars@);
        out
    }

    /// Advances the transfer lane by one tick of length `dt`: plans (on this
    /// lane's traffic phase), integration, sorting by position, exits toward
    /// the neighbours and obstacle publication to them. Without both
    /// neighbours known, vehicles only move.
    pub fn tick(&mut self, dt: i64, tick: u64, outbox: &mut Vec<Outbound>)
        requires
            old(self).wf(),
            0 <= dt <= MAX_DT,
        ensures
            final(self).wf(),
            transfer_sorted(final(self).microtraffic.cars@),
            final(self).id == old(self).id,
            final(self).length == old(self).length,
            final(self).left == old(self).left,
            final(self).right == old(self).right,
            final(self).microtraffic.left_obstacles@.len() == old(self).microtraffic.left_obstacles@.len(),
            forall|k: int| 0 <= k < final(self).microtraffic.left_obstacles@.len() ==> #[trigger] final(self).microtraffic.left_obstacles@[k]
                == drifted(old(self).microtraffic.left_obstacles@[k], dt / SLOWDOWN),
            final(self).microtraffic.right_obstacles@.len() == old(self).microtraffic.right_obstacles@.len(),
            forall|k: int| 0 <= k < final(self).microtraffic.right_obstacles@.len() ==> #[trigger] final(self).microtraffic.right_obstacles@[k]
                == drifted(old(self).microtraffic.right_obstacles@[k], dt / SLOWDOWN),
            exists|planned: Seq<TransferringLaneCar>, sorted: Seq<TransferringLaneCar>| #![trigger sorted_after(planned, dt / SLOWDOWN, sorted)] {
                &&& (if in_phase(tick as int, old(self).id as int, TRAFFIC_LOGIC_THROTTLING as int) {
                        plans_set(*old(self), planned)
                    } else {
                        planned == old(self).microtraffic.cars@
                    })
                &&& sorted_after(planned, dt / SLOWDOWN, sorted)
                &&& if old(self).left is Some && old(self).right is Some {
                        let sent = old(outbox)@ + exit_messages(sorted, old(self).length as int, old(self).left.unwrap(),
                            old(self).right.unwrap(), old(self).id, tick);
                        &&& final(self).microtraffic.cars@ == staying(sorted, old(self).length as int)
                        &&& final(outbox)@.len() >= sent.len()
                        &&& final(outbox)@.subrange(0, sent.len() as int) == sent
                        &&& side_publications(*final(self), tick, final(outbox)@.subrange(sent.len() as int, final(outbox)@.len() as int))
                    } else {
                        &&& final(self).microtraffic.cars@ == sorted
                        &&& final(outbox)@ == old(outbox)@
                    }
            },
    {
        let ghost dt0 = dt;
        let dt = dt / SLOWDOWN;
        if is_phase(tick, self.id, TRAFFIC_LOGIC_THROTTLING) {
            self.update_plans();
        }
        let ghost planned = self.microtraffic.cars@;
        self.advance(dt);
        let ghost sorted = self.microtraffic.cars@;
        assert(sorted_after(planned, dt0 / SLOWDOWN, sorted));
        proof { lemma_staying_sorted(sorted, self.length as int); }
        match (self.left, self.right) {
            (Some(left), Some(right)) => {
                self.resolve_exits(tick, outbox);
                let ghost sent = outbox@;
                let ghost lp = in_phase(tick + 1, left.0.instance_spec() as int, TRAFFIC_LOGIC_THROTTLING as int);
                if is_next_phase(tick, left.0.instance_id(), TRAFFIC_LOGIC_THROTTLING) {
                    let obstacles = self.side_obstacles(true, left.1);
                    outbox.push(Outbound::AddObstacles { to: left.0, obstacles, from: LaneLikeId::Transfer(self.id) });
                }
                if is_next_phase(tick, right.0.instance_id(), TRAFFIC_LOGIC_THROTTLING) {
                    let obstacles = self.side_obstacles(false, right.1);
                    outbox.push(Outbound::AddObstacles { to: right.0, obstacles, from: LaneLikeId::Transfer(self.id) });
                }
                assert(outbox@.subrange(0, sent.len() as int) =~= sent);
                let ghost tail = outbox@.subrange(sent.len() as int, outbox@.len() as int);
                assert(lp ==> tail[0] == outbox@[sent.len() as int]);
            },
            _ => {},
        }
    }
}

proof fn lemma_staying_sorted(cars: Seq<TransferringLaneCar>, length: int)
    requires
        transfer_sorted(cars),
    ensures
        transfer_sorted(staying(cars, length)),
        forall|k: int| 0 <= k < staying(cars, length).len() ==> cars.contains(#[trigger] staying(cars, length)[k]),
    decreases cars.len(),
{
    if cars.len() > 0 {
        let init = cars.drop_last();
        assert(transfer_sorted(init));
        lemma_staying_sorted(init, length);
        let rest = staying(init, length);
        assert forall|k: int| 0 <= k < rest.len() implies cars.contains(#[trigger] rest[k]) by {
            let w = choose|w: int| 0 <= w < init.len() && init[w] == rest[k];
            assert(cars[w] == rest[k]);
        }
        let c = cars.last();
        if !(exits_right(c, length) || exits_left(c, length)) {
            let st = staying(cars, length);
            assert(st == rest.push(c));
            assert(cars[cars.len() - 1] == c);
            assert forall|a: int, b: int| 0 <= a < b < st.len() implies st[a].position() <= st[b].position() by {
                if b == st.len() - 1 {
                    assert(st[a] == rest[a]);
                    let w = choose|w: int| 0 <= w < cars.len() && cars[w] == rest[a];
                    if w < cars.len() - 1 {
                        assert(cars[w].position() <= cars[cars.len() - 1].position());
                    }
                } else {
                    assert(st[a] == rest[a] && st[b] == rest[b]);
                }
            }
        }
    }
}

/// `sorted` is `planned` after a time step `dt`, sorted by position.
pub open spec fn sorted_after(planned: Seq<TransferringLaneCar>, dt: int, sorted: Seq<TransferringLaneCar>) -> bool {
    &&& transfer_sorted(sorted)
    &&& sorted.len() == planned.len()
    &&& sorted.to_multiset() == planned.map_values(|c: TransferringLaneCar| transfer_integrated(c, dt)).to_multiset()
}

/// `planned` is the vehicles of `lane` after their plans: the acceleration
/// of `transfer_plan`, and, on first danger, the lateral acceleration
/// reversed and the cancelling flag set.
pub open spec fn plans_set(lane: TransferLane, planned: Seq<TransferringLaneCar>) -> bool {
    &&& planned.len() == lane.microtraffic.cars@.len()
    &&& forall|i: int| 0 <= i < planned.len() ==> {
        let c = lane.microtraffic.cars@[i];
        let (a, danger) = transfer_plan(lane, i);
        let flip = danger && !c.cancelling;
        #[trigger] planned[i] == TransferringLaneCar {
            as_lane_car: LaneCar { acceleration: a as i64, ..c.as_lane_car },
            transfer_acceleration: if flip { -c.transfer_acceleration } else { c.transfer_acceleration as int } as i64,
            cancelling: c.cancelling || danger,
            ..c
        }
    }
}

/// `msgs` are what `lane` publishes to its neighbours at tick `tick`: to
/// the left neighbour when its phase comes next tick, then to the right one,
/// the vehicles biased toward that side.
pub open spec fn side_publications(lane: TransferLane, tick: u64, msgs: Seq<Outbound>) -> bool {
    let l = lane.left.unwrap();
    let r = lane.right.unwrap();
    let lp = in_phase(tick + 1, l.0.instance_spec() as int, TRAFFIC_LOGIC_THROTTLING as int);
    let rp = in_phase(tick + 1, r.0.instance_spec() as int, TRAFFIC_LOGIC_THROTTLING as int);
    &&& msgs.len() == (if lp { 1int } else { 0 }) + (if rp { 1int } else { 0 })
    &&& lp ==> (msgs[0] matches Outbound::AddObstacles { to, obstacles, from } && to == l.0
        && from == LaneLikeId::Transfer(lane.id) && obstacles@ == side_projection(lane.microtraffic.cars@, true, l.1 as int))
    &&& rp ==> (msgs.last() matches Outbound::AddObstacles { to, obstacles, from } && to == r.0
        && from == LaneLikeId::Transfer(lane.id) && obstacles@ == side_projection(lane.microtraffic.cars@, false, r.1 as int))
}

impl LaneLike for TransferLane {
    open spec fn ready(&self) -> bool {
        self.wf()
    }

    /// A transfer lane takes vehicles only from a known neighbour.
    open spec fn takes_from(&self, from: Option<LaneLikeId>) -> bool {
        from is Some && self.left is Some
    }

    fn add_car(&mut self, car: LaneCar, from: Option<LaneLikeId>, tick: u64, outbox: &mut Vec<Outbound>) {
        assert(old(outbox)@.subrange(0, old(outbox)@.len() as int) =~= old(outbox)@);
        TransferLane::add_car(self, car, from);
    }

    fn add_obstacles(&mut self, obstacles: &Vec<Obstacle>, from: LaneLikeId) {
        TransferLane::add_obstacles(self, obstacles, from);
    }
}

/// Lowest acceleration a transfer lane asks of a vehicle.
pub const ACCEL_BOUND: i64 = 2_000_000_000;

} // verus!
