use vstd::prelude::*;

verus! {

/// Thousandths per unit of every fixed-point quantity.
pub const SCALE: i64 = 1000;

/// Largest magnitude of a position on a lane.
pub const POS_LIMIT: i64 = 1_000_000_000;

/// Largest velocity (and velocity cap) of any road occupant.
pub const MAX_SPEED: i64 = 100_000;

/// Largest magnitude of a vehicle's acceleration.
pub const ACCEL_LIMIT: i64 = 4_000_000_000;

/// A point-mass road occupant that following vehicles must not overrun.
#[derive(Clone, Copy, Debug, PartialEq, Eq, Structural)]
pub struct Obstacle {
    pub position: i64,
    pub velocity: i64,
    pub max_velocity: i64,
}

impl Obstacle {
    /// Position and velocities lie in the representable ranges.
    pub open spec fn wf(&self) -> bool {
        &&& -POS_LIMIT <= self.position <= POS_LIMIT
        &&& 0 <= self.velocity <= MAX_SPEED
        &&& 0 <= self.max_velocity <= MAX_SPEED
    }

    /// A stationary obstacle at `position` (a stop line, a blocked entry).
    pub fn stationary(position: i64) -> (r: Obstacle)
        ensures
            r.position == position,
            r.velocity == 0,
            r.max_velocity == 0,
    {
        Obstacle { position, velocity: 0, max_velocity: 0 }
    }

    /// The same obstacle moved by `delta` along the lane, kept within the
    /// position range.
    pub fn offset_by(&self, delta: i64) -> (r: Obstacle)
        requires
            self.wf(),
            -2 * POS_LIMIT <= delta <= 2 * POS_LIMIT,
        ensures
            r.position == clamp_position(self.position + delta),
            r.velocity == self.velocity,
            r.max_velocity == self.max_velocity,
            r.wf(),
    {
        Obstacle { position: clamp_position_exec(self.position + delta), ..*self }
    }
}

/// `p` limited to the position range.
pub open spec fn clamp_position(p: int) -> int {
    if p < -POS_LIMIT {
        -POS_LIMIT as int
    } else if p > POS_LIMIT {
        POS_LIMIT as int
    } else {
        p
    }
}

pub fn clamp_position_exec(p: i64) -> (r: i64)
    ensures
        r == clamp_position(p as int),
{
    if p < -POS_LIMIT {
        -POS_LIMIT
    } else if p > POS_LIMIT {
        POS_LIMIT
    } else {
        p
    }
}

/// A destination: a node of the road network and the coarse landmark it
/// belongs to.
#[derive(Clone, Copy, Debug, PartialEq, Eq, Structural)]
pub struct Location {
    pub landmark: u64,
    pub node: u64,
}

impl Location {
    /// The coarse destination standing for every node of this landmark.
    pub fn landmark_destination(&self) -> (r: Location)
        ensures
            r == (Location { landmark: self.landmark, node: self.landmark }),
    {
        Location { landmark: self.landmark, node: self.landmark }
    }
}

/// A vehicle on a lane.
#[derive(Clone, Copy, Debug, PartialEq, Eq, Structural)]
pub struct LaneCar {
    pub trip: u64,
    pub as_obstacle: Obstacle,
    pub acceleration: i64,
    pub destination: Location,
    pub next_hop_interaction: u8,
}

impl LaneCar {
    pub open spec fn wf(&self) -> bool {
        &&& self.as_obstacle.wf()
        &&& self.as_obstacle.max_velocity >= 1
        &&& -ACCEL_LIMIT <= self.acceleration <= ACCEL_LIMIT
    }

    pub open spec fn position(&self) -> int {
        self.as_obstacle.position as int
    }

    /// The same vehicle moved by `delta` along the lane.
    pub fn offset_by(&self, delta: i64) -> (r: LaneCar)
        requires
            self.wf(),
            -2 * POS_LIMIT <= delta <= 2 * POS_LIMIT,
        ensures
            r == (LaneCar { as_obstacle: r.as_obstacle, ..*self }),
            r.as_obstacle == self.as_obstacle.offset_by_spec(delta as int),
            r.wf(),
    {
        LaneCar { as_obstacle: self.as_obstacle.offset_by(delta), ..*self }
    }
}

impl Obstacle {
    pub open spec fn offset_by_spec(&self, delta: int) -> Obstacle {
        Obstacle { position: clamp_position(self.position + delta) as i64, ..*self }
    }
}

/// A vehicle on a transfer lane, with its lateral coordinate: 0 is the
/// centre line, -1 fully in the left neighbour, +1 fully in the right one.
#[derive(Clone, Copy, Debug, PartialEq, Eq, Structural)]
pub struct TransferringLaneCar {
    pub as_lane_car: LaneCar,
    pub transfer_position: i64,
    pub transfer_velocity: i64,
    pub transfer_acceleration: i64,
    pub cancelling: bool,
}

/// Lateral speed is at most the longitudinal speed divided by this.
pub const LATERAL_SPEED_DIVISOR: i64 = 12;

/// Largest magnitude of a lateral position.
pub const TRANSFER_LIMIT: i64 = 1_000_000;

impl TransferringLaneCar {
    pub open spec fn wf(&self) -> bool {
        &&& self.as_lane_car.wf()
        &&& -TRANSFER_LIMIT <= self.transfer_position <= TRANSFER_LIMIT
        &&& -MAX_SPEED <= self.transfer_velocity <= MAX_SPEED
        &&& -SCALE <= self.transfer_acceleration <= SCALE
        &&& -(self.as_lane_car.as_obstacle.velocity / LATERAL_SPEED_DIVISOR) <= self.transfer_velocity
            <= self.as_lane_car.as_obstacle.velocity / LATERAL_SPEED_DIVISOR
    }

    pub open spec fn position(&self) -> int {
        self.as_lane_car.as_obstacle.position as int
    }
}

} // verus!
