use vstd::prelude::*;
use crate::obstacle::{Obstacle, SCALE, MAX_SPEED};

verus! {

/// Length of a vehicle, subtracted from the distance to the leader.
pub const CAR_LENGTH: i64 = 4000;

/// Acceleration on a free road from standstill.
pub const COMFORT_ACCELERATION: i64 = 1000;

/// Gap kept to a standing leader.
pub const MIN_SPACING: i64 = 2000;

/// Hardest braking the law ever asks for.
pub const MAX_DECELERATION: i64 = 14000;

/// Smallest net gap the law divides by.
pub const GAP_FLOOR: i64 = 10;

/// `2 * sqrt(a * b)` for a comfortable acceleration `a = 1` and braking
/// deceleration `b = 3`, in thousandths.
pub const BRAKING_DIVISOR: i64 = 3464;

/// Largest safety time headway accepted.
pub const MAX_HEADWAY: i64 = 10_000;

/// Speed the car aims for: its own cap, lowered near a slow leader.
pub open spec fn desired_velocity(car: Obstacle, leader: Option<Obstacle>) -> int {
    match leader {
        Some(o) => if car.max_velocity <= o.max_velocity + 4 * SCALE {
            car.max_velocity as int
        } else {
            o.max_velocity + 4 * SCALE
        },
        None => car.max_velocity as int,
    }
}

/// `(v / desired)^4`, in thousandths.
pub open spec fn free_road_term(v: int, desired: int) -> int {
    let r = v * (SCALE as int) / desired;
    let r2 = r * r / (SCALE as int);
    r2 * r2 / (SCALE as int)
}

/// Desired gap: the minimum spacing plus what own speed (over the headway)
/// and the closing speed call for, never less than the minimum spacing.
pub open spec fn desired_gap(car: Obstacle, leader: Obstacle, headway: int) -> int {
    let dv = car.velocity - leader.velocity;
    let num = car.velocity * (headway * BRAKING_DIVISOR + dv * SCALE);
    if num <= 0 {
        MIN_SPACING as int
    } else {
        MIN_SPACING + num / (BRAKING_DIVISOR * SCALE)
    }
}

/// Net distance to the leader, floored at `GAP_FLOOR`.
pub open spec fn net_gap(car: Obstacle, leader: Obstacle) -> int {
    let raw = leader.position - car.position - CAR_LENGTH;
    if raw < GAP_FLOOR {
        GAP_FLOOR as int
    } else {
        raw
    }
}

/// `(desired_gap / net_gap)^2`, in thousandths.
pub open spec fn interaction_term(s: int, gap: int) -> int {
    let q = s * SCALE / gap;
    q * q / (SCALE as int)
}

/// The car-following law. No leader means the road ahead is free.
pub open spec fn idm_acceleration(car: Obstacle, leader: Option<Obstacle>, headway: int) -> int {
    let free = free_road_term(car.velocity as int, desired_velocity(car, leader));
    let penalty = match leader {
        Some(o) => interaction_term(desired_gap(car, o, headway), net_gap(car, o)),
        None => 0,
    };
    let a = COMFORT_ACCELERATION - free - penalty;
    if a < -MAX_DECELERATION {
        -MAX_DECELERATION as int
    } else {
        a
    }
}

/// On a free road the law accelerates a vehicle below its cap, never one at
/// or above it, and gives full acceleration from standstill.
pub proof fn lemma_free_road(car: Obstacle, headway: int)
    requires
        car.wf(),
        car.max_velocity >= 1,
    ensures
        car.velocity < car.max_velocity ==> idm_acceleration(car, None, headway) > 0,
        car.velocity >= car.max_velocity ==> idm_acceleration(car, None, headway) <= 0,
        car.velocity == 0 ==> idm_acceleration(car, None, headway) == COMFORT_ACCELERATION,
{
    let v = car.velocity as int;
    let d = car.max_velocity as int;
    let r = v * 1000 / d;
    let r2 = r * r / 1000;
    assert(free_road_term(v, d) == r2 * r2 / 1000);
    assert(r >= 0) by (nonlinear_arith) requires r == v * 1000 / d, v >= 0, d >= 1;
    if v < d {
        assert(r < 1000) by (nonlinear_arith) requires r == v * 1000 / d, v < d, d >= 1, v >= 0;
        assert(r * r < 1_000_000) by (nonlinear_arith) requires 0 <= r < 1000;
        assert(0 <= r2 < 1000);
        assert(r2 * r2 < 1_000_000) by (nonlinear_arith) requires 0 <= r2 < 1000;
    } else {
        assert(r >= 1000) by (nonlinear_arith) requires r == v * 1000 / d, v >= d, d >= 1;
        assert(r * r >= 1_000_000) by (nonlinear_arith) requires r >= 1000;
        assert(r2 >= 1000);
        assert(r2 * r2 >= 1_000_000) by (nonlinear_arith) requires r2 >= 1000;
    }
    if v == 0 {
        assert(r == 0) by (nonlinear_arith) requires r == v * 1000 / d, v == 0, d >= 1;
        assert(r2 == 0) by (nonlinear_arith) requires r2 == r * r / 1000, r == 0;
        assert(r2 * r2 / 1000 == 0) by (nonlinear_arith) requires r2 == 0;
    }
}

/// A leader closer than the gap floor makes the law brake as hard as it
/// ever does.
pub proof fn lemma_gap_floor(car: Obstacle, leader: Obstacle, headway: int)
    requires
        car.wf(),
        car.max_velocity >= 1,
        leader.wf(),
        0 <= headway,
        leader.position - car.position - CAR_LENGTH < GAP_FLOOR,
    ensures
        idm_acceleration(car, Some(leader), headway) == -MAX_DECELERATION,
{
    let v = car.velocity as int;
    let d = desired_velocity(car, Some(leader));
    let r = v * 1000 / d;
    let r2 = r * r / 1000;
    assert(r >= 0) by (nonlinear_arith) requires r == v * 1000 / d, v >= 0, d >= 1;
    assert(r * r >= 0) by (nonlinear_arith) requires r >= 0;
    assert(r2 * r2 >= 0) by (nonlinear_arith) requires r2 >= 0;
    let s = desired_gap(car, leader, headway);
    assert(s >= 2000);
    assert(net_gap(car, leader) == 10);
    let q = s * 1000 / 10;
    assert(q >= 200_000);
    assert(q * q >= 40_000_000_000) by (nonlinear_arith) requires q >= 200_000;
}

/// Longitudinal acceleration of `car` behind `leader` (none: a free road)
/// with the given safety time headway.
pub fn intelligent_acceleration(car: &Obstacle, leader: Option<Obstacle>, headway: i64) -> (r: i64)
    requires
        car.wf(),
        car.max_velocity >= 1,
        leader matches Some(o) ==> o.wf(),
        0 <= headway <= MAX_HEADWAY,
    ensures
        r == idm_acceleration(*car, leader, headway as int),
        -MAX_DECELERATION <= r <= COMFORT_ACCELERATION,
        leader is None && car.velocity < car.max_velocity ==> r > 0,
        leader is None && car.velocity >= car.max_velocity ==> r <= 0,
        leader is None && car.velocity == 0 ==> r == COMFORT_ACCELERATION,
        (leader matches Some(o) && o.position - car.position - CAR_LENGTH < GAP_FLOOR)
            ==> r == -MAX_DECELERATION,
{
    let v = car.velocity as i128;
    let desired: i128 = match leader {
        Some(o) => if car.max_velocity <= o.max_velocity + 4 * SCALE {
            car.max_velocity as i128
        } else {
            (o.max_velocity + 4 * SCALE) as i128
        },
        None => car.max_velocity as i128,
    };
    assert(1 <= desired <= MAX_SPEED);
    assert(0 <= v * 1000 <= 100_000_000) by (nonlinear_arith)
        requires 0 <= v <= 100_000;
    let r1 = v * 1000 / desired;
    assert(0 <= r1 <= v * 1000) by (nonlinear_arith)
        requires r1 == v * 1000 / (desired as int), desired >= 1, v >= 0;
    assert(0 <= r1 * r1 <= 10_000_000_000_000_000) by (nonlinear_arith)
        requires 0 <= r1 <= 100_000_000;
    let r2 = r1 * r1 / 1000;
    assert(0 <= r2 * r2 <= 100_000_000_000_000_000_000_000_000) by (nonlinear_arith)
        requires 0 <= r2 <= 10_000_000_000_000;
    let free = r2 * r2 / 1000;
    proof {
        if car.velocity < desired {
            assert(r1 < 1000) by (nonlinear_arith)
                requires r1 == v * 1000 / (desired as int), v < desired, desired >= 1, v >= 0;
            assert(r1 * r1 < 1_000_000) by (nonlinear_arith)
                requires 0 <= r1 < 1000;
            assert(r2 < 1000);
            assert(r2 * r2 < 1_000_000) by (nonlinear_arith)
                requires 0 <= r2 < 1000;
        } else {
            assert(r1 >= 1000) by (nonlinear_arith)
                requires r1 == v * 1000 / (desired as int), v >= desired, desired >= 1;
            assert(r1 * r1 >= 1_000_000) by (nonlinear_arith)
                requires r1 >= 1000;
            assert(r2 >= 1000);
            assert(r2 * r2 >= 1_000_000) by (nonlinear_arith)
                requires r2 >= 1000;
        }
        if car.velocity == 0 {
            assert(r1 == 0) by (nonlinear_arith) requires r1 == v * 1000 / (desired as int), v == 0, desired >= 1;
            assert(r2 == 0) by (nonlinear_arith) requires r2 == r1 * r1 / 1000, r1 == 0;
            assert(free == 0) by (nonlinear_arith) requires free == r2 * r2 / 1000, r2 == 0;
        }
    }
    let penalty: i128 = match leader {
        Some(o) => {
            let dv = v - o.velocity as i128;
            let h = headway as i128 * 3464 + dv * 1000;
            assert(-100_000_000 <= h <= 134_640_000);
            assert(-10_000_000_000_000 <= v * h <= 13_464_000_000_000) by (nonlinear_arith)
                requires 0 <= v <= 100_000, -100_000_000 <= h <= 134_640_000;
            let num = v * h;
            let s: i128 = if num <= 0 { 2000 } else { 2000 + num / 3_464_000 };
            assert(2000 <= s <= 5_000_000);
            let raw = o.position as i128 - car.position as i128 - 4000;
            let gap: i128 = if raw < 10 { 10 } else { raw };
            let q = s * 1000 / gap;
            assert(0 <= q <= s * 100) by (nonlinear_arith)
                requires q == s * 1000 / (gap as int), gap >= 10, s >= 0;
            assert(0 <= q * q <= 250_000_000_000_000_000) by (nonlinear_arith)
                requires 0 <= q <= 500_000_000;
            proof {
                if raw < 10 {
                    assert(q >= 200_000);
                    assert(q * q >= 40_000_000_000) by (nonlinear_arith)
                        requires q >= 200_000;
                }
            }
            q * q / 1000
        },
        None => 0,
    };
    let a = 1000 - free - penalty;
    if a < -14000 {
        -14000
    } else {
        a as i64
    }
}

} // verus!
