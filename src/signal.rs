use vstd::prelude::*;

verus! {

/// Ticks between two rounds of car-following updates of one lane.
pub const TRAFFIC_LOGIC_THROTTLING: u64 = 30;

/// Ticks between two route refreshes of one lane.
pub const PATHFINDING_THROTTLING: u64 = 10;

/// Ticks per step of a signal timing cycle.
pub const TICKS_PER_TIMING_STEP: u64 = 10;

/// Timing steps by which the yellow flags look ahead of the green flag.
pub const YELLOW_LEAD_STEPS: u64 = 10;

/// The three signal flags of a lane, derived from its timing cycle.
#[derive(Clone, Copy, Debug, PartialEq, Eq, Structural)]
pub struct SignalState {
    pub green: bool,
    pub yellow_to_green: bool,
    pub yellow_to_red: bool,
}

/// The step of the cycle that applies `lead` steps after tick `tick`.
pub open spec fn timing_step(timings: Seq<bool>, tick: int, lead: int) -> bool {
    timings[(tick / TICKS_PER_TIMING_STEP as int + lead) % timings.len() as int]
}

/// The signal flags at tick `tick`; an empty cycle is an unsignalled lane,
/// permanently green.
pub open spec fn signal_at(timings: Seq<bool>, tick: int) -> SignalState {
    if timings.len() == 0 {
        SignalState { green: true, yellow_to_green: true, yellow_to_red: true }
    } else {
        let ahead = timing_step(timings, tick, YELLOW_LEAD_STEPS as int);
        SignalState {
            green: timing_step(timings, tick, 0),
            yellow_to_green: ahead,
            yellow_to_red: !ahead,
        }
    }
}

pub fn signal_state(timings: &Vec<bool>, tick: u64) -> (r: SignalState)
    ensures
        r == signal_at(timings@, tick as int),
{
    if timings.len() == 0 {
        SignalState { green: true, yellow_to_green: true, yellow_to_red: true }
    } else {
        let step = tick / TICKS_PER_TIMING_STEP;
        let n = timings.len() as u64;
        let ahead = timings[((step + YELLOW_LEAD_STEPS) % n) as usize];
        SignalState {
            green: timings[(step % n) as usize],
            yellow_to_green: ahead,
            yellow_to_red: !ahead,
        }
    }
}

/// Whether tick `tick` is the phase of the entity `instance` in a cycle of
/// `period` ticks.
pub open spec fn in_phase(tick: int, instance: int, period: int) -> bool {
    tick % period == instance % period
}

pub fn is_phase(tick: u64, instance: u32, period: u64) -> (r: bool)
    requires
        period > 0,
    ensures
        r == in_phase(tick as int, instance as int, period as int),
{
    tick % period == instance as u64 % period
}

/// Whether the tick after `tick` is the phase of `instance`.
pub fn is_next_phase(tick: u64, instance: u32, period: u64) -> (r: bool)
    requires
        period > 0,
    ensures
        r == in_phase(tick + 1, instance as int, period as int),
{
    let next = (tick % period + 1) % period;
    proof {
        assert((tick as int + 1) % (period as int) == ((tick as int % period as int) + 1)
            % (period as int)) by (nonlinear_arith)
            requires period > 0, tick >= 0;
    }
    next == instance as u64 % period
}

} // verus!
