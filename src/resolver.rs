use vstd::prelude::*;
use crate::obstacle::{Obstacle, LaneCar, POS_LIMIT};
use crate::lane::{Interaction, InteractionKind, OverlapKind, LaneLikeId};

verus! {

/// Margin kept before `start` by the obstacle reported upstream.
pub const PREVIOUS_MARGIN: i64 = 2000;

/// Margin behind `end` within which a vehicle still occupies a conflict zone.
pub const CONFLICT_MARGIN: i64 = 2000;

/// Where an obstacle will be two time units from now.
pub open spec fn projected_arrival(o: Obstacle) -> int {
    o.position + 2 * o.velocity
}

/// The vehicles whose projected arrival has reached `start` (and, when
/// `end` is given, positioned before it), in order, as obstacles moved by
/// `delta`.
pub open spec fn reaching(cars: Seq<LaneCar>, start: int, end: Option<int>, delta: int) -> Seq<Obstacle>
    decreases cars.len(),
{
    if cars.len() == 0 {
        Seq::empty()
    } else {
        let rest = reaching(cars.drop_last(), start, end, delta);
        let c = cars.last().as_obstacle;
        if projected_arrival(c) >= start && (end matches Some(e) ==> c.position < e) {
            rest.push(c.offset_by_spec(delta))
        } else {
            rest
        }
    }
}

/// Received obstacles not from `partner` whose projected arrival is past
/// `start`, moved by `delta`.
pub open spec fn relayed(obstacles: Seq<(Obstacle, LaneLikeId)>, partner: LaneLikeId, start: int, delta: int) -> Seq<Obstacle>
    decreases obstacles.len(),
{
    if obstacles.len() == 0 {
        Seq::empty()
    } else {
        let rest = relayed(obstacles.drop_last(), partner, start, delta);
        let (o, id) = obstacles.last();
        if id != partner && projected_arrival(o) > start {
            rest.push(o.offset_by_spec(delta))
        } else {
            rest
        }
    }
}

/// The vehicles seen as obstacles.
pub open spec fn car_obstacles(cars: Seq<LaneCar>) -> Seq<Obstacle> {
    cars.map_values(|c: LaneCar| c.as_obstacle)
}

/// The received obstacles without their sources.
pub open spec fn received_obstacles(obstacles: Seq<(Obstacle, LaneLikeId)>) -> Seq<Obstacle> {
    obstacles.map_values(|p: (Obstacle, LaneLikeId)| p.0)
}

/// Whether `car` occupies the conflict zone `[start, end]`.
pub open spec fn in_conflict(car: LaneCar, start: int, end: int) -> bool {
    projected_arrival(car.as_obstacle) > start && car.as_obstacle.position - CONFLICT_MARGIN < end
}

/// The first obstacle of `s` at or past `bound`.
pub open spec fn first_from(s: Seq<Obstacle>, bound: int) -> Option<Obstacle>
    decreases s.len(),
{
    if s.len() == 0 {
        None
    } else if s[0].position >= bound {
        Some(s[0])
    } else {
        first_from(s.drop_first(), bound)
    }
}

/// The obstacles a lane publishes to the partner of `interaction`, given its
/// vehicles and its received obstacles; `None` for a `Next` interaction.
pub open spec fn resolve(interaction: Interaction, cars: Seq<LaneCar>, obstacles: Seq<(Obstacle, LaneLikeId)>) -> Option<Seq<Obstacle>> {
    let start = interaction.start as int;
    let delta = interaction.partner_start - interaction.start;
    match interaction.kind {
        InteractionKind::Overlap { end, kind: OverlapKind::Parallel } => {
            Some(reaching(cars, start, Some(end as int), delta))
        },
        InteractionKind::Overlap { kind: OverlapKind::Transfer, .. } => {
            Some(reaching(cars, start, None, delta) + relayed(obstacles, interaction.partner_lane, start, delta))
        },
        InteractionKind::Overlap { end, kind: OverlapKind::Conflicting } => {
            if exists|i: int| 0 <= i < cars.len() && in_conflict(#[trigger] cars[i], start, end as int) {
                Some(seq![Obstacle { position: interaction.partner_start, velocity: 0, max_velocity: 0 }])
            } else {
                Some(Seq::empty())
            }
        },
        InteractionKind::Previous => {
            let all = car_obstacles(cars) + received_obstacles(obstacles);
            match first_from(all, start - PREVIOUS_MARGIN) {
                Some(o) => Some(seq![o.offset_by_spec(delta)]),
                None => Some(Seq::empty()),
            }
        },
        InteractionKind::Next { .. } => None,
    }
}

/// The vehicles `reaching` selects, appended to `out`.
fn push_reaching(out: &mut Vec<Obstacle>, cars: &Vec<LaneCar>, start: i64, end: Option<i64>, delta: i64)
    requires
        forall|i: int| 0 <= i < cars@.len() ==> (#[trigger] cars@[i]).wf(),
        -2 * POS_LIMIT <= delta <= 2 * POS_LIMIT,
        forall|i: int| 0 <= i < old(out)@.len() ==> (#[trigger] old(out)@[i]).wf(),
    ensures
        final(out)@ == old(out)@ + reaching(cars@, start as int, opt_int(end), delta as int),
        forall|i: int| 0 <= i < final(out)@.len() ==> (#[trigger] final(out)@[i]).wf(),
{
    let ghost base = old(out)@;
    let mut i: usize = 0;
    assert(out@ =~= base + reaching(cars@.subrange(0, 0), start as int, opt_int(end), delta as int));
    while i < cars.len()
        invariant
            0 <= i <= cars@.len(),
            forall|i: int| 0 <= i < cars@.len() ==> (#[trigger] cars@[i]).wf(),
            -2 * POS_LIMIT <= delta <= 2 * POS_LIMIT,
            out@ == base + reaching(cars@.subrange(0, i as int), start as int, opt_int(end), delta as int),
            forall|i: int| 0 <= i < out@.len() ==> (#[trigger] out@[i]).wf(),
        decreases cars@.len() - i,
    {
        assert(cars@.subrange(0, i + 1).drop_last() =~= cars@.subrange(0, i as int));
        let c = cars[i].as_obstacle;
        assert(cars@[i as int].wf());
        let within = match end {
            Some(e) => c.position < e,
            None => true,
        };
        if c.position + 2 * c.velocity >= start && within {
            out.push(c.offset_by(delta));
            assert(out@ =~= base + reaching(cars@.subrange(0, i + 1), start as int, opt_int(end), delta as int));
        } else {
            assert(out@ =~= base + reaching(cars@.subrange(0, i + 1), start as int, opt_int(end), delta as int));
        }
        i += 1;
    }
    assert(cars@.subrange(0, i as int) =~= cars@);
}

pub open spec fn opt_int(o: Option<i64>) -> Option<int> {
    match o {
        Some(x) => Some(x as int),
        None => None,
    }
}

/// The obstacles that a lane publishes to the partner of `interaction`.
pub fn obstacles_for_interaction(
    interaction: &Interaction,
    cars: &Vec<LaneCar>,
    obstacles: &Vec<(Obstacle, LaneLikeId)>,
) -> (r: Option<Vec<Obstacle>>)
    requires
        interaction.wf(),
        forall|i: int| 0 <= i < cars@.len() ==> (#[trigger] cars@[i]).wf(),
        forall|i: int| 0 <= i < obstacles@.len() ==> (#[trigger] obstacles@[i]).0.wf(),
    ensures
        match resolve(*interaction, cars@, obstacles@) {
            Some(s) => r matches Some(v) && v@ == s,
            None => r is None,
        },
        r matches Some(v) ==> forall|i: int| 0 <= i < v@.len() ==> (#[trigger] v@[i]).wf(),
{
    let start = interaction.start;
    let delta = interaction.partner_start - interaction.start;
    match interaction.kind {
        InteractionKind::Overlap { end, kind: OverlapKind::Parallel } => {
            let mut out: Vec<Obstacle> = Vec::new();
            push_reaching(&mut out, cars, start, Some(end), delta);
            Some(out)
        },
        InteractionKind::Overlap { kind: OverlapKind::Transfer, .. } => {
            let mut out: Vec<Obstacle> = Vec::new();
            push_reaching(&mut out, cars, start, None, delta);
            let ghost base = out@;
            let mut i: usize = 0;
            while i < obstacles.len()
                invariant
                    0 <= i <= obstacles@.len(),
                    forall|i: int| 0 <= i < obstacles@.len() ==> (#[trigger] obstacles@[i]).0.wf(),
                    -2 * POS_LIMIT <= delta <= 2 * POS_LIMIT,
                    delta == interaction.partner_start - interaction.start,
                    out@ == base + relayed(obstacles@.subrange(0, i as int), interaction.partner_lane, start as int, delta as int),
                    forall|i: int| 0 <= i < out@.len() ==> (#[trigger] out@[i]).wf(),
                decreases obstacles@.len() - i,
            {
                let (o, id) = obstacles[i];
                assert(obstacles@.subrange(0, i + 1).drop_last() =~= obstacles@.subrange(0, i as int));
                if id != interaction.partner_lane && o.position + 2 * o.velocity > start {
                    out.push(o.offset_by(delta));
                }
                i += 1;
            }
            assert(obstacles@.subrange(0, i as int) =~= obstacles@);
            assert(out@ =~= base + relayed(obstacles@, interaction.partner_lane, start as int, delta as int));
            Some(out)
        },
        InteractionKind::Overlap { end, kind: OverlapKind::Conflicting } => {
            let mut i: usize = 0;
            while i < cars.len()
                invariant
                    0 <= i <= cars@.len(),
                    forall|i: int| 0 <= i < cars@.len() ==> (#[trigger] cars@[i]).wf(),
                    forall|j: int| 0 <= j < i ==> !in_conflict(#[trigger] cars@[j], start as int, end as int),
                    interaction.wf(),
                    start == interaction.start,
                    interaction.kind == (InteractionKind::Overlap { end, kind: OverlapKind::Conflicting }),
                decreases cars@.len() - i,
            {
                let c = cars[i].as_obstacle;
                if c.position + 2 * c.velocity > start && c.position - CONFLICT_MARGIN < end {
                    assert(in_conflict(cars@[i as int], start as int, end as int));
                    let out = vec![Obstacle::stationary(interaction.partner_start)];
                    assert(out@ =~= seq![Obstacle { position: interaction.partner_start, velocity: 0, max_velocity: 0 }]);
                    return Some(out);
                }
                i += 1;
            }
            let out: Vec<Obstacle> = Vec::new();
            assert(out@ =~= Seq::<Obstacle>::empty());
            Some(out)
        },
        InteractionKind::Previous => {
            let bound = start - PREVIOUS_MARGIN;
            let ghost a = car_obstacles(cars@);
            let ghost b = received_obstacles(obstacles@);
            let mut i: usize = 0;
            assert(a.subrange(0, a.len() as int) =~= a);
            while i < cars.len()
                invariant
                    0 <= i <= cars@.len(),
                    a == car_obstacles(cars@),
                    b == received_obstacles(obstacles@),
                    forall|i: int| 0 <= i < cars@.len() ==> (#[trigger] cars@[i]).wf(),
                    -2 * POS_LIMIT <= delta <= 2 * POS_LIMIT,
                    delta == interaction.partner_start - interaction.start,
                    bound == start - PREVIOUS_MARGIN,
                    start == interaction.start,
                    interaction.kind is Previous,
                    first_from(a, bound as int) == first_from(a.subrange(i as int, a.len() as int), bound as int),
                decreases cars@.len() - i,
            {
                assert(a.subrange(i as int, a.len() as int).drop_first() =~= a.subrange(i + 1, a.len() as int));
                if cars[i].as_obstacle.position >= bound {
                    proof {
                        lemma_first_from_concat(a, b, bound as int);
                        assert(a.subrange(i as int, a.len() as int)[0] == cars@[i as int].as_obstacle);
                    }
                    let out = vec![cars[i].as_obstacle.offset_by(delta)];
                    assert(out@ =~= seq![cars@[i as int].as_obstacle.offset_by_spec(delta as int)]);
                    return Some(out);
                }
                i += 1;
            }
            proof { lemma_first_from_concat(a, b, bound as int); }
            let mut j: usize = 0;
            assert(b.subrange(0, b.len() as int) =~= b);
            while j < obstacles.len()
                invariant
                    0 <= j <= obstacles@.len(),
                    forall|i: int| 0 <= i < obstacles@.len() ==> (#[trigger] obstacles@[i]).0.wf(),
                    b == received_obstacles(obstacles@),
                    a == car_obstacles(cars@),
                    -2 * POS_LIMIT <= delta <= 2 * POS_LIMIT,
                    delta == interaction.partner_start - interaction.start,
                    bound == start - PREVIOUS_MARGIN,
                    start == interaction.start,
                    interaction.kind is Previous,
                    first_from(a + b, bound as int) == first_from(b, bound as int),
                    first_from(b, bound as int) == first_from(b.subrange(j as int, b.len() as int), bound as int),
                decreases obstacles@.len() - j,
            {
                assert(b.subrange(j as int, b.len() as int).drop_first() =~= b.subrange(j + 1, b.len() as int));
                if obstacles[j].0.position >= bound {
                    assert(b.subrange(j as int, b.len() as int)[0] == obstacles@[j as int].0);
                    let out = vec![obstacles[j].0.offset_by(delta)];
                    assert(out@ =~= seq![obstacles@[j as int].0.offset_by_spec(delta as int)]);
                    return Some(out);
                }
                j += 1;
            }
            let out: Vec<Obstacle> = Vec::new();
            assert(out@ =~= Seq::<Obstacle>::empty());
            Some(out)
        },
        InteractionKind::Next { .. } => None,
    }
}

/// A conflicting overlap publishes a single blocking flag: nothing while no
/// vehicle occupies the conflict zone (in particular with no vehicles at
/// all), else exactly one standing obstacle at the partner's entry.
pub proof fn lemma_conflict_is_a_flag(interaction: Interaction, cars: Seq<LaneCar>, obstacles: Seq<(Obstacle, LaneLikeId)>)
    requires
        interaction.kind matches InteractionKind::Overlap { kind: OverlapKind::Conflicting, .. },
    ensures
        resolve(interaction, cars, obstacles) matches Some(s) && {
            let end = match interaction.kind {
                InteractionKind::Overlap { end, .. } => end as int,
                _ => 0,
            };
            let occupied = exists|i: int| 0 <= i < cars.len() && in_conflict(#[trigger] cars[i], interaction.start as int, end);
            &&& occupied ==> s == seq![Obstacle { position: interaction.partner_start, velocity: 0, max_velocity: 0 }]
            &&& !occupied ==> s.len() == 0
            &&& cars.len() == 0 ==> s.len() == 0
        },
{
}

proof fn lemma_first_from_concat(a: Seq<Obstacle>, b: Seq<Obstacle>, bound: int)
    ensures
        first_from(a + b, bound) == match first_from(a, bound) {
            Some(o) => Some(o),
            None => first_from(b, bound),
        },
    decreases a.len(),
{
    if a.len() == 0 {
        assert(a + b =~= b);
    } else {
        assert((a + b).drop_first() =~= a.drop_first() + b);
        lemma_first_from_concat(a.drop_first(), b, bound);
    }
}

} // verus!
