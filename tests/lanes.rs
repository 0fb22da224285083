use microtraffic::following::intelligent_acceleration;
use microtraffic::lane::{
    Interaction, InteractionKind, Lane, LaneLikeId, Microtraffic, OverlapKind, Outbound, RoutingInfo,
};
use microtraffic::obstacle::{LaneCar, Location, Obstacle, TransferringLaneCar};
use microtraffic::resolver::obstacles_for_interaction;
use microtraffic::signal::{is_next_phase, is_phase, signal_state};
use microtraffic::transfer::TransferLane;

fn obstacle(position: i64, velocity: i64, max_velocity: i64) -> Obstacle {
    Obstacle { position, velocity, max_velocity }
}

fn destination() -> Location {
    Location { landmark: 7, node: 9 }
}

fn car(trip: u64, position: i64, velocity: i64, max_velocity: i64) -> LaneCar {
    LaneCar {
        trip,
        as_obstacle: obstacle(position, velocity, max_velocity),
        acceleration: 0,
        destination: destination(),
        next_hop_interaction: 0,
    }
}

fn next_to(partner: u32, start: i64, partner_start: i64, green: bool) -> Interaction {
    Interaction {
        partner_lane: LaneLikeId::Plain(partner),
        start,
        partner_start,
        kind: InteractionKind::Next { green },
    }
}

fn overlap(partner: u32, start: i64, end: i64, partner_start: i64, kind: OverlapKind) -> Interaction {
    Interaction {
        partner_lane: LaneLikeId::Plain(partner),
        start,
        partner_start,
        kind: InteractionKind::Overlap { end, kind },
    }
}

fn routed_lane(id: u32, length: i64) -> Lane {
    Lane::new(
        id,
        length,
        vec![next_to(2, 100_000, 0, true)],
        vec![RoutingInfo { destination: destination(), outgoing_idx: 0 }],
        vec![],
    )
}

fn positions(lane: &Lane) -> Vec<i64> {
    lane.microtraffic.cars.iter().map(|c| c.as_obstacle.position).collect()
}

#[test]
fn free_road_from_standstill_accelerates_fully() {
    let a = intelligent_acceleration(&obstacle(0, 0, 10_000), None, 2000);
    assert_eq!(a, 1000);
}

#[test]
fn free_road_below_cap_accelerates() {
    // (10/20)^4 = 0.0625, in thousandths 62 after rounding down each step
    let a = intelligent_acceleration(&obstacle(0, 10_000, 20_000), None, 2000);
    assert_eq!(a, 938);
    assert!(a > 0);
}

#[test]
fn free_road_at_cap_does_not_accelerate() {
    let a = intelligent_acceleration(&obstacle(0, 20_000, 20_000), None, 2000);
    assert_eq!(a, 0);
    let b = intelligent_acceleration(&obstacle(0, 30_000, 20_000), None, 2000);
    assert!(b < 0);
}

#[test]
fn gap_below_floor_brakes_hard() {
    let leader = obstacle(4_005, 0, 0);
    let a = intelligent_acceleration(&obstacle(0, 5_000, 20_000), Some(leader), 2000);
    assert_eq!(a, -14_000);
    let touching = obstacle(0, 0, 0);
    let b = intelligent_acceleration(&obstacle(0, 0, 20_000), Some(touching), 2000);
    assert_eq!(b, -14_000);
}

#[test]
fn far_leader_barely_matters() {
    let leader = obstacle(900_000, 10_000, 20_000);
    let a = intelligent_acceleration(&obstacle(0, 0, 10_000), Some(leader), 2000);
    assert_eq!(a, 1000);
}

#[test]
fn signal_flags_follow_timing_cycle() {
    let timings = vec![true, false];
    let s0 = signal_state(&timings, 0);
    assert!(s0.green);
    assert!(s0.yellow_to_green);
    assert!(!s0.yellow_to_red);
    let s1 = signal_state(&timings, 10);
    assert!(!s1.green);
    assert!(!s1.yellow_to_green);
    assert!(s1.yellow_to_red);
    let timings3 = vec![true, true, false];
    let s2 = signal_state(&timings3, 5);
    assert!(s2.green);
    // ten steps ahead of step 0 is step 1 of the cycle
    assert!(s2.yellow_to_green);
}

#[test]
fn unsignalled_lane_is_always_green() {
    let s = signal_state(&vec![], 12345);
    assert!(s.green && s.yellow_to_green && s.yellow_to_red);
}

#[test]
fn throttle_phases() {
    assert!(is_phase(31, 1, 30));
    assert!(!is_phase(32, 1, 30));
    assert!(is_next_phase(30, 1, 30));
    assert!(is_next_phase(u64::MAX, 1, 30) == ((u64::MAX as u128 + 1) % 30 == 1));
}

#[test]
fn new_microtraffic_is_empty_and_red() {
    let m = Microtraffic::new(vec![true]);
    assert!(m.cars.is_empty() && m.obstacles.is_empty());
    assert!(!m.green && !m.yellow_to_green && !m.yellow_to_red);
}

#[test]
fn forced_spawns_are_spaced_evenly() {
    let mut lane = routed_lane(1, 30_000);
    let mut outbox = Vec::new();
    for trip in 0..4u64 {
        lane.add_car(car(trip, -1, 0, 10_000), None, 0, &mut outbox);
    }
    assert!(outbox.is_empty());
    assert_eq!(positions(&lane), vec![12_000, 18_000, 24_000, 30_000]);
    assert_eq!(lane.last_spawn_position, 6_000);
    let p = positions(&lane);
    for w in p.windows(2) {
        assert_eq!(w[1] - w[0], 6_000);
    }
}

#[test]
fn forced_spawn_refused_when_cursor_too_low() {
    let mut lane = routed_lane(4, 2_000);
    let mut outbox = Vec::new();
    lane.add_car(car(77, -5, 0, 10_000), None, 3, &mut outbox);
    assert!(lane.microtraffic.cars.is_empty());
    assert_eq!(lane.last_spawn_position, 2_000);
    assert_eq!(outbox.len(), 1);
    assert!(matches!(outbox[0], Outbound::TripFailed { trip: 77, location: LaneLikeId::Plain(4), tick: 3 }));
}

#[test]
fn spawn_accepted_just_above_cursor_floor() {
    let mut lane = routed_lane(1, 2_001);
    let mut outbox = Vec::new();
    lane.add_car(car(1, -1, 0, 10_000), None, 0, &mut outbox);
    assert_eq!(positions(&lane), vec![2_001]);
    assert_eq!(lane.last_spawn_position, -3_999);
    lane.add_car(car(2, -1, 0, 10_000), None, 0, &mut outbox);
    assert_eq!(lane.microtraffic.cars.len(), 1);
    assert_eq!(outbox.len(), 1);
}

#[test]
fn unroutable_car_fails_its_trip() {
    let mut lane = Lane::new(3, 50_000, vec![next_to(2, 100, 0, true)], vec![], vec![]);
    let mut outbox = Vec::new();
    lane.add_car(car(5, 10, 0, 10_000), None, 0, &mut outbox);
    assert!(lane.microtraffic.cars.is_empty());
    assert!(matches!(outbox[0], Outbound::TripFailed { trip: 5, location: LaneLikeId::Plain(3), tick: 0 }));
}

#[test]
fn landmark_route_and_fallback_route() {
    let other = Location { landmark: 1, node: 2 };
    let landmark = Location { landmark: 7, node: 7 };
    let interactions = vec![next_to(2, 100_000, 0, true), next_to(3, 100_000, 0, true), next_to(4, 100_000, 0, true)];
    let mut lane = Lane::new(
        1,
        50_000,
        interactions.clone(),
        vec![RoutingInfo { destination: other, outgoing_idx: 2 }, RoutingInfo { destination: landmark, outgoing_idx: 1 }],
        vec![],
    );
    let mut outbox = Vec::new();
    lane.add_car(car(1, 100, 0, 10_000), None, 0, &mut outbox);
    assert_eq!(lane.microtraffic.cars[0].next_hop_interaction, 1);

    let mut fallback = Lane::new(
        1,
        50_000,
        interactions,
        vec![RoutingInfo { destination: other, outgoing_idx: 2 }, RoutingInfo { destination: Location { landmark: 3, node: 3 }, outgoing_idx: 0 }],
        vec![],
    );
    fallback.add_car(car(2, 100, 3, 10_000), None, 0, &mut outbox);
    // velocity 3 picks entry 3 % 2 = 1
    assert_eq!(fallback.microtraffic.cars[0].next_hop_interaction, 0);
    // a forced spawn gets no fallback
    fallback.add_car(car(3, -1, 3, 10_000), None, 0, &mut outbox);
    assert_eq!(fallback.microtraffic.cars.len(), 1);
    assert!(matches!(outbox.last(), Some(Outbound::TripFailed { trip: 3, .. })));
}

#[test]
fn insertion_keeps_order_with_equal_positions() {
    let mut lane = routed_lane(1, 50_000);
    let mut outbox = Vec::new();
    lane.add_car(car(1, 500, 0, 10_000), None, 0, &mut outbox);
    lane.add_car(car(2, 100, 0, 10_000), None, 0, &mut outbox);
    lane.add_car(car(3, 500, 0, 10_000), None, 0, &mut outbox);
    lane.add_car(car(4, 300, 0, 10_000), None, 0, &mut outbox);
    assert_eq!(positions(&lane), vec![100, 300, 500, 500]);
    let trips: Vec<u64> = lane.microtraffic.cars.iter().map(|c| c.trip).collect();
    assert_eq!(trips, vec![2, 4, 1, 3]);
}

#[test]
fn obstacles_replace_those_of_the_same_source() {
    let mut lane = routed_lane(1, 50_000);
    let a = LaneLikeId::Plain(8);
    let b = LaneLikeId::Transfer(9);
    lane.add_obstacles(&vec![obstacle(10, 0, 0), obstacle(20, 0, 0)], a);
    lane.add_obstacles(&vec![obstacle(30, 0, 0)], b);
    lane.add_obstacles(&vec![obstacle(40, 0, 0)], a);
    let got: Vec<(i64, LaneLikeId)> = lane.microtraffic.obstacles.iter().map(|(o, s)| (o.position, *s)).collect();
    assert_eq!(got, vec![(30, b), (40, a)]);
    lane.add_obstacles(&vec![], b);
    assert_eq!(lane.microtraffic.obstacles.len(), 1);
}

#[test]
fn signal_change_updates_next_interaction_only() {
    let mut lane = Lane::new(
        1,
        50_000,
        vec![
            Interaction { partner_lane: LaneLikeId::Plain(2), start: 0, partner_start: 0, kind: InteractionKind::Previous },
            next_to(2, 100, 0, true),
        ],
        vec![],
        vec![],
    );
    lane.on_signal_changed(LaneLikeId::Plain(2), false);
    assert_eq!(lane.interactions[0].kind, InteractionKind::Previous);
    assert_eq!(lane.interactions[1].kind, InteractionKind::Next { green: false });
    lane.on_signal_changed(LaneLikeId::Plain(6), true);
    assert_eq!(lane.interactions[1].kind, InteractionKind::Next { green: false });
}

#[test]
fn conflicting_overlap_blocks_only_when_occupied() {
    let interaction = overlap(5, 1_000, 3_000, 777, OverlapKind::Conflicting);
    let empty = obstacles_for_interaction(&interaction, &vec![], &vec![]).unwrap();
    assert!(empty.is_empty());
    let outside = obstacles_for_interaction(&interaction, &vec![car(1, 10_000, 0, 10_000)], &vec![]).unwrap();
    assert!(outside.is_empty());
    let inside = obstacles_for_interaction(&interaction, &vec![car(1, 2_000, 0, 10_000)], &vec![]).unwrap();
    assert_eq!(inside, vec![obstacle(777, 0, 0)]);
}

#[test]
fn parallel_overlap_projects_the_window() {
    let interaction = overlap(5, 1_000, 5_000, 10_000, OverlapKind::Parallel);
    let cars = vec![car(1, 0, 100, 10_000), car(2, 900, 100, 10_000), car(3, 4_000, 0, 10_000), car(4, 6_000, 0, 10_000)];
    let got = obstacles_for_interaction(&interaction, &cars, &vec![]).unwrap();
    assert_eq!(got, vec![obstacle(9_900, 100, 10_000), obstacle(13_000, 0, 10_000)]);
}

#[test]
fn transfer_overlap_relays_other_sources() {
    let interaction = overlap(5, 1_000, 5_000, 0, OverlapKind::Transfer);
    let cars = vec![car(1, 0, 0, 10_000), car(2, 2_000, 0, 10_000)];
    let received = vec![(obstacle(3_000, 0, 0), LaneLikeId::Plain(5)), (obstacle(4_000, 0, 0), LaneLikeId::Plain(6)), (obstacle(500, 0, 0), LaneLikeId::Plain(6))];
    let got = obstacles_for_interaction(&interaction, &cars, &received).unwrap();
    assert_eq!(got, vec![obstacle(1_000, 0, 10_000), obstacle(3_000, 0, 0)]);
}

#[test]
fn previous_reports_first_blocker() {
    let interaction = Interaction { partner_lane: LaneLikeId::Plain(5), start: 10_000, partner_start: 50_000, kind: InteractionKind::Previous };
    let cars = vec![car(1, 1_000, 0, 10_000), car(2, 8_500, 0, 10_000)];
    let got = obstacles_for_interaction(&interaction, &cars, &vec![]).unwrap();
    assert_eq!(got, vec![obstacle(48_500, 0, 10_000)]);
    let none = obstacles_for_interaction(&interaction, &vec![car(1, 1_000, 0, 10_000)], &vec![(obstacle(7_000, 0, 0), LaneLikeId::Plain(3))]).unwrap();
    assert!(none.is_empty());
    let from_obstacle = obstacles_for_interaction(&interaction, &vec![], &vec![(obstacle(9_000, 5, 6), LaneLikeId::Plain(3))]).unwrap();
    assert_eq!(from_obstacle, vec![obstacle(49_000, 5, 6)]);
}

#[test]
fn next_interaction_publishes_nothing() {
    let got = obstacles_for_interaction(&next_to(2, 0, 0, true), &vec![car(1, 5, 0, 10_000)], &vec![]);
    assert!(got.is_none());
}

#[test]
fn tick_moves_and_keeps_order() {
    let mut lane = routed_lane(1, 200_000);
    let mut outbox = Vec::new();
    lane.add_car(car(1, 1_000, 5_000, 10_000), None, 0, &mut outbox);
    lane.add_car(car(2, 1_500, 9_000, 10_000), None, 0, &mut outbox);
    lane.add_car(car(3, 900, 10_000, 10_000), None, 0, &mut outbox);
    let before = positions(&lane);
    lane.tick(20_000, 2, &mut outbox);
    let after = positions(&lane);
    for (b, a) in before.iter().zip(after.iter()) {
        assert!(a >= b);
    }
    for w in after.windows(2) {
        assert!(w[0] <= w[1]);
    }
    // the rear car at 900 moving 10 per unit would reach 10_900, but stays
    // behind the slower car that started at 1_000 and reached 6_000
    assert_eq!(after, vec![6_000, 6_000, 10_500]);
}

#[test]
fn red_stop_line_brakes_on_traffic_phase() {
    let mut lane = Lane::new(
        1,
        200_000,
        vec![next_to(2, 20_000, 0, false)],
        vec![RoutingInfo { destination: destination(), outgoing_idx: 0 }],
        vec![],
    );
    let mut outbox = Vec::new();
    lane.add_car(car(1, 10_000, 10_000, 10_000), None, 0, &mut outbox);
    lane.tick(20_000, 1, &mut outbox);
    assert!(lane.microtraffic.cars[0].acceleration < 0);
}

#[test]
fn tick_announces_signal_upstream_and_requests_routes() {
    let mut lane = Lane::new(
        11,
        50_000,
        vec![Interaction { partner_lane: LaneLikeId::Plain(2), start: 0, partner_start: 0, kind: InteractionKind::Previous }],
        vec![],
        vec![],
    );
    let mut outbox = Vec::new();
    lane.tick(0, 11, &mut outbox);
    assert!(lane.microtraffic.green);
    assert!(outbox.iter().any(|m| matches!(m, Outbound::SignalChanged { to: LaneLikeId::Plain(2), from: LaneLikeId::Plain(11), green: true })));
    assert!(outbox.iter().any(|m| matches!(m, Outbound::RefreshRoutes)));
}

#[test]
fn car_reaches_next_lane() {
    let mut a = Lane::new(
        1,
        200_000,
        vec![next_to(2, 100_000, 0, true)],
        vec![RoutingInfo { destination: destination(), outgoing_idx: 0 }],
        vec![],
    );
    let mut b = Lane::new(
        2,
        200_000,
        vec![next_to(3, 150_000, 0, true)],
        vec![RoutingInfo { destination: destination(), outgoing_idx: 0 }],
        vec![],
    );
    let mut outbox = Vec::new();
    a.add_car(car(42, 0, 0, 10_000), None, 0, &mut outbox);
    assert_eq!(a.microtraffic.cars.len(), 1);
    let mut handed = None;
    for t in 0..5_000u64 {
        a.tick(20_000, t, &mut outbox);
        assert!(!outbox.iter().any(|m| matches!(m, Outbound::TripFailed { .. })));
        if let Some(pos) = outbox.iter().position(|m| matches!(m, Outbound::AddCar { .. })) {
            handed = Some(outbox.remove(pos));
            break;
        }
    }
    let Some(Outbound::AddCar { to, car: moved, from }) = handed else { panic!("no hand-off") };
    assert_eq!(to, LaneLikeId::Plain(2));
    assert_eq!(from, LaneLikeId::Plain(1));
    assert!(a.microtraffic.cars.is_empty());
    // partner_start is 0: what is left is the overshoot of one step
    assert!(moved.as_obstacle.position > 0 && moved.as_obstacle.position <= 10_000);
    b.add_car(moved, Some(from), 0, &mut outbox);
    assert_eq!(b.microtraffic.cars.len(), 1);
    assert_eq!(b.microtraffic.cars[0].as_obstacle.position, moved.as_obstacle.position);
    assert!(!outbox.iter().any(|m| matches!(m, Outbound::TripFailed { .. })));
}

#[test]
fn car_at_destination_succeeds() {
    let dest = Location { landmark: 1, node: 1 };
    let mut lane = Lane::new(
        1,
        200_000,
        vec![next_to(2, 1_000, 0, true)],
        vec![RoutingInfo { destination: dest, outgoing_idx: 0 }],
        vec![],
    );
    let mut outbox = Vec::new();
    let mut c = car(9, 1_500, 0, 10_000);
    c.destination = dest;
    lane.add_car(c, None, 0, &mut outbox);
    lane.tick(0, 2, &mut outbox);
    assert!(lane.microtraffic.cars.is_empty());
    assert!(outbox.iter().any(|m| matches!(m, Outbound::TripSucceeded { trip: 9, tick: 2 })));
}

fn transfer_lane() -> TransferLane {
    TransferLane::new(5, 100_000, Some((LaneLikeId::Plain(1), 0)), Some((LaneLikeId::Plain(2), 500)))
}

#[test]
fn transfer_entry_side_sets_lateral_state() {
    let mut lane = transfer_lane();
    lane.add_car(car(1, 1_000, 0, 10_000), Some(LaneLikeId::Plain(1)));
    lane.add_car(car(2, 500, 0, 10_000), Some(LaneLikeId::Plain(2)));
    let first = lane.microtraffic.cars[0];
    let second = lane.microtraffic.cars[1];
    assert_eq!((first.as_lane_car.trip, first.transfer_position, first.transfer_acceleration), (2, 1_000, -300));
    assert_eq!((second.as_lane_car.trip, second.transfer_position, second.transfer_acceleration), (1, -1_000, 300));
    assert!(!first.cancelling && first.transfer_velocity == 0);
}

#[test]
fn transfer_obstacles_go_to_their_side() {
    let mut lane = transfer_lane();
    lane.add_obstacles(&vec![obstacle(1, 0, 0)], LaneLikeId::Plain(1));
    lane.add_obstacles(&vec![obstacle(2, 0, 0), obstacle(3, 0, 0)], LaneLikeId::Plain(2));
    assert_eq!(lane.microtraffic.left_obstacles, vec![obstacle(1, 0, 0)]);
    assert_eq!(lane.microtraffic.right_obstacles.len(), 2);
    let mut unconnected = TransferLane::new(6, 100_000, Some((LaneLikeId::Plain(1), 0)), None);
    unconnected.add_obstacles(&vec![obstacle(1, 0, 0)], LaneLikeId::Plain(1));
    assert!(unconnected.microtraffic.left_obstacles.is_empty());
}

#[test]
fn transfer_car_crossing_right_is_handed_over() {
    let mut lane = transfer_lane();
    lane.microtraffic.cars.push(TransferringLaneCar {
        as_lane_car: car(3, 1_000, 12_000, 20_000),
        transfer_position: 1_000,
        transfer_velocity: 10,
        transfer_acceleration: 0,
        cancelling: false,
    });
    let mut outbox = Vec::new();
    lane.tick(20_000, 1, &mut outbox);
    assert!(lane.microtraffic.cars.is_empty());
    let handed: Vec<&Outbound> = outbox.iter().filter(|m| matches!(m, Outbound::AddCar { .. })).collect();
    assert_eq!(handed.len(), 1);
    match handed[0] {
        Outbound::AddCar { to, car, from } => {
            assert_eq!(*to, LaneLikeId::Plain(2));
            assert_eq!(*from, LaneLikeId::Transfer(5));
            assert_eq!(car.as_obstacle.position, 13_500);
        }
        _ => unreachable!(),
    }
}

#[test]
fn transfer_car_crossing_into_destination_succeeds() {
    let mut lane = transfer_lane();
    let mut c = car(4, 1_000, 12_000, 20_000);
    c.destination = Location { landmark: 2, node: 2 };
    lane.microtraffic.cars.push(TransferringLaneCar {
        as_lane_car: c,
        transfer_position: 1_000,
        transfer_velocity: 10,
        transfer_acceleration: 0,
        cancelling: false,
    });
    let mut outbox = Vec::new();
    lane.tick(20_000, 1, &mut outbox);
    assert!(lane.microtraffic.cars.is_empty());
    assert!(outbox.iter().any(|m| matches!(m, Outbound::TripSucceeded { trip: 4, tick: 1 })));
}

#[test]
fn transfer_danger_cancels_lane_change_once() {
    let mut lane = transfer_lane();
    lane.add_car(car(1, 10_000, 5_000, 10_000), Some(LaneLikeId::Plain(1)));
    lane.add_obstacles(&vec![obstacle(10_050, 0, 0)], LaneLikeId::Plain(1));
    let mut outbox = Vec::new();
    lane.tick(0, 5, &mut outbox);
    let c = lane.microtraffic.cars[0];
    assert!(c.cancelling);
    assert_eq!(c.transfer_acceleration, -300);
    lane.tick(0, 35, &mut outbox);
    assert_eq!(lane.microtraffic.cars[0].transfer_acceleration, -300);
}

#[test]
fn transfer_lateral_speed_is_capped() {
    let mut lane = transfer_lane();
    lane.microtraffic.cars.push(TransferringLaneCar {
        as_lane_car: car(3, 1_000, 1_200, 20_000),
        transfer_position: 0,
        transfer_velocity: 90,
        transfer_acceleration: 1_000,
        cancelling: false,
    });
    let mut outbox = Vec::new();
    lane.tick(20_000, 2, &mut outbox);
    assert_eq!(lane.microtraffic.cars[0].transfer_position, 90);
    assert_eq!(lane.microtraffic.cars[0].transfer_velocity, 100);
}

#[test]
fn overlap_publishes_each_car_by_its_own_projection() {
    let cars = vec![car(1, 0, 10_000, 20_000), car(2, 1_000, 0, 20_000)];
    let parallel = overlap(5, 10_000, 50_000, 0, OverlapKind::Parallel);
    let got = obstacles_for_interaction(&parallel, &cars, &vec![]).unwrap();
    assert_eq!(got, vec![obstacle(-10_000, 10_000, 20_000)]);
    let transfer = overlap(5, 10_000, 50_000, 0, OverlapKind::Transfer);
    let got = obstacles_for_interaction(&transfer, &cars, &vec![]).unwrap();
    assert_eq!(got, vec![obstacle(-10_000, 10_000, 20_000)]);
}

#[test]
fn transfer_tick_sorts_overtaking_cars() {
    let mut lane = TransferLane::new(5, 100_000, None, None);
    for (trip, position, velocity) in [(1u64, 0i64, 20_000i64), (2, 1_000, 0), (3, 2_000, 0)] {
        lane.microtraffic.cars.push(TransferringLaneCar {
            as_lane_car: car(trip, position, velocity, 20_000),
            transfer_position: 0,
            transfer_velocity: 0,
            transfer_acceleration: 0,
            cancelling: false,
        });
    }
    let mut outbox = Vec::new();
    lane.tick(20_000, 1, &mut outbox);
    let trips: Vec<u64> = lane.microtraffic.cars.iter().map(|c| c.as_lane_car.trip).collect();
    assert_eq!(trips, vec![2, 3, 1]);
    assert!(outbox.is_empty());
}
