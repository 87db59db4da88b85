use disaster_mesh::routing::{LinkQuality, RouteInfo, RoutingEngine};
use disaster_mesh::time::{Duration, Timestamp};
use disaster_mesh::types::{PeerId, UserId};

fn quality(value: f32) -> LinkQuality {
    LinkQuality::from_bits(value.to_bits())
}

fn at(secs: u64, nanos: u32) -> Timestamp {
    Timestamp::from_unix(Duration::new(secs, nanos).unwrap())
}

#[test]
fn test_routing_update_and_query() {
    let mut engine = RoutingEngine::new(Duration::from_secs(60));
    let dest = UserId::random();
    let next_hop = PeerId([1; 32]);

    // Insert route with hop_count 3
    engine.update_route(dest, next_hop, 3, quality(0.8));

    // Fetch next hop
    let retrieved = engine.next_hop(&dest);
    assert_eq!(retrieved, Some(next_hop));

    // Update with better hop_count
    let better_hop = PeerId([2; 32]);
    engine.update_route(dest, better_hop, 2, quality(0.8));
    let retrieved_better = engine.next_hop(&dest);
    assert_eq!(retrieved_better, Some(better_hop));
}

#[test]
fn fewer_hops_win_and_equal_hops_need_better_quality() {
    let mut engine = RoutingEngine::new(Duration::from_secs(60));
    let user = UserId([7; 32]);
    let first = PeerId([1; 32]);
    let second = PeerId([2; 32]);
    let third = PeerId([3; 32]);
    let now = at(1_000, 0);

    engine.update_route_at(user, first, 3, quality(0.8), now);
    assert_eq!(engine.next_hop(&user), Some(first));

    engine.update_route_at(user, second, 2, quality(0.8), now);
    assert_eq!(engine.next_hop(&user), Some(second));

    engine.update_route_at(user, third, 2, quality(0.5), now);
    assert_eq!(engine.next_hop(&user), Some(second));
}

#[test]
fn a_new_destination_is_always_entered() {
    let mut engine = RoutingEngine::new(Duration::from_secs(60));
    let user = UserId([9; 32]);
    assert_eq!(engine.next_hop(&user), None);
    engine.update_route_at(user, PeerId([4; 32]), 255, quality(0.0), at(5, 6));
    assert_eq!(engine.next_hop(&user), Some(PeerId([4; 32])));
    let snapshot = engine.dump();
    assert_eq!(
        snapshot,
        vec![RouteInfo {
            destination: user,
            next_hop: PeerId([4; 32]),
            hop_count: 255,
            last_updated: at(5, 6),
            link_quality: quality(0.0),
        }]
    );
}

#[test]
fn equal_hops_and_better_quality_replace() {
    let mut engine = RoutingEngine::new(Duration::from_secs(60));
    let user = UserId([7; 32]);
    engine.update_route_at(user, PeerId([1; 32]), 2, quality(0.5), at(10, 0));
    engine.update_route_at(user, PeerId([2; 32]), 2, quality(0.75), at(20, 0));
    let snapshot = engine.dump();
    assert_eq!(snapshot.len(), 1);
    assert_eq!(snapshot[0].next_hop, PeerId([2; 32]));
    assert_eq!(snapshot[0].last_updated, at(20, 0));
    assert_eq!(snapshot[0].link_quality.to_bits(), 0.75f32.to_bits());
}

#[test]
fn an_equal_offer_does_not_replace_nor_refresh() {
    let mut engine = RoutingEngine::new(Duration::from_secs(60));
    let user = UserId([7; 32]);
    engine.update_route_at(user, PeerId([1; 32]), 2, quality(0.5), at(10, 0));
    engine.update_route_at(user, PeerId([2; 32]), 2, quality(0.5), at(20, 0));
    engine.update_route_at(user, PeerId([3; 32]), 3, quality(1.0), at(30, 0));
    let snapshot = engine.dump();
    assert_eq!(snapshot.len(), 1);
    assert_eq!(snapshot[0].next_hop, PeerId([1; 32]));
    assert_eq!(snapshot[0].last_updated, at(10, 0));
}

#[test]
fn replay_keeps_the_first_of_the_best_offers() {
    let offers: [(u8, u8, f32); 7] = [
        (1, 4, 0.9),
        (2, 3, 0.2),
        (3, 2, 0.4),
        (4, 2, 0.7),
        (5, 2, 0.7),
        (6, 3, 1.0),
        (7, 2, 0.6),
    ];
    let mut engine = RoutingEngine::new(Duration::from_secs(60));
    let user = UserId([7; 32]);
    for (i, (peer, hops, lq)) in offers.iter().enumerate() {
        engine.update_route_at(user, PeerId([*peer; 32]), *hops, quality(*lq), at(i as u64, 0));
    }
    let snapshot = engine.dump();
    assert_eq!(snapshot.len(), 1);
    assert_eq!(snapshot[0].next_hop, PeerId([4; 32]));
    assert_eq!(snapshot[0].hop_count, 2);
    assert_eq!(snapshot[0].link_quality, quality(0.7));
    assert_eq!(snapshot[0].last_updated, at(3, 0));
}

#[test]
fn destinations_do_not_disturb_each_other() {
    let mut engine = RoutingEngine::new(Duration::from_secs(60));
    let a = UserId([1; 32]);
    let b = UserId([2; 32]);
    engine.update_route_at(a, PeerId([10; 32]), 5, quality(0.5), at(1, 0));
    engine.update_route_at(b, PeerId([20; 32]), 1, quality(0.1), at(2, 0));
    engine.update_route_at(a, PeerId([11; 32]), 4, quality(0.5), at(3, 0));
    assert_eq!(engine.next_hop(&a), Some(PeerId([11; 32])));
    assert_eq!(engine.next_hop(&b), Some(PeerId([20; 32])));
    let mut snapshot = engine.dump();
    snapshot.sort_by_key(|r| r.destination.0);
    assert_eq!(snapshot.len(), 2);
    assert_eq!(snapshot[0].destination, a);
    assert_eq!(snapshot[1].destination, b);
}

#[test]
fn cleanup_removes_a_route_aged_past_max_age() {
    let mut engine = RoutingEngine::new(Duration::from_secs(60));
    let user = UserId([7; 32]);
    engine.update_route_at(user, PeerId([1; 32]), 2, quality(0.5), at(100, 0));

    // exactly max_age old: stays
    engine.cleanup_at(at(160, 0));
    assert_eq!(engine.dump().len(), 1);
    assert_eq!(engine.next_hop(&user), Some(PeerId([1; 32])));

    // one nanosecond more: goes
    engine.cleanup_at(at(160, 1));
    assert!(engine.dump().is_empty());
    assert_eq!(engine.next_hop(&user), None);
}

#[test]
fn cleanup_keeps_fresh_routes_and_removes_only_the_aged() {
    let mut engine = RoutingEngine::new(Duration::from_secs(10));
    engine.update_route_at(UserId([1; 32]), PeerId([1; 32]), 1, quality(0.5), at(100, 0));
    engine.update_route_at(UserId([2; 32]), PeerId([2; 32]), 1, quality(0.5), at(105, 0));
    engine.update_route_at(UserId([3; 32]), PeerId([3; 32]), 1, quality(0.5), at(111, 0));
    engine.cleanup_at(at(112, 0));
    let mut left: Vec<u8> = engine.dump().iter().map(|r| r.destination.0[0]).collect();
    left.sort();
    assert_eq!(left, vec![2, 3]);
}

#[test]
fn cleanup_keeps_a_route_stamped_after_now() {
    let mut engine = RoutingEngine::new(Duration::from_secs(60));
    let user = UserId([7; 32]);
    engine.update_route_at(user, PeerId([1; 32]), 2, quality(0.5), at(100, 0));
    engine.cleanup_at(at(99, 999_999_999));
    assert_eq!(engine.next_hop(&user), Some(PeerId([1; 32])));
    engine.cleanup_at(at(0, 0));
    assert_eq!(engine.dump().len(), 1);
    // with no age allowed at all, the route still stays until time has passed
    let mut strict = RoutingEngine::new(Duration::zero());
    strict.update_route_at(user, PeerId([1; 32]), 2, quality(0.5), at(100, 0));
    strict.cleanup_at(at(99, 0));
    strict.cleanup_at(at(100, 0));
    assert_eq!(strict.next_hop(&user), Some(PeerId([1; 32])));
    strict.cleanup_at(at(100, 1));
    assert_eq!(strict.next_hop(&user), None);
}

#[test]
fn cleanup_by_the_clock_keeps_a_route_just_entered() {
    let mut engine = RoutingEngine::new(Duration::from_secs(3600));
    let user = UserId::random();
    engine.update_route(user, PeerId([1; 32]), 2, quality(0.5));
    engine.cleanup();
    assert_eq!(engine.next_hop(&user), Some(PeerId([1; 32])));
    assert_eq!(engine.dump().len(), 1);
}

#[test]
fn is_expired_agrees_with_cleanup() {
    let route = RouteInfo {
        destination: UserId([1; 32]),
        next_hop: PeerId([2; 32]),
        hop_count: 1,
        last_updated: at(50, 500),
        link_quality: quality(1.0),
    };
    let max_age = Duration::new(1, 500).unwrap();
    assert!(!route.is_expired_at(&max_age, &at(50, 500)));
    assert!(!route.is_expired_at(&max_age, &at(51, 1_000)));
    assert!(route.is_expired_at(&max_age, &at(51, 1_001)));
    // a route updated after `now` is not expired
    assert!(!route.is_expired_at(&max_age, &at(50, 499)));
    assert!(!route.is_expired_at(&max_age, &at(0, 0)));
    // by the clock: a route of the year 1970 is expired
    assert!(route.is_expired(&max_age));
}

#[test]
fn link_quality_orders_as_the_numbers_do() {
    let values: [f32; 17] = [
        0.0,
        -0.0,
        0.5,
        0.8,
        1.0,
        -1.0,
        -0.5,
        1e-40,
        -1e-40,
        f32::MIN_POSITIVE,
        f32::MAX,
        f32::MIN,
        f32::INFINITY,
        f32::NEG_INFINITY,
        f32::NAN,
        -f32::NAN,
        0.3,
    ];
    for a in values.iter() {
        for b in values.iter() {
            assert_eq!(
                quality(*a).is_better_than(&quality(*b)),
                *a > *b,
                "{} > {}",
                a,
                b
            );
        }
        assert_eq!(quality(*a).is_not_a_number(), a.is_nan());
    }
}

#[test]
fn an_offer_that_is_not_a_number_never_replaces() {
    let mut engine = RoutingEngine::new(Duration::from_secs(60));
    let user = UserId([7; 32]);
    engine.update_route_at(user, PeerId([1; 32]), 2, quality(0.1), at(1, 0));
    engine.update_route_at(user, PeerId([2; 32]), 2, quality(f32::NAN), at(2, 0));
    assert_eq!(engine.next_hop(&user), Some(PeerId([1; 32])));
    // and a route that is not a number is replaced only by fewer hops
    let other = UserId([8; 32]);
    engine.update_route_at(other, PeerId([1; 32]), 2, quality(f32::NAN), at(1, 0));
    engine.update_route_at(other, PeerId([2; 32]), 2, quality(1.0), at(2, 0));
    assert_eq!(engine.next_hop(&other), Some(PeerId([1; 32])));
    engine.update_route_at(other, PeerId([3; 32]), 1, quality(0.0), at(3, 0));
    assert_eq!(engine.next_hop(&other), Some(PeerId([3; 32])));
}

#[test]
fn update_by_the_clock_stamps_a_recent_time() {
    let mut engine = RoutingEngine::new(Duration::from_secs(60));
    let user = UserId([7; 32]);
    let before = Timestamp::now();
    engine.update_route(user, PeerId([1; 32]), 2, quality(0.75));
    let stamped = engine.dump()[0].last_updated;
    // later than the first of January 2020
    assert!(stamped.since_unix().as_secs() > 1_577_836_800);
    assert!(stamped.duration_since(&before).is_some());
}

#[test]
fn a_snapshot_has_one_route_for_each_destination() {
    let mut engine = RoutingEngine::new(Duration::from_secs(60));
    for i in 0..20u8 {
        engine.update_route_at(UserId([i % 5; 32]), PeerId([i; 32]), 20 - i, quality(0.5), at(1, 0));
    }
    let snapshot = engine.dump();
    assert_eq!(snapshot.len(), 5);
    for d in 0..5u8 {
        let of_d: Vec<&RouteInfo> =
            snapshot.iter().filter(|r| r.destination == UserId([d; 32])).collect();
        assert_eq!(of_d.len(), 1);
        assert_eq!(Some(of_d[0].next_hop), engine.next_hop(&UserId([d; 32])));
        assert_eq!(of_d[0].next_hop, PeerId([15 + d; 32]));
    }
}
