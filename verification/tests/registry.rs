use mellow::gauges::GaugeSet;
use mellow::info::parse_redis_info;
use mellow::num::{parse_i64, parse_u32};
use mellow::poller::{PollAction, PollEvent, Poller};
use mellow::resolver::Resolver;
use mellow::config::{Config, sorted_names};
use mellow::types::{ClusterDefinition, NodeAddress};

#[test]
fn polling_the_same_value_twice_keeps_one_entry() {
    let mut g = GaugeSet::new();
    g.set_gauge("connected_clients", 17);
    g.set_gauge("connected_clients", 17);
    assert_eq!(g.len(), 1);
    assert_eq!(g.name_at(0), "connected_clients");
    assert_eq!(g.value_at(0), 17);
}

#[test]
fn a_gauge_is_updated_in_place_not_duplicated() {
    let mut g = GaugeSet::new();
    g.set_gauge("used_memory", 1000);
    g.set_gauge("connected_clients", 5);
    g.set_gauge("used_memory", 1024);
    assert_eq!(g.len(), 2);
    assert_eq!(g.name_at(0), "used_memory");
    assert_eq!(g.value_at(0), 1024);
    assert_eq!(g.value_at(1), 5);
}

#[test]
fn only_numeric_attributes_become_gauges() {
    let d = parse_redis_info("redis_version:7.2.0\nconnected_clients:4\nrole:master\nmem_frag:-3\n");
    let mut g = GaugeSet::new();
    g.update_from(&d);
    assert_eq!(g.len(), 2);
    assert_eq!(g.name_at(0), "connected_clients");
    assert_eq!(g.value_at(0), 4);
    assert_eq!(g.name_at(1), "mem_frag");
    assert_eq!(g.value_at(1), -3);
}

#[test]
fn gauges_grow_monotonically_across_polls() {
    let mut g = GaugeSet::new();
    g.update_from(&parse_redis_info("a:1\nb:2\n"));
    g.update_from(&parse_redis_info("b:3\n"));
    assert_eq!(g.len(), 2);
    assert_eq!(g.value_at(0), 1);
    assert_eq!(g.value_at(1), 3);
}

#[test]
fn a_tick_during_a_walk_starts_no_second_walk() {
    let mut p = Poller::new();
    assert_eq!(p.step(PollEvent::Tick), PollAction::StartWalk);
    assert_eq!(p.step(PollEvent::Tick), PollAction::Idle);
    assert_eq!(p.step(PollEvent::Tick), PollAction::Idle);
    assert_eq!(p.step(PollEvent::WalkFinished), PollAction::Idle);
    assert_eq!(p.step(PollEvent::Tick), PollAction::StartWalk);
}

#[test]
fn a_cancelled_poller_schedules_nothing_more() {
    let mut p = Poller::new();
    assert_eq!(p.step(PollEvent::Tick), PollAction::StartWalk);
    assert_eq!(p.step(PollEvent::Cancel), PollAction::Idle);
    assert_eq!(p.step(PollEvent::WalkFinished), PollAction::Idle);
    assert_eq!(p.step(PollEvent::Tick), PollAction::Idle);
}

#[test]
fn candidates_come_out_in_order_each_once() {
    let mut r = Resolver::new(vec![
        NodeAddress { host: "a".to_string(), port: "1".to_string() },
        NodeAddress { host: "b".to_string(), port: "2".to_string() },
    ]);
    assert_eq!(r.next_candidate().unwrap().host, "a");
    assert_eq!(r.next_candidate().unwrap().host, "b");
    assert!(r.next_candidate().is_none());
    assert!(r.next_candidate().is_none());
}

#[test]
fn unsigned_parse_accepts_plain_decimals_only() {
    assert_eq!(parse_u32("0"), Some(0));
    assert_eq!(parse_u32("+12"), Some(12));
    assert_eq!(parse_u32("007"), Some(7));
    assert_eq!(parse_u32("4294967295"), Some(u32::MAX));
    assert_eq!(parse_u32("4294967296"), None);
    assert_eq!(parse_u32("-1"), None);
    assert_eq!(parse_u32(""), None);
    assert_eq!(parse_u32("+"), None);
    assert_eq!(parse_u32("1.5"), None);
    assert_eq!(parse_u32(" 1"), None);
}

#[test]
fn signed_parse_covers_the_symmetric_range() {
    assert_eq!(parse_i64("42"), Some(42));
    assert_eq!(parse_i64("-42"), Some(-42));
    assert_eq!(parse_i64("+0"), Some(0));
    assert_eq!(parse_i64("9223372036854775807"), Some(i64::MAX));
    assert_eq!(parse_i64("9223372036854775808"), None);
    assert_eq!(parse_i64("-9223372036854775807"), Some(-i64::MAX));
    assert_eq!(parse_i64("--1"), None);
    assert_eq!(parse_i64("1e3"), None);
}

#[test]
fn cluster_names_come_out_sorted() {
    let mk = |n: &str| ClusterDefinition {
        name: n.to_string(),
        seeds: vec![NodeAddress { host: "h".to_string(), port: "1".to_string() }],
        password: String::new(),
    };
    let config = Config { clusters: vec![mk("staging"), mk("prod"), mk("alpha"), mk("prod")] };
    let names = sorted_names(&config);
    assert_eq!(names, vec!["alpha", "prod", "prod", "staging"]);
}
