use mellow::types::{NodeAddress, ClusterDefinition, ConfigError};
use mellow::walker::{Walker, WalkCommand, WalkEvent, Snapshot};
use mellow::config::{Config, walker_for};

fn addr(host: &str, port: &str) -> NodeAddress {
    NodeAddress { host: host.to_string(), port: port.to_string() }
}

fn def(seeds: Vec<NodeAddress>) -> ClusterDefinition {
    ClusterDefinition { name: "main".to_string(), seeds, password: String::new() }
}

fn expect_fetch_info(cmd: &WalkCommand) -> (String, String) {
    match cmd {
        WalkCommand::FetchInfo(a) => (a.host.clone(), a.port.clone()),
        other => panic!("expected an info fetch, got {:?}", other),
    }
}

fn expect_fetch_nodes(cmd: &WalkCommand) -> (String, String) {
    match cmd {
        WalkCommand::FetchNodes(a) => (a.host.clone(), a.port.clone()),
        other => panic!("expected a node-table fetch, got {:?}", other),
    }
}

fn expect_finished(cmd: &WalkCommand) {
    match cmd {
        WalkCommand::Finished => {},
        other => panic!("expected the walk to finish, got {:?}", other),
    }
}

fn reply(s: &str) -> WalkEvent {
    WalkEvent::Reply(s.to_string())
}

fn snapshot_addrs(snap: &Snapshot) -> Vec<(String, String)> {
    snap.iter().map(|n| (n.addr.host.clone(), n.addr.port.clone())).collect()
}

#[test]
fn failover_tries_seeds_strictly_in_order() {
    let d = def(vec![addr("a", "1"), addr("b", "2"), addr("c", "3")]);
    let (w, cmd) = Walker::new(&d).unwrap();
    assert_eq!(expect_fetch_info(&cmd), ("a".to_string(), "1".to_string()));
    let (w, cmd) = w.step(WalkEvent::Failed);
    assert_eq!(expect_fetch_info(&cmd), ("b".to_string(), "2".to_string()));
    let (w, cmd) = w.step(WalkEvent::Failed);
    assert_eq!(expect_fetch_info(&cmd), ("c".to_string(), "3".to_string()));
    let (w, cmd) = w.step(reply("role:master\nconnected_slaves:0\n"));
    expect_finished(&cmd);
    let snap = w.into_snapshot();
    assert_eq!(snapshot_addrs(&snap), vec![("c".to_string(), "3".to_string())]);
}

#[test]
fn all_seeds_unreachable_yields_empty_snapshot() {
    let d = def(vec![addr("a", "1"), addr("b", "2")]);
    let (w, _) = Walker::new(&d).unwrap();
    let (w, _) = w.step(WalkEvent::Failed);
    let (w, cmd) = w.step(WalkEvent::Failed);
    expect_finished(&cmd);
    assert!(w.finished());
    assert!(w.into_snapshot().is_empty());
}

const MASTER_INFO: &str = "role:master\nconnected_slaves:2\n\
slave0:ip=10.0.0.5,port=6380,state=online,offset=1,lag=0\n\
slave1:ip=10.0.0.6,port=6381,state=online,offset=1,lag=0\n";

#[test]
fn replication_walk_orders_master_then_replicas() {
    // the entry point is a replica; the walk normalizes to its master
    let d = def(vec![addr("10.0.0.5", "6380")]);
    let (w, cmd) = Walker::new(&d).unwrap();
    assert_eq!(expect_fetch_info(&cmd), ("10.0.0.5".to_string(), "6380".to_string()));
    let (w, cmd) = w.step(reply("role:slave\nmaster_host:10.0.0.1\nmaster_port:6379\n"));
    assert_eq!(expect_fetch_info(&cmd), ("10.0.0.1".to_string(), "6379".to_string()));
    let (w, cmd) = w.step(reply(MASTER_INFO));
    assert_eq!(expect_fetch_info(&cmd), ("10.0.0.5".to_string(), "6380".to_string()));
    let (w, cmd) = w.step(reply("role:slave\n"));
    assert_eq!(expect_fetch_info(&cmd), ("10.0.0.6".to_string(), "6381".to_string()));
    let (w, cmd) = w.step(reply("role:slave\n"));
    expect_finished(&cmd);
    let got = snapshot_addrs(&w.into_snapshot());
    assert_eq!(got, vec![
        ("10.0.0.1".to_string(), "6379".to_string()),
        ("10.0.0.5".to_string(), "6380".to_string()),
        ("10.0.0.6".to_string(), "6381".to_string()),
    ]);
}

#[test]
fn replication_walk_order_is_independent_of_the_entry_point() {
    // the same group entered through the other replica
    let d = def(vec![addr("10.0.0.6", "6381")]);
    let (w, _) = Walker::new(&d).unwrap();
    let (w, _) = w.step(reply("role:slave\nmaster_host:10.0.0.1\nmaster_port:6379\n"));
    let (w, _) = w.step(reply(MASTER_INFO));
    let (w, _) = w.step(reply("role:slave\n"));
    let (w, cmd) = w.step(reply("role:slave\n"));
    expect_finished(&cmd);
    let got = snapshot_addrs(&w.into_snapshot());
    assert_eq!(got, vec![
        ("10.0.0.1".to_string(), "6379".to_string()),
        ("10.0.0.5".to_string(), "6380".to_string()),
        ("10.0.0.6".to_string(), "6381".to_string()),
    ]);
}

#[test]
fn master_seed_visits_itself_then_replicas() {
    let d = def(vec![addr("10.0.0.1", "6379")]);
    let (w, _) = Walker::new(&d).unwrap();
    let (w, cmd) = w.step(reply(MASTER_INFO));
    assert_eq!(expect_fetch_info(&cmd), ("10.0.0.5".to_string(), "6380".to_string()));
    let (w, _) = w.step(reply("role:slave\n"));
    let (w, cmd) = w.step(reply("role:slave\n"));
    expect_finished(&cmd);
    assert_eq!(snapshot_addrs(&w.into_snapshot()).len(), 3);
}

const NODE_TABLE: &str = "\
07c3 10.0.1.1:7000@17000 myself,master - 0 0 1 connected 0-5460\n\
b2e4 10.0.1.2:7001@17001 master - 0 1 3 connected 5461-10922\n\
a9d1 10.0.1.3:7002@17002 slave 07c3 0 1 2 connected\n";

const M1_INFO: &str = "role:master\nconnected_slaves:1\n\
slave0:ip=10.0.1.3,port=7002,state=online,offset=1,lag=0\n";

#[test]
fn cluster_walk_orders_each_master_before_its_replicas() {
    let d = def(vec![addr("10.0.1.1", "7000")]);
    let (w, cmd) = Walker::new(&d).unwrap();
    assert_eq!(expect_fetch_info(&cmd), ("10.0.1.1".to_string(), "7000".to_string()));
    let (w, cmd) = w.step(reply("cluster_enabled:1\nrole:master\n"));
    assert_eq!(expect_fetch_nodes(&cmd), ("10.0.1.1".to_string(), "7000".to_string()));
    let (w, cmd) = w.step(reply(NODE_TABLE));
    assert_eq!(expect_fetch_info(&cmd), ("10.0.1.1".to_string(), "7000".to_string()));
    let (w, cmd) = w.step(reply(M1_INFO));
    assert_eq!(expect_fetch_info(&cmd), ("10.0.1.3".to_string(), "7002".to_string()));
    let (w, cmd) = w.step(reply("role:slave\n"));
    assert_eq!(expect_fetch_info(&cmd), ("10.0.1.2".to_string(), "7001".to_string()));
    let (w, cmd) = w.step(reply("role:master\nconnected_slaves:0\n"));
    expect_finished(&cmd);
    let got = snapshot_addrs(&w.into_snapshot());
    assert_eq!(got, vec![
        ("10.0.1.1".to_string(), "7000".to_string()),
        ("10.0.1.3".to_string(), "7002".to_string()),
        ("10.0.1.2".to_string(), "7001".to_string()),
    ]);
}

#[test]
fn unreachable_replica_is_silently_omitted() {
    let d = def(vec![addr("10.0.1.1", "7000")]);
    let (w, _) = Walker::new(&d).unwrap();
    let (w, _) = w.step(reply("cluster_enabled:1\n"));
    let (w, _) = w.step(reply(NODE_TABLE));
    let (w, _) = w.step(reply(M1_INFO));
    // the replica at 10.0.1.3 cannot be reached
    let (w, cmd) = w.step(WalkEvent::Failed);
    assert_eq!(expect_fetch_info(&cmd), ("10.0.1.2".to_string(), "7001".to_string()));
    let (w, cmd) = w.step(reply("role:master\nconnected_slaves:0\n"));
    expect_finished(&cmd);
    let got = snapshot_addrs(&w.into_snapshot());
    assert_eq!(got, vec![
        ("10.0.1.1".to_string(), "7000".to_string()),
        ("10.0.1.2".to_string(), "7001".to_string()),
    ]);
}

#[test]
fn zero_reachable_masters_yield_an_empty_walk() {
    let d = def(vec![addr("10.0.1.1", "7000")]);
    let (w, _) = Walker::new(&d).unwrap();
    let (w, _) = w.step(reply("cluster_enabled:1\n"));
    let (w, _) = w.step(reply(NODE_TABLE));
    let (w, _) = w.step(WalkEvent::Failed);
    let (w, cmd) = w.step(WalkEvent::Failed);
    expect_finished(&cmd);
    assert!(w.into_snapshot().is_empty());
}

#[test]
fn a_malformed_node_table_yields_an_empty_walk() {
    let d = def(vec![addr("10.0.1.1", "7000")]);
    let (w, _) = Walker::new(&d).unwrap();
    let (w, _) = w.step(reply("cluster_enabled:1\n"));
    let (w, cmd) = w.step(reply("not a node table at all\n"));
    expect_finished(&cmd);
    assert!(w.into_snapshot().is_empty());
}

#[test]
fn a_failed_node_table_call_yields_an_empty_walk() {
    let d = def(vec![addr("10.0.1.1", "7000")]);
    let (w, _) = Walker::new(&d).unwrap();
    let (w, _) = w.step(reply("cluster_enabled:1\n"));
    let (w, cmd) = w.step(WalkEvent::Failed);
    expect_finished(&cmd);
    assert!(w.into_snapshot().is_empty());
}

#[test]
fn unreachable_master_leaves_the_isolated_replica() {
    let d = def(vec![addr("10.0.0.5", "6380")]);
    let (w, _) = Walker::new(&d).unwrap();
    let (w, cmd) = w.step(reply("role:slave\nmaster_host:10.0.0.1\nmaster_port:6379\n"));
    assert_eq!(expect_fetch_info(&cmd), ("10.0.0.1".to_string(), "6379".to_string()));
    let (w, cmd) = w.step(WalkEvent::Failed);
    expect_finished(&cmd);
    let snap = w.into_snapshot();
    assert_eq!(snapshot_addrs(&snap), vec![("10.0.0.5".to_string(), "6380".to_string())]);
    assert_eq!(snap[0].info.get("role"), Some(&"slave".to_string()));
}

#[test]
fn unrecognized_role_ends_the_walk_empty() {
    let d = def(vec![addr("a", "1")]);
    let (w, _) = Walker::new(&d).unwrap();
    let (w, cmd) = w.step(reply("redis_version:7.2.0\n"));
    expect_finished(&cmd);
    assert!(w.into_snapshot().is_empty());
}

#[test]
fn a_snapshot_never_repeats_an_address() {
    // the master advertises itself as its own replica; the walker refetches
    // it but folds nothing in twice
    let d = def(vec![addr("10.0.0.1", "6379")]);
    let (w, _) = Walker::new(&d).unwrap();
    let (w, cmd) = w.step(reply(
        "role:master\nconnected_slaves:1\nslave0:ip=10.0.0.1,port=6379,state=online\n",
    ));
    assert_eq!(expect_fetch_info(&cmd), ("10.0.0.1".to_string(), "6379".to_string()));
    let (w, cmd) = w.step(reply("role:master\n"));
    expect_finished(&cmd);
    assert_eq!(snapshot_addrs(&w.into_snapshot()).len(), 1);
}

#[test]
fn replica_count_zero_gates_enumeration() {
    let d = def(vec![addr("10.0.0.1", "6379")]);
    let (w, _) = Walker::new(&d).unwrap();
    let (w, cmd) = w.step(reply(
        "role:master\nconnected_slaves:0\nslave0:ip=10.0.0.5,port=6380,state=online\n",
    ));
    expect_finished(&cmd);
    assert_eq!(snapshot_addrs(&w.into_snapshot()).len(), 1);
}

#[test]
fn definition_without_seeds_is_a_configuration_error() {
    let d = def(vec![]);
    assert_eq!(Walker::new(&d).err(), Some(ConfigError::NoSeeds));
}

#[test]
fn unknown_cluster_name_is_a_configuration_error() {
    let config = Config { clusters: vec![def(vec![addr("a", "1")])] };
    assert!(matches!(walker_for(&config, "main"), Ok(_)));
    assert_eq!(walker_for(&config, "other").err(), Some(ConfigError::UnknownCluster));
}
