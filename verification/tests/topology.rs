use mellow::info::parse_redis_info;
use mellow::replicas::{get_replicas, replica_field_addr};
use mellow::cluster::get_cluster_masters;

#[test]
fn replica_field_yields_its_address() {
    let a = replica_field_addr("ip=10.0.0.5,port=6380,state=online,offset=42,lag=0").unwrap();
    assert_eq!(a.host, "10.0.0.5");
    assert_eq!(a.port, "6380");
}

#[test]
fn replica_field_without_port_yields_nothing() {
    assert!(replica_field_addr("ip=10.0.0.5,state=online").is_none());
    assert!(replica_field_addr("").is_none());
    assert!(replica_field_addr("garbage").is_none());
}

#[test]
fn replica_field_last_item_wins() {
    let a = replica_field_addr("ip=1.1.1.1,ip=2.2.2.2,port=7000").unwrap();
    assert_eq!(a.host, "2.2.2.2");
}

#[test]
fn replicas_come_out_in_slot_order() {
    let d = parse_redis_info(
        "role:master\nconnected_slaves:2\nslave0:ip=10.0.0.5,port=6380,state=online\nslave1:ip=10.0.0.6,port=6381,state=online\n",
    );
    let rs = get_replicas(&d);
    assert_eq!(rs.len(), 2);
    assert_eq!(rs[0].host, "10.0.0.5");
    assert_eq!(rs[0].port, "6380");
    assert_eq!(rs[1].host, "10.0.0.6");
    assert_eq!(rs[1].port, "6381");
}

#[test]
fn replica_scan_stops_at_first_missing_slot() {
    let d = parse_redis_info(
        "slave0:ip=10.0.0.5,port=6380\nslave2:ip=10.0.0.7,port=6382\n",
    );
    let rs = get_replicas(&d);
    assert_eq!(rs.len(), 1);
    assert_eq!(rs[0].host, "10.0.0.5");
}

#[test]
fn replica_scan_is_capped() {
    let d = parse_redis_info(
        "slave0:ip=h,port=0\nslave1:ip=h,port=1\nslave2:ip=h,port=2\nslave3:ip=h,port=3\nslave4:ip=h,port=4\nslave5:ip=h,port=5\n",
    );
    let rs = get_replicas(&d);
    assert_eq!(rs.len(), 5);
    assert_eq!(rs[4].port, "4");
}

#[test]
fn unparseable_slot_is_skipped_but_scan_goes_on() {
    let d = parse_redis_info("slave0:state=online\nslave1:ip=10.0.0.6,port=6381\n");
    let rs = get_replicas(&d);
    assert_eq!(rs.len(), 1);
    assert_eq!(rs[0].host, "10.0.0.6");
}

#[test]
fn cluster_masters_in_table_order() {
    let nodes = "\
07c3 10.0.0.1:7000@17000 myself,master - 0 0 1 connected 0-5460\n\
a9d1 10.0.0.2:7001@17001 slave 07c3 0 1 2 connected\n\
b2e4 10.0.0.3:7002@17002 master - 0 1 3 connected 5461-10922\n";
    let ms = get_cluster_masters(nodes);
    assert_eq!(ms.len(), 2);
    assert_eq!(ms[0].host, "10.0.0.1");
    assert_eq!(ms[0].port, "7000");
    assert_eq!(ms[1].host, "10.0.0.3");
    assert_eq!(ms[1].port, "7002");
}

#[test]
fn malformed_table_lines_are_skipped() {
    let nodes = "\
short line\n\
aaaa 10.0.0.1:7000 master - 0 0 1 connected\n\
bbbb 10.0.0.2:7001@17001@x master - 0 0 1 connected\n\
cccc 10.0.0.3:7002@17002 master - 0 0 1 connected\n";
    let ms = get_cluster_masters(nodes);
    assert_eq!(ms.len(), 1);
    assert_eq!(ms[0].host, "10.0.0.3");
}

#[test]
fn empty_table_yields_no_masters() {
    assert_eq!(get_cluster_masters("").len(), 0);
}
