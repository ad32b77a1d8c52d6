use mellow::info::DiagnosticMap;
use mellow::info::parse_redis_info;

#[test]
fn duplicate_key_last_wins() {
    let d = parse_redis_info("a:1\na:2");
    assert_eq!(d.get("a"), Some(&"2".to_string()));
    assert_eq!(d.len(), 1);
}

#[test]
fn skips_malformed_lines() {
    let d = parse_redis_info("# comment\nfoo\nbar:baz");
    assert_eq!(d.len(), 1);
    assert_eq!(d.get("bar"), Some(&"baz".to_string()));
    assert_eq!(d.get("foo"), None);
    assert_eq!(d.get("# comment"), None);
}

#[test]
fn empty_input_gives_empty_map() {
    let d = parse_redis_info("");
    assert_eq!(d.len(), 0);
}

#[test]
fn crlf_line_endings_are_stripped() {
    let d = parse_redis_info("role:master\r\nconnected_slaves:2\r\n");
    assert_eq!(d.get("role"), Some(&"master".to_string()));
    assert_eq!(d.get("connected_slaves"), Some(&"2".to_string()));
    assert_eq!(d.len(), 2);
}

#[test]
fn value_keeps_later_colons() {
    let d = parse_redis_info("executable:/usr/bin/redis:server");
    assert_eq!(d.get("executable"), Some(&"/usr/bin/redis:server".to_string()));
}

#[test]
fn empty_value_is_kept() {
    let d = parse_redis_info("k:");
    assert_eq!(d.get("k"), Some(&"".to_string()));
}

#[test]
fn lone_carriage_return_stays_in_last_line() {
    let d = parse_redis_info("a:b\r");
    assert_eq!(d.get("a"), Some(&"b\r".to_string()));
}

#[test]
fn insert_overwrites_in_place() {
    let mut d = DiagnosticMap::new();
    d.insert("x".to_string(), "1".to_string());
    d.insert("y".to_string(), "2".to_string());
    d.insert("x".to_string(), "3".to_string());
    assert_eq!(d.len(), 2);
    assert_eq!(d.get("x"), Some(&"3".to_string()));
    assert_eq!(d.key_at(0), "x");
    assert_eq!(d.key_at(1), "y");
}

#[test]
fn serialize_then_parse_restores_the_mapping() {
    let mut d = DiagnosticMap::new();
    d.insert("redis_version".to_string(), "7.2.0".to_string());
    d.insert("role".to_string(), "master".to_string());
    d.insert("connected_clients".to_string(), "17".to_string());
    let text = d.to_info_text();
    assert_eq!(text, "redis_version:7.2.0\nrole:master\nconnected_clients:17\n");
    let back = parse_redis_info(&text);
    assert_eq!(back.len(), 3);
    assert_eq!(back.get("redis_version"), Some(&"7.2.0".to_string()));
    assert_eq!(back.get("role"), Some(&"master".to_string()));
    assert_eq!(back.get("connected_clients"), Some(&"17".to_string()));
}

#[test]
fn has_value_checks_exact_value() {
    let d = parse_redis_info("cluster_enabled:1");
    assert!(d.has_value("cluster_enabled", "1"));
    assert!(!d.has_value("cluster_enabled", "0"));
    assert!(!d.has_value("cluster_disabled", "1"));
}
