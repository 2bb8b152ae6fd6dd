use barreleye_chain::models::Driver;
use barreleye_chain::server::{bearer_token, is_public_endpoint, locked_ids, ports_to_try};

#[test]
fn bearer_header() {
    assert_eq!(bearer_token("Bearer abc123"), Some("abc123".to_string()));
    assert_eq!(bearer_token("Bearer a b"), Some("a b".to_string()));
    assert_eq!(bearer_token("Bearer "), Some(String::new()));
    assert_eq!(bearer_token("Basic abc"), None);
    assert_eq!(bearer_token("Bearerabc"), None);
    assert_eq!(bearer_token("bearer abc"), None);
}

#[test]
fn public_endpoints() {
    assert!(is_public_endpoint("/v1/info"));
    assert!(is_public_endpoint("/v1/info?x=1"));
    assert!(!is_public_endpoint("/v1/inf"));
    assert!(!is_public_endpoint("/v1/labels"));
}

#[test]
fn ports() {
    let p = ports_to_try(2277);
    assert_eq!(p.len(), 23);
    assert_eq!(p[0], 2277);
    assert_eq!(p[1], 2278);
    assert_eq!(*p.last().unwrap(), 2299);
    assert_eq!(ports_to_try(8080), vec![8080]);
}

#[test]
fn locked_items_block_deletion() {
    let items = vec![("a".to_string(), false), ("b".to_string(), true), ("c".to_string(), true)];
    assert_eq!(locked_ids(&items), Some("b, c".to_string()));
    assert_eq!(locked_ids(&vec![("a".to_string(), false)]), None);
    assert_eq!(locked_ids(&vec![]), None);
    assert_eq!(locked_ids(&vec![("x".to_string(), true)]), Some("x".to_string()));
}

#[test]
fn pool_bounds_by_driver() {
    assert_eq!(Driver::SQLite.pool_bounds(5, 10), (1, 1));
    assert_eq!(Driver::PostgreSQL.pool_bounds(5, 10), (5, 10));
    assert_eq!(Driver::MySQL.pool_bounds(2, 3), (2, 3));
}
