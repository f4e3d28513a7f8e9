use mlserver::bin_client::{format_http, get_successor, hash_into_bin, BinStorageClient};
use mlserver::err::TribblerError;
use std::collections::hash_map::DefaultHasher;
use std::hash::{Hash, Hasher};

fn strings(v: &[&str]) -> Vec<String> {
    v.iter().map(|s| s.to_string()).collect()
}

fn std_hash(s: &str) -> usize {
    let mut h = DefaultHasher::new();
    s.to_string().hash(&mut h);
    h.finish() as usize
}

#[test]
fn hash_into_bin_matches_default_hasher() {
    assert_eq!(hash_into_bin("model1".to_string()), std_hash("model1"));
    assert_eq!(hash_into_bin("".to_string()), std_hash(""));
}

#[test]
fn hash_into_bin_is_deterministic() {
    assert_eq!(hash_into_bin("model2".to_string()), hash_into_bin("model2".to_string()));
    assert_ne!(hash_into_bin("model1".to_string()), hash_into_bin("model2".to_string()));
}

#[test]
fn format_http_prefixes_scheme() {
    assert_eq!(format_http(&"127.0.0.1:34151".to_string()), "http://127.0.0.1:34151");
    assert_eq!(format_http(&String::new()), "http://");
}

#[test]
fn successor_on_single_backend_is_zero() {
    assert_eq!(get_successor(7, strings(&["a"])).unwrap(), 0);
}

#[test]
fn successor_wraps_around_ring() {
    let addrs = strings(&["a", "b", "c"]);
    assert_eq!(get_successor(0, addrs.clone()).unwrap(), 0);
    assert_eq!(get_successor(2, addrs.clone()).unwrap(), 2);
    assert_eq!(get_successor(3, addrs.clone()).unwrap(), 0);
    assert_eq!(get_successor(7, addrs.clone()).unwrap(), 1);
    assert_eq!(get_successor(-3, addrs).unwrap(), 0);
}

#[test]
fn successor_on_empty_ring_fails() {
    match get_successor(0, Vec::new()) {
        Err(TribblerError::RpcError(m)) => assert_eq!(m, "Could not find successor"),
        _ => panic!("expected an error"),
    }
}

#[test]
fn bin_places_primary_and_replica_on_neighbours() {
    let client = BinStorageClient { addresses: strings(&["h0:1", "h1:2", "h2:3"]) };
    for name in ["model1", "model2", "model3", "model4"] {
        let route = client.bin(name).ok().unwrap();
        let p = std_hash(name) % 3;
        assert_eq!(route.primary_index as usize, p);
        assert_eq!(route.secondary_index as usize, (p + 1) % 3);
        assert!(!route.no_replica);
        assert_eq!(route.name, name);
        assert_eq!(route.primary_address, format!("http://{}", client.addresses[p]));
        assert_eq!(route.secondary_address, format!("http://{}", client.addresses[(p + 1) % 3]));
    }
}

#[test]
fn bin_on_single_backend_has_no_replica() {
    let client = BinStorageClient { addresses: strings(&["127.0.0.1:34151"]) };
    let route = client.bin("model1").ok().unwrap();
    assert_eq!(route.primary_index, 0);
    assert_eq!(route.secondary_index, 0);
    assert!(route.no_replica);
    assert_eq!(route.primary_address, "http://127.0.0.1:34151");
    assert_eq!(route.secondary_address, "http://127.0.0.1:34151");
}

#[test]
fn bin_is_stable_for_a_name() {
    let client = BinStorageClient { addresses: strings(&["a", "b", "c", "d", "e"]) };
    let r1 = client.bin("model9").ok().unwrap();
    let r2 = client.bin("model9").ok().unwrap();
    assert_eq!(r1.primary_index, r2.primary_index);
    assert_eq!(r1.secondary_index, r2.secondary_index);
}
