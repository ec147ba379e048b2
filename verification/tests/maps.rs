use oxidyze::maps::{AddrMap, EndpointMap};
use oxidyze::net::Ipv4Addr;

#[test]
fn tables_hold_one_value_per_address() {
    let a = Ipv4Addr::new(10, 0, 0, 1);
    let b = Ipv4Addr::new(10, 0, 0, 2);
    let mut map = AddrMap::new();
    assert!(map.is_empty());
    map.insert(a, 1);
    map.insert(a, 2);
    assert_eq!(map.len(), 1);
    assert_eq!(map.get(&a), Some(&2));
    assert_eq!(map.get(&b), None);
    assert_eq!(map.remove(&b), None);
    assert_eq!(map.remove(&a), Some(2));
    assert!(!map.contains_key(&a));
    assert!(map.is_empty());
}

#[test]
fn endpoints_do_not_collide() {
    let a = Ipv4Addr::new(0, 0, 0, 1);
    let b = Ipv4Addr::new(0, 1, 0, 0);
    let mut map = EndpointMap::new();
    map.insert(a, 0, "a0".to_string());
    map.insert(b, 1, "b1".to_string());
    map.insert(a, 1, "a1".to_string());
    assert_eq!(map.get(a, 0), Some(&"a0".to_string()));
    assert_eq!(map.get(a, 1), Some(&"a1".to_string()));
    assert_eq!(map.get(b, 1), Some(&"b1".to_string()));
    assert_eq!(map.get(b, 0), None);
}
