use cymbal::catalog::{Catalog, FetchError, Lookup};

fn key(s: &str) -> String {
    s.to_string()
}

fn fetch_into(c: &mut Catalog, k: &str, value: Vec<u8>) -> Vec<u8> {
    let k = key(k);
    assert!(matches!(c.lookup(&k), Lookup::Fetch));
    c.complete(&k, Ok(value)).unwrap()
}

#[test]
fn hit_after_fetch_returns_value() {
    let mut c = Catalog::new(100);
    let k = key("https://cdn.example.com/app.js.map");
    assert!(matches!(c.lookup(&k), Lookup::Fetch));
    assert!(c.is_in_flight(&k));
    let out = c.complete(&k, Ok(vec![1, 2, 3])).unwrap();
    assert_eq!(out, vec![1, 2, 3]);
    assert!(!c.is_in_flight(&k));
    match c.lookup(&k) {
        Lookup::Hit(v) => assert_eq!(v, vec![1, 2, 3]),
        _ => panic!("expected a hit"),
    }
    assert_eq!(c.total_bytes(), 3);
    assert_eq!(c.len(), 1);
}

#[test]
fn concurrent_misses_fetch_once() {
    let mut c = Catalog::new(100);
    let k = key("bundle-1");
    assert!(matches!(c.lookup(&k), Lookup::Fetch));
    for _ in 0..5 {
        assert!(matches!(c.lookup(&k), Lookup::Pending));
    }
    assert!(matches!(c.lookup(&key("bundle-2")), Lookup::Fetch));
    assert!(matches!(c.lookup(&k), Lookup::Pending));
    let out = c.complete(&k, Ok(vec![9])).unwrap();
    assert_eq!(out, vec![9]);
    assert!(matches!(c.lookup(&k), Lookup::Hit(_)));
}

#[test]
fn failure_is_not_cached() {
    let mut c = Catalog::new(100);
    let k = key("missing");
    assert!(matches!(c.lookup(&k), Lookup::Fetch));
    assert_eq!(c.complete(&k, Err(FetchError::NotFound)), Err(FetchError::NotFound));
    assert!(!c.contains(&k));
    assert!(!c.is_in_flight(&k));
    assert_eq!(c.len(), 0);
    assert!(matches!(c.lookup(&k), Lookup::Fetch));
    assert_eq!(c.complete(&k, Err(FetchError::Transient)), Err(FetchError::Transient));
}

#[test]
fn least_recently_used_is_evicted() {
    let mut c = Catalog::new(12);
    fetch_into(&mut c, "a", vec![0; 4]);
    fetch_into(&mut c, "b", vec![1; 4]);
    fetch_into(&mut c, "c", vec![2; 4]);
    assert!(matches!(c.lookup(&key("a")), Lookup::Hit(_)));
    fetch_into(&mut c, "d", vec![3; 4]);
    assert!(!c.contains(&key("b")));
    assert!(c.contains(&key("a")));
    assert!(c.contains(&key("c")));
    assert!(c.contains(&key("d")));
    assert_eq!(c.total_bytes(), 12);
    assert!(matches!(c.lookup(&key("b")), Lookup::Fetch));
}

#[test]
fn eviction_in_insertion_order_without_access() {
    let mut c = Catalog::new(8);
    fetch_into(&mut c, "a", vec![0; 4]);
    fetch_into(&mut c, "b", vec![1; 4]);
    fetch_into(&mut c, "c", vec![2; 4]);
    assert!(!c.contains(&key("a")));
    assert!(c.contains(&key("b")));
    assert!(c.contains(&key("c")));
    assert_eq!(c.len(), 2);
}

#[test]
fn oversized_entry_is_kept_alone() {
    let mut c = Catalog::new(10);
    fetch_into(&mut c, "a", vec![0; 3]);
    fetch_into(&mut c, "b", vec![0; 3]);
    fetch_into(&mut c, "huge", vec![7; 25]);
    assert_eq!(c.len(), 1);
    assert!(c.contains(&key("huge")));
    assert_eq!(c.total_bytes(), 25);
    match c.lookup(&key("huge")) {
        Lookup::Hit(v) => assert_eq!(v.len(), 25),
        _ => panic!("expected a hit"),
    }
    fetch_into(&mut c, "small", vec![0; 2]);
    assert!(!c.contains(&key("huge")));
    assert_eq!(c.total_bytes(), 2);
}

#[test]
fn budget_holds_after_every_call() {
    let mut c = Catalog::new(20);
    for i in 0..30u8 {
        let k = format!("k{}", i % 11);
        match c.lookup(&k) {
            Lookup::Fetch => {
                c.complete(&k, Ok(vec![i; (i % 7) as usize + 1])).unwrap();
            }
            Lookup::Hit(_) => {}
            Lookup::Pending => panic!("no fetch is outstanding"),
        }
        assert!(c.total_bytes() <= c.max_bytes());
    }
}

#[test]
fn empty_value_and_zero_budget() {
    let mut c = Catalog::new(0);
    assert_eq!(fetch_into(&mut c, "empty", vec![]), Vec::<u8>::new());
    assert!(c.contains(&key("empty")));
    assert_eq!(c.total_bytes(), 0);
    fetch_into(&mut c, "one", vec![1]);
    assert!(!c.contains(&key("empty")));
    assert_eq!(c.len(), 1);
    assert_eq!(c.total_bytes(), 1);
}

#[test]
fn malformed_failure_reaches_caller_and_retry_succeeds() {
    let mut c = Catalog::new(50);
    let k = key("bad.js.map");
    assert!(matches!(c.lookup(&k), Lookup::Fetch));
    assert!(matches!(c.lookup(&k), Lookup::Pending));
    assert_eq!(c.complete(&k, Err(FetchError::Malformed)), Err(FetchError::Malformed));
    assert!(matches!(c.lookup(&k), Lookup::Fetch));
    assert_eq!(c.complete(&k, Ok(vec![5; 10])), Ok(vec![5; 10]));
    assert!(c.contains(&k));
    assert_eq!(c.total_bytes(), 10);
}
