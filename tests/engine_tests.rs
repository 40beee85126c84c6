use limitador::concurrent::ConcurrentCounter;
use limitador::counter::Counter;
use limitador::counter_set::CounterValueSet;
use limitador::expiring::ExpiringValue;
use limitador::in_memory::InMemoryStorage;
use limitador::limit::{Condition, Limit, LimitError, Operator};
use limitador::rate_limiter::RateLimiter;
use limitador::storage::{Authorization, Storage, StorageErr};

const SEC: u64 = 1_000_000_000;
const T0: u64 = 1_700_000_000 * SEC;

fn values(pairs: &[(&str, &str)]) -> Vec<(String, String)> {
    pairs.iter().map(|(k, v)| (k.to_string(), v.to_string())).collect()
}

fn get_limit(ns: &str, max: u64, secs: u64, vars: &[&str]) -> Limit {
    Limit::new(
        ns,
        max,
        secs,
        vec!["method == \"GET\"".to_string()],
        vars.iter().map(|v| v.to_string()).collect(),
    )
    .unwrap()
}

#[test]
fn simple_limit_refuses_third_request() {
    let mut rl = RateLimiter::new();
    assert!(rl.add_limit(&get_limit("api", 2, 60, &[])));
    let v = values(&[("method", "GET")]);
    assert_eq!(rl.check_rate_limited_and_update("api", &v, 1), Ok(false));
    assert_eq!(rl.check_rate_limited_and_update("api", &v, 1), Ok(false));
    assert_eq!(rl.check_rate_limited_and_update("api", &v, 1), Ok(true));
}

#[test]
fn simple_limit_refusal_names_no_limit() {
    let mut store = InMemoryStorage::new(100);
    let limit = get_limit("api", 2, 60, &[]);
    store.add_counter(&limit).unwrap();
    let v = values(&[("method", "GET")]);
    for _ in 0..2 {
        let mut cs = vec![Counter::new(limit.duplicate(), &v)];
        assert!(matches!(store.check_and_update(&mut cs, 1, false, T0), Authorization::Allowed));
    }
    let mut cs = vec![Counter::new(limit.duplicate(), &v)];
    assert!(matches!(store.check_and_update(&mut cs, 1, false, T0), Authorization::Limited(None)));
}

#[test]
fn qualified_limit_counts_per_user() {
    let mut rl = RateLimiter::new();
    assert!(rl.add_limit(&get_limit("api", 2, 60, &["user"])));
    let a = values(&[("method", "GET"), ("user", "A")]);
    let b = values(&[("method", "GET"), ("user", "B")]);
    assert_eq!(rl.check_rate_limited_and_update("api", &a, 1), Ok(false));
    assert_eq!(rl.check_rate_limited_and_update("api", &a, 1), Ok(false));
    assert_eq!(rl.check_rate_limited_and_update("api", &b, 1), Ok(false));
    assert_eq!(rl.check_rate_limited_and_update("api", &a, 1), Ok(true));
}

#[test]
fn limit_that_does_not_apply_counts_nothing() {
    let mut rl = RateLimiter::new();
    rl.add_limit(&get_limit("api", 1, 60, &[]));
    let post = values(&[("method", "POST")]);
    assert!(rl.counters_that_apply("api", &post).is_empty());
    for _ in 0..3 {
        assert_eq!(rl.check_rate_limited_and_update("api", &post, 1), Ok(false));
    }
    assert_eq!(rl.is_rate_limited("api", &post, 1), Ok(false));
    assert_eq!(rl.is_rate_limited("api", &values(&[("method", "GET")]), 1), Ok(false));
    assert_eq!(rl.is_rate_limited("api", &values(&[("method", "GET")]), 2), Ok(true));
}

#[test]
fn counter_expires_and_restarts_from_delta() {
    let mut store = InMemoryStorage::new(100);
    let limit = get_limit("api", 1, 1, &[]);
    store.add_counter(&limit).unwrap();
    let v = values(&[("method", "GET")]);
    let counter = Counter::new(limit.duplicate(), &v);
    let mut cs = vec![counter.duplicate()];
    assert!(matches!(store.check_and_update(&mut cs, 1, false, T0), Authorization::Allowed));
    assert!(!store.is_within_limits(&counter, 1, T0 + SEC / 2));
    let mut cs = vec![counter.duplicate()];
    assert!(matches!(store.check_and_update(&mut cs, 1, false, T0 + SEC / 2), Authorization::Limited(_)));
    let later = T0 + SEC + SEC / 10;
    assert!(store.is_within_limits(&counter, 1, later));
    let mut cs = vec![counter.duplicate()];
    assert!(matches!(store.check_and_update(&mut cs, 1, true, later), Authorization::Allowed));
    assert_eq!(cs[0].remaining(), Some(0));
    let live = store.get_counters(&vec![limit.duplicate()], later);
    assert_eq!(live.len(), 1);
    assert_eq!(live[0].remaining(), Some(0));
    assert_eq!(live[0].expires_in(), Some(SEC));
}

#[test]
fn batch_is_all_or_nothing() {
    let mut store = InMemoryStorage::new(100);
    let mut first = get_limit("ns", 10, 60, &[]);
    first.set_name("first".to_string());
    let mut second = Limit::new("ns", 1, 30, vec![], vec![]).unwrap();
    second.set_name("second".to_string());
    store.add_counter(&first).unwrap();
    store.add_counter(&second).unwrap();
    let v = values(&[("method", "GET")]);
    let c1 = Counter::new(first.duplicate(), &v);
    let c2 = Counter::new(second.duplicate(), &v);
    store.update_counter(&c1, 5, T0);
    store.update_counter(&c2, 1, T0);
    let mut cs = vec![c1.duplicate(), c2.duplicate()];
    match store.check_and_update(&mut cs, 1, false, T0) {
        Authorization::Limited(Some(name)) => assert_eq!(name, "second"),
        other => panic!("expected a refusal naming the second limit, got {:?}", other),
    }
    let live = store.get_counters(&vec![first.duplicate(), second.duplicate()], T0);
    let mut remaining: Vec<u64> = live.iter().map(|c| c.remaining().unwrap()).collect();
    remaining.sort();
    assert_eq!(remaining, vec![0, 5]);
    let mut cs = vec![c1.duplicate()];
    assert!(matches!(store.check_and_update(&mut cs, 1, true, T0), Authorization::Allowed));
    assert_eq!(cs[0].remaining(), Some(4));
}

#[test]
fn loaded_refusal_names_first_exceeded_and_fills_remaining() {
    let mut store = InMemoryStorage::new(100);
    let mut a = Limit::new("ns", 1, 60, vec![], vec![]).unwrap();
    a.set_name("a".to_string());
    let mut b = Limit::new("ns", 5, 10, vec![], vec![]).unwrap();
    b.set_name("b".to_string());
    store.add_counter(&a).unwrap();
    store.add_counter(&b).unwrap();
    let v = values(&[]);
    let mut cs = vec![Counter::new(b.duplicate(), &v), Counter::new(a.duplicate(), &v)];
    match store.check_and_update(&mut cs, 2, true, T0) {
        Authorization::Limited(Some(name)) => assert_eq!(name, "a"),
        other => panic!("unexpected {:?}", other),
    }
    assert_eq!(cs[0].remaining(), Some(3));
    assert_eq!(cs[1].remaining(), Some(0));
    assert!(store.get_counters(&vec![a.duplicate(), b.duplicate()], T0).is_empty());
}

#[test]
fn exhaust_then_wait_for_window() {
    let mut store = InMemoryStorage::new(100);
    let mut limit = get_limit("api", 3, 60, &[]);
    limit.set_name("per-minute".to_string());
    store.add_counter(&limit).unwrap();
    let v = values(&[("method", "GET")]);
    for i in 0..3 {
        let mut cs = vec![Counter::new(limit.duplicate(), &v)];
        assert!(matches!(store.check_and_update(&mut cs, 1, false, T0 + i * SEC), Authorization::Allowed));
    }
    let mut cs = vec![Counter::new(limit.duplicate(), &v)];
    match store.check_and_update(&mut cs, 1, false, T0 + 3 * SEC) {
        Authorization::Limited(Some(name)) => assert_eq!(name, "per-minute"),
        other => panic!("unexpected {:?}", other),
    }
    let mut cs = vec![Counter::new(limit.duplicate(), &v)];
    assert!(matches!(store.check_and_update(&mut cs, 1, false, T0 + 60 * SEC), Authorization::Allowed));
}

#[test]
fn zero_delta_is_within_limits() {
    let mut store = InMemoryStorage::new(100);
    let limit = get_limit("api", 2, 60, &["user"]);
    store.add_counter(&limit).unwrap();
    let c = Counter::new(limit.duplicate(), &values(&[("method", "GET"), ("user", "u")]));
    assert!(store.is_within_limits(&c, 0, T0));
    store.update_counter(&c, 2, T0);
    assert!(store.is_within_limits(&c, 0, T0));
    assert!(!store.is_within_limits(&c, 1, T0));
}

#[test]
fn qualified_counter_is_written_to_the_cache() {
    let mut store = InMemoryStorage::new(100);
    let limit = get_limit("api", 10, 60, &["user"]);
    store.add_counter(&limit).unwrap();
    let c = Counter::new(limit.duplicate(), &values(&[("method", "GET"), ("user", "u")]));
    store.update_counter(&c, 7, T0);
    assert!(store.is_within_limits(&c, 3, T0));
    assert!(!store.is_within_limits(&c, 4, T0));
    let live = store.get_counters(&vec![limit.duplicate()], T0 + SEC);
    assert_eq!(live.len(), 1);
    assert_eq!(live[0].remaining(), Some(3));
    assert_eq!(live[0].expires_in(), Some(59 * SEC));
    assert_eq!(live[0].set_variables(), &values(&[("user", "u")]));
}

#[test]
fn deleted_limit_has_no_counters() {
    let mut store = InMemoryStorage::new(100);
    let simple = get_limit("api", 10, 60, &[]);
    let qualified = get_limit("api", 10, 60, &["user"]);
    store.add_counter(&simple).unwrap();
    store.add_counter(&qualified).unwrap();
    let v = values(&[("method", "GET"), ("user", "u")]);
    store.update_counter(&Counter::new(simple.duplicate(), &v), 1, T0);
    store.update_counter(&Counter::new(qualified.duplicate(), &v), 1, T0);
    let both = vec![simple.duplicate(), qualified.duplicate()];
    assert_eq!(store.get_counters(&both, T0).len(), 2);
    store.delete_counters(&both);
    assert!(store.get_counters(&vec![simple.duplicate()], T0).is_empty());
    assert!(store.get_counters(&vec![qualified.duplicate()], T0).is_empty());
}

#[test]
fn clear_resets_every_counter() {
    let mut store = InMemoryStorage::new(100);
    let simple = get_limit("api", 10, 60, &[]);
    let qualified = get_limit("api", 10, 60, &["user"]);
    store.add_counter(&simple).unwrap();
    store.add_counter(&qualified).unwrap();
    let v = values(&[("method", "GET"), ("user", "u")]);
    let cq = Counter::new(qualified.duplicate(), &v);
    store.update_counter(&cq, 10, T0);
    store.clear();
    assert!(store.is_within_limits(&cq, 10, T0));
    assert!(store.get_counters(&vec![simple.duplicate(), qualified.duplicate()], T0).is_empty());
}

#[test]
fn adding_a_limit_twice_keeps_one_counter() {
    let mut store = InMemoryStorage::new(100);
    let limit = get_limit("api", 10, 60, &[]);
    store.add_counter(&limit).unwrap();
    let c = Counter::new(limit.duplicate(), &values(&[("method", "GET")]));
    store.update_counter(&c, 4, T0);
    store.add_counter(&limit).unwrap();
    let live = store.get_counters(&vec![limit.duplicate()], T0);
    assert_eq!(live.len(), 1);
    assert_eq!(live[0].remaining(), Some(6));

    let mut storage = Storage::new(100);
    assert!(storage.add_limit(limit.duplicate()));
    assert!(!storage.add_limit(limit.duplicate()));
    assert_eq!(storage.get_limits("api").len(), 1);
}

#[test]
fn fresh_window_expires_exactly_after_window() {
    let mut e = ExpiringValue::new_expired();
    assert_eq!(e.update(3, 60, T0), 3);
    assert_eq!(e.expiry, T0 + 60 * SEC);
    assert_eq!(e.value_at(T0 + 60 * SEC - 1), 3);
    assert_eq!(e.value_at(T0 + 60 * SEC), 0);
    assert_eq!(e.ttl(T0 + 10 * SEC), 50 * SEC);
    assert_eq!(e.update(2, 60, T0 + SEC), 5);
    assert_eq!(e.expiry, T0 + 60 * SEC);
    assert_eq!(e.update(1, 60, T0 + 60 * SEC), 1);
    assert_eq!(e.expiry, T0 + 120 * SEC);
}

#[test]
fn counter_value_set_reads_and_updates_windows() {
    let windows: Vec<u64> = vec![60, 1, 60, 30];
    let mut set = CounterValueSet::new(&windows);
    let secs: Vec<u64> = set.entries().iter().map(|e| e.seconds).collect();
    assert_eq!(secs, vec![1, 30, 60]);
    assert_eq!(set.update(30, 4, T0), Ok(4));
    assert_eq!(set.update(5, 4, T0), Err(()));
    assert_eq!(set.value(30, T0), 4);
    assert_eq!(set.value(60, T0), 0);
    assert_eq!(set.value(5, T0), 0);
    assert_eq!(set.value(30, T0 + 30 * SEC), 0);
    assert!(set.expiring_value_of(30).is_some());
    assert!(set.expiring_value_of(31).is_none());
}

#[test]
fn counter_value_set_reports_counters() {
    let windows: Vec<u64> = vec![10, 60];
    let mut set = CounterValueSet::new(&windows);
    set.update(10, 4, T0).unwrap();
    let limit = get_limit("api", 3, 10, &[]);
    let cs = set.to_counters(&limit, T0 + SEC);
    assert_eq!(cs.len(), 2);
    assert_eq!(cs[0].remaining(), Some(0));
    assert_eq!(cs[0].expires_in(), Some(9 * SEC));
    assert_eq!(cs[1].remaining(), Some(3));
    assert_eq!(cs[1].expires_in(), Some(0));
    assert!(cs[0].set_variables().is_empty());
}

#[test]
fn limit_does_not_apply_without_its_variables() {
    let limit = get_limit("api", 1, 60, &["user"]);
    assert!(!limit.applies(&values(&[("method", "GET")])));
    assert!(limit.applies(&values(&[("method", "GET"), ("user", "x")])));
    assert!(!limit.applies(&values(&[("user", "x")])));
    let ne = Limit::new("api", 1, 60, vec!["method != 'GET'".to_string()], vec![]).unwrap();
    assert!(ne.applies(&values(&[("method", "PUT")])));
    assert!(!ne.applies(&values(&[("method", "GET")])));
    assert!(!ne.applies(&values(&[])));
}

#[test]
fn conditions_are_parsed() {
    let c = Condition::parse("  req.method==\"GET\" ").unwrap();
    assert_eq!(c.var(), "req.method");
    assert_eq!(c.op(), Operator::Equal);
    assert_eq!(c.literal(), "GET");
    let c = Condition::parse("user != 'bob'").unwrap();
    assert_eq!(c.op(), Operator::NotEqual);
    assert_eq!(c.literal(), "bob");
    assert!(Condition::parse("user = \"bob\"").is_none());
    assert!(Condition::parse("== \"bob\"").is_none());
    assert!(Condition::parse("user == \"bob").is_none());
    assert!(Condition::parse("user == bob").is_none());
    assert!(Condition::parse("user == \"bob\" x").is_none());
}

#[test]
fn invalid_limits_are_refused() {
    assert!(matches!(Limit::new("api", 1, 0, vec![], vec![]), Err(LimitError::ZeroWindow)));
    match Limit::new("api", 1, 10, vec!["a == \"1\"".to_string(), "oops".to_string()], vec![]) {
        Err(LimitError::InvalidCondition(t)) => assert_eq!(t, "oops"),
        other => panic!("unexpected {:?}", other),
    }
}

#[test]
fn storage_registry_operations() {
    let mut storage = Storage::new(100);
    let a = get_limit("ns1", 5, 60, &[]);
    let b = get_limit("ns2", 5, 60, &["user"]);
    assert!(storage.add_limit(a.duplicate()));
    assert!(storage.add_limit(b.duplicate()));
    let mut ns = storage.get_namespaces();
    ns.sort();
    assert_eq!(ns, vec!["ns1".to_string(), "ns2".to_string()]);
    let mut bigger = a.duplicate();
    bigger.set_max_value(7);
    assert!(storage.update_limit(&bigger));
    assert!(!storage.update_limit(&bigger));
    assert_eq!(storage.get_limits("ns1")[0].max_value(), 7);
    assert_eq!(storage.delete_limit(&a), Ok(()));
    assert!(storage.get_limits("ns1").is_empty());
    assert_eq!(storage.delete_limits("ns2"), Ok(()));
    assert!(storage.get_namespaces().is_empty());
    assert!(storage.add_limit(a.duplicate()));
    assert_eq!(storage.clear(), Ok(()));
    assert!(storage.get_limits("ns1").is_empty());
}

#[test]
fn storage_counts_with_the_clock() {
    let mut storage = Storage::new(100);
    let limit = get_limit("api", 2, 60, &["user"]);
    assert!(storage.add_limit(limit.duplicate()));
    let c = Counter::new(limit.duplicate(), &values(&[("method", "GET"), ("user", "u")]));
    assert_eq!(storage.update_counter(&c, 1), Ok(()));
    assert_eq!(storage.is_within_limits(&c, 1), Ok(true));
    let mut cs = vec![c.duplicate()];
    assert!(matches!(storage.check_and_update(&mut cs, 1, false), Ok(Authorization::Allowed)));
    assert_eq!(storage.is_within_limits(&c, 1), Ok(false));
    let live = storage.get_counters("api").unwrap();
    assert_eq!(live.len(), 1);
    assert_eq!(live[0].remaining(), Some(0));
}

#[test]
fn rate_limiter_update_and_query() {
    let mut rl = RateLimiter::new();
    rl.add_limit(&get_limit("api", 2, 60, &["user"]));
    let v = values(&[("method", "GET"), ("user", "1")]);
    assert_eq!(rl.is_rate_limited("api", &v, 1), Ok(false));
    assert_eq!(rl.update_counters("api", &v, 1), Ok(()));
    assert_eq!(rl.is_rate_limited("api", &v, 1), Ok(false));
    assert_eq!(rl.update_counters("api", &v, 1), Ok(()));
    assert_eq!(rl.is_rate_limited("api", &v, 1), Ok(true));
    assert_eq!(rl.get_counters("api").unwrap().len(), 1);
    assert_eq!(rl.get_limits("api").len(), 1);
    assert_eq!(rl.delete_limits("api"), Ok(()));
    assert!(rl.get_limits("api").is_empty());
    assert_eq!(rl.is_rate_limited("api", &v, 1), Ok(false));
}

#[test]
fn rate_limiter_delete_limit() {
    let mut rl = RateLimiter::new_with_storage(Storage::new(10));
    let limit = get_limit("api", 1, 60, &[]);
    rl.add_limit(&limit);
    let v = values(&[("method", "GET")]);
    assert_eq!(rl.check_rate_limited_and_update("api", &v, 1), Ok(false));
    assert_eq!(rl.check_rate_limited_and_update("api", &v, 1), Ok(true));
    assert_eq!(rl.delete_limit(&limit), Ok(()));
    assert_eq!(rl.check_rate_limited_and_update("api", &v, 1), Ok(false));
}

#[test]
fn limits_with_an_id_share_their_counter() {
    let mut store = InMemoryStorage::new(100);
    let mut a = get_limit("api", 2, 60, &[]);
    a.set_id("shared".to_string());
    let mut b = Limit::new("other", 2, 60, vec![], vec![]).unwrap();
    b.set_id("shared".to_string());
    store.add_counter(&a).unwrap();
    store.update_counter(&Counter::new(a.duplicate(), &values(&[])), 2, T0);
    assert!(!store.is_within_limits(&Counter::new(b.duplicate(), &values(&[])), 1, T0));
}

#[test]
fn concurrent_counter_takes_back_within_its_window() {
    let mut c = ConcurrentCounter::new(10);
    assert_eq!(c.next_at(100, 5), (5, 110));
    assert_eq!(c.next_at(105, 2), (7, 110));
    assert!(c.return_to(110, 3));
    assert!(!c.return_to(110, 5));
    assert!(!c.return_to(99, 1));
    assert!(c.return_to(110, 4));
    assert!(!c.return_to(110, 1));
    assert_eq!(c.next_at(110, 1), (1, 120));
}

#[test]
fn storage_error_reports_message_and_transience() {
    let e = StorageErr::new("down".to_string(), true);
    assert_eq!(e.msg(), "down");
    assert!(e.is_transient());
    assert_eq!(e, StorageErr::new("down".to_string(), false));
}

#[test]
fn limits_compare_by_identity() {
    let a = get_limit("api", 2, 60, &["user"]);
    let mut b = get_limit("api", 9, 60, &["user"]);
    b.set_name("renamed".to_string());
    assert!(a == b);
    let c = get_limit("api", 2, 30, &["user"]);
    assert!(a != c);
    let mut d = get_limit("x", 1, 1, &[]);
    d.set_id("id".to_string());
    let mut e = get_limit("y", 5, 5, &["v"]);
    e.set_id("id".to_string());
    assert!(d == e);
    assert!(d != a);
    let reordered = Limit::new(
        "api",
        2,
        60,
        vec!["method == \"GET\"".to_string(), "method == \"GET\"".to_string()],
        vec!["user".to_string(), "user".to_string()],
    )
    .unwrap();
    assert!(reordered == a);
}

#[test]
fn empty_batch_is_allowed() {
    let mut store = InMemoryStorage::new(10);
    let mut cs: Vec<Counter> = Vec::new();
    assert!(matches!(store.check_and_update(&mut cs, 5, true, T0), Authorization::Allowed));
    assert!(cs.is_empty());
}

#[test]
fn largest_values_saturate() {
    let mut e = ExpiringValue::new_expired();
    assert_eq!(e.update(u64::MAX, u64::MAX, T0), u64::MAX);
    assert_eq!(e.expiry, u64::MAX);
    assert_eq!(e.update(1, u64::MAX, T0 + 1), u64::MAX);
    let mut store = InMemoryStorage::new(10);
    let limit = Limit::new("ns", u64::MAX, 60, vec![], vec![]).unwrap();
    store.add_counter(&limit).unwrap();
    let c = Counter::new(limit.duplicate(), &values(&[]));
    store.update_counter(&c, u64::MAX - 1, T0);
    assert!(store.is_within_limits(&c, 1, T0));
    assert!(!store.is_within_limits(&c, 2, T0));
    assert!(!store.is_within_limits(&c, u64::MAX, T0));
    let mut cs = vec![c.duplicate()];
    assert!(matches!(store.check_and_update(&mut cs, u64::MAX, true, T0), Authorization::Limited(None)));
    assert_eq!(cs[0].remaining(), Some(0));
}

#[test]
fn equal_keys_in_one_store_share_a_set() {
    let mut store = InMemoryStorage::new(10);
    let a = get_limit("api", 5, 60, &[]);
    let b = get_limit("api", 7, 60, &[]);
    store.add_counter(&a).unwrap();
    store.add_counter(&b).unwrap();
    let v = values(&[("method", "GET")]);
    store.update_counter(&Counter::new(a.duplicate(), &v), 5, T0);
    assert!(store.is_within_limits(&Counter::new(b.duplicate(), &v), 2, T0));
    assert!(!store.is_within_limits(&Counter::new(a.duplicate(), &v), 1, T0));
    assert_eq!(store.get_counters(&vec![a.duplicate()], T0).len(), 1);
}

#[test]
fn bindings_are_ordered_by_variable_name() {
    let limit = get_limit("api", 2, 60, &["user", "app"]);
    let c = Counter::new(limit.duplicate(), &values(&[("user", "u"), ("method", "GET"), ("app", "a")]));
    assert_eq!(c.set_variables(), &values(&[("app", "a"), ("user", "u")]));
    let mut store = InMemoryStorage::new(10);
    store.add_counter(&limit).unwrap();
    store.update_counter(&c, 2, T0);
    let reordered = get_limit("api", 2, 60, &["app", "user"]);
    let same = Counter::new(reordered, &values(&[("app", "a"), ("user", "u")]));
    assert!(!store.is_within_limits(&same, 1, T0));
}

#[test]
fn return_takes_back_the_whole_count() {
    let mut c = ConcurrentCounter::new(10);
    assert_eq!(c.next_at(0, 3), (3, 10));
    assert!(c.return_to(10, 3));
    assert_eq!(c.next_at(5, 1), (1, 10));
}
