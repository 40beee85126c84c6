use limitador::concurrent::ConcurrentStorage;
use limitador::counter_set::CounterValueSet;

#[test]
fn concurrent_maps_namespaces_correctly() {
    let mut storage = ConcurrentStorage::default();
    assert_eq!(storage.add_namespace("foo".to_string().into()), Ok(true));
    assert_eq!(storage.add_namespace("foo".to_string().into()), Ok(false));
    assert_eq!(storage.add_namespace("bar".to_string().into()), Ok(true));
    let result = storage.get_namespaces();
    assert!(result.is_ok());
    let namespaces = result.unwrap();
    assert_eq!(namespaces.len(), 2);
    assert!(namespaces.contains(&"foo".to_string()));
    assert!(namespaces.contains(&"bar".to_string()));
}

#[test]
fn mod_maps_namespaces_correctly() {
    let mut storage = ConcurrentStorage::default();
    assert_eq!(storage.add_namespace("foo".to_string().into()), Ok(true));
    assert_eq!(storage.add_namespace("foo".to_string().into()), Ok(false));
    assert_eq!(storage.add_namespace("bar".to_string().into()), Ok(true));
    let result = storage.get_namespaces();
    assert!(result.is_ok());
    let namespaces = result.unwrap();
    assert_eq!(namespaces.len(), 2);
    assert!(namespaces.contains(&"foo".to_string()));
    assert!(namespaces.contains(&"bar".to_string()));
}

#[test]
fn test_counter_value_set_is_always_sorted() {
    let mut counters = CounterValueSet::default();
    counters.add_window(20);
    assert_eq!(counters.entries()[0].seconds, 20);
    counters.add_window(1);
    assert_eq!(counters.entries()[0].seconds, 1);
    assert_eq!(counters.entries()[1].seconds, 20);
    counters.add_window(12);
    assert_eq!(counters.entries()[0].seconds, 1);
    assert_eq!(counters.entries()[1].seconds, 12);
    assert_eq!(counters.entries()[2].seconds, 20);
    counters.add_window(30);
    counters.add_window(12);
    assert_eq!(counters.entries().len(), 4);
    assert_eq!(counters.entries()[0].seconds, 1);
    assert_eq!(counters.entries()[1].seconds, 12);
    assert_eq!(counters.entries()[2].seconds, 20);
    assert_eq!(counters.entries()[3].seconds, 30);
}
