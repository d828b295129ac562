use cw_indexing::item_set::ItemSet;
use cw_indexing::store::{KeyBound, Order, Store};

const NAMESPACE: &str = "names";

/// The raw storage key for a given name: length of the namespace (2 bytes),
/// the namespace, then the name.
fn key(name: &str) -> Vec<u8> {
    let length_bytes = (NAMESPACE.len() as u32).to_be_bytes();
    let mut out = Vec::with_capacity(2 + NAMESPACE.len() + name.len());
    out.extend_from_slice(&[length_bytes[2], length_bytes[3]]);
    out.extend_from_slice(NAMESPACE.as_bytes());
    out.extend_from_slice(name.as_bytes());
    out
}

fn names() -> ItemSet<String> {
    ItemSet::new(NAMESPACE)
}

fn counted_names() -> ItemSet<String> {
    ItemSet::new_counted(NAMESPACE, "names__counter")
}

fn tuples() -> ItemSet<(u64, String)> {
    ItemSet::new("tuples")
}

/// Return a list of mockup names for use in testing.
fn mock_names(indexes: std::ops::Range<usize>) -> Vec<String> {
    let mut names = indexes.map(|i| format!("test-name-{i}")).collect::<Vec<_>>();
    names.sort();
    names
}

/// Insert mock names into a set.
fn insert_mock_names(set: &ItemSet<String>, store: &mut Store) {
    for name in mock_names(1..100) {
        set.insert(store, &name).unwrap();
    }
}

fn all_items(set: &ItemSet<String>, store: &Store) -> Vec<String> {
    set.items(store, &KeyBound::Unbounded, &KeyBound::Unbounded, Order::Ascending).unwrap()
}

#[test]
fn lib_containing() {
    let mut store = Store::new();
    let set = names();

    set.insert(&mut store, &"larry".to_string()).unwrap();
    assert!(set.contains(&store, &"larry".to_string()));
    assert!(!set.contains(&store, &"jake".to_string()));

    set.insert(&mut store, &"jake".to_string()).unwrap();
    assert!(set.contains(&store, &"larry".to_string()));
    assert!(set.contains(&store, &"jake".to_string()));
}

#[test]
fn lib_inserting() {
    let mut store = Store::new();
    let set = names();

    let new = set.insert(&mut store, &"larry".to_string()).unwrap();
    assert!(new);
    assert_eq!(store.get(&key("larry")), Some(b"{}".to_vec()));
    assert_eq!(store.get(&key("jake")), None);

    let new = set.insert(&mut store, &"larry".to_string()).unwrap();
    assert!(!new);
    assert_eq!(store.get(&key("larry")), Some(b"{}".to_vec()));
    assert_eq!(store.get(&key("jake")), None);

    let new = set.insert(&mut store, &"jake".to_string()).unwrap();
    assert!(new);
    assert_eq!(store.get(&key("larry")), Some(b"{}".to_vec()));
    assert_eq!(store.get(&key("jake")), Some(b"{}".to_vec()));
}

#[test]
fn lib_removing() {
    let mut store = Store::new();
    let set = names();

    set.insert(&mut store, &"larry".to_string()).unwrap();

    let existed = set.remove(&mut store, &"larry".to_string()).unwrap();
    assert!(existed);
    assert_eq!(store.get(&key("larry")), None);

    let existed = set.remove(&mut store, &"jake".to_string()).unwrap();
    assert!(!existed);
    assert_eq!(store.get(&key("jake")), None);
}

#[test]
fn lib_counting() {
    let mut store = Store::new();
    let set = counted_names();

    let count = set.count(&store).unwrap();
    assert_eq!(count, 0);

    set.insert(&mut store, &"larry".to_string()).unwrap();
    assert_eq!(set.count(&store).unwrap(), 1);

    set.insert(&mut store, &"jake".to_string()).unwrap();
    assert_eq!(set.count(&store).unwrap(), 2);

    set.insert(&mut store, &"pumpkin".to_string()).unwrap();
    assert_eq!(set.count(&store).unwrap(), 3);

    set.clear(&mut store);
    assert_eq!(set.count(&store).unwrap(), 0);
}

#[test]
fn lib_iterating() {
    let mut store = Store::new();
    let set = names();

    insert_mock_names(&set, &mut store);

    let names = all_items(&set, &store);
    assert_eq!(names, mock_names(1..100));

    let start_after = KeyBound::Exclusive(b"test-name-2".to_vec());
    let names = set
        .items(&store, &start_after, &KeyBound::Unbounded, Order::Ascending)
        .unwrap()
        .into_iter()
        .take(10)
        .collect::<Vec<_>>();
    assert_eq!(names, mock_names(20..30));
}

#[test]
fn lib_clearing() {
    let mut store = Store::new();
    let set = names();

    insert_mock_names(&set, &mut store);

    set.clear(&mut store);

    let names = all_items(&set, &store);
    assert_eq!(names.len(), 0);
}

#[test]
fn lib_prefixes() {
    let mut store = Store::new();
    let set = tuples();

    let pairs = vec![(1u64, "larry"), (1u64, "jake"), (2u64, "pumpkin")];
    for (n, name) in &pairs {
        set.insert(&mut store, &(*n, name.to_string())).unwrap();
    }

    let names = set
        .prefix(&1u64)
        .keys(&store, &KeyBound::Unbounded, &KeyBound::Unbounded, Order::Ascending)
        .into_iter()
        .map(|raw| String::from_utf8(raw).unwrap())
        .collect::<Vec<_>>();
    assert_eq!(names, vec!["jake", "larry"]);

    let names = set
        .prefix(&2u64)
        .keys(&store, &KeyBound::Unbounded, &KeyBound::Unbounded, Order::Ascending)
        .into_iter()
        .map(|raw| String::from_utf8(raw).unwrap())
        .collect::<Vec<_>>();
    assert_eq!(names, vec!["pumpkin"]);
}

#[test]
fn tests_containing() {
    let mut store = Store::new();
    let set = names();

    set.insert(&mut store, &"larry".to_string()).unwrap();
    assert!(set.contains(&store, &"larry".to_string()));
    assert!(!set.contains(&store, &"jake".to_string()));

    set.insert(&mut store, &"jake".to_string()).unwrap();
    assert!(set.contains(&store, &"larry".to_string()));
    assert!(set.contains(&store, &"jake".to_string()));
}

#[test]
fn tests_inserting() {
    let mut store = Store::new();
    let set = names();

    let new = set.insert(&mut store, &"larry".to_string()).unwrap();
    assert!(new);
    assert_eq!(store.get(&key("larry")), Some(b"{}".to_vec()));

    let new = set.insert(&mut store, &"larry".to_string()).unwrap();
    assert!(!new);
    assert_eq!(store.get(&key("larry")), Some(b"{}".to_vec()));

    let new = set.insert(&mut store, &"jake".to_string()).unwrap();
    assert!(new);
    assert_eq!(store.get(&key("jake")), Some(b"{}".to_vec()));
}

#[test]
fn tests_removing() {
    let mut store = Store::new();
    let set = names();

    set.insert(&mut store, &"larry".to_string()).unwrap();

    let existed = set.remove(&mut store, &"larry".to_string()).unwrap();
    assert!(existed);
    assert_eq!(store.get(&key("larry")), None);

    let existed = set.remove(&mut store, &"jake".to_string()).unwrap();
    assert!(!existed);
    assert_eq!(store.get(&key("jake")), None);
}

#[test]
fn counter_counting() {
    let mut store = Store::new();
    let set = counted_names();

    assert_eq!(set.count(&store).unwrap(), 0);

    set.insert(&mut store, &"larry".to_string()).unwrap();
    assert_eq!(set.count(&store).unwrap(), 1);

    set.insert(&mut store, &"jake".to_string()).unwrap();
    assert_eq!(set.count(&store).unwrap(), 2);

    set.remove(&mut store, &"larry".to_string()).unwrap();
    assert_eq!(set.count(&store).unwrap(), 1);

    set.clear(&mut store);
    assert_eq!(set.count(&store).unwrap(), 0);
}

#[test]
fn iterator_iterating() {
    let mut store = Store::new();
    let set = counted_names();

    insert_mock_names(&set, &mut store);

    let names = all_items(&set, &store);
    assert_eq!(names, mock_names(1..100));

    let start_after = KeyBound::Exclusive(b"test-name-2".to_vec());
    let names = set
        .items(&store, &start_after, &KeyBound::Unbounded, Order::Ascending)
        .unwrap()
        .into_iter()
        .take(10)
        .collect::<Vec<_>>();
    assert_eq!(names, mock_names(20..30));
}

#[test]
fn iterator_clearing() {
    let mut store = Store::new();
    let set = counted_names();

    insert_mock_names(&set, &mut store);

    set.clear(&mut store);

    let names = all_items(&set, &store);
    assert_eq!(names.len(), 0);
}

#[test]
fn iterator_prefixes() {
    let mut store = Store::new();
    let set: ItemSet<(u64, String)> = ItemSet::new_counted("tuples", "tuples__counter");

    let pairs = vec![(1u64, "larry"), (1u64, "jake"), (2u64, "pumpkin")];
    for (n, name) in &pairs {
        set.insert(&mut store, &(*n, name.to_string())).unwrap();
    }

    let names = set
        .prefix(&1u64)
        .keys(&store, &KeyBound::Unbounded, &KeyBound::Unbounded, Order::Ascending)
        .into_iter()
        .map(|raw| String::from_utf8(raw).unwrap())
        .collect::<Vec<_>>();
    assert_eq!(names, vec!["jake", "larry"]);

    let names = set
        .prefix(&2u64)
        .keys(&store, &KeyBound::Unbounded, &KeyBound::Unbounded, Order::Ascending)
        .into_iter()
        .map(|raw| String::from_utf8(raw).unwrap())
        .collect::<Vec<_>>();
    assert_eq!(names, vec!["pumpkin"]);
}

#[test]
fn iterators_iterating() {
    let mut store = Store::new();
    let set = names();

    for name in mock_names(1..100) {
        set.insert(&mut store, &name).unwrap();
    }

    let names = all_items(&set, &store);
    assert_eq!(names, mock_names(1..100));

    let start_after = KeyBound::Exclusive(b"test-name-2".to_vec());
    let names = set
        .items(&store, &start_after, &KeyBound::Unbounded, Order::Ascending)
        .unwrap()
        .into_iter()
        .take(10)
        .collect::<Vec<_>>();
    assert_eq!(names, mock_names(20..30));
}
