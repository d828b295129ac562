use cw_indexing::coins::{Coin, Coins};
use cw_indexing::index::OptionalUniqueIndex;
use cw_indexing::item_set::ItemSet;
use cw_indexing::ownership::{
    assert_owner, get_ownership, initialize_owner, is_owner, update_ownership, Action, BlockInfo,
    Expiration,
};
use cw_indexing::paginate::{collect, paginate_indexed_map, paginate_map, paginate_map_prefix};
use cw_indexing::store::{KeyBound, Order, Store};
use cw_indexing::unique_vec::UniqueVec;

fn all_names(set: &ItemSet<String>, store: &Store) -> Vec<String> {
    set.items(store, &KeyBound::Unbounded, &KeyBound::Unbounded, Order::Ascending).unwrap()
}

#[test]
fn counter_tracks_membership() {
    let mut store = Store::new();
    let set: ItemSet<String> = ItemSet::new_counted("names", "names__counter");

    let script: Vec<(&str, bool)> = vec![
        ("a", true),
        ("b", true),
        ("a", true),
        ("a", false),
        ("c", true),
        ("b", false),
        ("z", false),
        ("c", true),
    ];
    for (name, insert) in script {
        if insert {
            set.insert(&mut store, &name.to_string()).unwrap();
        } else {
            set.remove(&mut store, &name.to_string()).unwrap();
        }
        // the persisted counter always equals the number of keys present,
        // checked by exhaustive scan
        let count = set.count(&store).unwrap();
        let scanned = all_names(&set, &store);
        assert_eq!(count as usize, scanned.len());
    }
}

#[test]
fn insert_is_idempotent() {
    let mut store = Store::new();
    let set: ItemSet<String> = ItemSet::new_counted("names", "names__counter");

    set.insert(&mut store, &"larry".to_string()).unwrap();
    let names_once = all_names(&set, &store);
    let count_once = set.count(&store).unwrap();

    let second = set.insert(&mut store, &"larry".to_string()).unwrap();
    assert!(!second);
    assert_eq!(all_names(&set, &store), names_once);
    assert_eq!(set.count(&store).unwrap(), count_once);
}

#[test]
fn remove_twice_reports_true_then_false() {
    let mut store = Store::new();
    let set: ItemSet<String> = ItemSet::new("names");

    set.insert(&mut store, &"larry".to_string()).unwrap();
    let first = set.remove(&mut store, &"larry".to_string()).unwrap();
    let second = set.remove(&mut store, &"larry".to_string()).unwrap();
    assert_eq!((first, second), (true, false));
}

#[test]
fn clear_handles_more_than_one_batch() {
    let mut store = Store::new();
    let set: ItemSet<u64> = ItemSet::new_counted("nums", "nums__counter");

    // more entries than one internal deletion batch
    for i in 0..25u64 {
        set.insert(&mut store, &i).unwrap();
    }
    assert_eq!(set.count(&store).unwrap(), 25);

    set.clear(&mut store);

    let left = set
        .items(&store, &KeyBound::Unbounded, &KeyBound::Unbounded, Order::Ascending)
        .unwrap();
    assert_eq!(left.len(), 0);
    assert_eq!(set.count(&store).unwrap(), 0);
}

#[test]
fn numeric_keys_iterate_in_order() {
    let mut store = Store::new();
    let set: ItemSet<u64> = ItemSet::new("nums");

    for i in [5u64, 1, 9, 3] {
        set.insert(&mut store, &i).unwrap();
    }
    let asc = set
        .items(&store, &KeyBound::Unbounded, &KeyBound::Unbounded, Order::Ascending)
        .unwrap();
    assert_eq!(asc, vec![1, 3, 5, 9]);
    let desc = set
        .items(&store, &KeyBound::Unbounded, &KeyBound::Unbounded, Order::Descending)
        .unwrap();
    assert_eq!(desc, vec![9, 5, 3, 1]);
}

#[test]
fn unique_index_enforces_uniqueness() {
    let mut store = Store::new();
    let index: OptionalUniqueIndex<String, String> = OptionalUniqueIndex::new("labels");

    // save a record under index key "alpha"
    index
        .save(&mut store, &b"pk1".to_vec(), &"record-one".to_string(), Some(&"alpha".to_string()))
        .unwrap();

    // a second primary key deriving the same index key fails, and the store
    // keeps the first record
    let err = index
        .save(&mut store, &b"pk2".to_vec(), &"record-two".to_string(), Some(&"alpha".to_string()))
        .unwrap_err();
    assert!(err.message().contains("unique constraint"));

    let (pk, record) = index.load(&store, &"alpha".to_string()).unwrap();
    assert_eq!(pk, b"pk1".to_vec());
    assert_eq!(record, "record-one");

    // records deriving no index key are simply never indexed
    index.save(&mut store, &b"pk3".to_vec(), &"record-three".to_string(), None).unwrap();
    assert_eq!(index.may_load(&store, &"beta".to_string()).unwrap(), None);

    // a second index key is fine, and ranges decode both entries in order
    index
        .save(&mut store, &b"pk4".to_vec(), &"record-four".to_string(), Some(&"beta".to_string()))
        .unwrap();
    let entries = index
        .range(&store, &KeyBound::Unbounded, &KeyBound::Unbounded, Order::Ascending)
        .unwrap();
    assert_eq!(
        entries,
        vec![(b"pk1".to_vec(), "record-one".to_string()), (b"pk4".to_vec(), "record-four".to_string())],
    );

    // removing frees the index key for re-use
    index
        .remove(&mut store, &b"pk1".to_vec(), &"record-one".to_string(), Some(&"alpha".to_string()))
        .unwrap();
    assert_eq!(index.may_load(&store, &"alpha".to_string()).unwrap(), None);
    index
        .save(&mut store, &b"pk2".to_vec(), &"record-two".to_string(), Some(&"alpha".to_string()))
        .unwrap();
    let (pk, record) = index.load(&store, &"alpha".to_string()).unwrap();
    assert_eq!(pk, b"pk2".to_vec());
    assert_eq!(record, "record-two");
}

#[test]
fn unique_vec_rejects_duplicates() {
    let mut v: UniqueVec<u64> = UniqueVec::new();
    assert!(v.push(5).is_ok());
    let err = v.push(5).unwrap_err();
    assert_eq!(v.len(), 1);
    assert_eq!(err.message(), "UniqueVec encountered duplicate item: 5");

    // bulk construction applies the identical check
    assert!(UniqueVec::from_vec(vec![1u64, 2, 3]).is_ok());
    assert!(UniqueVec::from_vec(vec![1u64, 2, 1]).is_err());

    // bulk extension applies the identical check and changes nothing on
    // failure
    let mut v: UniqueVec<u64> = UniqueVec::new();
    v.push(5).unwrap();
    v.extend(vec![6, 7]).unwrap();
    assert_eq!(v.len(), 3);
    assert!(v.extend(vec![8, 6]).is_err());
    assert_eq!(v.len(), 3);
    assert_eq!(*v.get(0), 5);
    assert_eq!(*v.get(1), 6);
    assert_eq!(*v.get(2), 7);
}

fn fifty_entries() -> Vec<(u64, u64)> {
    (0..50u64).map(|i| (i, i * 2)).collect()
}

#[test]
fn paginator_clamps_limits() {
    // requesting no explicit limit over 50 available entries returns
    // exactly 10
    let page: Vec<u64> =
        collect(fifty_entries(), None, |k: u64, _v: u64| Ok::<u64, String>(k)).unwrap();
    assert_eq!(page, (0..10u64).collect::<Vec<_>>());

    // requesting limit 1000 returns at most 30
    let page: Vec<u64> =
        collect(fifty_entries(), Some(1000), |k: u64, _v: u64| Ok::<u64, String>(k)).unwrap();
    assert_eq!(page.len(), 30);

    // a smaller limit than available is honored exactly
    let page: Vec<u64> =
        collect(fifty_entries(), Some(3), |k: u64, _v: u64| Ok::<u64, String>(k)).unwrap();
    assert_eq!(page, vec![0, 1, 2]);

    // fewer entries than the limit returns them all
    let page: Vec<u64> =
        collect(vec![(1u64, 1u64), (2, 2)], Some(30), |k: u64, _v: u64| Ok::<u64, String>(k))
            .unwrap();
    assert_eq!(page, vec![1, 2]);
}

#[test]
fn paginator_propagates_first_error() {
    // mapping-function error on the 3rd of 10 entries returns that error
    // and no partial result
    let entries: Vec<(u64, u64)> = (0..10u64).map(|i| (i, i)).collect();
    let r: Result<Vec<u64>, String> = collect(entries, None, |k: u64, _v: u64| {
        if k == 2 {
            Err("boom".to_string())
        } else {
            Ok(k)
        }
    });
    assert_eq!(r.unwrap_err(), "boom");
}

#[test]
fn coins_arithmetic_normalizes() {
    let mut coins = Coins::new();
    coins.add(&Coin { denom: "uatom".to_string(), amount: 5 }).unwrap();
    coins.add(&Coin { denom: "uatom".to_string(), amount: 7 }).unwrap();
    assert_eq!(coins.to_string(), "12uatom");

    // subtracting part of the amount keeps the entry
    coins.sub(&Coin { denom: "uatom".to_string(), amount: 2 }).unwrap();
    assert_eq!(coins.to_string(), "10uatom");

    // subtracting more than held fails and changes nothing
    assert!(coins.sub(&Coin { denom: "uatom".to_string(), amount: 11 }).is_err());
    assert_eq!(coins.to_string(), "10uatom");

    // reaching exactly zero removes the denomination entirely
    coins.sub(&Coin { denom: "uatom".to_string(), amount: 10 }).unwrap();
    assert!(coins.is_empty());

    // adding zero stores nothing
    coins.add(&Coin { denom: "uatom".to_string(), amount: 0 }).unwrap();
    assert!(coins.is_empty());
}

#[test]
fn coins_round_trips_canonical_text() {
    let mut coins = Coins::new();
    for (denom, amount) in [("uatom", 3u128), ("ibc/1234ABCD", 1), ("factory/x/sub", 9)] {
        coins.add(&Coin { denom: denom.to_string(), amount }).unwrap();
    }
    let text = coins.to_string();
    assert_eq!(text, "9factory/x/sub,1ibc/1234ABCD,3uatom");
    assert_eq!(Coins::from_str(&text).unwrap(), coins);

    let json = coins.to_json();
    assert_eq!(json, r#"{"factory/x/sub":"9","ibc/1234ABCD":"1","uatom":"3"}"#);
    assert_eq!(Coins::from_json(&json).unwrap(), coins);

    // any key order parses to the same bag
    let shuffled = r#"{"uatom":"3","factory/x/sub":"9","ibc/1234ABCD":"1"}"#;
    assert_eq!(Coins::from_json(shuffled).unwrap(), coins);

    // the empty map is the empty bag
    assert_eq!(Coins::from_json("{}").unwrap(), Coins::new());
    assert_eq!(Coins::new().to_json(), "{}");
}

#[test]
fn coins_rejects_malformed_lists() {
    assert!(Coins::from_str("").is_err());
    assert!(Coins::from_str("uatom").is_err());
    assert!(Coins::from_str("123").is_err());
    assert!(Coins::from_str("0uatom").is_err());
    assert!(Coins::from_str("12uatom,").is_err());
    assert!(Coins::from_json("12uatom").is_err());
    assert!(Coins::from_json(r#"{"uatom":12}"#).is_err());
}

#[test]
fn expirations_compare_against_blocks() {
    let block = BlockInfo { height: 100, time: 1000, chain_id: "test".to_string() };
    assert!(Expiration::AtHeight(100).is_expired(&block));
    assert!(!Expiration::AtHeight(101).is_expired(&block));
    assert!(Expiration::AtTime(999).is_expired(&block));
    assert!(!Expiration::AtTime(1001).is_expired(&block));
    assert!(!Expiration::Never.is_expired(&block));
}

#[test]
fn store_scan_respects_bounds() {
    let mut store = Store::new();
    for (k, v) in [("pa", "1"), ("pb", "2"), ("pc", "3"), ("q", "4")] {
        store.set(&k.as_bytes().to_vec(), &v.as_bytes().to_vec());
    }
    let within = store.scan_prefix(
        &b"p".to_vec(),
        &KeyBound::Inclusive(b"a".to_vec()),
        &KeyBound::Exclusive(b"c".to_vec()),
        Order::Ascending,
    );
    let keys: Vec<Vec<u8>> = within.into_iter().map(|(k, _)| k).collect();
    assert_eq!(keys, vec![b"a".to_vec(), b"b".to_vec()]);

    store.remove(&b"pb".to_vec());
    assert!(!store.has(&b"pb".to_vec()));
    assert_eq!(store.get(&b"pa".to_vec()), Some(b"1".to_vec()));
}

#[test]
fn paginate_map_pages_namespace_entries() {
    let mut store = Store::new();
    for i in 0..15u8 {
        store.set(&vec![b'p', i], &vec![i]);
    }
    // default page size over 15 entries is 10, in ascending key order
    let page: Vec<(Vec<u8>, Vec<u8>)> = paginate_map(
        &store,
        &b"p".to_vec(),
        &KeyBound::Unbounded,
        None,
        |k: Vec<u8>, v: Vec<u8>| Ok::<(Vec<u8>, Vec<u8>), String>((k, v)),
    )
    .unwrap();
    assert_eq!(page.len(), 10);
    assert_eq!(page[0], (vec![0u8], vec![0u8]));
    assert_eq!(page[9], (vec![9u8], vec![9u8]));

    // a start bound continues after a cursor
    let page: Vec<(Vec<u8>, Vec<u8>)> = paginate_map(
        &store,
        &b"p".to_vec(),
        &KeyBound::Exclusive(vec![9u8]),
        None,
        |k: Vec<u8>, v: Vec<u8>| Ok::<(Vec<u8>, Vec<u8>), String>((k, v)),
    )
    .unwrap();
    assert_eq!(page.len(), 5);
    assert_eq!(page[0], (vec![10u8], vec![10u8]));
}

#[test]
fn paginate_map_prefix_scopes_composite_keys() {
    let mut store = Store::new();
    let set: ItemSet<(u64, String)> = ItemSet::new("tuples");
    for (n, name) in [(1u64, "larry"), (1, "jake"), (2, "pumpkin")] {
        set.insert(&mut store, &(n, name.to_string())).unwrap();
    }
    // the namespace prefix of the set: 2-byte length then the namespace
    let mut ns_prefix = vec![0u8, 6u8];
    ns_prefix.extend_from_slice(b"tuples");
    let names: Vec<String> = paginate_map_prefix(
        &store,
        &ns_prefix,
        &1u64,
        &KeyBound::Unbounded,
        None,
        |k: Vec<u8>, _v: Vec<u8>| Ok::<String, String>(String::from_utf8(k).unwrap()),
    )
    .unwrap();
    assert_eq!(names, vec!["jake".to_string(), "larry".to_string()]);
}

#[test]
fn paginate_indexed_map_pages_index_entries() {
    let mut store = Store::new();
    let index: OptionalUniqueIndex<String, String> = OptionalUniqueIndex::new("labels");
    for i in 0..12u8 {
        let label = format!("label-{:02}", i);
        let pk = vec![i];
        let record = format!("record-{:02}", i);
        index.save(&mut store, &pk, &record, Some(&label)).unwrap();
    }
    let page: Vec<(Vec<u8>, String)> = paginate_indexed_map(
        &index,
        &store,
        &KeyBound::Unbounded,
        None,
        |pk: Vec<u8>, rec: String| {
            Ok::<(Vec<u8>, String), cw_indexing::errors::StdError>((pk, rec))
        },
    )
    .unwrap();
    assert_eq!(page.len(), 10);
    assert_eq!(page[0], (vec![0u8], "record-00".to_string()));
    assert_eq!(page[9], (vec![9u8], "record-09".to_string()));
}

#[test]
fn standard_ownership_entry_points() {
    let mut store = Store::new();
    let larry = "larry".to_string();
    let jake = "jake".to_string();

    initialize_owner(&mut store, Some("larry")).unwrap();
    assert!(is_owner(&store, &larry).unwrap());
    assert!(!is_owner(&store, &jake).unwrap());
    assert!(assert_owner(&store, &larry).is_ok());

    let block = BlockInfo { height: 1, time: 1, chain_id: "test".to_string() };
    update_ownership(
        &mut store,
        &block,
        &larry,
        Action::TransferOwnership { new_owner: "jake".to_string(), expiry: None },
    )
    .unwrap();
    update_ownership(&mut store, &block, &jake, Action::AcceptOwnership).unwrap();
    let ownership = get_ownership(&store).unwrap();
    assert_eq!(ownership.owner, Some(jake));
}
