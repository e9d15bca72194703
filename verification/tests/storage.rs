use ownable_std::{EmptyApi, EmptyApiError, IdbStateDump, IdbStorage, MemoryStorage, Order};

#[test]
fn idb_state_dump_round_trips_through_storage() {
    let mut storage = MemoryStorage::new();
    storage.set(b"key1", b"value1");
    storage.set(b"key2", b"value2");

    let dump = IdbStateDump::from(storage);
    assert_eq!(dump.get(b"key1".as_ref()), Some(&b"value1".to_vec()));
    assert_eq!(dump.get(b"key2".as_ref()), Some(&b"value2".to_vec()));
}

#[test]
fn idb_storage_load_restores_all_keys() {
    let mut storage = MemoryStorage::new();
    storage.set(b"foo", b"bar");
    storage.set(b"baz", b"qux");

    let dump = IdbStateDump::from(storage);
    let loaded = IdbStorage::load(dump);

    assert_eq!(loaded.storage.get(b"foo"), Some(b"bar".to_vec()));
    assert_eq!(loaded.storage.get(b"baz"), Some(b"qux".to_vec()));
}

#[test]
fn idb_state_dump_empty_storage_produces_empty_map() {
    let storage = MemoryStorage::new();
    let dump = IdbStateDump::from(storage);
    assert!(dump.state_dump.is_empty());
}

#[test]
fn storage_read_after_write_and_remove() {
    let mut storage = MemoryStorage::new();
    assert_eq!(storage.get(b"a"), None);
    storage.set(b"a", b"1");
    storage.set(b"b", b"2");
    storage.set(b"a", b"3");
    assert_eq!(storage.get(b"a"), Some(b"3".to_vec()));
    assert_eq!(storage.get(b"b"), Some(b"2".to_vec()));
    storage.remove(b"a");
    assert_eq!(storage.get(b"a"), None);
    assert_eq!(storage.get(b"b"), Some(b"2".to_vec()));
    storage.remove(b"missing");
    assert_eq!(storage.get(b"b"), Some(b"2".to_vec()));
}

fn sample() -> MemoryStorage {
    let mut storage = MemoryStorage::default();
    for key in [b"c".as_ref(), b"a", b"ab", b"b", b"", b"d"] {
        let mut value = key.to_vec();
        value.push(b'!');
        storage.set(key, &value);
    }
    storage
}

fn keys(items: &[(Vec<u8>, Vec<u8>)]) -> Vec<Vec<u8>> {
    items.iter().map(|(k, _)| k.clone()).collect()
}

#[test]
fn storage_range_orders_and_bounds() {
    let storage = sample();
    let all = storage.range(None, None, Order::Ascending);
    assert_eq!(
        keys(&all),
        vec![b"".to_vec(), b"a".to_vec(), b"ab".to_vec(), b"b".to_vec(), b"c".to_vec(), b"d".to_vec()]
    );
    assert_eq!(all[2], (b"ab".to_vec(), b"ab!".to_vec()));
    let middle = storage.range(Some(b"ab"), Some(b"c"), Order::Ascending);
    assert_eq!(keys(&middle), vec![b"ab".to_vec(), b"b".to_vec()]);
    let down = storage.range(Some(b"a"), None, Order::Descending);
    assert_eq!(
        keys(&down),
        vec![b"d".to_vec(), b"c".to_vec(), b"b".to_vec(), b"ab".to_vec(), b"a".to_vec()]
    );
    let upto = storage.range(None, Some(b"a"), Order::Descending);
    assert_eq!(keys(&upto), vec![b"".to_vec()]);
}

#[test]
fn storage_range_with_start_after_end_is_empty() {
    let storage = sample();
    assert!(storage.range(Some(b"c"), Some(b"a"), Order::Ascending).is_empty());
    assert!(storage.range(Some(b"b"), Some(b"b"), Order::Descending).is_empty());
}

#[test]
fn dump_get_prefers_last_pair_and_load_follows() {
    let dump = IdbStateDump {
        state_dump: vec![
            (b"k".to_vec(), b"old".to_vec()),
            (b"j".to_vec(), b"x".to_vec()),
            (b"k".to_vec(), b"new".to_vec()),
        ],
    };
    assert_eq!(dump.get(b"k"), Some(&b"new".to_vec()));
    assert_eq!(dump.get(b"z"), None);
    let loaded = IdbStorage::load(dump);
    assert_eq!(loaded.storage.get(b"k"), Some(b"new".to_vec()));
    assert_eq!(loaded.storage.get(b"j"), Some(b"x".to_vec()));
}

#[test]
fn load_to_mem_storage_keeps_other_keys() {
    let mut store = IdbStorage { storage: MemoryStorage::new() };
    store.storage.set(b"keep", b"1");
    store.load_to_mem_storage(IdbStateDump { state_dump: vec![(b"add".to_vec(), b"2".to_vec())] });
    assert_eq!(store.storage.get(b"keep"), Some(b"1".to_vec()));
    assert_eq!(store.storage.get(b"add"), Some(b"2".to_vec()));
}

#[test]
fn empty_api_canonicalize_and_humanize() {
    let api = EmptyApi::default();
    let canonical = api.addr_canonicalize("owner").expect("canonical");
    assert_eq!(canonical.len(), 54);
    assert_eq!(&canonical[..5], b"owner");
    assert!(canonical[5..].iter().all(|b| *b == 0));
    assert_eq!(api.addr_humanize(&canonical), Ok("owner".to_string()));
    assert_eq!(api.addr_validate("owner"), Ok("owner".to_string()));
}

#[test]
fn empty_api_errors() {
    let api = EmptyApi::default();
    assert_eq!(api.addr_canonicalize("ab"), Err(EmptyApiError::HumanAddressTooShort));
    let long = "x".repeat(55);
    assert_eq!(api.addr_canonicalize(&long), Err(EmptyApiError::HumanAddressTooLong));
    assert_eq!(api.addr_validate("ab"), Err(EmptyApiError::HumanAddressTooShort));
    assert_eq!(api.addr_humanize(b"short"), Err(EmptyApiError::CanonicalLengthInvalid));
    let mut bad = vec![0xffu8; 3];
    bad.resize(54, 0);
    let err = api.addr_humanize(&bad).unwrap_err();
    assert!(matches!(err, EmptyApiError::InvalidUtf8(_)));
    assert_eq!(err.message(), "invalid utf-8 sequence of 1 bytes from index 0");
    assert_eq!(
        EmptyApiError::HumanAddressTooShort.message(),
        "Invalid input: human address too short"
    );
}

#[test]
fn empty_api_counts_utf8_bytes() {
    let api = EmptyApi::default();
    // two characters, four bytes
    let canonical = api.addr_canonicalize("éé").expect("long enough in bytes");
    assert_eq!(api.addr_humanize(&canonical), Ok("éé".to_string()));
}

#[test]
fn dumps_compare_as_maps() {
    let a = IdbStateDump {
        state_dump: vec![(b"a".to_vec(), b"1".to_vec()), (b"b".to_vec(), b"2".to_vec())],
    };
    let reordered = IdbStateDump {
        state_dump: vec![(b"b".to_vec(), b"2".to_vec()), (b"a".to_vec(), b"1".to_vec())],
    };
    let overwritten = IdbStateDump {
        state_dump: vec![
            (b"a".to_vec(), b"0".to_vec()),
            (b"b".to_vec(), b"2".to_vec()),
            (b"a".to_vec(), b"1".to_vec()),
        ],
    };
    let other_value = IdbStateDump {
        state_dump: vec![(b"a".to_vec(), b"1".to_vec()), (b"b".to_vec(), b"3".to_vec())],
    };
    let fewer = IdbStateDump { state_dump: vec![(b"a".to_vec(), b"1".to_vec())] };
    assert!(a == reordered);
    assert!(a == overwritten);
    assert!(a != other_value);
    assert!(a != fewer);
    assert!(fewer != a);
}
