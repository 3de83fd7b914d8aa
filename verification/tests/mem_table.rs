use lsm_core::byte::Bytes;
use lsm_core::key::{Key, KeyBytes, KeySlice};
use lsm_core::mem_table::MemTable;
use lsm_core::wal::{encode, Wal, WalError};

fn contents(entries: &[(KeyBytes, Bytes)]) -> Vec<(Vec<u8>, u64, Vec<u8>)> {
    entries
        .iter()
        .map(|(k, v)| (k.into_inner().to_vec(), k.version(), v.as_ref().to_vec()))
        .collect()
}

fn triple(key: &[u8], version: u64, value: &[u8]) -> (Vec<u8>, u64, Vec<u8>) {
    (key.to_vec(), version, value.to_vec())
}

#[test]
fn test_memtable_read_write() {
    let mut memtable = MemTable::new(0);
    let keys = vec![
        Key::from_slice(b"key1", 0),
        Key::from_slice(b"key2", 0),
        Key::from_slice(b"key3", 0),
    ];
    let values = [b"value1", b"value2", b"value3"];

    for (i, key) in keys.clone().into_iter().enumerate() {
        memtable.put(key, values[i]).unwrap();
    }

    for (i, key) in keys.into_iter().enumerate() {
        assert_eq!(&memtable.get(key).unwrap().as_ref(), values[i]);
    }
}

#[test]
fn test_memtable_overwrite() {
    let mut memtable = MemTable::new(0);
    let keys = vec![
        Key::from_slice(b"key1", 0),
        Key::from_slice(b"key2", 0),
        Key::from_slice(b"key3", 0),
    ];
    let values = [b"value1", b"value2", b"value3"];

    for key in keys.clone().into_iter() {
        memtable.put(key, b"over write").unwrap();
    }

    for (i, key) in keys.clone().into_iter().enumerate() {
        memtable.put(key, values[i]).unwrap();
    }

    for (i, key) in keys.into_iter().enumerate() {
        assert_eq!(&memtable.get(key).unwrap().as_ref(), values[i]);
    }
}

#[test]
fn new_table_is_empty() {
    let table = MemTable::new(42);
    assert_eq!(table.id(), 42);
    assert!(table.is_empty());
    assert_eq!(table.approximate_size(), 0);
    assert!(table.get(Key::from_slice(b"a", 0)).is_none());
    assert_eq!(table.entries().len(), 0);
    let logged = MemTable::new_with_wal(43);
    assert_eq!(logged.id(), 43);
    assert!(logged.is_empty());
    assert_eq!(logged.approximate_size(), 0);
}

#[test]
fn get_needs_the_exact_version() {
    let mut table = MemTable::new(0);
    table.put(Key::from_slice(b"a", 5), b"five").unwrap();
    assert!(!table.is_empty());
    assert_eq!(table.get(Key::from_slice(b"a", 5)).unwrap().as_ref(), b"five");
    assert!(table.get(Key::from_slice(b"a", 4)).is_none());
    assert!(table.get(Key::from_slice(b"a", 6)).is_none());
    assert!(table.get(Key::from_slice(b"a", 0)).is_none());
    assert!(table.get(Key::from_slice(b"a", u64::MAX)).is_none());
    assert!(table.get(Key::from_slice(b"", 5)).is_none());
    assert!(table.get(Key::from_slice(b"ab", 5)).is_none());
}

#[test]
fn versions_at_the_ends_of_the_range() {
    let mut table = MemTable::new(0);
    table.put(Key::from_slice(b"k", 0), b"first").unwrap();
    table.put(Key::from_slice(b"k", u64::MAX), b"last").unwrap();
    assert_eq!(table.get(Key::from_slice(b"k", 0)).unwrap().as_ref(), b"first");
    assert_eq!(
        table.get(Key::from_slice(b"k", u64::MAX)).unwrap().as_ref(),
        b"last"
    );
    assert_eq!(
        contents(&table.entries()),
        vec![triple(b"k", u64::MAX, b"last"), triple(b"k", 0, b"first")]
    );
}

#[test]
fn overwrite_keeps_one_entry() {
    let mut table = MemTable::new(0);
    table.put(Key::from_slice(b"a", 1), b"old").unwrap();
    table.put(Key::from_slice(b"a", 1), b"new").unwrap();
    assert_eq!(table.get(Key::from_slice(b"a", 1)).unwrap().as_ref(), b"new");
    assert_eq!(contents(&table.entries()), vec![triple(b"a", 1, b"new")]);
}

#[test]
fn overwrite_within_one_batch() {
    let mut table = MemTable::new(0);
    let batch: Vec<(KeySlice, &[u8])> = vec![
        (Key::from_slice(b"a", 1), b"first"),
        (Key::from_slice(b"b", 1), b"other"),
        (Key::from_slice(b"a", 1), b"second"),
    ];
    table.put_batch(&batch).unwrap();
    assert_eq!(
        contents(&table.entries()),
        vec![triple(b"a", 1, b"second"), triple(b"b", 1, b"other")]
    );
}

#[test]
fn entries_come_in_key_order_newest_first() {
    let mut table = MemTable::new(0);
    table.put(Key::from_slice(b"a", 0), b"v1").unwrap();
    table.put(Key::from_slice(b"a", 1), b"v2").unwrap();
    assert_eq!(
        contents(&table.entries()),
        vec![triple(b"a", 1, b"v2"), triple(b"a", 0, b"v1")]
    );
}

#[test]
fn entries_order_payloads_then_versions() {
    let mut table = MemTable::new(0);
    let batch: Vec<(KeySlice, &[u8])> = vec![
        (Key::from_slice(b"b", 1), b"b1"),
        (Key::from_slice(b"ab", 7), b"ab7"),
        (Key::from_slice(b"a", 2), b"a2"),
        (Key::from_slice(b"", 3), b"e3"),
        (Key::from_slice(b"a", 9), b"a9"),
        (Key::from_slice(b"b", 4), b"b4"),
        (Key::from_slice(b"a", 5), b"a5"),
    ];
    table.put_batch(&batch).unwrap();
    assert_eq!(
        contents(&table.entries()),
        vec![
            triple(b"", 3, b"e3"),
            triple(b"a", 9, b"a9"),
            triple(b"a", 5, b"a5"),
            triple(b"a", 2, b"a2"),
            triple(b"ab", 7, b"ab7"),
            triple(b"b", 4, b"b4"),
            triple(b"b", 1, b"b1"),
        ]
    );
}

#[test]
fn size_counts_keys_versions_and_values() {
    let mut table = MemTable::new(0);
    table.put(Key::from_slice(b"key1", 0), b"value1").unwrap();
    assert_eq!(table.approximate_size(), 4 + 8 + 6);
    let batch: Vec<(KeySlice, &[u8])> = vec![
        (Key::from_slice(b"k", 1), b""),
        (Key::from_slice(b"", 2), b"vv"),
    ];
    table.put_batch(&batch).unwrap();
    assert_eq!(table.approximate_size(), 18 + 9 + 10);
    table.put(Key::from_slice(b"key1", 0), b"value1").unwrap();
    assert_eq!(table.approximate_size(), 37 + 18);
    let none: Vec<(KeySlice, &[u8])> = vec![];
    table.put_batch(&none).unwrap();
    assert_eq!(table.approximate_size(), 55);
}

#[test]
fn size_does_not_depend_on_batch_order() {
    let b1: Vec<(KeySlice, &[u8])> = vec![(Key::from_slice(b"a", 1), b"one")];
    let b2: Vec<(KeySlice, &[u8])> = vec![
        (Key::from_slice(b"bb", 2), b"two"),
        (Key::from_slice(b"ccc", 3), b"three"),
    ];
    let b3: Vec<(KeySlice, &[u8])> = vec![(Key::from_slice(b"dddd", 4), b"")];
    let orders: Vec<Vec<&Vec<(KeySlice, &[u8])>>> = vec![
        vec![&b1, &b2, &b3],
        vec![&b3, &b2, &b1],
        vec![&b2, &b1, &b3],
    ];
    for order in orders {
        let mut table = MemTable::new(0);
        for batch in order {
            table.put_batch(batch).unwrap();
        }
        assert_eq!(table.approximate_size(), 12 + 13 + 16 + 12);
    }
}

#[test]
fn table_without_log_takes_what_a_log_would_refuse() {
    let long = vec![1u8; 70000];
    let mut table = MemTable::new(0);
    assert_eq!(table.put(Key::from_slice(&long, 1), b"v"), Ok(()));
    assert_eq!(table.get(Key::from_slice(&long, 1)).unwrap().as_ref(), b"v");
    assert_eq!(table.approximate_size(), 70000 + 8 + 1);
    assert_eq!(table.sync_wal(), Vec::<u8>::new());
}

#[test]
fn refused_batch_changes_nothing() {
    let long = vec![1u8; 70000];
    let mut table = MemTable::new_with_wal(0);
    table.put(Key::from_slice(b"a", 1), b"one").unwrap();
    let bad: Vec<(KeySlice, &[u8])> = vec![
        (Key::from_slice(b"b", 1), b"fine"),
        (Key::from_slice(b"c", 1), &long),
    ];
    assert_eq!(table.put_batch(&bad), Err(WalError::EntryTooLarge));
    assert_eq!(table.put(Key::from_slice(&long, 2), b""), Err(WalError::EntryTooLarge));
    assert!(table.get(Key::from_slice(b"b", 1)).is_none());
    assert_eq!(table.approximate_size(), 12);
    assert_eq!(contents(&table.entries()), vec![triple(b"a", 1, b"one")]);
    let single: Vec<(KeySlice, &[u8])> = vec![(Key::from_slice(b"a", 1), b"one")];
    assert_eq!(table.sync_wal(), encode(&single).unwrap());
}

#[test]
fn batch_too_large_for_the_log_changes_nothing() {
    let value = vec![0u8; 65535];
    let count = (u32::MAX as usize) / (12 + 65535) + 1;
    let batch: Vec<(KeySlice, &[u8])> = (0..count)
        .map(|_| (Key::from_slice(b"", 1), value.as_slice()))
        .collect();
    let mut table = MemTable::new_with_wal(0);
    assert_eq!(table.put_batch(&batch), Err(WalError::BatchTooLarge));
    assert!(table.is_empty());
    assert_eq!(table.approximate_size(), 0);
    assert_eq!(table.sync_wal(), Vec::<u8>::new());
}

#[test]
fn log_gets_each_batch_whole() {
    let b1: Vec<(KeySlice, &[u8])> = vec![
        (Key::from_slice(b"a", 1), b"one"),
        (Key::from_slice(b"b", 1), b"two"),
    ];
    let b2: Vec<(KeySlice, &[u8])> = vec![(Key::from_slice(b"c", 2), b"three")];
    let mut table = MemTable::new_with_wal(3);
    table.put_batch(&b1).unwrap();
    table.put_batch(&b2).unwrap();
    table.put(Key::from_slice(b"d", 3), b"four").unwrap();
    let single: Vec<(KeySlice, &[u8])> = vec![(Key::from_slice(b"d", 3), b"four")];
    let mut expected = encode(&b1).unwrap();
    expected.extend_from_slice(&encode(&b2).unwrap());
    expected.extend_from_slice(&encode(&single).unwrap());
    assert_eq!(table.sync_wal(), expected);
    assert_eq!(table.sync_wal(), Vec::<u8>::new());
    assert_eq!(table.id(), 3);
    assert_eq!(table.entries().len(), 4);
}

#[test]
fn recover_rebuilds_the_table() {
    let b1: Vec<(KeySlice, &[u8])> = vec![
        (Key::from_slice(b"a", 1), b"a1"),
        (Key::from_slice(b"b", 1), b"b1"),
    ];
    let b2: Vec<(KeySlice, &[u8])> = vec![
        (Key::from_slice(b"a", 2), b"a2"),
        (Key::from_slice(b"b", 1), b"b1 again"),
    ];
    let b3: Vec<(KeySlice, &[u8])> = vec![
        (Key::from_slice(b"c", 3), b"c3"),
        (Key::from_slice(b"a", 1), b"a1 again"),
    ];
    let mut log: Vec<u8> = vec![];
    let mut table = MemTable::new_with_wal(1);
    for batch in [&b1, &b2, &b3] {
        table.put_batch(batch).unwrap();
        log.extend_from_slice(&table.sync_wal());
    }
    let expected = vec![
        triple(b"a", 2, b"a2"),
        triple(b"a", 1, b"a1 again"),
        triple(b"b", 1, b"b1 again"),
        triple(b"c", 3, b"c3"),
    ];
    assert_eq!(contents(&table.entries()), expected);

    let fresh = MemTable::recover(2, &log);
    assert_eq!(fresh.id(), 2);
    assert_eq!(contents(&fresh.entries()), expected);
    assert_eq!(contents(&fresh.entries()), contents(&table.entries()));
    assert_eq!(fresh.approximate_size(), table.approximate_size());
    assert_eq!(fresh.get(Key::from_slice(b"a", 1)).unwrap().as_ref(), b"a1 again");
}

#[test]
fn recovered_table_has_no_log() {
    let b1: Vec<(KeySlice, &[u8])> = vec![(Key::from_slice(b"a", 1), b"a1")];
    let log = encode(&b1).unwrap();
    let mut table = MemTable::recover(5, &log);
    assert_eq!(table.sync_wal(), Vec::<u8>::new());
    table.put(Key::from_slice(b"b", 2), b"b2").unwrap();
    assert_eq!(table.sync_wal(), Vec::<u8>::new());
    assert_eq!(
        contents(&table.entries()),
        vec![triple(b"a", 1, b"a1"), triple(b"b", 2, b"b2")]
    );
}

#[test]
fn recover_from_damaged_log_keeps_the_good_prefix() {
    let b1: Vec<(KeySlice, &[u8])> = vec![(Key::from_slice(b"a", 1), b"a1")];
    let b2: Vec<(KeySlice, &[u8])> = vec![(Key::from_slice(b"b", 2), b"b2")];
    let b3: Vec<(KeySlice, &[u8])> = vec![(Key::from_slice(b"c", 3), b"c3")];
    let mut log = encode(&b1).unwrap();
    let mut second = encode(&b2).unwrap();
    let last = second.len() - 1;
    second[last] ^= 0x80;
    log.extend_from_slice(&second);
    log.extend_from_slice(&encode(&b3).unwrap());
    let table = MemTable::recover(0, &log);
    assert_eq!(contents(&table.entries()), vec![triple(b"a", 1, b"a1")]);
    assert_eq!(table.approximate_size(), 1 + 8 + 2);
    assert_eq!(contents(&Wal::recover(&log)), vec![triple(b"a", 1, b"a1")]);
}

#[test]
fn recover_from_empty_log() {
    let table = MemTable::recover(9, &[]);
    assert!(table.is_empty());
    assert_eq!(table.id(), 9);
    assert_eq!(table.approximate_size(), 0);
}

#[test]
fn get_hands_out_values_that_outlive_the_table() {
    let value = {
        let mut table = MemTable::new(0);
        table.put(Key::from_slice(b"a", 1), b"kept").unwrap();
        table.get(Key::from_slice(b"a", 1)).unwrap()
    };
    assert_eq!(value.as_ref(), b"kept");
}
