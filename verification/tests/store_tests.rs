use minkv::config::Config;
use minkv::error::OpError;
use minkv::store::{new_store, SealedFile, Store};

fn small_config(file_max_size: usize, merge_file_num: usize) -> Config {
    let mut cfg = Config::new();
    cfg.db_dir = "dbdata".to_string();
    cfg.file_max_size = file_max_size;
    cfg.merge_file_num = merge_file_num;
    cfg
}

fn snapshot_images(store: &Store) -> (Vec<SealedFile>, Vec<u8>) {
    let files = store
        .sealed
        .iter()
        .map(|f| SealedFile {
            seq: f.seq,
            data: f.data.clone(),
            hint: f.hint.clone(),
        })
        .collect();
    (files, store.active.clone())
}

fn reopen_at(store: &Store, now_ms: u64) -> Store {
    let (files, active) = snapshot_images(store);
    let mut fresh = new_store(store.config.clone());
    fresh.start_at(files, active, now_ms);
    fresh
}

#[test]
fn scenario_two_keys() {
    let mut store = new_store(Config::new());
    store.set(&b"a".to_vec(), &b"1".to_vec(), 0);
    store.set(&b"b".to_vec(), &b"2".to_vec(), 0);
    assert_eq!(store.get(&b"a".to_vec()), Ok(b"1".to_vec()));
    assert_eq!(store.get(&b"b".to_vec()), Ok(b"2".to_vec()));
    assert_eq!(store.len(), 2);
}

#[test]
fn scenario_set_delete() {
    let mut store = new_store(Config::new());
    store.set(&b"k".to_vec(), &b"x".to_vec(), 0);
    store.delete(&b"k".to_vec());
    assert_eq!(store.get(&b"k".to_vec()), Err(OpError::KeyNotFound));
    assert_eq!(store.len(), 0);
}

#[test]
fn round_trip_many_distinct_keys() {
    let mut store = new_store(small_config(256, 100));
    for i in 0..120u32 {
        let key = format!("key{}", i).into_bytes();
        let value = format!("value{}", i * 3).into_bytes();
        store.set(&key, &value, 0);
    }
    for i in 0..120u32 {
        let key = format!("key{}", i).into_bytes();
        let value = format!("value{}", i * 3).into_bytes();
        assert_eq!(store.get(&key), Ok(value));
    }
    assert_eq!(store.len(), 120);
}

#[test]
fn last_write_wins() {
    let mut store = new_store(Config::new());
    store.set(&b"k".to_vec(), &b"a".to_vec(), 0);
    store.set(&b"k".to_vec(), &b"b".to_vec(), 0);
    assert_eq!(store.get(&b"k".to_vec()), Ok(b"b".to_vec()));
    assert_eq!(store.len(), 1);
}

#[test]
fn expiry_is_observed() {
    let mut store = new_store(Config::new());
    // an already-passed, non-zero expiry: the value must not come back
    store.set(&b"k".to_vec(), &b"v".to_vec(), 1);
    assert!(store.get(&b"k".to_vec()).is_err());
    // the record itself is still surrendered, expiry included
    let entry = store.get_entry(&b"k".to_vec()).unwrap();
    assert_ne!(entry.timestamp, 0);
    assert_eq!(entry.value, b"v".to_vec());
    // a far-future expiry behaves like a live value
    store.set(&b"k2".to_vec(), &b"v2".to_vec(), u64::MAX);
    assert_eq!(store.get(&b"k2".to_vec()), Ok(b"v2".to_vec()));
    // no expiry never expires
    store.set(&b"k3".to_vec(), &b"v3".to_vec(), 0);
    assert_eq!(store.get(&b"k3".to_vec()), Ok(b"v3".to_vec()));
}

#[test]
fn scenario_rotation_produces_sealed_files() {
    let mut store = new_store(small_config(128, 1000));
    let mut total: usize = 0;
    for i in 0..200u32 {
        let key = format!("k{}", i).into_bytes();
        let value = format!("{}", i).into_bytes();
        total += 25 + key.len() + value.len();
        store.set(&key, &value, 0);
    }
    let need = total.div_ceil(128);
    assert!(store.sealed.len() + 1 >= need);
    assert!(store.sealed.len() >= 1);
    for (i, f) in store.sealed.iter().enumerate() {
        assert_eq!(f.seq as usize, i + 1);
    }
    for i in 0..200u32 {
        let key = format!("k{}", i).into_bytes();
        let value = format!("{}", i).into_bytes();
        assert_eq!(store.get(&key), Ok(value));
    }
    assert_eq!(store.len(), 200);
}

#[test]
fn durability_across_reopen() {
    let mut store = new_store(small_config(128, 1000));
    for i in 0..40u32 {
        let key = format!("k{}", i).into_bytes();
        let value = format!("v{}", i).into_bytes();
        store.set(&key, &value, 0);
    }
    store.delete(&b"k7".to_vec());
    store.set(&b"k3".to_vec(), &b"rewritten".to_vec(), 0);

    let reopened = reopen_at(&store, 0);
    assert_eq!(reopened.len(), store.len());
    assert_eq!(reopened.get(&b"k3".to_vec()), Ok(b"rewritten".to_vec()));
    assert_eq!(reopened.get(&b"k7".to_vec()), Err(OpError::KeyNotFound));
    for i in 0..40u32 {
        if i == 7 {
            continue;
        }
        let key = format!("k{}", i).into_bytes();
        assert_eq!(reopened.get(&key), store.get(&key));
    }
}

#[test]
fn compaction_is_a_noop_on_observable_state() {
    let mut store = new_store(small_config(128, 1000));
    for i in 0..60u32 {
        let key = format!("k{}", i % 20).into_bytes();
        let value = format!("v{}", i).into_bytes();
        store.set(&key, &value, 0);
    }
    store.delete(&b"k5".to_vec());

    let len_before = store.len();
    let mut before = Vec::new();
    for i in 0..20u32 {
        let key = format!("k{}", i).into_bytes();
        before.push(store.get(&key));
    }

    store.compaction();
    assert_eq!(store.len(), len_before);
    for i in 0..20u32 {
        let key = format!("k{}", i).into_bytes();
        assert_eq!(store.get(&key), before[i as usize]);
    }

    // running it again on the already-compacted, idle store changes nothing
    store.compaction();
    assert_eq!(store.len(), len_before);
    for i in 0..20u32 {
        let key = format!("k{}", i).into_bytes();
        assert_eq!(store.get(&key), before[i as usize]);
    }
}

#[test]
fn scenario_compaction_writes_hints_and_reopen_uses_them() {
    let mut store = new_store(small_config(120, 2));
    let mut signalled = false;
    for i in 0..120u32 {
        let key = format!("k{}", i % 10).into_bytes();
        let value = format!("value-{}", i).into_bytes();
        store.set(&key, &value, 0);
        signalled = signalled || store.take_compaction_signal();
    }
    assert!(store.sealed.len() >= 3);
    assert!(signalled);

    let sealed_before = store.sealed.len();
    store.compaction();

    // the new sealed set covers only live keys, with a hint per file
    assert!(store.sealed.len() <= sealed_before);
    assert!(store.sealed.len() >= 1);
    for f in &store.sealed {
        assert!(f.hint.is_some());
        assert!(!f.hint.as_ref().unwrap().is_empty());
    }

    // recovery from the hint files rebuilds the same observable state
    let reopened = reopen_at(&store, 0);
    assert_eq!(reopened.len(), store.len());
    for i in 0..10u32 {
        let key = format!("k{}", i).into_bytes();
        assert_eq!(reopened.get(&key), store.get(&key));
    }
}

#[test]
fn crc_bit_flips_are_detected() {
    let mut base = new_store(Config::new());
    base.set(&b"k".to_vec(), &b"v".to_vec(), 0);
    let record_len = base.active.len();

    for bit in 0..record_len * 8 {
        let mut corrupted = base.active.clone();
        corrupted[bit / 8] ^= 1 << (bit % 8);
        let mut fresh = new_store(Config::new());
        fresh.start_at(Vec::new(), corrupted, 0);
        let got = fresh.get(&b"k".to_vec());
        assert!(got.is_err(), "bit {} went unnoticed", bit);
    }

    // a flip inside the value itself is caught by the checksum in particular
    let value_bit = (record_len - 1) * 8;
    let mut corrupted = base.active.clone();
    corrupted[value_bit / 8] ^= 1;
    let mut fresh = new_store(Config::new());
    fresh.start_at(Vec::new(), corrupted, 0);
    assert_eq!(fresh.get(&b"k".to_vec()), Err(OpError::ValueInvalid));
}

#[test]
fn scenario_torn_tail_is_ignored() {
    let mut store = new_store(small_config(128, 1000));
    for i in 0..25u32 {
        let key = format!("k{}", i).into_bytes();
        let value = format!("v{}", i).into_bytes();
        store.set(&key, &value, 0);
    }
    let mut junk: Vec<u8> = Vec::new();
    let mut x: u8 = 37;
    for len in 1..=24usize {
        junk.push(x);
        x = x.wrapping_mul(31).wrapping_add(17);
        assert_eq!(junk.len(), len);

        let (files, mut active) = snapshot_images(&store);
        active.extend_from_slice(&junk);
        let mut fresh = new_store(store.config.clone());
        fresh.start_at(files, active, 0);

        assert_eq!(fresh.len(), store.len());
        for i in 0..25u32 {
            let key = format!("k{}", i).into_bytes();
            assert_eq!(fresh.get(&key), store.get(&key));
        }
    }
}

#[test]
fn get_entry_reports_missing_keys() {
    let store = new_store(Config::new());
    assert!(matches!(
        store.get_entry(&b"nope".to_vec()),
        Err(OpError::KeyNotFound)
    ));
}

#[test]
fn delete_appends_a_tombstone_even_for_absent_keys() {
    let mut store = new_store(Config::new());
    let before = store.active.len();
    store.delete(&b"ghost".to_vec());
    assert!(store.active.len() > before);
    assert_eq!(store.len(), 0);
}
