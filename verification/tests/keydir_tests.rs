use minkv::keydir::{Keydir, Metadata, OpKeydir};

fn meta(file_id: u16, pos: u64, sz: u64, ts: u64) -> Metadata {
    Metadata {
        file_id,
        value_sz: sz,
        value_pos: pos,
        tstamp: ts,
    }
}

#[test]
fn keydir_set_get_remove_len() {
    let mut kd = Keydir::new();
    assert_eq!(kd.len(), 0);
    kd.set(&b"a".to_vec(), meta(0, 0, 30, 0));
    kd.set(&b"b".to_vec(), meta(0, 30, 31, 5));
    assert_eq!(kd.len(), 2);

    let a = kd.get(&b"a".to_vec()).unwrap();
    assert_eq!(a.value_pos, 0);
    assert_eq!(a.value_sz, 30);

    // overwriting keeps one entry per key
    kd.set(&b"a".to_vec(), meta(0, 61, 32, 0));
    assert_eq!(kd.len(), 2);
    assert_eq!(kd.get(&b"a".to_vec()).unwrap().value_pos, 61);

    kd.remove(&b"a".to_vec());
    assert_eq!(kd.len(), 1);
    assert!(kd.get(&b"a".to_vec()).is_err());
    // removing an absent key changes nothing
    kd.remove(&b"a".to_vec());
    assert_eq!(kd.len(), 1);
}

#[test]
fn keydir_keys_and_iter() {
    let mut kd = Keydir::new();
    kd.set(&b"x".to_vec(), meta(1, 0, 26, 0));
    kd.set(&b"y".to_vec(), meta(2, 10, 26, 0));
    let mut keys = kd.keys();
    keys.sort();
    assert_eq!(keys, vec![b"x".to_vec(), b"y".to_vec()]);
    assert_eq!(kd.iter().len(), 2);
}

#[test]
fn keydir_extend_later_wins() {
    let mut kd = Keydir::new();
    kd.set(&b"a".to_vec(), meta(1, 0, 26, 0));
    kd.extend(vec![
        (b"a".to_vec(), meta(3, 7, 26, 0)),
        (b"b".to_vec(), meta(3, 33, 26, 0)),
        (b"b".to_vec(), meta(3, 59, 26, 0)),
    ]);
    assert_eq!(kd.len(), 2);
    assert_eq!(kd.get(&b"a".to_vec()).unwrap().file_id, 3);
    assert_eq!(kd.get(&b"b".to_vec()).unwrap().value_pos, 59);
}

#[test]
fn keydir_update_key_rewrites_active_entries() {
    let mut kd = Keydir::new();
    kd.set(&b"live".to_vec(), meta(0, 0, 26, 0));
    kd.set(&b"old".to_vec(), meta(2, 5, 26, 0));
    kd.update_key(7);
    assert_eq!(kd.get(&b"live".to_vec()).unwrap().file_id, 7);
    assert_eq!(kd.get(&b"old".to_vec()).unwrap().file_id, 2);
    // positions and sizes are untouched
    assert_eq!(kd.get(&b"live".to_vec()).unwrap().value_sz, 26);
}
