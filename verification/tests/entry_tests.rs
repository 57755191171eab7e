use minkv::entry::{parse_entries, Entry, Op, HEADER_SIZE};

#[test]
fn entry_new() {
    let key = "foo";
    let value = "1";

    let entry = Entry::new(key.as_bytes().to_vec(), value.as_bytes().to_vec(), 0);
    assert_eq!(entry.key, key.as_bytes().to_vec());
    assert_eq!(entry.value, value.as_bytes().to_vec());

    let crc = 12345;
    assert_ne!(crc, entry.crc);
}

#[test]
fn entry_into_bytes() {
    let key1 = "name".as_bytes();
    let value1 = "li".as_bytes();

    // create an entry
    let entry = Entry::new(key1.to_vec(), value1.to_vec(), 0);
    let e_key = &entry.key;
    let e_value = &entry.value;
    let e_key_size = entry.key_size as u32;
    let e_value_size = entry.value_size as u64;
    let e_timestamp = entry.timestamp;
    let op = Op::Add;
    assert_eq!(key1.to_vec(), *e_key);
    assert_eq!(value1.to_vec(), *e_value);
    assert_eq!(key1.len() as u32, e_key_size);
    assert_eq!(value1.len() as u64, e_value_size);
    assert_eq!(Op::Add, entry.op);

    // entry into bytes
    let bytes: Vec<u8> = entry.as_bytes();
    assert_ne!(0, bytes.len());

    // and back
    let rentry = Entry::try_from_bytes(&bytes);
    assert!(rentry.is_ok());

    let ins = rentry.unwrap();
    assert_eq!(key1.to_vec(), ins.key);
    assert_eq!(value1.to_vec(), ins.value);
    assert_eq!(e_key_size, ins.key_size);
    assert_eq!(e_value_size, ins.value_size);
    assert_eq!(e_timestamp, ins.timestamp);
    assert_eq!(op, ins.op);
    assert!(ins.is_valid());
}

#[test]
fn entry_layout_is_bit_exact() {
    let entry = Entry::new(b"k".to_vec(), b"vv".to_vec(), 7);
    let bytes = entry.as_bytes();
    assert_eq!(bytes.len(), HEADER_SIZE + 1 + 2);
    // crc | timestamp | key_size | value_size | op | key | value
    assert_eq!(&bytes[0..4], &entry.crc.to_le_bytes());
    assert_eq!(&bytes[4..12], &7u64.to_le_bytes());
    assert_eq!(&bytes[12..16], &1u32.to_le_bytes());
    assert_eq!(&bytes[16..24], &2u64.to_le_bytes());
    assert_eq!(bytes[24], 0);
    assert_eq!(&bytes[25..26], b"k");
    assert_eq!(&bytes[26..28], b"vv");
}

#[test]
fn entry_crc_detects_change() {
    let entry = Entry::new(b"alpha".to_vec(), b"beta".to_vec(), 0);
    assert!(entry.is_valid());
    let mut tampered = Entry::try_from_bytes(&entry.as_bytes()).unwrap();
    tampered.value[0] ^= 0x01;
    assert!(!tampered.is_valid());
}

#[test]
fn entry_tombstone_and_expiry_flags() {
    let entry = Entry::new(b"k".to_vec(), vec![], 0).set_removed();
    assert!(entry.is_removed());
    assert!(entry.is_valid());
    assert!(!entry.is_expired());

    let e2 = Entry::new(b"k".to_vec(), b"v".to_vec(), 5);
    assert!(!e2.is_expired_at(5));
    assert!(e2.is_expired_at(6));
    let e3 = e2.with_timestamp(0);
    assert!(!e3.is_expired_at(u64::MAX));
    assert!(e3.is_valid());
}

#[test]
fn op_codec() {
    assert_eq!(Op::from_u8(0), Some(Op::Add));
    assert_eq!(Op::from_u8(1), Some(Op::Put));
    assert_eq!(Op::from_u8(2), Some(Op::Del));
    assert_eq!(Op::from_u8(3), None);
    assert_eq!(Op::Del.to_u8(), 2);
    assert_eq!(Op::Put.to_le_bytes(), vec![1u8]);
    assert_eq!(Op::from_le_bytes(&[2]), Ok(Op::Del));
    assert!(Op::from_le_bytes(&[9]).is_err());
    assert!(Op::from_le_bytes(&[0, 0]).is_err());
}

#[test]
fn parse_entries_round_trip_and_offsets() {
    let a = Entry::new(b"a".to_vec(), b"1".to_vec(), 0);
    let b = Entry::new(b"bb".to_vec(), b"22".to_vec(), 9);
    let mut log = a.as_bytes();
    log.extend_from_slice(&b.as_bytes());

    let parsed = parse_entries(&log);
    assert_eq!(parsed.len(), 2);
    assert_eq!(parsed[0].value_pos, 0);
    assert_eq!(parsed[0].entry.key, b"a".to_vec());
    assert_eq!(parsed[0].entry.value, b"1".to_vec());
    assert_eq!(parsed[1].value_pos, a.size() as u64);
    assert_eq!(parsed[1].entry.key, b"bb".to_vec());
    assert_eq!(parsed[1].entry.timestamp, 9);
    assert!(parsed[0].entry.is_valid());
    assert!(parsed[1].entry.is_valid());
}

#[test]
fn parse_entries_stops_at_torn_tail() {
    let a = Entry::new(b"a".to_vec(), b"1".to_vec(), 0);
    let mut log = a.as_bytes();
    // a partial header at the end must be ignored
    log.extend_from_slice(&[1, 2, 3, 4, 5]);
    let parsed = parse_entries(&log);
    assert_eq!(parsed.len(), 1);
    assert_eq!(parsed[0].entry.key, b"a".to_vec());

    // a truncated body must be ignored as well
    let b = Entry::new(b"bb".to_vec(), b"2222".to_vec(), 0);
    let mut log2 = a.as_bytes();
    let bb = b.as_bytes();
    log2.extend_from_slice(&bb[..bb.len() - 1]);
    let parsed2 = parse_entries(&log2);
    assert_eq!(parsed2.len(), 1);
}

#[test]
fn try_from_bytes_rejects_short_input() {
    let e = Entry::new(b"key".to_vec(), b"value".to_vec(), 0);
    let bytes = e.as_bytes();
    assert!(Entry::try_from_bytes(&bytes[..10].to_vec()).is_err());
    assert!(Entry::try_from_bytes(&bytes[..bytes.len() - 1].to_vec()).is_err());
    // a meaningless operation byte is refused
    let mut bad_op = bytes.clone();
    bad_op[24] = 7;
    assert!(Entry::try_from_bytes(&bad_op).is_err());
}
