use minkv::entry::Entry;
use minkv::hint::{parse_hints, Hint, HINT_HEADER_SIZE};

#[test]
fn hit_write_and_read() {
    let mut image: Vec<u8> = Vec::new();

    let mut offset = 0;
    for num in 1..=2 {
        let key: Vec<u8> = num.to_string().into_bytes();
        let value: Vec<u8> = (num * 2).to_string().into_bytes();

        let entry = Entry::new(key.clone(), value, 0);

        let ht = Hint {
            timestamp: entry.timestamp,
            key_size: entry.key_size,
            value_pos: offset,
            value_size: entry.size() as u64,
            key: key.clone(),
        };
        offset += entry.size() as u64;

        let hint_bytes: Vec<u8> = ht.as_bytes();
        image.extend_from_slice(&hint_bytes);
    }

    let result: Vec<Hint> = parse_hints(&image);
    assert_eq!(2, result.len());

    let mut offset: u64 = 0;
    for item in result {
        assert_eq!(offset, item.value_pos);
        offset += item.value_size;
    }
}

#[test]
fn hint_layout_is_bit_exact() {
    let h = Hint {
        timestamp: 3,
        key_size: 2,
        value_size: 29,
        value_pos: 58,
        key: b"ab".to_vec(),
    };
    let bytes = h.as_bytes();
    assert_eq!(bytes.len(), HINT_HEADER_SIZE + 2);
    assert_eq!(&bytes[0..8], &3u64.to_le_bytes());
    assert_eq!(&bytes[8..12], &2u32.to_le_bytes());
    assert_eq!(&bytes[12..20], &29u64.to_le_bytes());
    assert_eq!(&bytes[20..28], &58u64.to_le_bytes());
    assert_eq!(&bytes[28..30], b"ab");
}

#[test]
fn parse_hints_stops_at_torn_tail() {
    let h = Hint {
        timestamp: 0,
        key_size: 1,
        value_size: 27,
        value_pos: 0,
        key: b"k".to_vec(),
    };
    let mut image = h.as_bytes();
    image.extend_from_slice(&[9, 9, 9]);
    let parsed = parse_hints(&image);
    assert_eq!(parsed.len(), 1);
    assert_eq!(parsed[0].key, b"k".to_vec());
    assert_eq!(parsed[0].value_size, 27);
}
