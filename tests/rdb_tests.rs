use redis_starter_rust::rdb::{
    check_magic, check_version, parse, read_hash_size, read_header, read_string_key_value,
    RdbError,
};

#[test]
fn should_fail_with_wrong_magic() {
    let data: &[u8] = b"REDICK0006";
    assert!(read_header(data).is_err());
}

#[test]
fn should_read_header() {
    let data: &[u8] = b"REDIS0007";
    assert!(read_header(data).is_ok());
}

#[test]
fn header_errors() {
    assert_eq!(check_magic(b"RED"), Err(RdbError::UnexpectedEnd));
    assert_eq!(check_magic(b"redis0011"), Err(RdbError::WrongMagic));
    assert_eq!(check_version(b"REDIS00x1"), Err(RdbError::BadVersion));
    assert_eq!(check_version(b"REDIS001"), Err(RdbError::UnexpectedEnd));
    assert_eq!(read_header(b"REDIS0011"), Ok(()));
}

fn snapshot(records: &[u8], count: u8) -> Vec<u8> {
    let mut data = b"REDIS0011".to_vec();
    data.extend_from_slice(&[0xfa, 3, b'v', b'e', b'r', 1, b'7']);
    data.extend_from_slice(&[0xfe, 0x00, 0xfb, count, 1]);
    data.extend_from_slice(records);
    data.push(0xff);
    data
}

#[test]
fn reads_keys_and_expiries() {
    let mut records = vec![0x00, 5];
    records.extend_from_slice(b"mykey");
    records.push(5);
    records.extend_from_slice(b"myval");
    // expires at 10_000 ms
    records.push(0xfc);
    records.extend_from_slice(&10_000u64.to_le_bytes());
    records.extend_from_slice(&[0x00, 1, b'a', 1, b'1']);
    // expired at 2 s
    records.push(0xfd);
    records.extend_from_slice(&2u32.to_le_bytes());
    records.extend_from_slice(&[0x00, 1, b'b', 1, b'2']);
    let data = snapshot(&records, 3);
    let file = parse(&data, 4_000).unwrap();
    assert_eq!(
        file.key_vals,
        vec![
            ("mykey".to_owned(), "myval".to_owned()),
            ("a".to_owned(), "1".to_owned())
        ]
    );
    assert_eq!(file.key_expires, vec![("a".to_owned(), 6_000)]);
    let later = parse(&data, 1_000).unwrap();
    assert_eq!(later.key_expires, vec![("a".to_owned(), 9_000), ("b".to_owned(), 1_000)]);
}

#[test]
fn snapshot_errors() {
    assert_eq!(parse(b"REDIS0011\xfa", 0), Err(RdbError::UnexpectedEnd));
    assert_eq!(parse(&snapshot(&[0x01, 1, b'k', 1, b'v'], 1), 0), Err(RdbError::UnsupportedValueType));
    assert_eq!(parse(&snapshot(&[0x00, 1, 0xff, 1, b'v'], 1), 0), Err(RdbError::InvalidUtf8));
    assert_eq!(parse(&snapshot(&[0x00, 9, b'k'], 1), 0), Err(RdbError::UnexpectedEnd));
    assert_eq!(parse(b"XEDIS0011", 0), Err(RdbError::WrongMagic));
}

#[test]
fn record_and_size_readers() {
    assert_eq!(read_hash_size(&[7, 2], 0), Ok((7, 2)));
    assert_eq!(read_hash_size(&[7], 0), Err(RdbError::UnexpectedEnd));
    let rec = [0xfd, 1, 0, 0, 0, 0x00, 1, b'k', 2, b'v', b'w'];
    assert_eq!(
        read_string_key_value(&rec, 0),
        Ok(("k".to_owned(), "vw".to_owned(), Some(1_000), rec.len()))
    );
}

#[test]
fn last_record_of_a_key_wins() {
    let mut records = Vec::new();
    // "k" first expires at 10 s, then again with no expiry, then at 20 s
    records.push(0xfc);
    records.extend_from_slice(&10_000u64.to_le_bytes());
    records.extend_from_slice(&[0x00, 1, b'k', 1, b'1']);
    records.extend_from_slice(&[0x00, 1, b'k', 1, b'2']);
    records.extend_from_slice(&[0x00, 1, b'j', 1, b'x']);
    records.push(0xfc);
    records.extend_from_slice(&20_000u64.to_le_bytes());
    records.extend_from_slice(&[0x00, 1, b'k', 1, b'3']);
    let data = snapshot(&records, 4);
    let file = parse(&data, 1_000).unwrap();
    assert_eq!(
        file.key_vals,
        vec![("k".to_owned(), "3".to_owned()), ("j".to_owned(), "x".to_owned())]
    );
    assert_eq!(file.key_expires, vec![("k".to_owned(), 19_000)]);
    let two = parse(&snapshot(&records[..19], 2), 1_000).unwrap();
    assert_eq!(two.key_vals, vec![("k".to_owned(), "2".to_owned())]);
    assert!(two.key_expires.is_empty());
}
