use dht_lens::bencode::Value;
use dht_lens::config::StorageConfig;
use dht_lens::crawler::{build_record, bytes_value, decode_info_hash_hex, decode_lossy, int_value, path_value, truncate, CrawlError, InfoHashError};
use dht_lens::model::Source;

fn storage() -> StorageConfig {
    StorageConfig { enabled: true, database_url: None, auth_token: None, max_files_per_torrent: 1, max_file_path_len: 5 }
}

#[test]
fn lossy_text_is_trimmed() {
    assert_eq!(decode_lossy(b"\0\0  name \0"), "name");
    assert_eq!(decode_lossy(b"a\xffb"), "a\u{fffd}b");
}

#[test]
fn truncate_cuts_at_a_character_boundary() {
    assert_eq!(truncate("abcdef".to_string(), 3), "abc");
    assert_eq!(truncate("aé".to_string(), 2), "a");
    assert_eq!(truncate("ab".to_string(), 5), "ab");
}

#[test]
fn values_and_paths() {
    assert_eq!(bytes_value(&Value::Bytes(b"x".to_vec())), Some(&b"x"[..]));
    assert_eq!(bytes_value(&Value::Int(1)), None);
    assert_eq!(int_value(Some(&Value::Int(5))), Some(5));
    assert_eq!(int_value(Some(&Value::Int(-5))), None);
    assert_eq!(int_value(None), None);
    let parts = Value::List(vec![Value::Bytes(b"dir".to_vec()), Value::Bytes(b"".to_vec()), Value::Int(3), Value::Bytes(b"f.txt".to_vec())]);
    assert_eq!(path_value(&parts).as_deref(), Some("dir/f.txt"));
    assert_eq!(path_value(&Value::List(vec![])), None);
    assert_eq!(path_value(&Value::Bytes(b"one".to_vec())).as_deref(), Some("one"));
}

#[test]
fn info_hashes_are_forty_hex_digits() {
    let h = decode_info_hash_hex(&"0A".repeat(20)).unwrap();
    assert_eq!(h, [10u8; 20]);
    assert_eq!(decode_info_hash_hex("zz"), Err(InfoHashError::InvalidHex));
    assert_eq!(decode_info_hash_hex("abc"), Err(InfoHashError::InvalidHex));
    assert_eq!(decode_info_hash_hex("abcd"), Err(InfoHashError::WrongLength));
}

#[test]
fn records_from_info_dictionaries() {
    let rec = build_record([0xcd; 20], b"d5:filesld6:lengthi7e4:pathl9:abcdefghieed6:lengthi3e4:pathl1:xeee4:name3:dire", &storage()).unwrap();
    assert_eq!(rec.name, "dir");
    assert_eq!(rec.total_size, 10);
    assert_eq!(rec.file_count, 2);
    assert_eq!(rec.files_stored_count, 1);
    assert_eq!(rec.files[0].path, "abcde");
    assert_eq!(rec.info_hash, "cd".repeat(20));
    assert_eq!(rec.source, Source::DhtAnnouncePeer);
    let single = build_record([1; 20], b"d6:lengthi42e4:name0:e", &storage()).unwrap();
    assert_eq!(single.name, "01".repeat(20));
    assert_eq!(single.files[0].path, "01010");
    assert_eq!(single.total_size, 42);
}

#[test]
fn record_errors() {
    assert!(matches!(build_record([0; 20], b"x", &storage()), Err(CrawlError::InvalidBencode(_))));
    assert_eq!(build_record([0; 20], b"le", &storage()).unwrap_err(), CrawlError::NotADict);
    assert_eq!(build_record([0; 20], b"d4:name1:xe", &storage()).unwrap_err(), CrawlError::MissingLength);
    assert_eq!(build_record([0; 20], b"d5:filesle4:name1:xe", &storage()).unwrap_err(), CrawlError::NoFiles);
    let m = i64::MAX;
    let big = format!("d5:filesld6:lengthi{m}e4:pathl1:aeed6:lengthi{m}e4:pathl1:beed6:lengthi{m}e4:pathl1:ceee4:name1:xe");
    assert_eq!(build_record([0; 20], big.as_bytes(), &storage()).unwrap_err(), CrawlError::SizeOverflow);
}

#[test]
fn decoded_hex_re_encodes_in_lower_case() {
    let text = "0A1b2C3d4E5f60718293A4B5C6D7E8F901234567";
    let h = decode_info_hash_hex(text).unwrap();
    assert_eq!(hex::encode(h), text.to_ascii_lowercase());
}

#[test]
fn valid_utf8_names_and_paths_are_kept() {
    assert_eq!(decode_lossy(b"\0 abc \0"), "abc");
    assert_eq!(decode_lossy(b"\xffa"), "\u{FFFD}a");
    let parts = Value::List(vec![Value::Bytes(b"a".to_vec()), Value::Bytes(b"".to_vec()), Value::Int(1), Value::Bytes(b"b".to_vec())]);
    assert_eq!(path_value(&parts).as_deref(), Some("a/b"));
    assert_eq!(path_value(&Value::List(vec![Value::Bytes(b"".to_vec())])), None);
    assert_eq!(path_value(&Value::Bytes(b" x ".to_vec())).as_deref(), Some("x"));
    assert_eq!(path_value(&Value::Int(3)), None);
    let cfg = StorageConfig { enabled: true, database_url: None, auth_token: None, max_files_per_torrent: 2000, max_file_path_len: 1024 };
    let rec = build_record([0u8; 20], b"d6:lengthi5e4:name3:abce", &cfg).unwrap();
    assert_eq!(rec.name, "abc");
    assert_eq!((rec.files.len(), rec.files[0].path.as_str(), rec.files[0].size), (1, "abc", 5));
    assert_eq!((rec.total_size, rec.file_count), (5, 1));
    let rec = build_record([0u8; 20], b"d6:lengthi5e4:name0:e", &cfg).unwrap();
    assert_eq!(rec.name, "0".repeat(40));
}
