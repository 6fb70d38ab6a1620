use dht_lens::metadata::decode::decode_text;
use dht_lens::metadata::parser::{parse_info_metadata, parse_torrent_metainfo, MetadataError};
use sha1::{Digest, Sha1};

#[test]
fn text_in_a_named_encoding_is_decoded() {
    assert_eq!(decode_text("plain".as_bytes(), None), "plain");
    assert_eq!(decode_text(&[0xc4, 0xe3, 0xba, 0xc3], Some(b"gbk")), "你好");
}

#[test]
fn metainfo_gives_the_info_hash_and_files() {
    let info = b"d5:filesld6:lengthi1e4:pathl1:aeed6:lengthi2e4:pathl1:b1:ceee4:name1:xe";
    let mut torrent = b"d8:encoding5:UTF-84:info".to_vec();
    torrent.extend_from_slice(info);
    torrent.push(b'e');
    let (hash, parsed) = parse_torrent_metainfo(&torrent).unwrap();
    let mut expected = [0u8; 20];
    expected.copy_from_slice(&Sha1::digest(info));
    assert_eq!(hash, expected);
    assert_eq!(parsed.name, "x");
    assert_eq!(parsed.total_size, 3);
    assert_eq!(parsed.files.len(), 2);
    assert_eq!(parsed.files[1].path, "b/c");
    assert!(matches!(parse_torrent_metainfo(b"le"), Err(MetadataError::RootNotDict)));
    assert!(matches!(parse_torrent_metainfo(b"de"), Err(MetadataError::MissingInfo)));
    assert!(matches!(parse_torrent_metainfo(b"d4:infoi1ee"), Err(MetadataError::InfoNotDict)));
    assert!(matches!(parse_torrent_metainfo(b"d4:infodee"), Err(MetadataError::MissingName)));
    assert!(matches!(parse_torrent_metainfo(b"x"), Err(MetadataError::Bencode(_))));
}

#[test]
fn info_metadata_must_match_its_hash() {
    let info = b"d6:lengthi5e4:name3:abce";
    let mut hash = [0u8; 20];
    hash.copy_from_slice(&Sha1::digest(info));
    let parsed = parse_info_metadata(&hash, info).unwrap();
    assert_eq!((parsed.name.as_str(), parsed.total_size, parsed.files.len()), ("abc", 5, 1));
    assert!(matches!(parse_info_metadata(&[0u8; 20], info), Err(MetadataError::HashMismatch)));
}

#[test]
fn text_without_a_usable_hint_is_guessed_or_decoded_lossily() {
    // an unknown label falls back to what the detector guesses
    let bytes = [0xc4u8, 0xe3, 0xba, 0xc3, 0xca, 0xc0, 0xbd, 0xe7];
    let mut detector = chardetng::EncodingDetector::new();
    detector.feed(&bytes, true);
    let (guessed, _, had_errors) = detector.guess(None, true).decode(&bytes);
    let expected = if had_errors { String::from_utf8_lossy(&bytes).into_owned() } else { guessed.into_owned() };
    assert_eq!(decode_text(&bytes, Some(b"no-such-label")), expected);
    assert_eq!(decode_text(&bytes, None), expected);
    // a label is used even where the bytes are malformed in it
    assert_eq!(decode_text(&[0xff], Some(b"utf-8")), "\u{fffd}");
}

#[test]
fn metainfo_texts_follow_its_encoding_field() {
    let info = b"d6:lengthi1e4:name2:\xc4\xe3e";
    let mut torrent = b"d8:encoding3:gbk4:info".to_vec();
    torrent.extend_from_slice(info);
    torrent.push(b'e');
    let (_, parsed) = parse_torrent_metainfo(&torrent).unwrap();
    assert_eq!(parsed.name, "你");
    assert_eq!(parsed.files[0].path, "你");
}
