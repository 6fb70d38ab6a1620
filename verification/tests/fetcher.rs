use dht_lens::dht::PeerAddr;
use dht_lens::metadata::fetcher::{
    decode_added, decode_added6, parse_pex_peers, FetchAction, FetchError, MetadataFetch, MetadataFetchResult, LOCAL_METADATA_ID,
};
use dht_lens::metadata::parser::MetadataError;
use sha1::{Digest, Sha1};

fn sha1(data: &[u8]) -> [u8; 20] {
    let d = Sha1::digest(data);
    let mut out = [0u8; 20];
    out.copy_from_slice(&d);
    out
}

#[test]
fn added_lists_decode_to_addresses() {
    assert_eq!(decode_added(&[1, 2, 3, 4, 0x1a, 0xe1, 9]), vec![PeerAddr::V4(0x01020304, 6881)]);
    let mut d6 = vec![0u8; 15];
    d6.push(1);
    d6.extend_from_slice(&[0, 80]);
    assert_eq!(decode_added6(&d6), vec![PeerAddr::V6(1, 80, 0, 0)]);
    assert!(decode_added6(&d6[..17]).is_empty());
}

#[test]
fn pex_messages_give_peers_with_ports() {
    let mut payload = b"d5:added12:".to_vec();
    payload.extend_from_slice(&[1, 2, 3, 4, 0, 80, 5, 6, 7, 8, 0, 0]);
    payload.extend_from_slice(b"7:added.f2:\x00\x00e");
    assert_eq!(parse_pex_peers(&payload), vec![PeerAddr::V4(0x01020304, 80)]);
    assert!(parse_pex_peers(b"not bencode").is_empty());
}

fn handshake(size: i64) -> Vec<u8> {
    format!("d1:md11:ut_metadatai3e6:ut_pexi4ee13:metadata_sizei{size}ee").into_bytes()
}

fn data_message(piece: u32, data: &[u8]) -> Vec<u8> {
    let mut p = format!("d8:msg_typei1e5:piecei{piece}e10:total_sizei{}ee", data.len()).into_bytes();
    p.extend_from_slice(data);
    p
}

#[test]
fn a_fetch_requests_every_piece_then_checks_the_hash() {
    let metadata = b"d4:name3:abce";
    let hash = sha1(metadata);
    let mut f = MetadataFetch::new();
    assert!(MetadataFetch::handshake().is_some());
    match f.on_extended(0, &handshake(metadata.len() as i64), &hash, 1 << 20) {
        FetchAction::Send(reqs) => assert_eq!(reqs.len(), 1),
        other => panic!("{other:?}"),
    }
    assert_eq!(f.remote_metadata_id(), 3);
    assert_eq!(f.remote_pex_id(), 4);
    assert!(f.request_sent());
    assert_eq!(f.metadata_size(), metadata.len());
    assert!(matches!(f.on_extended(0, &handshake(metadata.len() as i64), &hash, 1 << 20), FetchAction::Continue));
    assert!(matches!(f.on_extended(9, b"x", &hash, 1 << 20), FetchAction::Continue));
    match f.on_extended(LOCAL_METADATA_ID, &data_message(0, metadata), &hash, 1 << 20) {
        FetchAction::Done(m) => assert_eq!(m, metadata.to_vec()),
        other => panic!("{other:?}"),
    }
}

#[test]
fn a_fetch_fails_on_a_wrong_hash_or_a_large_size() {
    let metadata = b"d4:name3:abce";
    let mut f = MetadataFetch::new();
    let _ = f.on_extended(0, &handshake(metadata.len() as i64), &[0u8; 20], 1 << 20);
    assert!(matches!(f.on_extended(1, &data_message(0, metadata), &[0u8; 20], 1 << 20), FetchAction::Fail(FetchError::HashMismatch)));
    let mut g = MetadataFetch::new();
    assert!(matches!(g.on_extended(0, &handshake(100), &[0u8; 20], 10), FetchAction::Fail(FetchError::TooLarge(100))));
}

#[test]
fn a_fetch_waits_for_all_bytes_and_names_a_missing_piece() {
    let mut f = MetadataFetch::new();
    let size = 16384 + 5;
    let _ = f.on_extended(0, &handshake(size), &[0u8; 20], 1 << 20);
    assert!(matches!(f.on_extended(1, &data_message(1, &[1u8; 5]), &[0u8; 20], 1 << 20), FetchAction::Continue));
    assert!(matches!(f.on_extended(1, &data_message(7, &vec![2u8; 16384]), &[0u8; 20], 1 << 20), FetchAction::Fail(FetchError::MissingPiece(0))));
}

#[test]
fn pex_messages_are_handed_on() {
    let mut f = MetadataFetch::new();
    let _ = f.on_extended(0, &handshake(0), &[0u8; 20], 1 << 20);
    let mut payload = b"d5:added6:".to_vec();
    payload.extend_from_slice(&[9, 9, 9, 9, 0, 7]);
    payload.push(b'e');
    match f.on_extended(4, &payload, &[0u8; 20], 1 << 20) {
        FetchAction::Pex(p) => assert_eq!(p, vec![PeerAddr::V4(0x09090909, 7)]),
        other => panic!("{other:?}"),
    }
}

#[test]
fn fetch_results_parse_the_metadata() {
    let metadata = b"d6:lengthi3e4:name3:abce";
    let r = MetadataFetchResult::from_metadata(&sha1(metadata), metadata).unwrap();
    assert_eq!(r.metadata.name, "abc");
    assert_eq!(r.metadata.total_size, 3);
    assert!(matches!(MetadataFetchResult::from_metadata(&[0u8; 20], metadata), Err(MetadataError::HashMismatch)));
}

#[test]
fn handshake_and_requests_are_bencoded() {
    let hs = MetadataFetch::handshake().unwrap();
    assert_eq!(hs, b"d1:md11:ut_metadatai1e6:ut_pexi2eee".to_vec());
    let mut f = MetadataFetch::new();
    match f.on_extended(0, &handshake(20_000), &[0u8; 20], 1 << 20) {
        FetchAction::Send(reqs) => {
            assert_eq!(reqs.len(), 2);
            assert_eq!(reqs[0], b"d8:msg_typei0e5:piecei0ee".to_vec());
            assert_eq!(reqs[1], b"d8:msg_typei0e5:piecei1ee".to_vec());
        }
        other => panic!("{other:?}"),
    }
}

#[test]
fn our_messages_are_exact_bencode() {
    assert_eq!(MetadataFetch::handshake(), Some(b"d1:md11:ut_metadatai1e6:ut_pexi2eee".to_vec()));
    let mut f = MetadataFetch::new();
    match f.on_extended(0, &handshake(20_000), &[0u8; 20], 1 << 20) {
        FetchAction::Send(reqs) => {
            assert_eq!(reqs, vec![b"d8:msg_typei0e5:piecei0ee".to_vec(), b"d8:msg_typei0e5:piecei1ee".to_vec()]);
        }
        other => panic!("{other:?}"),
    }
}

#[test]
fn handshakes_that_are_not_whole_bencode_are_ignored() {
    let mut f = MetadataFetch::new();
    // a dictionary whose first key is an integer, and one with a length past the input
    assert!(matches!(f.on_extended(0, b"di1e", &[0u8; 20], 1 << 20), FetchAction::Continue));
    assert!(matches!(f.on_extended(0, b"d18446744073709551615:", &[0u8; 20], 1 << 20), FetchAction::Continue));
    assert_eq!(f.remote_metadata_id(), 0);
    assert!(matches!(f.on_extended(LOCAL_METADATA_ID, b"d8:msg_typei1e5:piecei0e99999999999999999999:", &[0u8; 20], 1 << 20), FetchAction::Continue));
}
