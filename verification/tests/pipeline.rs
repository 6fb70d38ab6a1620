use std::collections::VecDeque;

use dht_lens::config::StorageConfig;
use dht_lens::dht::{InfoHashEvent, PeerAddr};
use dht_lens::metadata::parser::ParsedMetadata;
use dht_lens::model::{Source, TorrentFile};
use dht_lens::pipeline::{add_pending_peers, build_record, prepare_fetch, recent_peers_for, seen_recently, should_skip_event, SeenState};

fn peer(n: u8) -> PeerAddr {
    PeerAddr::V4(u32::from_be_bytes([8, 8, 8, n]), 6881)
}

fn event(peer: Option<PeerAddr>) -> InfoHashEvent {
    InfoHashEvent { info_hash: [1u8; 20], source: Source::DhtAnnouncePeer, peer_count: 1, peer, seed_nodes: vec![peer_or(peer)], seen_at: 77 }
}

fn peer_or(p: Option<PeerAddr>) -> PeerAddr {
    p.unwrap_or(PeerAddr::V4(0, 0))
}

#[test]
fn events_without_a_peer_repeat_within_half_an_hour() {
    let mut s = SeenState::new();
    assert!(!should_skip_event(&mut s, &event(None), 10_000));
    assert_eq!(s.last_seen_at(), 10_000);
    assert!(should_skip_event(&mut s, &event(None), 11_799));
    assert_eq!(s.last_seen_at(), 10_000);
    assert!(!should_skip_event(&mut s, &event(None), 11_800));
    assert_eq!(s.last_seen_at(), 11_800);
    assert!(seen_recently(&s, 11_801));
}

#[test]
fn events_with_a_peer_repeat_within_five_minutes() {
    let mut s = SeenState::new();
    assert!(!should_skip_event(&mut s, &event(Some(peer(1))), 1_000));
    assert!(should_skip_event(&mut s, &event(Some(peer(1))), 1_000));
    assert!(should_skip_event(&mut s, &event(Some(peer(1))), 1_299));
    assert!(!should_skip_event(&mut s, &event(Some(peer(2))), 1_299));
    assert!(!should_skip_event(&mut s, &event(Some(peer(1))), 1_300));
    assert_eq!(*s.recent_peers(), VecDeque::from(vec![(peer(2), 1_299), (peer(1), 1_300)]));
}

#[test]
fn at_most_32_recent_peers_are_kept() {
    let mut s = SeenState::new();
    for i in 0..40u8 {
        assert!(!should_skip_event(&mut s, &event(Some(peer(i))), 5_000));
    }
    assert_eq!(s.recent_peers().len(), 32);
    assert_eq!(s.recent_peers().front(), Some(&(peer(8), 5_000)));
    assert_eq!(recent_peers_for(Some(&s), 3), vec![peer(39), peer(38), peer(37)]);
    assert!(recent_peers_for(None, 3).is_empty());
}

#[test]
fn pending_fetches_collect_distinct_peers_up_to_the_limit() {
    let mut slot = None;
    assert_eq!(add_pending_peers(&mut slot, event(Some(peer(1))), vec![peer(1), peer(1), peer(2)], 3), None);
    let f = slot.as_ref().unwrap();
    assert_eq!(f.event.peer_count, 0);
    assert_eq!(f.event.seen_at, 77);
    assert_eq!(f.peers, vec![peer(1), peer(2)]);
    let mut other = event(Some(peer(9)));
    other.seen_at = 99;
    assert_eq!(add_pending_peers(&mut slot, other, vec![peer(2), peer(3), peer(4)], 3), Some([1u8; 20]));
    let f = slot.as_ref().unwrap();
    assert_eq!(f.peers, vec![peer(1), peer(2), peer(3)]);
    assert_eq!(f.event.seen_at, 77);
}

#[test]
fn prepared_fetches_count_distinct_peers() {
    assert!(prepare_fetch(event(None), Vec::new()).is_none());
    let (ev, mut peers) = prepare_fetch(event(Some(peer(1))), vec![peer(3), peer(1), peer(3)]).unwrap();
    assert_eq!(ev.peer_count, 2);
    peers.sort_by_key(|p| match p {
        PeerAddr::V4(ip, port) => (*ip as u128, *port),
        PeerAddr::V6(ip, port, _, _) => (*ip, *port),
    });
    assert_eq!(peers, vec![peer(1), peer(3)]);
}

#[test]
fn records_keep_the_event_and_cut_the_files() {
    let storage = StorageConfig { enabled: false, database_url: None, auth_token: None, max_files_per_torrent: 1, max_file_path_len: 3 };
    let meta = ParsedMetadata {
        name: "movie".to_string(),
        total_size: 30,
        files: vec![TorrentFile { path: "abcdef".to_string(), size: 10 }, TorrentFile { path: "x".to_string(), size: 20 }],
    };
    let mut ev = event(Some(peer(1)));
    ev.peer_count = 4;
    let rec = build_record(&ev, meta, &storage);
    assert_eq!(rec.info_hash, "01".repeat(20));
    assert_eq!(rec.name, "movie");
    assert_eq!(rec.total_size, 30);
    assert_eq!(rec.file_count, 2);
    assert_eq!(rec.files_stored_count, 1);
    assert_eq!(rec.files[0].path, "abc");
    assert_eq!(rec.files[0].size, 10);
    assert_eq!(rec.peer_count, 4);
    assert_eq!(rec.source, Source::DhtAnnouncePeer);
    assert_eq!(rec.hot_score, 1);
    assert_eq!(rec.first_seen_at, 77);
    assert_eq!(rec.last_seen_at, rec.metadata_fetched_at);
}

#[test]
fn pending_peers_beyond_the_limit_are_kept_in_front() {
    let mut slot = Some(dht_lens::pipeline::PendingFetch { event: event(None), peers: vec![peer(1), peer(2), peer(3)] });
    assert_eq!(add_pending_peers(&mut slot, event(Some(peer(4))), vec![peer(4), peer(5)], 2), Some([1u8; 20]));
    assert_eq!(slot.as_ref().unwrap().peers, vec![peer(1), peer(2), peer(3)]);
    let mut slot = Some(dht_lens::pipeline::PendingFetch { event: event(None), peers: vec![peer(1)] });
    assert_eq!(add_pending_peers(&mut slot, event(Some(peer(4))), vec![peer(1), peer(4), peer(5)], 5), None);
    assert_eq!(slot.as_ref().unwrap().peers, vec![peer(1), peer(4), peer(5)]);
}
