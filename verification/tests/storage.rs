use dht_lens::model::{Source, TorrentFile, TorrentRecord};
use dht_lens::storage::{bucket, store_location, store_plan, Location, SearchRow, StoreError};

fn record() -> TorrentRecord {
    TorrentRecord {
        info_hash: "ab".repeat(20),
        info_hash_bytes: [0xab; 20],
        name: "Big Buck Bunny".to_string(),
        total_size: u64::MAX,
        file_count: 2,
        files_stored_count: 2,
        files: vec![TorrentFile { path: "a.mkv".to_string(), size: 5 }, TorrentFile { path: "b.srt".to_string(), size: 6 }],
        peer_count: 3,
        source: Source::DhtGetPeers,
        hot_score: 1,
        first_seen_at: 100,
        last_seen_at: 7_300,
        metadata_fetched_at: 7_300,
    }
}

#[test]
fn buckets_round_down() {
    assert_eq!(bucket(1_000, 300), 900);
    assert_eq!(bucket(900, 300), 900);
    assert_eq!(bucket(-1, 300), -300);
    assert_eq!(bucket(7_300, 3_600), 7_200);
}

#[test]
fn remote_urls_need_a_token() {
    assert_eq!(store_location("libsql://db.example", Some("t")), Ok(Location::Remote));
    assert_eq!(store_location("https://db.example", None), Err(StoreError::MissingAuthToken));
    assert_eq!(store_location("http://x", Some("t")), Ok(Location::Remote));
    assert_eq!(store_location("file:local.db", None), Ok(Location::Local));
    assert_eq!(store_location("http:/x", None), Ok(Location::Local));
}

#[test]
fn a_record_is_stored_as_rows() {
    let rec = record();
    let plan = store_plan(&rec, 4_096);
    assert_eq!(plan.torrent.info_hash, vec![0xab; 20]);
    assert_eq!(plan.torrent.info_hash_hex, rec.info_hash);
    assert_eq!(plan.torrent.total_size, -1);
    assert_eq!(plan.torrent.source, 1);
    assert_eq!(plan.torrent.first_seen_at, 100);
    assert_eq!(plan.files.len(), 2);
    assert_eq!((plan.files[1].file_index, plan.files[1].path.as_str(), plan.files[1].size), (1, "b.srt", 6));
    assert_eq!(plan.name_ngram, "big buck bunny");
    assert_eq!(plan.observation_5m.bucket_start, 7_200);
    assert_eq!(plan.observation_hourly.bucket_start, 7_200);
    assert_eq!(plan.observation_5m.max_peer_count, 3);
    assert_eq!(plan.observation_5m.last_source, 1);
    assert_eq!(plan.observation_5m.updated_at, 7_300);
}

#[test]
fn search_rows_read_counts_as_unsigned() {
    let row = SearchRow::from_columns("aa".to_string(), "n".to_string(), -1, 2, 3, 4, 5);
    assert_eq!(row.total_size, u64::MAX);
    assert_eq!((row.file_count, row.peer_count, row.hot_score, row.last_seen_at), (2, 3, 4, 5));
}
