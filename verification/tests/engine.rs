use dht_lens::adysec_engine::{metadata_record, spider_settings, truncate_files};
use dht_lens::config::StorageConfig;
use dht_lens::metadata::parser::MetadataError;
use dht_lens::model::{Source, TorrentFile};
use sha1::{Digest, Sha1};

fn storage(max_files: usize, max_path: usize) -> StorageConfig {
    StorageConfig { enabled: true, database_url: None, auth_token: None, max_files_per_torrent: max_files, max_file_path_len: max_path }
}

#[test]
fn truncate_files_keeps_the_first_and_cuts_paths() {
    let mut files = vec![
        TorrentFile { path: "abcdef".to_string(), size: 1 },
        TorrentFile { path: "ab".to_string(), size: 2 },
        TorrentFile { path: "zzzzzz".to_string(), size: 3 },
    ];
    truncate_files(&mut files, 2, 4);
    assert_eq!(files.len(), 2);
    assert_eq!((files[0].path.as_str(), files[0].size), ("abcd", 1));
    assert_eq!((files[1].path.as_str(), files[1].size), ("ab", 2));
    let mut multi = vec![TorrentFile { path: "ééé".to_string(), size: 1 }];
    truncate_files(&mut multi, 5, 4);
    assert_eq!(multi[0].path, "éé");
}

#[test]
fn spider_settings_are_clamped() {
    let s = spider_settings(1, 100, 10, 5, 5);
    assert_eq!((s.refresh_node_num, s.try_times, s.worker_count, s.wire_response_capacity, s.queue_size), (8, 8, 64, 65_536, 1_024));
    let t = spider_settings(300, 0, 10_000, 100_000, 2_000);
    assert_eq!((t.refresh_node_num, t.try_times, t.worker_count, t.wire_response_capacity, t.queue_size), (256, 1, 8_192, 100_000, 2_000));
}

#[test]
fn fetched_metadata_becomes_a_record() {
    let metadata = b"d5:filesld6:lengthi4e4:pathl6:abcdefeed6:lengthi6e4:pathl1:xeee4:name4:packe";
    let mut hash = [0u8; 20];
    hash.copy_from_slice(&Sha1::digest(metadata));
    let rec = metadata_record(hash, metadata, &storage(1, 3)).unwrap().unwrap();
    assert_eq!(rec.name, "pack");
    assert_eq!(rec.total_size, 10);
    assert_eq!(rec.file_count, 2);
    assert_eq!(rec.files_stored_count, 1);
    assert_eq!(rec.files[0].path, "abc");
    assert_eq!(rec.source, Source::DhtAnnouncePeer);
    assert_eq!(rec.first_seen_at, rec.metadata_fetched_at);
    assert!(matches!(metadata_record([0u8; 20], metadata, &storage(1, 3)), Err(MetadataError::HashMismatch)));
}

#[test]
fn a_path_that_cannot_be_cut_gives_no_record() {
    let text = [b"d6:lengthi1e4:name4:".as_slice(), "éé".as_bytes(), b"e"].concat();
    let mut hash = [0u8; 20];
    hash.copy_from_slice(&Sha1::digest(&text));
    let out = metadata_record(hash, &text, &storage(1, 1)).unwrap();
    assert!(out.is_none());
}
