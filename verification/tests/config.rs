use dht_lens::config::{dht_limits, env_bool, env_u64, env_usize, MetadataConfig, PipelineConfig, SearchConfig, StorageConfig};
use dht_lens::crawler::crawl_settings;
use dht_lens::model::{now_ts, unix_secs, Source};

#[test]
fn defaults_apply_when_nothing_is_set() {
    let m = MetadataConfig::from_env_values(None, None);
    assert_eq!((m.max_concurrent_fetches, m.timeout_secs), (1_000, 15));
    let p = PipelineConfig::from_env_values(None, None);
    assert_eq!((p.print_jsonl, p.stats_interval_secs), (false, 60));
    let s = StorageConfig::from_env_values(None, Some("file.db".to_string()), None, None, None);
    assert!(s.enabled);
    assert_eq!(s.database_url.as_deref(), Some("file.db"));
    assert_eq!((s.max_files_per_torrent, s.max_file_path_len), (2_000, 1_024));
    assert_eq!(SearchConfig::from_env_values(None).max_name_ngram_len, 4_096);
    assert_eq!(dht_limits(None, None), (200_000, 50_000));
}

#[test]
fn settings_are_kept_within_their_ranges() {
    let m = MetadataConfig::from_env_values(Some("1"), Some("1000"));
    assert_eq!((m.max_concurrent_fetches, m.timeout_secs), (16, 120));
    let p = PipelineConfig::from_env_values(Some("yes"), Some("1"));
    assert_eq!((p.print_jsonl, p.stats_interval_secs), (true, 5));
    let s = StorageConfig::from_env_values(Some("NO"), None, Some("t".to_string()), Some("0"), Some("99999"));
    assert!(!s.enabled);
    assert_eq!((s.max_files_per_torrent, s.max_file_path_len), (1, 8_192));
    assert_eq!(SearchConfig::from_env_values(Some("5")).max_name_ngram_len, 128);
    assert_eq!(dht_limits(Some("5"), Some("99999999")), (1_000, 1_000_000));
}

#[test]
fn unreadable_values_fall_back_to_the_default() {
    assert_eq!(env_usize(Some("12x"), 7), 7);
    assert_eq!(env_usize(Some("+12"), 7), 12);
    assert_eq!(env_u64(Some(""), 3), 3);
    assert_eq!(env_u64(Some("18446744073709551615"), 3), u64::MAX);
    assert_eq!(env_u64(Some("18446744073709551616"), 3), 3);
    assert!(env_bool(Some("TRUE"), false));
    assert!(env_bool(Some("1"), false));
    assert!(!env_bool(Some("0"), true));
    assert!(env_bool(Some("True"), true));
    assert!(!env_bool(Some("maybe"), false));
}

#[test]
fn crawl_settings_need_a_worker() {
    let m = MetadataConfig { max_concurrent_fetches: 0, timeout_secs: 9 };
    let s = crawl_settings(&m, 500, 0);
    assert_eq!((s.max_nodes, s.refresh_node_num, s.wire_workers, s.wire_queue_size, s.metadata_timeout_secs), (500, 8, 1, 1, 9));
}

#[test]
fn sources_have_stable_numbers() {
    assert_eq!(Source::DhtGetPeers.as_i64(), 1);
    assert_eq!(Source::DhtAnnouncePeer.as_i64(), 2);
    assert_eq!(Source::ManualMagnet.as_i64(), 3);
    assert!(now_ts() > 1_600_000_000);
}

#[test]
fn clock_readings_become_timestamps() {
    assert_eq!(unix_secs(Some(1_700_000_000)), 1_700_000_000);
    assert_eq!(unix_secs(None), 0);
    assert_eq!(unix_secs(Some(u64::MAX)), -1);
}
