use vstd::prelude::*;
use vstd::utf8::encode_utf8;

use crate::bencode::model::parse_unsigned_text;
use crate::bencode::parse_unsigned_slice;

verus! {

/// Limits of the metadata fetcher.
#[derive(Debug, Clone)]
pub struct MetadataConfig {
    pub max_concurrent_fetches: usize,
    /// Seconds that one fetch may take.
    pub timeout_secs: u64,
}

/// Settings of the crawl pipeline.
#[derive(Debug, Clone)]
pub struct PipelineConfig {
    pub print_jsonl: bool,
    /// Seconds between two statistics reports.
    pub stats_interval_secs: u64,
}

/// Settings of the torrent store.
#[derive(Debug, Clone)]
pub struct StorageConfig {
    pub enabled: bool,
    pub database_url: Option<String>,
    pub auth_token: Option<String>,
    pub max_files_per_torrent: usize,
    pub max_file_path_len: usize,
}

/// Settings of the search index.
#[derive(Debug, Clone)]
pub struct SearchConfig {
    pub max_name_ngram_len: usize,
}

/// `v` brought into `[lo, hi]`.
pub open spec fn clamp(v: int, lo: int, hi: int) -> int {
    if v < lo {
        lo
    } else if v > hi {
        hi
    } else {
        v
    }
}

/// The number that an environment value holds, or `default` when it is unset or is no
/// decimal number up to `max`.
pub open spec fn env_number(value: Option<Seq<char>>, default: nat, max: nat) -> nat {
    match value {
        Some(v) => match parse_unsigned_text(encode_utf8(v), max) {
            Some(n) => n,
            None => default,
        },
        None => default,
    }
}

pub open spec fn text_true(v: Seq<char>) -> bool {
    v == seq!['1'] || v == seq!['t', 'r', 'u', 'e'] || v == seq!['T', 'R', 'U', 'E'] || v == seq![
        'y',
        'e',
        's',
    ] || v == seq!['Y', 'E', 'S']
}

pub open spec fn text_false(v: Seq<char>) -> bool {
    v == seq!['0'] || v == seq!['f', 'a', 'l', 's', 'e'] || v == seq!['F', 'A', 'L', 'S', 'E']
        || v == seq!['n', 'o'] || v == seq!['N', 'O']
}

/// The switch that an environment value holds, or `default` when it is unset or holds
/// no recognised word.
pub open spec fn env_switch(value: Option<Seq<char>>, default: bool) -> bool {
    match value {
        Some(v) => if text_true(v) {
            true
        } else if text_false(v) {
            false
        } else {
            default
        },
        None => default,
    }
}

pub open spec fn opt_view(value: Option<&str>) -> Option<Seq<char>> {
    match value {
        Some(v) => Some(v@),
        None => None,
    }
}

/// Brings `v` into `[lo, hi]`.
pub fn clamp_usize(v: usize, lo: usize, hi: usize) -> (r: usize)
    requires
        lo <= hi,
    ensures
        r == clamp(v as int, lo as int, hi as int),
{
    if v < lo {
        lo
    } else if v > hi {
        hi
    } else {
        v
    }
}

/// Brings `v` into `[lo, hi]`.
pub fn clamp_u64(v: u64, lo: u64, hi: u64) -> (r: u64)
    requires
        lo <= hi,
    ensures
        r == clamp(v as int, lo as int, hi as int),
{
    if v < lo {
        lo
    } else if v > hi {
        hi
    } else {
        v
    }
}

/// A `usize` setting from its environment value.
pub fn env_usize(value: Option<&str>, default: usize) -> (r: usize)
    ensures
        r == env_number(opt_view(value), default as nat, usize::MAX as nat),
{
    match value {
        Some(v) => {
            let bytes = v.as_bytes();
            match parse_unsigned_slice(bytes, 0, bytes.len(), usize::MAX as u128) {
                Some(n) => {
                    assert(bytes@.subrange(0, bytes@.len() as int) =~= bytes@);
                    n as usize
                },
                None => {
                    assert(bytes@.subrange(0, bytes@.len() as int) =~= bytes@);
                    default
                },
            }
        },
        None => default,
    }
}

/// A `u64` setting from its environment value.
pub fn env_u64(value: Option<&str>, default: u64) -> (r: u64)
    ensures
        r == env_number(opt_view(value), default as nat, u64::MAX as nat),
{
    match value {
        Some(v) => {
            let bytes = v.as_bytes();
            match parse_unsigned_slice(bytes, 0, bytes.len(), u64::MAX as u128) {
                Some(n) => {
                    assert(bytes@.subrange(0, bytes@.len() as int) =~= bytes@);
                    n as u64
                },
                None => {
                    assert(bytes@.subrange(0, bytes@.len() as int) =~= bytes@);
                    default
                },
            }
        },
        None => default,
    }
}

fn chars_are(cs: &Vec<char>, lit: &[char]) -> (r: bool)
    ensures
        r == (cs@ == lit@),
{
    if cs.len() != lit.len() {
        return false;
    }
    let mut i: usize = 0;
    while i < cs.len()
        invariant
            cs@.len() == lit@.len(),
            i <= cs@.len(),
            forall|j: int| 0 <= j < i ==> cs@[j] == lit@[j],
        decreases cs.len() - i,
    {
        if cs[i] != lit[i] {
            return false;
        }
        i = i + 1;
    }
    assert(cs@ =~= lit@);
    true
}

/// A switch setting from its environment value.
pub fn env_bool(value: Option<&str>, default: bool) -> (r: bool)
    ensures
        r == env_switch(opt_view(value), default),
{
    match value {
        Some(v) => {
            let cs = crate::text::str_chars(v);
            let one: &[char] = &['1'];
            let t1: &[char] = &['t', 'r', 'u', 'e'];
            let t2: &[char] = &['T', 'R', 'U', 'E'];
            let t3: &[char] = &['y', 'e', 's'];
            let t4: &[char] = &['Y', 'E', 'S'];
            let zero: &[char] = &['0'];
            let f1: &[char] = &['f', 'a', 'l', 's', 'e'];
            let f2: &[char] = &['F', 'A', 'L', 'S', 'E'];
            let f3: &[char] = &['n', 'o'];
            let f4: &[char] = &['N', 'O'];
            assert(one@ == seq!['1']);
            assert(t1@ == seq!['t', 'r', 'u', 'e']);
            assert(t2@ == seq!['T', 'R', 'U', 'E']);
            assert(t3@ == seq!['y', 'e', 's']);
            assert(t4@ == seq!['Y', 'E', 'S']);
            assert(zero@ == seq!['0']);
            assert(f1@ == seq!['f', 'a', 'l', 's', 'e']);
            assert(f2@ == seq!['F', 'A', 'L', 'S', 'E']);
            assert(f3@ == seq!['n', 'o']);
            assert(f4@ == seq!['N', 'O']);
            if chars_are(&cs, one) || chars_are(&cs, t1) || chars_are(&cs, t2) || chars_are(&cs, t3)
                || chars_are(&cs, t4) {
                true
            } else if chars_are(&cs, zero) || chars_are(&cs, f1) || chars_are(&cs, f2) || chars_are(
                &cs,
                f3,
            ) || chars_are(&cs, f4) {
                false
            } else {
                default
            }
        },
        None => default,
    }
}

impl MetadataConfig {
    /// The fetcher's limits from `METADATA_MAX_CONCURRENT_FETCHES` (default 1000, kept
    /// within 16..=8192) and `METADATA_TIMEOUT_SECS` (default 15, kept within 1..=120).
    pub fn from_env_values(max_concurrent_fetches: Option<&str>, timeout_secs: Option<&str>) -> (r:
        MetadataConfig)
        ensures
            r.max_concurrent_fetches == clamp(
                env_number(opt_view(max_concurrent_fetches), 1000, usize::MAX as nat) as int,
                16,
                8192,
            ),
            r.timeout_secs == clamp(
                env_number(opt_view(timeout_secs), 15, u64::MAX as nat) as int,
                1,
                120,
            ),
    {
        MetadataConfig {
            max_concurrent_fetches: clamp_usize(env_usize(max_concurrent_fetches, 1000), 16, 8192),
            timeout_secs: clamp_u64(env_u64(timeout_secs, 15), 1, 120),
        }
    }
}

impl PipelineConfig {
    /// The pipeline settings from `PRINT_JSONL` (default off) and `STATS_INTERVAL_SECS`
    /// (default 60, kept within 5..=600).
    pub fn from_env_values(print_jsonl: Option<&str>, stats_interval_secs: Option<&str>) -> (r:
        PipelineConfig)
        ensures
            r.print_jsonl == env_switch(opt_view(print_jsonl), false),
            r.stats_interval_secs == clamp(
                env_number(opt_view(stats_interval_secs), 60, u64::MAX as nat) as int,
                5,
                600,
            ),
    {
        PipelineConfig {
            print_jsonl: env_bool(print_jsonl, false),
            stats_interval_secs: clamp_u64(env_u64(stats_interval_secs, 60), 5, 600),
        }
    }
}

impl StorageConfig {
    /// The store settings from `STORAGE_ENABLED` (default on), `LIBSQL_DATABASE_URL`,
    /// `LIBSQL_AUTH_TOKEN`, `MAX_FILES_PER_TORRENT` (default 2000, kept within
    /// 1..=20000) and `MAX_FILE_PATH_LEN` (default 1024, kept within 32..=8192).
    pub fn from_env_values(
        enabled: Option<&str>,
        database_url: Option<String>,
        auth_token: Option<String>,
        max_files_per_torrent: Option<&str>,
        max_file_path_len: Option<&str>,
    ) -> (r: StorageConfig)
        ensures
            r.enabled == env_switch(opt_view(enabled), true),
            r.database_url == database_url,
            r.auth_token == auth_token,
            r.max_files_per_torrent == clamp(
                env_number(opt_view(max_files_per_torrent), 2000, usize::MAX as nat) as int,
                1,
                20000,
            ),
            r.max_file_path_len == clamp(
                env_number(opt_view(max_file_path_len), 1024, usize::MAX as nat) as int,
                32,
                8192,
            ),
    {
        StorageConfig {
            enabled: env_bool(enabled, true),
            database_url,
            auth_token,
            max_files_per_torrent: clamp_usize(env_usize(max_files_per_torrent, 2000), 1, 20000),
            max_file_path_len: clamp_usize(env_usize(max_file_path_len, 1024), 32, 8192),
        }
    }
}

impl SearchConfig {
    /// The search settings from `MAX_NAME_NGRAM_LEN` (default 4096, kept within
    /// 128..=100000).
    pub fn from_env_values(max_name_ngram_len: Option<&str>) -> (r: SearchConfig)
        ensures
            r.max_name_ngram_len == clamp(
                env_number(opt_view(max_name_ngram_len), 4096, usize::MAX as nat) as int,
                128,
                100000,
            ),
    {
        SearchConfig {
            max_name_ngram_len: clamp_usize(env_usize(max_name_ngram_len, 4096), 128, 100000),
        }
    }
}

/// The routing table size from `DHT_ROUTING_TABLE_MAX_NODES` (default 200000) and the
/// info hash queue size from `INFO_HASH_QUEUE_SIZE` (default 50000), each kept within
/// 1000..=1000000.
pub fn dht_limits(routing_table_max_nodes: Option<&str>, hash_queue_size: Option<&str>) -> (r: (
    usize,
    usize,
))
    ensures
        r.0 == clamp(
            env_number(opt_view(routing_table_max_nodes), 200000, usize::MAX as nat) as int,
            1000,
            1000000,
        ),
        r.1 == clamp(
            env_number(opt_view(hash_queue_size), 50000, usize::MAX as nat) as int,
            1000,
            1000000,
        ),
{
    (
        clamp_usize(env_usize(routing_table_max_nodes, 200000), 1000, 1000000),
        clamp_usize(env_usize(hash_queue_size, 50000), 1000, 1000000),
    )
}


/// Law: a setting kept within `lo..=hi` lands there, and one already there is kept.
pub proof fn law_clamp_range(v: int, lo: int, hi: int)
    requires
        lo <= hi,
    ensures
        lo <= clamp(v, lo, hi) <= hi,
        lo <= v <= hi ==> clamp(v, lo, hi) == v,
{
}

} // verus!
