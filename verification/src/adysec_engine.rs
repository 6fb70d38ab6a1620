use vstd::prelude::*;
use vstd::string::*;
use vstd::utf8::{encode_utf8, is_char_boundary};

use crate::config::{clamp, clamp_usize, StorageConfig};
use crate::hexcode::{hex_encode, hex_lower};
use crate::metadata::parser::{fetched_outcome, parse_info_metadata, MetadataError, ParsedMetadata};
use crate::model::{now_ts, Source, TorrentFile, TorrentRecord};
use crate::text::{str_chars, utf8_len};

verus! {

/// The UTF-8 bytes of a file's path.
pub open spec fn path_bytes(f: TorrentFile) -> Seq<u8> {
    encode_utf8(f.path@)
}

/// A path longer than `max` bytes can be cut there without splitting a character.
pub open spec fn cuttable(f: TorrentFile, max: nat) -> bool {
    path_bytes(f).len() > max ==> is_char_boundary(path_bytes(f), max as int)
}

/// Every file that is kept can have its path cut.
pub open spec fn all_cuttable(files: Seq<TorrentFile>, max_files: nat, max_path: nat) -> bool {
    forall|i: int| 0 <= i < files.len() && i < max_files ==> cuttable(#[trigger] files[i], max_path)
}

/// `after` is `before` with its path cut to its first `max` bytes when it is longer.
pub open spec fn cut_file(before: TorrentFile, after: TorrentFile, max: nat) -> bool {
    &&& after.size == before.size
    &&& if path_bytes(before).len() > max {
        path_bytes(after) == path_bytes(before).take(max as int)
    } else {
        after.path@ == before.path@
    }
}

/// `after` holds the first `max_files` files of `before`, paths cut to `max_path` bytes.
pub open spec fn files_cut(before: Seq<TorrentFile>, after: Seq<TorrentFile>, max_files: nat, max_path: nat) -> bool {
    &&& after.len() == (if before.len() < max_files {
        before.len()
    } else {
        max_files
    })
    &&& forall|i: int| 0 <= i < after.len() ==> cut_file(before[i], #[trigger] after[i], max_path)
}

/// Keeps the first `max_files` files and cuts each path to at most `max_path_len` bytes.
pub fn truncate_files(files: &mut Vec<TorrentFile>, max_files: usize, max_path_len: usize)
    requires
        all_cuttable(old(files)@, max_files as nat, max_path_len as nat),
    ensures
        files_cut(old(files)@, final(files)@, max_files as nat, max_path_len as nat),
{
    let ghost before = files@;
    files.truncate(max_files);
    let n = files.len();
    let mut out: Vec<TorrentFile> = Vec::new();
    let mut i: usize = 0;
    while i < n
        invariant
            n == files@.len(),
            n == (if before.len() < max_files {
                before.len()
            } else {
                max_files as nat
            }),
            forall|j: int| 0 <= j < n ==> files@[j] == before[j],
            all_cuttable(before, max_files as nat, max_path_len as nat),
            i <= n,
            out@.len() == i,
            forall|j: int| 0 <= j < i ==> cut_file(before[j], #[trigger] out@[j], max_path_len as nat),
        decreases n - i,
    {
        let f = &files[i];
        assert(cuttable(before[i as int], max_path_len as nat));
        let path = if utf8_len(&str_chars(f.path.as_str())) > max_path_len as u128 {
            let (head, _) = f.path.as_str().split_at(max_path_len);
            head.to_owned()
        } else {
            f.path.clone()
        };
        let nf = TorrentFile { path, size: f.size };
        assert(cut_file(before[i as int], nf, max_path_len as nat));
        out.push(nf);
        i = i + 1;
    }
    *files = out;
}

/// What a record made from parsed metadata holds: the hash (as bytes and as lower-case
/// hex), the name and total size, the file count, the kept files with cut paths, one
/// peer, the announce source, a score of one, and one time for every timestamp.
pub open spec fn parsed_record(rec: TorrentRecord, hash: [u8; 20], p: ParsedMetadata, storage: StorageConfig) -> bool {
    &&& rec.info_hash@ == hex_lower(hash@)
    &&& rec.info_hash_bytes == hash
    &&& rec.name@ == p.name@
    &&& rec.total_size == p.total_size
    &&& rec.file_count == p.files@.len()
    &&& files_cut(p.files@, rec.files@, storage.max_files_per_torrent as nat, storage.max_file_path_len as nat)
    &&& rec.files_stored_count == rec.files@.len()
    &&& rec.peer_count == 1
    &&& rec.source == Source::DhtAnnouncePeer
    &&& rec.hot_score == 1
    &&& rec.first_seen_at == rec.last_seen_at
    &&& rec.last_seen_at == rec.metadata_fetched_at
}

/// The record of a torrent whose metadata was fetched and parsed.
pub fn record_from_parsed(info_hash: [u8; 20], parsed: ParsedMetadata, storage: &StorageConfig) -> (r: TorrentRecord)
    requires
        all_cuttable(parsed.files@, storage.max_files_per_torrent as nat, storage.max_file_path_len as nat),
    ensures
        parsed_record(r, info_hash, parsed, *storage),
{
    let ghost p = parsed;
    let mut files = parsed.files;
    let file_count = files.len();
    truncate_files(&mut files, storage.max_files_per_torrent, storage.max_file_path_len);
    let now = now_ts();
    let files_stored_count = files.len();
    TorrentRecord {
        info_hash: hex_encode(&info_hash),
        info_hash_bytes: info_hash,
        name: parsed.name,
        total_size: parsed.total_size,
        file_count,
        files_stored_count,
        files,
        peer_count: 1,
        source: Source::DhtAnnouncePeer,
        hot_score: 1,
        first_seen_at: now,
        last_seen_at: now,
        metadata_fetched_at: now,
    }
}

/// Whether every kept path of some files can be cut at the limit.
pub fn files_cuttable(files: &Vec<TorrentFile>, max_files: usize, max_path_len: usize) -> (r: bool)
    ensures
        r == all_cuttable(files@, max_files as nat, max_path_len as nat),
{
    let mut i: usize = 0;
    while i < files.len() && i < max_files
        invariant
            i <= files@.len(),
            forall|j: int| 0 <= j < i ==> cuttable(#[trigger] files@[j], max_path_len as nat),
        decreases files@.len() - i,
    {
        let s = files[i].path.as_str();
        if utf8_len(&str_chars(s)) > max_path_len as u128 && !s.is_char_boundary(max_path_len) {
            return false;
        }
        assert(cuttable(files@[i as int], max_path_len as nat));
        i = i + 1;
    }
    true
}

/// The record for metadata fetched for an info hash: the parse error when the metadata
/// is refused, `None` when a kept file's path cannot be cut at the length limit without
/// splitting a character.
pub fn metadata_record(info_hash: [u8; 20], metadata: &[u8], storage: &StorageConfig) -> (r: Result<
    Option<TorrentRecord>,
    MetadataError,
>)
    requires
        metadata@.len() <= usize::MAX / 4,
    ensures
        exists|pr: Result<ParsedMetadata, MetadataError>|
            #[trigger] fetched_outcome(info_hash, metadata@, pr) && match pr {
                Err(e) => r == Err::<Option<TorrentRecord>, MetadataError>(e),
                Ok(p) => if all_cuttable(
                    p.files@,
                    storage.max_files_per_torrent as nat,
                    storage.max_file_path_len as nat,
                ) {
                    r matches Ok(Some(rec)) && parsed_record(rec, info_hash, p, *storage)
                } else {
                    r == Ok::<Option<TorrentRecord>, MetadataError>(None)
                },
            },
{
    let pr = parse_info_metadata(&info_hash, metadata);
    let ghost prv = pr;
    match pr {
        Err(e) => Err(e),
        Ok(parsed) => {
            if !files_cuttable(&parsed.files, storage.max_files_per_torrent, storage.max_file_path_len) {
                return Ok(None);
            }
            let ghost p = parsed;
            let rec = record_from_parsed(info_hash, parsed, storage);
            assert(parsed_record(rec, info_hash, p, *storage));
            Ok(Some(rec))
        },
    }
}


/// The settings the spider runs with.
pub struct SpiderSettings {
    pub refresh_node_num: usize,
    pub try_times: usize,
    pub worker_count: usize,
    pub wire_response_capacity: usize,
    pub queue_size: usize,
}

/// The spider's settings: 8 to 256 nodes per refresh, 1 to 8 `get_peers` tries, 64 to
/// 8192 metadata workers, room for at least 65536 responses and 1024 queued jobs.
pub fn spider_settings(
    bootstrap_query_limit: usize,
    get_peers_probe_depth: usize,
    max_concurrent_fetches: usize,
    max_files_per_torrent: usize,
    info_hash_queue_size: usize,
) -> (r: SpiderSettings)
    ensures
        r.refresh_node_num == clamp(bootstrap_query_limit as int, 8, 256),
        r.try_times == clamp(get_peers_probe_depth as int, 1, 8),
        r.worker_count == clamp(max_concurrent_fetches as int, 64, 8192),
        r.wire_response_capacity == (if max_files_per_torrent < 65536 {
            65536
        } else {
            max_files_per_torrent
        }),
        r.queue_size == (if info_hash_queue_size < 1024 {
            1024
        } else {
            info_hash_queue_size
        }),
{
    SpiderSettings {
        refresh_node_num: clamp_usize(bootstrap_query_limit, 8, 256),
        try_times: clamp_usize(get_peers_probe_depth, 1, 8),
        worker_count: clamp_usize(max_concurrent_fetches, 64, 8192),
        wire_response_capacity: if max_files_per_torrent < 65536 {
            65536
        } else {
            max_files_per_torrent
        },
        queue_size: if info_hash_queue_size < 1024 {
            1024
        } else {
            info_hash_queue_size
        },
    }
}

} // verus!
