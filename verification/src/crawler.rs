use vstd::prelude::*;
use vstd::utf8::{decode_utf8, valid_utf8};

use crate::bencode::lemmas::lemma_list_view;
use crate::bencode::model::{dict_lookup, list_view, spec_parse};
use crate::bencode::{as_bytes, dict_get, parse, BencodeError, Dict, Val, Value};
use crate::config::{MetadataConfig, StorageConfig};
use crate::hexcode::{hex_bytes, hex_decodable, hex_decode, hex_encode, hex_lower};
use crate::model::{now_ts, Source, TorrentFile, TorrentRecord};
use crate::text::{
    from_utf8_lossy, str_chars, string_from_chars, trim_nul_and_space, trim_nul_then_space,
    truncate_chars, truncate_text, utf8_lossy,
};

verus! {

/// Why metadata could not become a record.
#[derive(Debug, Clone, Copy, PartialEq, Eq, Structural)]
pub enum CrawlError {
    /// The metadata is not one bencode value.
    InvalidBencode(BencodeError),
    /// The metadata is not a dictionary.
    NotADict,
    /// A single-file torrent has no usable `length`.
    MissingLength,
    /// No file of a multi-file torrent could be read.
    NoFiles,
    /// The file sizes add up to more than a `u64` holds.
    SizeOverflow,
}

// ---------------------------------------------------------------- keys

pub open spec fn key_name_utf8() -> Seq<u8> {
    seq![110u8, 97, 109, 101, 46, 117, 116, 102, 45, 56]
}

pub open spec fn key_name() -> Seq<u8> {
    seq![110u8, 97, 109, 101]
}

pub open spec fn key_files() -> Seq<u8> {
    seq![102u8, 105, 108, 101, 115]
}

pub open spec fn key_length() -> Seq<u8> {
    seq![108u8, 101, 110, 103, 116, 104]
}

pub open spec fn key_path_utf8() -> Seq<u8> {
    seq![112u8, 97, 116, 104, 46, 117, 116, 102, 45, 56]
}

pub open spec fn key_path() -> Seq<u8> {
    seq![112u8, 97, 116, 104]
}

pub open spec fn unknown_path() -> Seq<char> {
    seq!['u', 'n', 'k', 'n', 'o', 'w', 'n']
}

// ---------------------------------------------------------------- model

/// The text of some bytes: the UTF-8 text when they are valid UTF-8, else lossy UTF-8;
/// without NULs and white space at either end.
pub open spec fn lossy_text(b: Seq<u8>) -> Seq<char> {
    trim_nul_then_space(if valid_utf8(b) { decode_utf8(b) } else { utf8_lossy(b) })
}

/// The value under `k1`, or else under `k2`.
pub open spec fn first_of(d: Seq<(Seq<u8>, Val)>, k1: Seq<u8>, k2: Seq<u8>) -> Option<Val> {
    match dict_lookup(d, k1) {
        Some(v) => Some(v),
        None => dict_lookup(d, k2),
    }
}

/// The non-empty texts of the byte strings of a path list.
pub open spec fn path_parts(parts: Seq<Val>) -> Seq<Seq<char>>
    decreases parts.len(),
{
    if parts.len() == 0 {
        Seq::empty()
    } else {
        let rest = path_parts(parts.drop_last());
        match parts.last() {
            Val::Bytes(b) => if lossy_text(b).len() > 0 {
                rest.push(lossy_text(b))
            } else {
                rest
            },
            _ => rest,
        }
    }
}

/// Texts joined by `/`.
pub open spec fn join_slash(ts: Seq<Seq<char>>) -> Seq<char>
    decreases ts.len(),
{
    if ts.len() == 0 {
        Seq::empty()
    } else if ts.len() == 1 {
        ts[0]
    } else {
        join_slash(ts.drop_last()) + seq!['/'] + ts.last()
    }
}

/// The path that a `path` value gives: a list of parts joined by `/` (none if that is
/// empty), or one byte string.
pub open spec fn spec_path_value(v: Val) -> Option<Seq<char>> {
    match v {
        Val::List(parts) => {
            let j = join_slash(path_parts(parts));
            if j.len() == 0 {
                None
            } else {
                Some(j)
            }
        },
        Val::Bytes(b) => Some(lossy_text(b)),
        _ => None,
    }
}

/// A size: an integer that is not negative.
pub open spec fn spec_int_value(v: Option<Val>) -> Option<u64> {
    match v {
        Some(Val::Int(i)) => if i >= 0 {
            Some(i as u64)
        } else {
            None
        },
        _ => None,
    }
}

/// One entry of a `files` list: a dictionary with a size; its path defaults to
/// `unknown` and is cut to `max_path` bytes.
pub open spec fn file_entry(entry: Val, max_path: int) -> Option<(Seq<char>, u64)> {
    match entry {
        Val::Dict(d) => match spec_int_value(dict_lookup(d, key_length())) {
            None => None,
            Some(size) => {
                let path = match first_of(d, key_path_utf8(), key_path()) {
                    Some(v) => match spec_path_value(v) {
                        Some(p) => p,
                        None => unknown_path(),
                    },
                    None => unknown_path(),
                };
                Some((truncate_text(path, max_path), size))
            },
        },
        _ => None,
    }
}

/// The files of a `files` list, in order.
pub open spec fn multi_files(entries: Seq<Val>, max_path: int) -> Seq<(Seq<char>, u64)>
    decreases entries.len(),
{
    if entries.len() == 0 {
        Seq::empty()
    } else {
        let rest = multi_files(entries.drop_last(), max_path);
        match file_entry(entries.last(), max_path) {
            Some(f) => rest.push(f),
            None => rest,
        }
    }
}

pub open spec fn file_view(f: TorrentFile) -> (Seq<char>, u64) {
    (f.path@, f.size)
}

pub open spec fn files_view(v: Seq<TorrentFile>) -> Seq<(Seq<char>, u64)> {
    v.map_values(|f: TorrentFile| file_view(f))
}

pub open spec fn sizes_sum(fs: Seq<(Seq<char>, u64)>) -> int
    decreases fs.len(),
{
    if fs.len() == 0 {
        0
    } else {
        sizes_sum(fs.drop_last()) + fs.last().1
    }
}

/// The name of a torrent: `name.utf-8` or else `name`, if that is a byte string with
/// some text; otherwise the hexadecimal info hash.
pub open spec fn record_name(d: Seq<(Seq<u8>, Val)>, hash: Seq<u8>) -> Seq<char> {
    match first_of(d, key_name_utf8(), key_name()) {
        Some(Val::Bytes(b)) => if lossy_text(b).len() > 0 {
            lossy_text(b)
        } else {
            hex_lower(hash)
        },
        _ => hex_lower(hash),
    }
}

/// The files of a torrent: those of its `files` list, or one file named after the
/// torrent with its `length`; none when a single-file torrent has no usable length.
pub open spec fn record_files(d: Seq<(Seq<u8>, Val)>, name: Seq<char>, max_path: int) -> Option<
    Seq<(Seq<char>, u64)>,
> {
    match dict_lookup(d, key_files()) {
        Some(Val::List(entries)) => Some(multi_files(entries, max_path)),
        _ => match spec_int_value(dict_lookup(d, key_length())) {
            Some(size) => Some(seq![(truncate_text(name, max_path), size)]),
            None => None,
        },
    }
}

/// The first `max` items of a sequence (all of them when there are fewer).
pub open spec fn keep_first<A>(s: Seq<A>, max: int) -> Seq<A> {
    if s.len() <= max {
        s
    } else {
        s.take(max)
    }
}

/// What a record built from metadata holds, but for the time it was made at.
pub open spec fn record_matches(
    rec: TorrentRecord,
    hash: [u8; 20],
    name: Seq<char>,
    fs: Seq<(Seq<char>, u64)>,
    max_files: int,
) -> bool {
    &&& rec.info_hash@ == hex_lower(hash@)
    &&& rec.info_hash_bytes == hash
    &&& rec.name@ == name
    &&& rec.total_size == sizes_sum(fs)
    &&& rec.file_count == fs.len()
    &&& files_view(rec.files@) == keep_first(fs, max_files)
    &&& rec.files_stored_count == rec.files@.len()
    &&& rec.peer_count == 1
    &&& rec.source == Source::DhtAnnouncePeer
    &&& rec.hot_score == 1
    &&& rec.first_seen_at == rec.last_seen_at
    &&& rec.last_seen_at == rec.metadata_fetched_at
}


pub open spec fn opt_text(r: Option<String>) -> Option<Seq<char>> {
    match r {
        Some(s) => Some(s@),
        None => None,
    }
}

// ---------------------------------------------------------------- executable code

/// The bytes of a byte string value.
pub fn bytes_value(value: &Value) -> (r: Option<&[u8]>)
    ensures
        match value@ {
            Val::Bytes(b) => r matches Some(x) && x@ == b,
            _ => r is None,
        },
{
    as_bytes(value)
}

/// A size: an integer value that is not negative.
pub fn int_value(value: Option<&Value>) -> (r: Option<u64>)
    ensures
        r == spec_int_value(
            match value {
                Some(v) => Some(v@),
                None => None,
            },
        ),
{
    match value {
        Some(Value::Int(v)) => if *v >= 0 {
            Some(*v as u64)
        } else {
            None
        },
        _ => None,
    }
}

/// The characters of `decode_lossy`.
fn lossy_chars(bytes: &[u8]) -> (r: Vec<char>)
    ensures
        r@ == lossy_text(bytes@),
{
    let s = from_utf8_lossy(bytes);
    let cs = str_chars(s.as_str());
    trim_nul_and_space(cs)
}

/// Lossy UTF-8 text of some bytes, without NULs and white space at either end.
pub fn decode_lossy(bytes: &[u8]) -> (r: String)
    ensures
        r@ == lossy_text(bytes@),
{
    let cs = lossy_chars(bytes);
    string_from_chars(&cs)
}

/// Cuts a text to at most `max_len` bytes of UTF-8, at a character boundary.
pub fn truncate(value: String, max_len: usize) -> (r: String)
    ensures
        r@ == truncate_text(value@, max_len as int),
{
    let cs = str_chars(value.as_str());
    let cut = truncate_chars(&cs, max_len);
    string_from_chars(&cut)
}

/// The path that a `path` value gives.
pub fn path_value(value: &Value) -> (r: Option<String>)
    ensures
        opt_text(r) == spec_path_value(value@),
{
    match value {
        Value::List(parts) => {
            let ghost ps = list_view(parts@);
            proof {
                lemma_list_view(parts@);
            }
            let mut out: Vec<char> = Vec::new();
            let mut count: usize = 0;
            let mut i: usize = 0;
            assert(ps.take(0) =~= Seq::<Val>::empty());
            while i < parts.len()
                invariant
                    ps == list_view(parts@),
                    ps.len() == parts@.len(),
                    forall|j: int| 0 <= j < ps.len() ==> #[trigger] ps[j] == parts@[j]@,
                    i <= parts.len(),
                    count == path_parts(ps.take(i as int)).len(),
                    count <= i,
                    out@ == join_slash(path_parts(ps.take(i as int))),
                decreases parts.len() - i,
            {
                let ghost before = path_parts(ps.take(i as int));
                assert(ps.take(i + 1).drop_last() =~= ps.take(i as int));
                assert(ps.take(i + 1).last() == parts@[i as int]@);
                match bytes_value(&parts[i]) {
                    Some(b) => {
                        let t = lossy_chars(b);
                        if t.len() > 0 {
                            if count > 0 {
                                out.push('/');
                            }
                            let ghost mid = out@;
                            let mut j: usize = 0;
                            while j < t.len()
                                invariant
                                    j <= t@.len(),
                                    out@ == mid + t@.take(j as int),
                                decreases t.len() - j,
                            {
                                out.push(t[j]);
                                assert(out@ =~= mid + t@.take(j + 1));
                                j = j + 1;
                            }
                            assert(t@.take(t@.len() as int) =~= t@);
                            assert(before.push(t@).drop_last() =~= before);
                            count = count + 1;
                        }
                    },
                    None => {},
                }
                i = i + 1;
            }
            assert(ps.take(ps.len() as int) =~= ps);
            if out.len() == 0 {
                None
            } else {
                Some(string_from_chars(&out))
            }
        },
        Value::Bytes(b) => Some(decode_lossy(b.as_slice())),
        _ => None,
    }
}

/// The value under `k1`, or else under `k2`.
fn get_either<'a>(d: &'a Dict, k1: &[u8], k2: &[u8]) -> (r: Option<&'a Value>)
    ensures
        match first_of(d@, k1@, k2@) {
            Some(v) => r matches Some(x) && x@ == v,
            None => r is None,
        },
{
    match dict_get(d, k1) {
        Some(v) => Some(v),
        None => dict_get(d, k2),
    }
}

/// The files of a `files` list; the paths are cut to `max_file_path_len` bytes.
fn parse_multi_files(entries: &Vec<Value>, config: &StorageConfig) -> (r: Result<
    Vec<TorrentFile>,
    CrawlError,
>)
    ensures
        r matches Ok(files) && files_view(files@) == multi_files(
            list_view(entries@),
            config.max_file_path_len as int,
        ),
{
    let ghost es = list_view(entries@);
    let ghost max_path = config.max_file_path_len as int;
    proof {
        lemma_list_view(entries@);
    }
    let mut files: Vec<TorrentFile> = Vec::new();
    let key_length: &[u8] = &[108u8, 101, 110, 103, 116, 104];
    let key_path_utf8: &[u8] = &[112u8, 97, 116, 104, 46, 117, 116, 102, 45, 56];
    let key_path: &[u8] = &[112u8, 97, 116, 104];
    assert(key_length@ == crate::crawler::key_length());
    assert(key_path_utf8@ == crate::crawler::key_path_utf8());
    assert(key_path@ == crate::crawler::key_path());
    let mut i: usize = 0;
    assert(es.take(0) =~= Seq::<Val>::empty());
    while i < entries.len()
        invariant
            es == list_view(entries@),
            es.len() == entries@.len(),
            forall|j: int| 0 <= j < es.len() ==> #[trigger] es[j] == entries@[j]@,
            i <= entries.len(),
            max_path == config.max_file_path_len as int,
            key_length@ == crate::crawler::key_length(),
            key_path_utf8@ == crate::crawler::key_path_utf8(),
            key_path@ == crate::crawler::key_path(),
            files_view(files@) == multi_files(es.take(i as int), max_path),
        decreases entries.len() - i,
    {
        assert(es.take(i + 1).drop_last() =~= es.take(i as int));
        assert(es.take(i + 1).last() == entries@[i as int]@);
        match &entries[i] {
            Value::Dict(file) => {
                match int_value(dict_get(file, key_length)) {
                    Some(size) => {
                        let path = match get_either(file, key_path_utf8, key_path) {
                            Some(v) => match path_value(v) {
                                Some(p) => p,
                                None => string_from_chars(&vec!['u', 'n', 'k', 'n', 'o', 'w', 'n']),
                            },
                            None => string_from_chars(&vec!['u', 'n', 'k', 'n', 'o', 'w', 'n']),
                        };
                        let ghost before = files@;
                        let f = TorrentFile { path: truncate(path, config.max_file_path_len), size };
                        files.push(f);
                        assert(files_view(files@) =~= files_view(before).push(file_view(f)));
                    },
                    None => {},
                }
            },
            _ => {},
        }
        i = i + 1;
    }
    assert(es.take(es.len() as int) =~= es);
    Ok(files)
}


/// Builds the record of a torrent from its metadata (a bencoded info dictionary).
#[verifier::loop_isolation(false)]
pub fn build_record(info_hash_bytes: [u8; 20], metadata_info: &[u8], config: &StorageConfig) -> (r:
    Result<TorrentRecord, CrawlError>)
    ensures
        match spec_parse(metadata_info@) {
            Err(e) => r == Err::<TorrentRecord, CrawlError>(CrawlError::InvalidBencode(e)),
            Ok(Val::Dict(d)) => {
                let name = record_name(d, info_hash_bytes@);
                match record_files(d, name, config.max_file_path_len as int) {
                    None => r == Err::<TorrentRecord, CrawlError>(CrawlError::MissingLength),
                    Some(fs) => if fs.len() == 0 {
                        r == Err::<TorrentRecord, CrawlError>(CrawlError::NoFiles)
                    } else if sizes_sum(fs) > u64::MAX {
                        r == Err::<TorrentRecord, CrawlError>(CrawlError::SizeOverflow)
                    } else {
                        r matches Ok(rec) && record_matches(
                            rec,
                            info_hash_bytes,
                            name,
                            fs,
                            config.max_files_per_torrent as int,
                        )
                    },
                }
            },
            Ok(_) => r == Err::<TorrentRecord, CrawlError>(CrawlError::NotADict),
        },
{
    let value = match parse(metadata_info) {
        Ok(v) => v,
        Err(e) => {
            return Err(CrawlError::InvalidBencode(e));
        },
    };
    let info = match &value {
        Value::Dict(info) => info,
        _ => {
            return Err(CrawlError::NotADict);
        },
    };
    let ghost d = info@;
    let key_name_utf8: &[u8] = &[110u8, 97, 109, 101, 46, 117, 116, 102, 45, 56];
    let key_name: &[u8] = &[110u8, 97, 109, 101];
    let key_files: &[u8] = &[102u8, 105, 108, 101, 115];
    let key_length: &[u8] = &[108u8, 101, 110, 103, 116, 104];
    assert(key_name_utf8@ == crate::crawler::key_name_utf8());
    assert(key_name@ == crate::crawler::key_name());
    assert(key_files@ == crate::crawler::key_files());
    assert(key_length@ == crate::crawler::key_length());
    let hash_slice: &[u8] = &info_hash_bytes;
    let name: String = match get_either(info, key_name_utf8, key_name) {
        Some(Value::Bytes(b)) => {
            let text = decode_lossy(b.as_slice());
            if text.as_str().is_empty() {
                hex_encode(hash_slice)
            } else {
                text
            }
        },
        _ => hex_encode(hash_slice),
    };
    assert(name@ == record_name(d, info_hash_bytes@));
    let mut files: Vec<TorrentFile> = match dict_get(info, key_files) {
        Some(Value::List(entries)) => match parse_multi_files(entries, config) {
            Ok(files) => files,
            Err(e) => {
                return Err(e);
            },
        },
        _ => {
            let size = match int_value(dict_get(info, key_length)) {
                Some(size) => size,
                None => {
                    return Err(CrawlError::MissingLength);
                },
            };
            let name_copy = string_from_chars(&str_chars(name.as_str()));
            let f = TorrentFile { path: truncate(name_copy, config.max_file_path_len), size };
            let files = vec![f];
            assert(files_view(files@) =~= seq![file_view(f)]);
            files
        },
    };
    let ghost fs = files_view(files@);
    assert(Some(fs) == record_files(d, name@, config.max_file_path_len as int));
    if files.len() == 0 {
        return Err(CrawlError::NoFiles);
    }
    let file_count = files.len();
    let mut total: u64 = 0;
    let mut i: usize = 0;
    assert(fs.take(0) =~= Seq::<(Seq<char>, u64)>::empty());
    while i < files.len()
        invariant
            fs == files_view(files@),
            fs.len() == files@.len(),
            i <= files.len(),
            total == sizes_sum(fs.take(i as int)),
        decreases files.len() - i,
    {
        assert(fs.take(i + 1).drop_last() =~= fs.take(i as int));
        assert(fs[i as int].1 == files@[i as int].size);
        match total.checked_add(files[i].size) {
            Some(t) => {
                total = t;
            },
            None => {
                proof {
                    lemma_sizes_sum_grows(fs, i + 1);
                }
                return Err(CrawlError::SizeOverflow);
            },
        }
        i = i + 1;
    }
    assert(fs.take(fs.len() as int) =~= fs);
    let ghost all_files = files@;
    files.truncate(config.max_files_per_torrent);
    assert(files_view(files@) =~= keep_first(fs, config.max_files_per_torrent as int));
    let now = now_ts();
    let stored = files.len();
    Ok(
        TorrentRecord {
            info_hash: hex_encode(hash_slice),
            info_hash_bytes,
            name,
            total_size: total,
            file_count,
            files_stored_count: stored,
            files,
            peer_count: 1,
            source: Source::DhtAnnouncePeer,
            hot_score: 1,
            first_seen_at: now,
            last_seen_at: now,
            metadata_fetched_at: now,
        },
    )
}

/// A sum of sizes only grows as more files are counted.
pub proof fn lemma_sizes_sum_grows(fs: Seq<(Seq<char>, u64)>, k: int)
    requires
        0 <= k <= fs.len(),
    ensures
        sizes_sum(fs.take(k)) <= sizes_sum(fs),
    decreases fs.len() - k,
{
    if k < fs.len() {
        lemma_sizes_sum_grows(fs, k + 1);
        assert(fs.take(k + 1).drop_last() =~= fs.take(k));
    } else {
        assert(fs.take(k) =~= fs);
    }
}


/// Why an info hash text was refused.
#[derive(Debug, Clone, Copy, PartialEq, Eq, Structural)]
pub enum InfoHashError {
    /// The text is not an even number of hexadecimal digits.
    InvalidHex,
    /// The text does not stand for exactly 20 bytes.
    WrongLength,
}

/// Reads an info hash written as 40 hexadecimal digits.
pub fn decode_info_hash_hex(info_hash: &str) -> (r: Result<[u8; 20], InfoHashError>)
    ensures
        ({
            let text = vstd::utf8::encode_utf8(info_hash@);
            if !hex_decodable(text) {
                r == Err::<[u8; 20], InfoHashError>(InfoHashError::InvalidHex)
            } else if hex_bytes(text).len() != 20 {
                r == Err::<[u8; 20], InfoHashError>(InfoHashError::WrongLength)
            } else {
                r matches Ok(h) && h@ == hex_bytes(text)
            }
        }),
{
    let bytes = match hex_decode(info_hash.as_bytes()) {
        Ok(b) => b,
        Err(_) => {
            return Err(InfoHashError::InvalidHex);
        },
    };
    if bytes.len() != 20 {
        return Err(InfoHashError::WrongLength);
    }
    let mut hash = [0u8; 20];
    let mut i: usize = 0;
    while i < 20
        invariant
            bytes@.len() == 20,
            i <= 20,
            forall|j: int| 0 <= j < i ==> hash@[j] == bytes@[j],
        decreases 20 - i,
    {
        hash[i] = bytes[i];
        i = i + 1;
    }
    assert(hash@ =~= bytes@);
    Ok(hash)
}


/// The settings the crawler runs with.
pub struct CrawlSettings {
    pub max_nodes: usize,
    pub refresh_node_num: usize,
    pub wire_workers: usize,
    pub wire_queue_size: usize,
    pub metadata_timeout_secs: u64,
}

/// The crawler's settings: the routing table size as configured, 8 nodes per refresh,
/// and at least one metadata worker and one queue slot.
pub fn crawl_settings(metadata: &MetadataConfig, routing_table_max_nodes: usize, hash_queue_size: usize) -> (r:
    CrawlSettings)
    ensures
        r.max_nodes == routing_table_max_nodes,
        r.refresh_node_num == 8,
        r.wire_workers == (if metadata.max_concurrent_fetches < 1 {
            1
        } else {
            metadata.max_concurrent_fetches
        }),
        r.wire_queue_size == (if hash_queue_size < 1 {
            1
        } else {
            hash_queue_size
        }),
        r.metadata_timeout_secs == metadata.timeout_secs,
{
    CrawlSettings {
        max_nodes: routing_table_max_nodes,
        refresh_node_num: 8,
        wire_workers: if metadata.max_concurrent_fetches < 1 {
            1
        } else {
            metadata.max_concurrent_fetches
        },
        wire_queue_size: if hash_queue_size < 1 {
            1
        } else {
            hash_queue_size
        },
        metadata_timeout_secs: metadata.timeout_secs,
    }
}


/// Law: a `name.utf-8` byte string whose text is not empty names the record, whatever the
/// `name` entry holds.
pub proof fn law_name_utf8_takes_precedence(d: Seq<(Seq<u8>, Val)>, hash: Seq<u8>, b: Seq<u8>)
    requires
        dict_lookup(d, seq![110u8, 97, 109, 101, 46, 117, 116, 102, 45, 56]) == Some(Val::Bytes(b)),
        lossy_text(b).len() > 0,
    ensures
        record_name(d, hash) == lossy_text(b),
{
    assert(key_name_utf8() == seq![110u8, 97, 109, 101, 46, 117, 116, 102, 45, 56]);
}

} // verus!
