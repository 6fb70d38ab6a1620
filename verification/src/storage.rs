use vstd::prelude::*;

use crate::model::{source_code, TorrentRecord};
use crate::search::{build_name_ngram, spec_name_ngram};
use crate::text::str_chars;

verus! {

/// One search result.
#[derive(Debug, Clone)]
pub struct SearchRow {
    pub info_hash: String,
    pub name: String,
    pub total_size: u64,
    pub file_count: u64,
    pub peer_count: u64,
    pub hot_score: u64,
    pub last_seen_at: i64,
}

impl SearchRow {
    /// A result from the columns of a result row; the counts are stored as signed
    /// integers and read back as unsigned ones.
    pub fn from_columns(
        info_hash: String,
        name: String,
        total_size: i64,
        file_count: i64,
        peer_count: i64,
        hot_score: i64,
        last_seen_at: i64,
    ) -> (r: SearchRow)
        ensures
            r.info_hash@ == info_hash@,
            r.name@ == name@,
            r.total_size == total_size as u64,
            r.file_count == file_count as u64,
            r.peer_count == peer_count as u64,
            r.hot_score == hot_score as u64,
            r.last_seen_at == last_seen_at,
    {
        SearchRow {
            info_hash,
            name,
            total_size: total_size as u64,
            file_count: file_count as u64,
            peer_count: peer_count as u64,
            hot_score: hot_score as u64,
            last_seen_at,
        }
    }
}

/// The start of the bucket of width `size` that holds `ts`: `ts` rounded down to a
/// multiple of `size` (with the remainder taken as `rem_euclid` does).
pub fn bucket(ts: i64, size: i64) -> (r: i64)
    requires
        size != 0,
        !(ts == i64::MIN && size == -1),
        ts - ts % size >= i64::MIN,
    ensures
        r == ts - ts % size,
{
    let rem = match ts.checked_rem_euclid(size) {
        Some(r) => r,
        None => 0,
    };
    ts - rem
}

// ---------------------------------------------------------------- connecting

/// How the store is reached.
#[derive(Debug, Clone, Copy, PartialEq, Eq, Structural)]
pub enum Location {
    /// A remote libSQL server, with its auth token.
    Remote,
    /// A local database file.
    Local,
}

/// Why the store cannot be reached.
#[derive(Debug, Clone, Copy, PartialEq, Eq, Structural)]
pub enum StoreError {
    /// A remote URL was given without an auth token.
    MissingAuthToken,
}

pub open spec fn starts_with(s: Seq<char>, p: Seq<char>) -> bool {
    p.len() <= s.len() && s.take(p.len() as int) == p
}

/// The URL names a remote server: it starts with `http://`, `https://` or `libsql://`.
pub open spec fn remote_url(url: Seq<char>) -> bool {
    ||| starts_with(url, seq!['h', 't', 't', 'p', ':', '/', '/'])
    ||| starts_with(url, seq!['h', 't', 't', 'p', 's', ':', '/', '/'])
    ||| starts_with(url, seq!['l', 'i', 'b', 's', 'q', 'l', ':', '/', '/'])
}

fn has_prefix(s: &Vec<char>, p: &Vec<char>) -> (r: bool)
    ensures
        r == starts_with(s@, p@),
{
    if p.len() > s.len() {
        return false;
    }
    let mut i: usize = 0;
    while i < p.len()
        invariant
            p@.len() <= s@.len(),
            i <= p@.len(),
            forall|j: int| 0 <= j < i ==> s@[j] == p@[j],
        decreases p@.len() - i,
    {
        if s[i] != p[i] {
            return false;
        }
        i = i + 1;
    }
    assert(s@.take(p@.len() as int) =~= p@);
    true
}

/// Where the store at `url` is: remote for the URL schemes of a server, which need an
/// auth token, else a local file.
pub fn store_location(url: &str, auth_token: Option<&str>) -> (r: Result<Location, StoreError>)
    ensures
        remote_url(url@) && auth_token is None ==> r == Err::<Location, StoreError>(StoreError::MissingAuthToken),
        remote_url(url@) && auth_token is Some ==> r == Ok::<Location, StoreError>(Location::Remote),
        !remote_url(url@) ==> r == Ok::<Location, StoreError>(Location::Local),
{
    let cs = str_chars(url);
    let remote = has_prefix(&cs, &vec!['h', 't', 't', 'p', ':', '/', '/'])
        || has_prefix(&cs, &vec!['h', 't', 't', 'p', 's', ':', '/', '/'])
        || has_prefix(&cs, &vec!['l', 'i', 'b', 's', 'q', 'l', ':', '/', '/']);
    if remote {
        match auth_token {
            Some(_) => Ok(Location::Remote),
            None => Err(StoreError::MissingAuthToken),
        }
    } else {
        Ok(Location::Local)
    }
}

// ---------------------------------------------------------------- writing a torrent

/// The values of the `torrents` row of a record.
pub struct TorrentRow {
    pub info_hash: Vec<u8>,
    pub info_hash_hex: String,
    pub name: String,
    pub total_size: i64,
    pub file_count: i64,
    pub files_stored_count: i64,
    pub peer_count: i64,
    pub hot_score: i64,
    pub source: i64,
    pub first_seen_at: i64,
    pub last_seen_at: i64,
    pub metadata_fetched_at: i64,
}

/// The values of one `torrent_files` row.
pub struct FileRow {
    pub file_index: i64,
    pub path: String,
    pub size: i64,
}

/// The values of one observation row: the bucket, the peer count, the source and the time.
pub struct ObservationRow {
    pub bucket_start: i64,
    pub max_peer_count: i64,
    pub last_source: i64,
    pub updated_at: i64,
}

/// Everything written for one torrent, in one transaction.
pub struct StorePlan {
    pub torrent: TorrentRow,
    pub files: Vec<FileRow>,
    pub name_ngram: String,
    pub observation_5m: ObservationRow,
    pub observation_hourly: ObservationRow,
}

/// The buckets of a record's last sighting can be computed without overflow.
pub open spec fn buckets_fit(ts: i64) -> bool {
    ts - ts % 300 >= i64::MIN && ts - ts % 3600 >= i64::MIN
}

pub open spec fn observation_of(o: ObservationRow, rec: TorrentRecord, width: i64) -> bool {
    &&& o.bucket_start == rec.last_seen_at - rec.last_seen_at % width
    &&& o.max_peer_count == rec.peer_count as i64
    &&& o.last_source == source_code(rec.source)
    &&& o.updated_at == rec.last_seen_at
}

/// The rows that storing a record writes: the torrent row (sizes and counts as signed
/// integers), one file row per stored file with its index, the search text of the name,
/// and the observations of the five-minute and hourly buckets of its last sighting.
pub fn store_plan(record: &TorrentRecord, max_ngram_len: usize) -> (r: StorePlan)
    requires
        buckets_fit(record.last_seen_at),
    ensures
        r.torrent.info_hash@ == record.info_hash_bytes@,
        r.torrent.info_hash_hex@ == record.info_hash@,
        r.torrent.name@ == record.name@,
        r.torrent.total_size == record.total_size as i64,
        r.torrent.file_count == record.file_count as i64,
        r.torrent.files_stored_count == record.files_stored_count as i64,
        r.torrent.peer_count == record.peer_count as i64,
        r.torrent.hot_score == record.hot_score as i64,
        r.torrent.source == source_code(record.source),
        r.torrent.first_seen_at == record.first_seen_at,
        r.torrent.last_seen_at == record.last_seen_at,
        r.torrent.metadata_fetched_at == record.metadata_fetched_at,
        r.files@.len() == record.files@.len(),
        forall|i: int|
            0 <= i < r.files@.len() ==> (#[trigger] r.files@[i]).file_index == i as i64 && r.files@[i].path@
                == record.files@[i].path@ && r.files@[i].size == record.files@[i].size as i64,
        r.name_ngram@ == spec_name_ngram(record.name@, max_ngram_len as int),
        observation_of(r.observation_5m, *record, 300),
        observation_of(r.observation_hourly, *record, 3600),
{
    let mut hash: Vec<u8> = Vec::new();
    let mut i: usize = 0;
    while i < 20
        invariant
            i <= 20,
            hash@ == record.info_hash_bytes@.take(i as int),
        decreases 20 - i,
    {
        hash.push(record.info_hash_bytes[i]);
        assert(hash@ =~= record.info_hash_bytes@.take(i + 1));
        i = i + 1;
    }
    assert(record.info_hash_bytes@.take(20) =~= record.info_hash_bytes@);
    let torrent = TorrentRow {
        info_hash: hash,
        info_hash_hex: record.info_hash.clone(),
        name: record.name.clone(),
        total_size: record.total_size as i64,
        file_count: record.file_count as i64,
        files_stored_count: record.files_stored_count as i64,
        peer_count: record.peer_count as i64,
        hot_score: record.hot_score as i64,
        source: record.source.as_i64(),
        first_seen_at: record.first_seen_at,
        last_seen_at: record.last_seen_at,
        metadata_fetched_at: record.metadata_fetched_at,
    };
    let mut files: Vec<FileRow> = Vec::new();
    let mut j: usize = 0;
    while j < record.files.len()
        invariant
            j <= record.files@.len(),
            files@.len() == j,
            forall|k: int|
                0 <= k < j ==> (#[trigger] files@[k]).file_index == k as i64 && files@[k].path@ == record.files@[k].path@
                    && files@[k].size == record.files@[k].size as i64,
        decreases record.files@.len() - j,
    {
        let f = &record.files[j];
        files.push(FileRow { file_index: j as i64, path: f.path.clone(), size: f.size as i64 });
        j = j + 1;
    }
    let name_ngram = build_name_ngram(record.name.as_str(), max_ngram_len);
    let peers = record.peer_count as i64;
    let source = record.source.as_i64();
    let observation_5m = ObservationRow {
        bucket_start: bucket(record.last_seen_at, 300),
        max_peer_count: peers,
        last_source: source,
        updated_at: record.last_seen_at,
    };
    let observation_hourly = ObservationRow {
        bucket_start: bucket(record.last_seen_at, 3600),
        max_peer_count: peers,
        last_source: source,
        updated_at: record.last_seen_at,
    };
    StorePlan { torrent, files, name_ngram, observation_5m, observation_hourly }
}


/// Law: a bucket of positive width starts at a multiple of the width, at or before the
/// time, less than one width before it.
pub proof fn law_bucket(ts: i64, size: i64)
    requires
        size > 0,
    ensures
        (ts - ts % size) % (size as int) == 0,
        ts - ts % size <= ts < ts - ts % size + size,
{
    assert((ts - ts % size) % (size as int) == 0) by (nonlinear_arith)
        requires
            size > 0,
    ;
}


/// Whether the buckets of a time can be computed without overflow.
pub fn buckets_fit_at(ts: i64) -> (r: bool)
    ensures
        r == buckets_fit(ts),
{
    let five = ts as i128 - ts.checked_rem_euclid(300).unwrap_or(0) as i128;
    let hour = ts as i128 - ts.checked_rem_euclid(3600).unwrap_or(0) as i128;
    five >= i64::MIN as i128 && hour >= i64::MIN as i128
}

} // verus!
