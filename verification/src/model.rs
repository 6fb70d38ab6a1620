use vstd::prelude::*;

verus! {

/// One file of a torrent: its path (parts joined by `/`) and its size in bytes.
#[derive(Debug, Clone)]
pub struct TorrentFile {
    pub path: String,
    pub size: u64,
}

/// Everything stored about a torrent whose metadata was fetched.
#[derive(Debug, Clone)]
pub struct TorrentRecord {
    pub info_hash: String,
    pub info_hash_bytes: [u8; 20],
    pub name: String,
    pub total_size: u64,
    pub file_count: usize,
    pub files_stored_count: usize,
    pub files: Vec<TorrentFile>,
    pub peer_count: u32,
    pub source: Source,
    pub hot_score: u64,
    pub first_seen_at: i64,
    pub last_seen_at: i64,
    pub metadata_fetched_at: i64,
}

/// Where an info hash was learned.
#[derive(Debug, Clone, Copy, PartialEq, Eq, Structural)]
pub enum Source {
    DhtGetPeers,
    DhtAnnouncePeer,
    ManualMagnet,
}

/// The number stored for a source.
pub open spec fn source_code(s: Source) -> i64 {
    match s {
        Source::DhtGetPeers => 1,
        Source::DhtAnnouncePeer => 2,
        Source::ManualMagnet => 3,
    }
}

impl Source {
    /// The number stored for this source.
    pub fn as_i64(self) -> (r: i64)
        ensures
            r == source_code(self),
    {
        match self {
            Source::DhtGetPeers => 1,
            Source::DhtAnnouncePeer => 2,
            Source::ManualMagnet => 3,
        }
    }
}

#[verifier::external_type_specification]
#[verifier::external_body]
pub struct ExSystemTime(std::time::SystemTime);

/// `std::time::SystemTime::now`: the clock's current time; nothing is claimed of it.
#[verifier::external_body]
fn system_time_now() -> std::time::SystemTime {
    std::time::SystemTime::now()
}

/// `SystemTime::duration_since(UNIX_EPOCH)`: the time elapsed since the Unix epoch, or
/// `None` for a time before it. The time is the clock's, so nothing is claimed of it.
#[verifier::external_body]
fn duration_since_epoch(t: &std::time::SystemTime) -> Option<std::time::Duration> {
    t.duration_since(std::time::UNIX_EPOCH).ok()
}

/// `Duration::as_secs`: the whole seconds of a duration. The duration is the clock's,
/// so nothing is claimed of them.
#[verifier::external_body]
fn duration_secs(d: &std::time::Duration) -> u64 {
    d.as_secs()
}

/// The timestamp for a clock reading: the whole seconds since the epoch as an `i64`
/// (wrapping as `as` does), or 0 for a clock before the epoch.
pub open spec fn unix_secs_value(since_epoch: Option<u64>) -> i64 {
    match since_epoch {
        Some(s) => s as i64,
        None => 0,
    }
}

/// The timestamp for a clock reading given as whole seconds since the epoch (`None` for
/// a clock before the epoch).
pub fn unix_secs(since_epoch: Option<u64>) -> (r: i64)
    ensures
        r == unix_secs_value(since_epoch),
{
    match since_epoch {
        Some(s) => s as i64,
        None => 0,
    }
}

/// The clock's reading in whole seconds since the epoch, or `None` before the epoch.
fn clock_secs() -> Option<u64> {
    let now = system_time_now();
    match duration_since_epoch(&now) {
        Some(d) => Some(duration_secs(&d)),
        None => None,
    }
}

/// The current Unix time in seconds, or 0 when the clock stands before the epoch: the
/// timestamp of whatever the clock reads.
pub fn now_ts() -> (r: i64)
    ensures
        exists|reading: Option<u64>| r == unix_secs_value(reading),
{
    let reading = clock_secs();
    unix_secs(reading)
}

} // verus!
