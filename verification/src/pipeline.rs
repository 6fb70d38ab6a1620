use std::collections::VecDeque;
use vstd::prelude::*;

use crate::adysec_engine::{all_cuttable, files_cut, truncate_files};
use crate::config::StorageConfig;
use crate::dht::{random_source, strictly_sorted, unique, InfoHashEvent, PeerAddr};
use crate::hexcode::{hex_encode, hex_lower};
use crate::metadata::parser::ParsedMetadata;
use crate::model::{now_ts, TorrentRecord};

verus! {

// ---------------------------------------------------------------- recently seen hashes

/// What is remembered about one info hash: when it was last seen, and the peers seen
/// with it lately, oldest first, each with the time it was seen.
pub struct SeenState {
    last_seen_at: i64,
    recent_peers: VecDeque<(PeerAddr, i64)>,
}

impl SeenState {
    /// When the hash was last seen.
    pub closed spec fn last_seen(self) -> i64 {
        self.last_seen_at
    }

    /// The peers seen with the hash lately, oldest first, with the times they were seen.
    pub closed spec fn recent(self) -> Seq<(PeerAddr, i64)> {
        self.recent_peers@
    }

    /// At most 32 recent peers are kept, none twice.
    #[verifier::type_invariant]
    spec fn recent_bounded(self) -> bool {
        self.recent_peers@.len() <= 32 && distinct_peers(self.recent_peers@)
    }

    /// When the hash was last seen.
    pub fn last_seen_at(&self) -> (r: i64)
        ensures
            r == self.last_seen(),
    {
        self.last_seen_at
    }

    /// The peers seen with the hash lately, oldest first, with the times they were seen.
    pub fn recent_peers(&self) -> (r: &VecDeque<(PeerAddr, i64)>)
        ensures
            r@ == self.recent(),
    {
        &self.recent_peers
    }

    /// Nothing seen yet.
    pub fn new() -> (r: Self)
        ensures
            r.last_seen() == 0,
            r.recent() == Seq::<(PeerAddr, i64)>::empty(),
    {
        SeenState { last_seen_at: 0, recent_peers: VecDeque::new() }
    }
}

/// The differences that the decisions take between `now` and the remembered times fit
/// in an `i64`.
pub open spec fn times_fit(state: SeenState, now: i64) -> bool {
    &&& i64::MIN <= now - state.last_seen() <= i64::MAX
    &&& forall|i: int|
        0 <= i < state.recent().len() ==> i64::MIN <= now - (#[trigger] state.recent()[i]).1 <= i64::MAX
}

/// The entries seen less than five minutes before `now`, in order.
pub open spec fn recent_within(s: Seq<(PeerAddr, i64)>, now: i64) -> Seq<(PeerAddr, i64)>
    decreases s.len(),
{
    if s.len() == 0 {
        Seq::empty()
    } else {
        let r = recent_within(s.drop_last(), now);
        if now - s.last().1 < 300 {
            r.push(s.last())
        } else {
            r
        }
    }
}

/// The last `n` entries (all of them when there are no more).
pub open spec fn keep_last(s: Seq<(PeerAddr, i64)>, n: nat) -> Seq<(PeerAddr, i64)> {
    if s.len() > n {
        s.skip(s.len() - n)
    } else {
        s
    }
}

pub open spec fn has_peer(s: Seq<(PeerAddr, i64)>, p: PeerAddr) -> bool {
    exists|i: int| 0 <= i < s.len() && (#[trigger] s[i]).0 == p
}

/// What recording an event does to the state of its hash: whether the event is skipped,
/// and the new time last seen and recent peers.
pub open spec fn skip_outcome(last: i64, recent: Seq<(PeerAddr, i64)>, peer: Option<PeerAddr>, now: i64) -> (
    bool,
    i64,
    Seq<(PeerAddr, i64)>,
) {
    match peer {
        None => if now - last < 1800 {
            (true, last, recent)
        } else {
            (false, now, recent)
        },
        Some(p) => {
            let fresh = recent_within(recent, now);
            if has_peer(fresh, p) {
                (true, now, fresh)
            } else {
                (false, now, keep_last(fresh.push((p, now)), 32))
            }
        },
    }
}

/// Whether a hash was seen less than half an hour before `now`.
pub fn seen_recently(state: &SeenState, now: i64) -> (r: bool)
    requires
        times_fit(*state, now),
    ensures
        r == (now - state.last_seen() < 1800),
{
    now - state.last_seen_at < 1800
}

/// Records an event in the state of its hash and tells whether it repeats what was seen
/// lately: an event without a peer repeats a hash seen in the last half hour; an event
/// with a peer repeats when that peer was seen with the hash in the last five minutes.
/// Peers older than five minutes are forgotten and at most 32 are kept.
#[verifier::loop_isolation(false)]
pub fn should_skip_event(state: &mut SeenState, event: &InfoHashEvent, now: i64) -> (skip: bool)
    requires
        times_fit(*old(state), now),
    ensures
        event.peer is None ==> if now - old(state).last_seen() < 1800 {
            &&& skip
            &&& final(state).last_seen() == old(state).last_seen()
            &&& final(state).recent() == old(state).recent()
        } else {
            &&& !skip
            &&& final(state).last_seen() == now
            &&& final(state).recent() == old(state).recent()
        },
        (skip, final(state).last_seen(), final(state).recent()) == skip_outcome(
            old(state).last_seen(),
            old(state).recent(),
            event.peer,
            now,
        ),
        final(state).recent().len() <= 32,
        distinct_peers(final(state).recent()),
        event.peer matches Some(p) ==> {
            let fresh = recent_within(old(state).recent(), now);
            &&& final(state).last_seen() == now
            &&& if has_peer(fresh, p) {
                skip && final(state).recent() == fresh
            } else {
                !skip && final(state).recent() == keep_last(fresh.push((p, now)), 32)
            }
        },
{
    proof {
        use_type_invariant(&*state);
    }
    match event.peer {
        None => {
            if seen_recently(state, now) {
                return true;
            }
            state.last_seen_at = now;
            false
        },
        Some(peer) => {
            state.last_seen_at = now;
            let ghost old_recent = state.recent_peers@;
            assert(old_recent == old(state).recent());
            assert forall|j: int| 0 <= j < old_recent.len() implies i64::MIN <= now - (#[trigger] old_recent[j]).1
                <= i64::MAX by {
                assert(old(state).recent()[j] == old_recent[j]);
            }
            let mut fresh: VecDeque<(PeerAddr, i64)> = VecDeque::new();
            let mut i: usize = 0;
            while i < state.recent_peers.len()
                invariant
                    old_recent == state.recent_peers@,
                    forall|j: int| 0 <= j < old_recent.len() ==> i64::MIN <= now - (#[trigger] old_recent[j]).1 <= i64::MAX,
                    i <= old_recent.len(),
                    fresh@ == recent_within(old_recent.take(i as int), now),
                decreases old_recent.len() - i,
            {
                let entry = state.recent_peers[i];
                assert(old_recent.take(i + 1).drop_last() =~= old_recent.take(i as int));
                assert(old_recent[i as int] == entry);
                if now - entry.1 < 300 {
                    fresh.push_back(entry);
                }
                i = i + 1;
            }
            assert(old_recent.take(old_recent.len() as int) =~= old_recent);
            proof {
                lemma_recent_within_from(old_recent, now);
                law_recent_peers_kept(old_recent, peer, now);
            }
            let mut k: usize = 0;
            while k < fresh.len()
                invariant
                    k <= fresh@.len(),
                    forall|j: int| 0 <= j < k ==> (#[trigger] fresh@[j]).0 != peer,
                    state.last_seen_at == now,
                    state.recent_peers@ == old_recent,
                decreases fresh@.len() - k,
            {
                if fresh[k].0 == peer {
                    assert(fresh@[k as int].0 == peer);
                    state.recent_peers = fresh;
                    return true;
                }
                k = k + 1;
            }
            let ghost f = fresh@;
            fresh.push_back((peer, now));
            let ghost t = fresh@;
            while fresh.len() > 32
                invariant
                    fresh@ == t.skip(t.len() - fresh@.len()),
                    fresh@.len() <= t.len(),
                    t.len() > 32 ==> fresh@.len() >= 32,
                    t.len() <= 32 ==> fresh@.len() == t.len(),
                decreases fresh@.len(),
            {
                fresh.pop_front();
            }
            assert(t.skip(0) =~= t);
            assert(fresh@ == keep_last(t, 32));
            state.recent_peers = fresh;
            false
        },
    }
}

/// The peers seen lately with a hash, newest first, at most `limit` of them.
pub open spec fn newest_peers(s: Seq<(PeerAddr, i64)>, limit: nat) -> Seq<PeerAddr> {
    let n = if s.len() < limit {
        s.len()
    } else {
        limit
    };
    Seq::new(n, |i: int| s[s.len() - 1 - i].0)
}

/// The peers recently seen with a hash, newest first, at most `limit`; none for a hash
/// that has no state.
pub fn recent_peers_for(state: Option<&SeenState>, limit: usize) -> (r: Vec<PeerAddr>)
    ensures
        match state {
            Some(st) => r@ == newest_peers(st.recent(), limit as nat),
            None => r@ == Seq::<PeerAddr>::empty(),
        },
{
    let mut out: Vec<PeerAddr> = Vec::new();
    match state {
        None => out,
        Some(st) => {
            let len = st.recent_peers.len();
            let n = if len < limit {
                len
            } else {
                limit
            };
            let mut i: usize = 0;
            while i < n
                invariant
                    len == st.recent_peers@.len(),
                    n <= len,
                    n == (if len < limit {
                        len
                    } else {
                        limit
                    }),
                    i <= n,
                    out@ =~= newest_peers(st.recent_peers@, limit as nat).take(i as int),
                decreases n - i,
            {
                out.push(st.recent_peers[len - 1 - i].0);
                i = i + 1;
            }
            out
        },
    }
}

// ---------------------------------------------------------------- peers waiting for a fetch

/// An info hash waiting for enough peers before its metadata is fetched.
pub struct PendingFetch {
    pub event: InfoHashEvent,
    pub peers: Vec<PeerAddr>,
}

/// `existing` after the peers of `incoming` are taken in order, skipping those it holds,
/// until it holds `max` peers.
pub open spec fn merge_peers(existing: Seq<PeerAddr>, incoming: Seq<PeerAddr>, max: nat) -> Seq<PeerAddr>
    decreases incoming.len(),
{
    if incoming.len() == 0 || existing.len() >= max {
        existing
    } else {
        merge_peers(
            if existing.contains(incoming[0]) {
                existing
            } else {
                existing.push(incoming[0])
            },
            incoming.drop_first(),
            max,
        )
    }
}

/// `e` is the event that starts a pending fetch: `first` with no peer counted.
pub open spec fn pending_event(e: InfoHashEvent, first: InfoHashEvent) -> bool {
    &&& e.info_hash == first.info_hash
    &&& e.source == first.source
    &&& e.peer_count == 0
    &&& e.peer == first.peer
    &&& e.seed_nodes@ == first.seed_nodes@
    &&& e.seen_at == first.seen_at
}

fn holds_peer(peers: &Vec<PeerAddr>, p: &PeerAddr) -> (r: bool)
    ensures
        r == peers@.contains(*p),
{
    let mut i: usize = 0;
    while i < peers.len()
        invariant
            i <= peers@.len(),
            forall|j: int| 0 <= j < i ==> peers@[j] != *p,
        decreases peers@.len() - i,
    {
        if peers[i] == *p {
            return true;
        }
        i = i + 1;
    }
    false
}

/// Adds the peers of an event to the pending fetch of its hash (`entry`, empty when the
/// hash has none yet, in which case the event starts one with no peer counted). Returns
/// the hash when the fetch now has `max_peers_per_hash` peers.
pub fn add_pending_peers(
    entry: &mut Option<PendingFetch>,
    event: InfoHashEvent,
    peers: Vec<PeerAddr>,
    max_peers_per_hash: usize,
) -> (r: Option<[u8; 20]>)
    ensures
        *final(entry) matches Some(f) && (match *old(entry) {
            Some(o) => {
                &&& f.event == o.event
                &&& f.peers@ == merge_peers(o.peers@, peers@, max_peers_per_hash as nat)
            },
            None => {
                &&& pending_event(f.event, event)
                &&& f.peers@ == merge_peers(Seq::empty(), peers@, max_peers_per_hash as nat)
            },
        }) && r == (if f.peers@.len() >= max_peers_per_hash {
            Some(f.event.info_hash)
        } else {
            None
        }),
{
    let mut slot: Option<PendingFetch> = None;
    std::mem::swap(&mut slot, entry);
    let mut fetch = match slot {
        Some(f) => f,
        None => {
            let mut first = event;
            first.peer_count = 0;
            PendingFetch { event: first, peers: Vec::new() }
        },
    };
    let ghost start = fetch.peers@;
    let ghost ev0 = fetch.event;
    let mut i: usize = 0;
    assert(peers@.skip(0) =~= peers@);
    while i < peers.len() && fetch.peers.len() < max_peers_per_hash
        invariant
            i <= peers@.len(),
            fetch.event == ev0,
            merge_peers(start, peers@, max_peers_per_hash as nat) == merge_peers(
                fetch.peers@,
                peers@.skip(i as int),
                max_peers_per_hash as nat,
            ),
        decreases peers@.len() - i,
    {
        assert(peers@.skip(i as int).drop_first() =~= peers@.skip(i + 1));
        assert(peers@.skip(i as int)[0] == peers@[i as int]);
        if !holds_peer(&fetch.peers, &peers[i]) {
            fetch.peers.push(peers[i]);
        }
        i = i + 1;
    }
    proof {
        if i == peers@.len() {
            assert(peers@.skip(i as int).len() == 0);
        }
    }
    let ready = if fetch.peers.len() >= max_peers_per_hash {
        Some(fetch.event.info_hash)
    } else {
        None
    };
    *entry = Some(fetch);
    ready
}

// ---------------------------------------------------------------- fetching

/// `rand::seq::SliceRandom::shuffle`: reorders the addresses at random; the claim is that
/// the same addresses stay, as many times each.
#[verifier::external_body]
fn shuffle_addrs(addrs: &mut Vec<PeerAddr>, rng: &mut rand::rngs::ThreadRng)
    ensures
        final(addrs)@.to_multiset() == old(addrs)@.to_multiset(),
{
    rand::seq::SliceRandom::shuffle(addrs.as_mut_slice(), rng)
}

/// The event and the peers to try for a pending fetch: none when it has no peer; else
/// its distinct peers in random order, the event counting them.
pub fn prepare_fetch(event: InfoHashEvent, peers: Vec<PeerAddr>) -> (r: Option<(InfoHashEvent, Vec<PeerAddr>)>)
    ensures
        peers@.len() == 0 ==> r is None,
        peers@.len() > 0 ==> (r matches Some((ev, ps)) && exists|u: Seq<PeerAddr>|
            #![trigger u.to_multiset()]
            strictly_sorted(u) && (forall|x: PeerAddr| u.contains(x) <==> peers@.contains(x))
                && ps@.to_multiset() == u.to_multiset() && ev.peer_count == ps@.len() as u32
                && ev.info_hash == event.info_hash && ev.source == event.source && ev.peer == event.peer
                && ev.seed_nodes@ == event.seed_nodes@ && ev.seen_at == event.seen_at),
{
    if peers.len() == 0 {
        return None;
    }
    let mut ps = unique(peers);
    let ghost u = ps@;
    let mut rng = random_source();
    shuffle_addrs(&mut ps, &mut rng);
    let mut ev = event;
    ev.peer_count = ps.len() as u32;
    Some((ev, ps))
}

/// The record of a torrent fetched for an event: the parsed name, size and files (the
/// first `max_files_per_torrent`, paths cut to `max_file_path_len` bytes), the event's
/// hash, source and peer count, first seen when the event was, last seen and fetched now.
pub fn build_record(event: &InfoHashEvent, metadata: ParsedMetadata, storage: &StorageConfig) -> (r: TorrentRecord)
    requires
        all_cuttable(metadata.files@, storage.max_files_per_torrent as nat, storage.max_file_path_len as nat),
    ensures
        r.info_hash@ == hex_lower(event.info_hash@),
        r.info_hash_bytes == event.info_hash,
        r.name@ == metadata.name@,
        r.total_size == metadata.total_size,
        r.file_count == metadata.files@.len(),
        files_cut(metadata.files@, r.files@, storage.max_files_per_torrent as nat, storage.max_file_path_len as nat),
        r.files_stored_count == r.files@.len(),
        r.peer_count == event.peer_count,
        r.source == event.source,
        r.hot_score == 1,
        r.first_seen_at == event.seen_at,
        r.last_seen_at == r.metadata_fetched_at,
{
    let now = now_ts();
    let file_count = metadata.files.len();
    let mut files = metadata.files;
    truncate_files(&mut files, storage.max_files_per_torrent, storage.max_file_path_len);
    let files_stored_count = files.len();
    TorrentRecord {
        info_hash: hex_encode(&event.info_hash),
        info_hash_bytes: event.info_hash,
        name: metadata.name,
        total_size: metadata.total_size,
        file_count,
        files_stored_count,
        files,
        peer_count: event.peer_count,
        source: event.source,
        hot_score: 1,
        first_seen_at: event.seen_at,
        last_seen_at: now,
        metadata_fetched_at: now,
    }
}


/// Law: right after an event with a peer is let through, the same event at the same time
/// is skipped.
pub proof fn law_repeat_skipped(recent: Seq<(PeerAddr, i64)>, p: PeerAddr, now: i64)
    ensures
        has_peer(recent_within(keep_last(recent_within(recent, now).push((p, now)), 32), now), p),
{
    let t = recent_within(recent, now).push((p, now));
    let after = keep_last(t, 32);
    assert(after.len() > 0 && after.last() == (p, now)) by {
        if t.len() > 32 {
            assert(after.last() == t.last());
        }
    }
    let r = recent_within(after, now);
    assert(r.last() == (p, now));
    assert(r[r.len() - 1].0 == p);
}

proof fn lemma_recent_within_again(s: Seq<(PeerAddr, i64)>, now: i64)
    ensures
        recent_within(recent_within(s, now), now) == recent_within(s, now),
    decreases s.len(),
{
    if s.len() > 0 {
        let r = recent_within(s.drop_last(), now);
        lemma_recent_within_again(s.drop_last(), now);
        if now - s.last().1 < 300 {
            let t = r.push(s.last());
            assert(t.drop_last() =~= r);
        }
    }
}

/// Law: an event recorded a second time at the same time, right after the first, is
/// skipped.
pub proof fn law_same_event_skipped(last: i64, recent: Seq<(PeerAddr, i64)>, peer: Option<PeerAddr>, now: i64)
    ensures
        ({
            let first = skip_outcome(last, recent, peer, now);
            skip_outcome(first.1, first.2, peer, now).0
        }),
{
    if let Some(p) = peer {
        let fresh = recent_within(recent, now);
        if has_peer(fresh, p) {
            lemma_recent_within_again(recent, now);
        } else {
            law_repeat_skipped(recent, p, now);
        }
    }
}

/// Law: the peers of a pending fetch never repeat and never go beyond the limit, and
/// each of them was held already or came with an event.
pub proof fn law_merge_peers_bounded(existing: Seq<PeerAddr>, incoming: Seq<PeerAddr>, max: nat)
    requires
        existing.no_duplicates(),
        existing.len() <= max,
    ensures
        merge_peers(existing, incoming, max).no_duplicates(),
        merge_peers(existing, incoming, max).len() <= max,
        forall|x: PeerAddr|
            #[trigger] merge_peers(existing, incoming, max).contains(x) ==> existing.contains(x) || incoming.contains(x),
    decreases incoming.len(),
{
    if incoming.len() > 0 && existing.len() < max {
        let a = incoming[0];
        let next = if existing.contains(a) {
            existing
        } else {
            existing.push(a)
        };
        if !existing.contains(a) {
            assert forall|i: int, j: int| 0 <= i < j < next.len() implies next[i] != next[j] by {
                if j == next.len() - 1 {
                    assert(existing[i] == next[i]);
                }
            }
        }
        crate::dht::lemma_push_contains(existing, a);
        law_merge_peers_bounded(next, incoming.drop_first(), max);
        assert forall|x: PeerAddr| #[trigger] merge_peers(existing, incoming, max).contains(x) implies existing.contains(x)
            || incoming.contains(x) by {
            if incoming.drop_first().contains(x) {
                let j = choose|j: int| 0 <= j < incoming.drop_first().len() && incoming.drop_first()[j] == x;
                assert(incoming[j + 1] == x);
            }
            if x == a {
                assert(incoming[0] == x);
            }
        }
    }
}


/// Law: merging the peers of an event keeps the peers held before, in order, in front;
/// appends only peers that came with the event; never repeats one when none repeated
/// before; and ends with no more peers than the limit or than were held before, whichever
/// is more.
pub proof fn law_merge_peers_keeps_prefix(existing: Seq<PeerAddr>, incoming: Seq<PeerAddr>, max: nat)
    ensures
        merge_peers(existing, incoming, max).len() <= (if existing.len() > max {
            existing.len()
        } else {
            max
        }),
        merge_peers(existing, incoming, max).len() >= existing.len(),
        merge_peers(existing, incoming, max).subrange(0, existing.len() as int) == existing,
        forall|i: int|
            existing.len() <= i < merge_peers(existing, incoming, max).len() ==> incoming.contains(
                #[trigger] merge_peers(existing, incoming, max)[i],
            ),
        existing.no_duplicates() ==> merge_peers(existing, incoming, max).no_duplicates(),
    decreases incoming.len(),
{
    let m = merge_peers(existing, incoming, max);
    if incoming.len() > 0 && existing.len() < max {
        let a = incoming[0];
        let rest = incoming.drop_first();
        let next = if existing.contains(a) {
            existing
        } else {
            existing.push(a)
        };
        law_merge_peers_keeps_prefix(next, rest, max);
        assert(m == merge_peers(next, rest, max));
        assert(m.subrange(0, existing.len() as int) =~= existing) by {
            assert forall|i: int| 0 <= i < existing.len() implies m[i] == existing[i] by {
                assert(m.subrange(0, next.len() as int)[i] == m[i]);
                assert(next[i] == existing[i]);
            }
        }
        assert forall|i: int| existing.len() <= i < m.len() implies incoming.contains(#[trigger] m[i]) by {
            if i < next.len() {
                assert(m.subrange(0, next.len() as int)[i] == m[i]);
                assert(next[i] == a);
                assert(incoming[0] == a);
            } else {
                assert(rest.contains(m[i]));
                let j = choose|j: int| 0 <= j < rest.len() && rest[j] == m[i];
                assert(incoming[j + 1] == m[i]);
            }
        }
        if existing.no_duplicates() && !existing.contains(a) {
            assert forall|i: int, j: int| 0 <= i < j < next.len() implies next[i] != next[j] by {
                if j == next.len() - 1 {
                    assert(existing[i] == next[i]);
                }
            }
        }
    } else {
        assert(m.subrange(0, existing.len() as int) =~= existing);
    }
}


impl SeenState {
    /// Whether the differences taken against `now` fit in an `i64`.
    pub fn times_fit(&self, now: i64) -> (r: bool)
        ensures
            r == times_fit(*self, now),
    {
        let d = now as i128 - self.last_seen_at as i128;
        if d < i64::MIN as i128 || d > i64::MAX as i128 {
            return false;
        }
        let mut i: usize = 0;
        while i < self.recent_peers.len()
            invariant
                i <= self.recent_peers@.len(),
                forall|j: int| 0 <= j < i ==> i64::MIN <= now - (#[trigger] self.recent_peers@[j]).1 <= i64::MAX,
            decreases self.recent_peers@.len() - i,
        {
            let e = now as i128 - self.recent_peers[i].1 as i128;
            if e < i64::MIN as i128 || e > i64::MAX as i128 {
                assert(self.recent()[i as int] == self.recent_peers@[i as int]);
                return false;
            }
            i = i + 1;
        }
        true
    }
}


/// No peer occurs twice.
pub open spec fn distinct_peers(s: Seq<(PeerAddr, i64)>) -> bool {
    forall|i: int, j: int| 0 <= i < j < s.len() ==> (#[trigger] s[i]).0 != (#[trigger] s[j]).0
}

proof fn lemma_recent_within_from(s: Seq<(PeerAddr, i64)>, now: i64)
    ensures
        forall|i: int| 0 <= i < recent_within(s, now).len() ==> s.contains(#[trigger] recent_within(s, now)[i]),
        distinct_peers(s) ==> distinct_peers(recent_within(s, now)),
        recent_within(s, now).len() <= s.len(),
    decreases s.len(),
{
    if s.len() > 0 {
        let t = s.drop_last();
        lemma_recent_within_from(t, now);
        let r = recent_within(t, now);
        assert forall|i: int| 0 <= i < recent_within(s, now).len() implies s.contains(#[trigger] recent_within(s, now)[i]) by {
            if i < r.len() {
                assert(recent_within(s, now)[i] == r[i]);
                let k = choose|k: int| 0 <= k < t.len() && t[k] == r[i];
                assert(s[k] == r[i]);
            } else {
                assert(s[s.len() - 1] == recent_within(s, now)[i]);
            }
        }
        if distinct_peers(s) {
            assert(distinct_peers(t)) by {
                assert forall|i: int, j: int| 0 <= i < j < t.len() implies (#[trigger] t[i]).0 != (#[trigger] t[j]).0 by {
                    assert(s[i] == t[i] && s[j] == t[j]);
                }
            }
            let u = recent_within(s, now);
            assert forall|i: int, j: int| 0 <= i < j < u.len() implies (#[trigger] u[i]).0 != (#[trigger] u[j]).0 by {
                if j == r.len() && u.len() == r.len() + 1 {
                    assert(u[j] == s.last());
                    assert(u[i] == r[i]);
                    let k = choose|k: int| 0 <= k < t.len() && t[k] == r[i];
                    assert(s[k] == t[k]);
                } else {
                    assert(u[i] == r[i] && u[j] == r[j]);
                }
            }
        }
    }
}

/// Law: recording an event keeps at most 32 recent peers, each peer at most once.
pub proof fn law_recent_peers_kept(recent: Seq<(PeerAddr, i64)>, p: PeerAddr, now: i64)
    requires
        distinct_peers(recent),
    ensures
        distinct_peers(recent_within(recent, now)),
        !has_peer(recent_within(recent, now), p) ==> {
            let after = keep_last(recent_within(recent, now).push((p, now)), 32);
            after.len() <= 32 && distinct_peers(after)
        },
{
    lemma_recent_within_from(recent, now);
    let f = recent_within(recent, now);
    if !has_peer(f, p) {
        let t = f.push((p, now));
        assert(distinct_peers(t)) by {
            assert forall|i: int, j: int| 0 <= i < j < t.len() implies (#[trigger] t[i]).0 != (#[trigger] t[j]).0 by {
                if j == f.len() {
                    assert(t[i] == f[i]);
                    if f[i].0 == p {
                        assert(has_peer(f, p));
                    }
                } else {
                    assert(t[i] == f[i] && t[j] == f[j]);
                }
            }
        }
        let after = keep_last(t, 32);
        if t.len() > 32 {
            assert forall|i: int, j: int| 0 <= i < j < after.len() implies (#[trigger] after[i]).0 != (#[trigger] after[j]).0 by {
                assert(after[i] == t[i + t.len() - 32] && after[j] == t[j + t.len() - 32]);
            }
        }
    }
}

} // verus!
