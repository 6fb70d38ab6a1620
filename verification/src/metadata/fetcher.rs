use vstd::prelude::*;

use crate::bencode::model::{enc, spec_parse, spec_parse_prefix};
use crate::bencode::{parse, parse_prefix, Val, Value};
use crate::dht::{be_value, lemma_be_value_bound, read_be, PeerAddr};
use crate::metadata::parser::{fetched_outcome, parse_info_metadata, sha1, sha1_digest, MetadataError, ParsedMetadata};

verus! {

// ---------------------------------------------------------------- extension messages

/// What an extension handshake tells: the metadata size, and the peer's message ids for
/// `ut_metadata` and `ut_pex`, each when given.
pub struct HandshakeInfo {
    pub metadata_size: Option<i64>,
    pub metadata_id: Option<u8>,
    pub pex_id: Option<u8>,
}

/// What `rbit` reads from an extension handshake payload.
pub uninterp spec fn decoded_handshake(payload: Seq<u8>) -> Option<(Option<i64>, Option<u8>, Option<u8>)>;

/// `rbit::peer::ExtensionMessage::decode` with id 0; the handshake's `metadata_size` and
/// its `ut_metadata` and `ut_pex` entries are read out. The contract names the outcome.
/// `rbit`'s decoder adds a byte string's declared length to its position unchecked, and
/// indexes past the end after a dictionary key that is no byte string; it reads the same
/// tokens as this crate's parser up to its own first error, so on a payload that parser
/// reads whole (which `requires` asks) every length fits and every key is a byte string.
#[verifier::external_body]
fn decode_handshake(payload: &[u8]) -> (r: Option<HandshakeInfo>)
    requires
        spec_parse(payload@) is Ok,
    ensures
        match decoded_handshake(payload@) {
            Some((s, m, p)) => r matches Some(h) && h.metadata_size == s && h.metadata_id == m && h.pex_id == p,
            None => r is None,
        },
{
    match rbit::peer::ExtensionMessage::decode(0, payload) {
        Ok(rbit::peer::ExtensionMessage::Handshake(hs)) => Some(
            HandshakeInfo {
                metadata_size: hs.metadata_size,
                metadata_id: hs.extensions.get("ut_metadata").copied(),
                pex_id: hs.extensions.get("ut_pex").copied(),
            },
        ),
        _ => None,
    }
}

pub open spec fn opt_bytes(v: Option<Vec<u8>>) -> Option<Seq<u8>> {
    match v {
        Some(b) => Some(b@),
        None => None,
    }
}

/// What `rbit` reads from a `ut_metadata` payload: whether it is a data message, the
/// piece index, and the data that follows the dictionary.
pub uninterp spec fn decoded_metadata_message(payload: Seq<u8>) -> Option<(bool, u32, Option<Seq<u8>>)>;

/// `rbit::MetadataMessage::decode`; the contract names the outcome. It first scans for
/// the end of the leading dictionary, adding each declared byte-string length to its
/// position unchecked, then decodes that dictionary (see `decode_handshake`); on a
/// payload that starts with a dictionary this crate's parser reads (which `requires`
/// asks), the scan ends at that dictionary's end and no length overflows.
#[verifier::external_body]
fn decode_metadata_message(payload: &[u8]) -> (r: Option<(bool, u32, Option<Vec<u8>>)>)
    requires
        spec_parse_prefix(payload@) matches Ok((Val::Dict(_), _)),
    ensures
        match decoded_metadata_message(payload@) {
            Some((d, p, data)) => r matches Some((d2, p2, data2)) && d2 == d && p2 == p && opt_bytes(data2) == data,
            None => r is None,
        },
{
    match rbit::MetadataMessage::decode(payload) {
        Ok(m) => {
            let data = match m.data {
                Some(d) => Some(d.to_vec()),
                None => None,
            };
            Some((m.msg_type == rbit::MetadataMessageType::Data, m.piece, data))
        },
        Err(_) => None,
    }
}

/// What a `ut_metadata` payload carries: `rbit` reads it only when it starts with a
/// bencoded dictionary.
pub open spec fn metadata_message(payload: Seq<u8>) -> Option<(bool, u32, Option<Seq<u8>>)> {
    if spec_parse_prefix(payload) matches Ok((Val::Dict(_), _)) {
        decoded_metadata_message(payload)
    } else {
        None
    }
}

/// The number of 16 KiB pieces that `size` bytes of metadata take.
pub open spec fn pieces_needed(size: nat) -> nat {
    ((size + 16383) / 16384) as nat
}

/// `rbit::metadata_piece_count`: the size divided by the 16 KiB piece size, rounded up.
#[verifier::external_body]
fn piece_count(metadata_size: usize) -> (r: usize)
    ensures
        r == pieces_needed(metadata_size as nat),
{
    rbit::metadata_piece_count(metadata_size)
}

/// The encoded request for one metadata piece: the dictionary
/// `{msg_type: 0, piece: piece}` in bencode.
pub open spec fn request_payload(piece: u32) -> Option<Seq<u8>> {
    Some(
        enc(
            Val::Dict(
                seq![
                    (seq![109u8, 115, 103, 95, 116, 121, 112, 101], Val::Int(0)),
                    (seq![112u8, 105, 101, 99, 101], Val::Int(piece as i64)),
                ],
            ),
        ),
    )
}

/// `rbit::MetadataMessage::encode` on a request for one piece: the bencoded dictionary
/// of the message type (0 for a request) and the piece, keys in order, written into a
/// `Vec`, which cannot fail.
#[verifier::external_body]
fn metadata_request(piece: u32) -> (r: Option<Vec<u8>>)
    ensures
        opt_bytes(r) == request_payload(piece),
{
    let request = rbit::MetadataMessage { msg_type: rbit::MetadataMessageType::Request, piece, total_size: None, data: None };
    match request.encode() {
        Ok(b) => Some(b.to_vec()),
        Err(_) => None,
    }
}

/// The encoded extension handshake announcing our ids for `ut_metadata` and `ut_pex`:
/// the dictionary `{m: {ut_metadata: metadata_id, ut_pex: pex_id}}` in bencode.
pub open spec fn handshake_payload(metadata_id: u8, pex_id: u8) -> Option<Seq<u8>> {
    Some(
        enc(
            Val::Dict(
                seq![
                    (
                        seq![109u8],
                        Val::Dict(
                            seq![
                                (seq![117u8, 116, 95, 109, 101, 116, 97, 100, 97, 116, 97], Val::Int(metadata_id as i64)),
                                (seq![117u8, 116, 95, 112, 101, 120], Val::Int(pex_id as i64)),
                            ],
                        ),
                    ),
                ],
            ),
        ),
    )
}

/// `rbit::ExtensionHandshake::encode` on a handshake that lists `ut_metadata` and
/// `ut_pex` with our ids and nothing else: the bencoded dictionary whose `m` entry maps
/// each name to its id, keys in order, written into a `Vec`, which cannot fail.
#[verifier::external_body]
fn extension_handshake(metadata_id: u8, pex_id: u8) -> (r: Option<Vec<u8>>)
    ensures
        opt_bytes(r) == handshake_payload(metadata_id, pex_id),
{
    let extensions = std::collections::BTreeMap::from([("ut_metadata".to_string(), metadata_id), ("ut_pex".to_string(), pex_id)]);
    let hs = rbit::ExtensionHandshake { extensions, client: None, yourip: None, reqq: None, metadata_size: None };
    match hs.encode() {
        Ok(b) => Some(b.to_vec()),
        Err(_) => None,
    }
}

// ---------------------------------------------------------------- peer exchange

/// The byte string that `rbit` finds under `key` in a bencoded dictionary payload.
pub uninterp spec fn pex_field(payload: Seq<u8>, key: Seq<u8>) -> Option<Seq<u8>>;

/// `rbit::bencode::decode`, then the byte string under `key` when the value is a
/// dictionary; the contract names the outcome. On a payload that this crate's parser reads
/// whole (which `requires` asks) the decoder cannot panic (see `decode_handshake`).
#[verifier::external_body]
fn pex_bytes(payload: &[u8], key: &[u8]) -> (r: Option<Vec<u8>>)
    requires
        spec_parse(payload@) is Ok,
    ensures
        opt_bytes(r) == pex_field(payload@, key@),
{
    match rbit::bencode::decode(payload) {
        Ok(rbit::bencode::Value::Dict(dict)) => match dict.get(key) {
            Some(rbit::bencode::Value::Bytes(b)) => Some(b.to_vec()),
            _ => None,
        },
        _ => None,
    }
}

/// The IPv4 peers of a compact `added` list: 6-byte entries (address, port), a shorter
/// tail ignored.
pub open spec fn pex_v4(data: Seq<u8>) -> Seq<PeerAddr> {
    Seq::new(data.len() / 6, |k: int| PeerAddr::V4(be_value(data, 6 * k, 4) as u32, be_value(data, 6 * k + 4, 2) as u16))
}

/// The IPv6 peers of a compact `added6` list: 18-byte entries (address, port).
pub open spec fn pex_v6(data: Seq<u8>) -> Seq<PeerAddr> {
    Seq::new(data.len() / 18, |k: int| PeerAddr::V6(be_value(data, 18 * k, 16) as u128, be_value(data, 18 * k + 16, 2) as u16, 0, 0))
}

/// The addresses of a compact `added` list.
pub fn decode_added(data: &[u8]) -> (r: Vec<PeerAddr>)
    ensures
        r@ == pex_v4(data@),
{
    let mut out: Vec<PeerAddr> = Vec::new();
    let mut off: usize = 0;
    let ghost mut k: int = 0;
    while 6 <= data.len() - off
        invariant
            off == 6 * k,
            0 <= k,
            off <= data.len(),
            out@ == pex_v4(data@).take(k),
            k <= data@.len() / 6,
        decreases data.len() - off,
    {
        proof {
            lemma_be_value_bound(data@, off as int, 4);
            lemma_be_value_bound(data@, off + 4, 2);
            vstd::arithmetic::power2::lemma2_to64();
        }
        let ip = read_be(data, off, 4);
        let port = read_be(data, off + 4, 2);
        out.push(PeerAddr::V4(ip as u32, port as u16));
        assert(k + 1 <= data@.len() / 6) by (nonlinear_arith)
            requires
                off == 6 * k,
                off + 6 <= data@.len(),
        ;
        assert(out@ =~= pex_v4(data@).take(k + 1));
        off = off + 6;
        proof {
            k = k + 1;
        }
    }
    assert(k == data@.len() / 6) by (nonlinear_arith)
        requires
            off == 6 * k,
            off <= data@.len() < off + 6,
    ;
    assert(pex_v4(data@).take(k) =~= pex_v4(data@));
    out
}

/// The addresses of a compact `added6` list.
pub fn decode_added6(data: &[u8]) -> (r: Vec<PeerAddr>)
    ensures
        r@ == pex_v6(data@),
{
    let mut out: Vec<PeerAddr> = Vec::new();
    let mut off: usize = 0;
    let ghost mut k: int = 0;
    while 18 <= data.len() - off
        invariant
            off == 18 * k,
            0 <= k,
            off <= data.len(),
            out@ == pex_v6(data@).take(k),
            k <= data@.len() / 18,
        decreases data.len() - off,
    {
        proof {
            lemma_be_value_bound(data@, off + 16, 2);
            vstd::arithmetic::power2::lemma2_to64();
        }
        let ip = read_be(data, off, 16);
        let port = read_be(data, off + 16, 2);
        out.push(PeerAddr::V6(ip, port as u16, 0, 0));
        assert(k + 1 <= data@.len() / 18) by (nonlinear_arith)
            requires
                off == 18 * k,
                off + 18 <= data@.len(),
        ;
        assert(out@ =~= pex_v6(data@).take(k + 1));
        off = off + 18;
        proof {
            k = k + 1;
        }
    }
    assert(k == data@.len() / 18) by (nonlinear_arith)
        requires
            off == 18 * k,
            off <= data@.len() < off + 18,
    ;
    assert(pex_v6(data@).take(k) =~= pex_v6(data@));
    out
}

pub open spec fn key_added() -> Seq<u8> {
    seq![97u8, 100, 100, 101, 100]
}

pub open spec fn key_added6() -> Seq<u8> {
    seq![97u8, 100, 100, 101, 100, 54]
}

pub open spec fn or_empty(b: Option<Seq<u8>>) -> Seq<u8> {
    match b {
        Some(x) => x,
        None => Seq::empty(),
    }
}

/// The addresses with a port other than 0, in order.
pub open spec fn nonzero_ports(s: Seq<PeerAddr>) -> Seq<PeerAddr>
    decreases s.len(),
{
    if s.len() == 0 {
        Seq::empty()
    } else {
        let r = nonzero_ports(s.drop_last());
        if crate::dht::addr_port(s.last()) != 0 {
            r.push(s.last())
        } else {
            r
        }
    }
}

/// The peers a PEX message adds: its IPv4 peers, then its IPv6 peers, without those whose
/// port is 0.
pub open spec fn pex_peers(payload: Seq<u8>) -> Seq<PeerAddr> {
    if spec_parse(payload) is Ok {
        nonzero_ports(pex_v4(or_empty(pex_field(payload, key_added()))) + pex_v6(or_empty(pex_field(payload, key_added6()))))
    } else {
        Seq::empty()
    }
}

/// The peers that a PEX message adds.
pub fn parse_pex_peers(payload: &[u8]) -> (r: Vec<PeerAddr>)
    ensures
        r@ == pex_peers(payload@),
{
    let key4: &[u8] = &[97u8, 100, 100, 101, 100];
    let key6: &[u8] = &[97u8, 100, 100, 101, 100, 54];
    assert(key4@ == key_added());
    assert(key6@ == key_added6());
    if let Err(_) = parse(payload) {
        return Vec::new();
    }
    let added = match pex_bytes(payload, key4) {
        Some(b) => b,
        None => Vec::new(),
    };
    let added6 = match pex_bytes(payload, key6) {
        Some(b) => b,
        None => Vec::new(),
    };
    let mut all = decode_added(added.as_slice());
    let mut more = decode_added6(added6.as_slice());
    let ghost both = all@ + more@;
    all.append(&mut more);
    assert(all@ == both);
    let mut out: Vec<PeerAddr> = Vec::new();
    let mut i: usize = 0;
    while i < all.len()
        invariant
            i <= all@.len(),
            out@ == nonzero_ports(all@.take(i as int)),
        decreases all@.len() - i,
    {
        assert(all@.take(i + 1).drop_last() =~= all@.take(i as int));
        let a = all[i];
        let port = match a {
            PeerAddr::V4(_, p) => p,
            PeerAddr::V6(_, p, _, _) => p,
        };
        if port != 0 {
            out.push(a);
        }
        i = i + 1;
    }
    assert(all@.take(all@.len() as int) =~= all@);
    out
}


// ---------------------------------------------------------------- the fetch

/// Why a metadata fetch gave up.
#[derive(Debug, Clone, Copy, PartialEq, Eq, Structural)]
pub enum FetchError {
    /// The peer announced more metadata than the limit allows.
    TooLarge(usize),
    /// A piece request could not be encoded.
    RequestEncoding,
    /// All announced bytes arrived but this piece is missing.
    MissingPiece(usize),
    /// The metadata does not hash to the info hash.
    HashMismatch,
}

/// What to do after a message.
#[derive(Debug)]
pub enum FetchAction {
    /// Wait for the next message.
    Continue,
    /// Send these payloads, in order, under the peer's `ut_metadata` id.
    Send(Vec<Vec<u8>>),
    /// Hand these peers on, then wait for the next message.
    Pex(Vec<PeerAddr>),
    /// The metadata arrived and matches the info hash.
    Done(Vec<u8>),
    /// Give up.
    Fail(FetchError),
}

/// Our message id for `ut_metadata`.
pub const LOCAL_METADATA_ID: u8 = 1;

/// Our message id for `ut_pex`.
pub const LOCAL_PEX_ID: u8 = 2;

/// The state of one metadata download from one peer.
pub struct MetadataFetch {
    metadata_size: usize,
    remote_metadata_id: u8,
    remote_pex_id: u8,
    request_sent: bool,
    pieces: Vec<(u32, Vec<u8>)>,
}

/// The pieces received so far, by index.
pub open spec fn pieces_view(ps: Seq<(u32, Vec<u8>)>) -> Seq<(u32, Seq<u8>)> {
    Seq::new(ps.len(), |i: int| (ps[i].0, ps[i].1@))
}

/// No piece index occurs twice.
pub open spec fn distinct_pieces(m: Seq<(u32, Seq<u8>)>) -> bool {
    forall|i: int, j: int| 0 <= i < j < m.len() ==> (#[trigger] m[i]).0 != (#[trigger] m[j]).0
}

/// The data received for piece `k`.
pub open spec fn piece_data(m: Seq<(u32, Seq<u8>)>, k: u32) -> Option<Seq<u8>>
    decreases m.len(),
{
    if m.len() == 0 {
        None
    } else if m.last().0 == k {
        Some(m.last().1)
    } else {
        piece_data(m.drop_last(), k)
    }
}

/// The pieces after one arrives: it replaces an earlier copy of itself, or is added.
pub open spec fn with_piece(m: Seq<(u32, Seq<u8>)>, k: u32, d: Seq<u8>) -> Seq<(u32, Seq<u8>)> {
    if exists|i: int| 0 <= i < m.len() && (#[trigger] m[i]).0 == k {
        m.update(choose|i: int| 0 <= i < m.len() && (#[trigger] m[i]).0 == k, (k, d))
    } else {
        m.push((k, d))
    }
}

/// The number of bytes received.
pub open spec fn received(m: Seq<(u32, Seq<u8>)>) -> nat
    decreases m.len(),
{
    if m.len() == 0 {
        0
    } else {
        received(m.drop_last()) + m.last().1.len()
    }
}

/// Pieces `0..count` joined in order, or the first missing index.
pub open spec fn assemble(m: Seq<(u32, Seq<u8>)>, count: nat) -> Result<Seq<u8>, nat>
    decreases count,
{
    if count == 0 {
        Ok(Seq::empty())
    } else {
        match assemble(m, (count - 1) as nat) {
            Err(k) => Err(k),
            Ok(a) => match piece_data(m, (count - 1) as u32) {
                Some(d) => Ok(a + d),
                None => Err((count - 1) as nat),
            },
        }
    }
}

/// Requests for pieces `0..count`, or `None` when one cannot be encoded.
pub open spec fn requests(count: nat) -> Option<Seq<Seq<u8>>>
    decreases count,
{
    if count == 0 {
        Some(Seq::empty())
    } else {
        match requests((count - 1) as nat) {
            Some(rs) => match request_payload((count - 1) as u32) {
                Some(q) => Some(rs.push(q)),
                None => None,
            },
            None => None,
        }
    }
}

pub open spec fn payloads_view(v: Seq<Vec<u8>>) -> Seq<Seq<u8>> {
    Seq::new(v.len(), |i: int| v[i]@)
}

impl MetadataFetch {
    /// No piece index is stored twice.
    #[verifier::type_invariant]
    spec fn inv(&self) -> bool {
        distinct_pieces(pieces_view(self.pieces@))
    }

    /// The announced metadata size.
    pub closed spec fn size(&self) -> usize {
        self.metadata_size
    }

    /// The peer's message id for `ut_metadata` (0 while unknown).
    pub closed spec fn metadata_id(&self) -> u8 {
        self.remote_metadata_id
    }

    /// The peer's message id for `ut_pex` (0 while unknown).
    pub closed spec fn pex_id(&self) -> u8 {
        self.remote_pex_id
    }

    /// Whether the pieces were requested.
    pub closed spec fn sent(&self) -> bool {
        self.request_sent
    }

    /// The pieces received, by index.
    pub closed spec fn pieces(&self) -> Seq<(u32, Seq<u8>)> {
        pieces_view(self.pieces@)
    }

    /// A fetch that has heard nothing yet.
    pub fn new() -> (r: Self)
        ensures
            r.size() == 0,
            r.metadata_id() == 0,
            r.pex_id() == 0,
            !r.sent(),
            r.pieces().len() == 0,
    {
        MetadataFetch { metadata_size: 0, remote_metadata_id: 0, remote_pex_id: 0, request_sent: false, pieces: Vec::new() }
    }

    /// The announced metadata size.
    pub fn metadata_size(&self) -> (r: usize)
        ensures
            r == self.size(),
    {
        self.metadata_size
    }

    /// The peer's message id for `ut_metadata`, under which requests go out.
    pub fn remote_metadata_id(&self) -> (r: u8)
        ensures
            r == self.metadata_id(),
    {
        self.remote_metadata_id
    }

    /// The peer's message id for `ut_pex`.
    pub fn remote_pex_id(&self) -> (r: u8)
        ensures
            r == self.pex_id(),
    {
        self.remote_pex_id
    }

    /// Whether the pieces were requested.
    pub fn request_sent(&self) -> (r: bool)
        ensures
            r == self.sent(),
    {
        self.request_sent
    }

    /// The extension handshake to send first.
    pub fn handshake() -> (r: Option<Vec<u8>>)
        ensures
            opt_bytes(r) == handshake_payload(LOCAL_METADATA_ID, LOCAL_PEX_ID),
    {
        extension_handshake(LOCAL_METADATA_ID, LOCAL_PEX_ID)
    }
}

/// The metadata that the pieces give once joined: cut to the announced size.
pub open spec fn cut_to(all: Seq<u8>, size: nat) -> Seq<u8> {
    if all.len() > size {
        all.take(size as int)
    } else {
        all
    }
}

/// The fields other than the pieces are as before.
pub open spec fn same_ids(old: MetadataFetch, new: MetadataFetch) -> bool {
    &&& new.size() == old.size()
    &&& new.metadata_id() == old.metadata_id()
    &&& new.pex_id() == old.pex_id()
    &&& new.sent() == old.sent()
}

/// An extension handshake (message id 0): what it tells replaces what was known; once
/// the size and the peer's `ut_metadata` id are known, and unless requests went out
/// already, every piece is requested (or the fetch fails when the size is over `max`).
pub open spec fn handshake_step(old: MetadataFetch, new: MetadataFetch, payload: Seq<u8>, max: usize, a: FetchAction) -> bool {
    let hs = if spec_parse(payload) is Ok {
        decoded_handshake(payload)
    } else {
        None
    };
    let size: usize = match hs {
        Some((Some(s), _, _)) => s as usize,
        _ => old.size(),
    };
    let mid: u8 = match hs {
        Some((_, Some(m), _)) => m,
        _ => old.metadata_id(),
    };
    let pid: u8 = match hs {
        Some((_, _, Some(p))) => p,
        _ => old.pex_id(),
    };
    &&& new.size() == size
    &&& new.metadata_id() == mid
    &&& new.pex_id() == pid
    &&& new.pieces() == old.pieces()
    &&& if size == 0 || mid == 0 || old.sent() {
        a is Continue && new.sent() == old.sent()
    } else if size > max {
        a == FetchAction::Fail(FetchError::TooLarge(size)) && new.sent() == old.sent()
    } else {
        match requests(pieces_needed(size as nat)) {
            Some(rs) => a matches FetchAction::Send(ps) && payloads_view(ps@) == rs && new.sent(),
            None => a == FetchAction::Fail(FetchError::RequestEncoding) && new.sent() == old.sent(),
        }
    }
}

/// A `ut_metadata` data message: the piece is stored; once all announced bytes are in,
/// the pieces are joined, cut to the size and checked against the info hash.
pub open spec fn data_step(old: MetadataFetch, new: MetadataFetch, payload: Seq<u8>, hash: Seq<u8>, a: FetchAction) -> bool {
    match metadata_message(payload) {
        Some((true, piece, Some(d))) => {
            let m = with_piece(old.pieces(), piece, d);
            let size = old.size();
            &&& same_ids(old, new)
            &&& new.pieces() == m
            &&& if size == 0 || received(m) < size {
                a is Continue
            } else {
                match assemble(m, pieces_needed(size as nat)) {
                    Err(k) => a == FetchAction::Fail(FetchError::MissingPiece(k as usize)),
                    Ok(all) => if sha1(cut_to(all, size as nat)) != hash {
                        a == FetchAction::Fail(FetchError::HashMismatch)
                    } else {
                        a matches FetchAction::Done(md) && md@ == cut_to(all, size as nat)
                    },
                }
            }
        },
        _ => same_ids(old, new) && new.pieces() == old.pieces() && a is Continue,
    }
}

/// What one extended message with id `id` does to a fetch and what it calls for.
pub open spec fn fetch_step(
    old: MetadataFetch,
    new: MetadataFetch,
    id: u8,
    payload: Seq<u8>,
    hash: Seq<u8>,
    max: usize,
    a: FetchAction,
) -> bool {
    if id == 0 {
        handshake_step(old, new, payload, max, a)
    } else if old.pex_id() != 0 && id == old.pex_id() {
        &&& same_ids(old, new)
        &&& new.pieces() == old.pieces()
        &&& if pex_peers(payload).len() > 0 {
            a matches FetchAction::Pex(p) && p@ == pex_peers(payload)
        } else {
            a is Continue
        }
    } else if id != LOCAL_METADATA_ID {
        same_ids(old, new) && new.pieces() == old.pieces() && a is Continue
    } else {
        data_step(old, new, payload, hash, a)
    }
}

proof fn lemma_assemble_err_stays(m: Seq<(u32, Seq<u8>)>, k: nat, j: nat, e: nat)
    requires
        assemble(m, k) == Err::<Seq<u8>, nat>(e),
        k <= j,
    ensures
        assemble(m, j) == Err::<Seq<u8>, nat>(e),
    decreases j,
{
    if j > k {
        lemma_assemble_err_stays(m, k, (j - 1) as nat, e);
    }
}

proof fn lemma_requests_none_stays(k: nat, j: nat)
    requires
        requests(k) is None,
        k <= j,
    ensures
        requests(j) is None,
    decreases j,
{
    if j > k {
        lemma_requests_none_stays(k, (j - 1) as nat);
    }
}

proof fn lemma_received_prefix(m: Seq<(u32, Seq<u8>)>, i: int)
    requires
        0 <= i <= m.len(),
    ensures
        received(m.take(i)) <= received(m),
    decreases m.len() - i,
{
    if i < m.len() {
        lemma_received_prefix(m, i + 1);
        assert(m.take(i + 1).drop_last() =~= m.take(i));
    } else {
        assert(m.take(i) =~= m);
    }
}

proof fn lemma_piece_data_found(m: Seq<(u32, Seq<u8>)>, i: int)
    requires
        distinct_pieces(m),
        0 <= i < m.len(),
    ensures
        piece_data(m, m[i].0) == Some(m[i].1),
    decreases m.len(),
{
    if i < m.len() - 1 {
        assert(m[i].0 != m.last().0);
        let n = m.drop_last();
        assert(distinct_pieces(n)) by {
            assert forall|a: int, b: int| 0 <= a < b < n.len() implies (#[trigger] n[a]).0 != (#[trigger] n[b]).0 by {
                assert(m[a] == n[a] && m[b] == n[b]);
            }
        }
        lemma_piece_data_found(n, i);
    }
}

proof fn lemma_piece_data_absent(m: Seq<(u32, Seq<u8>)>, k: u32)
    requires
        forall|i: int| 0 <= i < m.len() ==> (#[trigger] m[i]).0 != k,
    ensures
        piece_data(m, k) is None,
    decreases m.len(),
{
    if m.len() > 0 {
        let n = m.drop_last();
        assert forall|i: int| 0 <= i < n.len() implies (#[trigger] n[i]).0 != k by {
            assert(m[i] == n[i]);
        }
        lemma_piece_data_absent(n, k);
    }
}

impl MetadataFetch {
    /// Stores a piece, replacing an earlier copy.
    #[verifier::loop_isolation(false)]
    fn store_piece(&mut self, piece: u32, data: Vec<u8>)
        ensures
            same_ids(*old(self), *final(self)),
            final(self).pieces() == with_piece(old(self).pieces(), piece, data@),
    {
        proof {
            use_type_invariant(&*self);
        }
        let mut pieces: Vec<(u32, Vec<u8>)> = Vec::new();
        std::mem::swap(&mut pieces, &mut self.pieces);
        let ghost m = pieces_view(pieces@);
        let ghost d = data@;
        let mut i: usize = 0;
        while i < pieces.len()
            invariant
                m == pieces_view(pieces@),
                same_ids(*old(self), *self),
                distinct_pieces(m),
                i <= m.len(),
                forall|j: int| 0 <= j < i ==> (#[trigger] m[j]).0 != piece,
            decreases pieces@.len() - i,
        {
            if pieces[i].0 == piece {
                proof {
                    assert(m[i as int].0 == piece);
                    let c = choose|c: int| 0 <= c < m.len() && (#[trigger] m[c]).0 == piece;
                    assert(c == i);
                }
                pieces.set(i, (piece, data));
                assert(pieces_view(pieces@) =~= m.update(i as int, (piece, d)));
                assert forall|a: int, b: int| 0 <= a < b < pieces_view(pieces@).len() implies (#[trigger] pieces_view(pieces@)[a]).0
                    != (#[trigger] pieces_view(pieces@)[b]).0 by {
                    assert(pieces_view(pieces@)[a].0 == m[a].0);
                    assert(pieces_view(pieces@)[b].0 == m[b].0);
                }
                self.pieces = pieces;
                return;
            }
            i = i + 1;
        }
        pieces.push((piece, data));
        assert(pieces_view(pieces@) =~= m.push((piece, d)));
        assert forall|a: int, b: int| 0 <= a < b < pieces_view(pieces@).len() implies (#[trigger] pieces_view(pieces@)[a]).0
            != (#[trigger] pieces_view(pieces@)[b]).0 by {
            if b < m.len() {
                assert(pieces_view(pieces@)[a] == m[a]);
                assert(pieces_view(pieces@)[b] == m[b]);
            } else {
                assert(pieces_view(pieces@)[a] == m[a]);
            }
        }
        self.pieces = pieces;
    }

    /// Whether at least `size` bytes have arrived.
    #[verifier::loop_isolation(false)]
    fn has_received(&self, size: usize) -> (r: bool)
        ensures
            r == (received(self.pieces()) >= size),
    {
        let ghost m = pieces_view(self.pieces@);
        if size == 0 {
            return true;
        }
        let mut acc: u128 = 0;
        let mut i: usize = 0;
        assert(m.take(0) =~= Seq::<(u32, Seq<u8>)>::empty());
        while i < self.pieces.len()
            invariant
                m == pieces_view(self.pieces@),
                i <= m.len(),
                acc == received(m.take(i as int)),
                acc < size,
            decreases self.pieces@.len() - i,
        {
            assert(m.take(i + 1).drop_last() =~= m.take(i as int));
            acc = acc + self.pieces[i].1.len() as u128;
            i = i + 1;
            if acc >= size as u128 {
                proof {
                    lemma_received_prefix(m, i as int);
                }
                return true;
            }
        }
        assert(m.take(m.len() as int) =~= m);
        false
    }

    /// The data of piece `k`, if it arrived.
    fn piece_of(&self, k: u32) -> (r: Option<&Vec<u8>>)
        ensures
            match piece_data(self.pieces(), k) {
                Some(d) => r matches Some(x) && x@ == d,
                None => r is None,
            },
    {
        proof {
            use_type_invariant(self);
        }
        let ghost m = pieces_view(self.pieces@);
        let mut i: usize = 0;
        while i < self.pieces.len()
            invariant
                m == pieces_view(self.pieces@),
                distinct_pieces(m),
                i <= m.len(),
                forall|j: int| 0 <= j < i ==> (#[trigger] m[j]).0 != k,
            decreases self.pieces@.len() - i,
        {
            if self.pieces[i].0 == k {
                proof {
                    lemma_piece_data_found(m, i as int);
                }
                return Some(&self.pieces[i].1);
            }
            i = i + 1;
        }
        proof {
            lemma_piece_data_absent(m, k);
        }
        None
    }

    /// Pieces `0..count` joined in order, or the first missing index.
    #[verifier::loop_isolation(false)]
    fn join_pieces(&self, count: usize) -> (r: Result<Vec<u8>, usize>)
        ensures
            match assemble(self.pieces(), count as nat) {
                Ok(all) => r matches Ok(v) && v@ == all,
                Err(k) => r == Err::<Vec<u8>, usize>(k as usize),
            },
    {
        let ghost m = pieces_view(self.pieces@);
        let mut out: Vec<u8> = Vec::new();
        let mut piece: usize = 0;
        while piece < count
            invariant
                m == pieces_view(self.pieces@),
                piece <= count,
                assemble(m, piece as nat) == Ok::<Seq<u8>, nat>(out@),
            decreases count - piece,
        {
            let data = match self.piece_of(piece as u32) {
                Some(d) => d,
                None => {
                    proof {
                        assert(assemble(m, (piece + 1) as nat) == Err::<Seq<u8>, nat>(piece as nat));
                        lemma_assemble_err_stays(m, (piece + 1) as nat, count as nat, piece as nat);
                    }
                    return Err(piece);
                },
            };
            let ghost before = out@;
            let mut b: usize = 0;
            while b < data.len()
                invariant
                    b <= data@.len(),
                    out@ == before + data@.take(b as int),
                decreases data@.len() - b,
            {
                out.push(data[b]);
                assert(out@ =~= before + data@.take(b + 1));
                b = b + 1;
            }
            assert(data@.take(data@.len() as int) =~= data@);
            piece = piece + 1;
        }
        Ok(out)
    }

    #[verifier::loop_isolation(false)]
    fn handle_handshake(&mut self, payload: &[u8], max_metadata_size: usize) -> (a: FetchAction)
        ensures
            handshake_step(*old(self), *final(self), payload@, max_metadata_size, a),
    {
        proof {
            use_type_invariant(&*self);
        }
        let remote = match parse(payload) {
            Ok(_) => decode_handshake(payload),
            Err(_) => None,
        };
        match remote {
            Some(remote) => {
                if let Some(size) = remote.metadata_size {
                    self.metadata_size = size as usize;
                }
                if let Some(ext_id) = remote.metadata_id {
                    self.remote_metadata_id = ext_id;
                }
                if let Some(ext_id) = remote.pex_id {
                    self.remote_pex_id = ext_id;
                }
            },
            None => {},
        }
        if self.metadata_size == 0 || self.remote_metadata_id == 0 || self.request_sent {
            return FetchAction::Continue;
        }
        if self.metadata_size > max_metadata_size {
            return FetchAction::Fail(FetchError::TooLarge(self.metadata_size));
        }
        let count = piece_count(self.metadata_size);
        let mut out: Vec<Vec<u8>> = Vec::new();
        let mut piece: usize = 0;
        while piece < count
            invariant
                piece <= count,
                requests(piece as nat) == Some(payloads_view(out@)),
            decreases count - piece,
        {
            match metadata_request(piece as u32) {
                Some(q) => {
                    let ghost before = out@;
                    out.push(q);
                    assert(payloads_view(out@) =~= payloads_view(before).push(out@[before.len() as int]@));
                },
                None => {
                    proof {
                        lemma_requests_none_stays((piece + 1) as nat, count as nat);
                    }
                    return FetchAction::Fail(FetchError::RequestEncoding);
                },
            }
            piece = piece + 1;
        }
        self.request_sent = true;
        FetchAction::Send(out)
    }

    /// Handles one extended message from the peer.
    #[verifier::loop_isolation(false)]
    pub fn on_extended(&mut self, id: u8, payload: &[u8], info_hash: &[u8; 20], max_metadata_size: usize) -> (a: FetchAction)
        ensures
            fetch_step(*old(self), *final(self), id, payload@, info_hash@, max_metadata_size, a),
    {
        if id == 0 {
            return self.handle_handshake(payload, max_metadata_size);
        }
        if self.remote_pex_id != 0 && id == self.remote_pex_id {
            let peers = parse_pex_peers(payload);
            if peers.len() > 0 {
                return FetchAction::Pex(peers);
            }
            return FetchAction::Continue;
        }
        if id != LOCAL_METADATA_ID {
            return FetchAction::Continue;
        }
        let decoded = match parse_prefix(payload) {
            Ok((Value::Dict(_), _)) => decode_metadata_message(payload),
            _ => None,
        };
        let (is_data, piece, data) = match decoded {
            Some(m) => m,
            None => {
                return FetchAction::Continue;
            },
        };
        if !is_data {
            return FetchAction::Continue;
        }
        let data = match data {
            Some(d) => d,
            None => {
                return FetchAction::Continue;
            },
        };
        self.store_piece(piece, data);
        if self.metadata_size == 0 {
            return FetchAction::Continue;
        }
        if !self.has_received(self.metadata_size) {
            return FetchAction::Continue;
        }
        let count = piece_count(self.metadata_size);
        let mut metadata = match self.join_pieces(count) {
            Ok(m) => m,
            Err(k) => {
                return FetchAction::Fail(FetchError::MissingPiece(k));
            },
        };
        let ghost all = metadata@;
        metadata.truncate(self.metadata_size);
        assert(metadata@ =~= cut_to(all, self.metadata_size as nat));
        let digest = sha1_digest(metadata.as_slice());
        let mut i: usize = 0;
        while i < 20
            invariant
                i <= 20,
                forall|j: int| 0 <= j < i ==> digest@[j] == info_hash@[j],
            decreases 20 - i,
        {
            if digest[i] != info_hash[i] {
                return FetchAction::Fail(FetchError::HashMismatch);
            }
            i = i + 1;
        }
        assert(digest@ =~= info_hash@);
        FetchAction::Done(metadata)
    }
}


/// Metadata fetched from a peer and parsed.
#[derive(Debug)]
pub struct MetadataFetchResult {
    pub metadata: ParsedMetadata,
}

impl MetadataFetchResult {
    /// The result for metadata bytes fetched for an info hash: what parsing them gives.
    pub fn from_metadata(info_hash: &[u8; 20], metadata: &[u8]) -> (r: Result<MetadataFetchResult, MetadataError>)
        requires
            metadata@.len() <= usize::MAX / 4,
        ensures
            exists|pr: Result<ParsedMetadata, MetadataError>|
                #[trigger] fetched_outcome(*info_hash, metadata@, pr) && match pr {
                    Ok(p) => r matches Ok(x) && x.metadata == p,
                    Err(e) => r matches Err(x) && x == e,
                },
    {
        match parse_info_metadata(info_hash, metadata) {
            Ok(p) => Ok(MetadataFetchResult { metadata: p }),
            Err(e) => Err(e),
        }
    }
}


/// Law: once the pieces were requested, no message makes the fetch request them again,
/// and the fetch remembers that they were requested.
pub proof fn law_requests_once(
    old: MetadataFetch,
    new: MetadataFetch,
    id: u8,
    payload: Seq<u8>,
    hash: Seq<u8>,
    max: usize,
    a: FetchAction,
)
    requires
        fetch_step(old, new, id, payload, hash, max, a),
        old.sent(),
    ensures
        new.sent(),
        !(a is Send),
{
}

/// Law: a fetch finishes only with metadata whose SHA-1 digest is the info hash, and no
/// longer than the announced size.
pub proof fn law_done_matches_hash(
    old: MetadataFetch,
    new: MetadataFetch,
    id: u8,
    payload: Seq<u8>,
    hash: Seq<u8>,
    max: usize,
    a: FetchAction,
)
    requires
        fetch_step(old, new, id, payload, hash, max, a),
    ensures
        a matches FetchAction::Done(md) ==> sha1(md@) == hash && md@.len() <= old.size(),
{
}


/// Law: pieces are joined in increasing index order: when every piece but the last holds
/// `n` bytes, byte `n * k + j` of the joined metadata is byte `j` of piece `k`.
pub proof fn law_pieces_joined_in_order(m: Seq<(u32, Seq<u8>)>, count: nat, n: nat, all: Seq<u8>)
    requires
        count <= 0x1_0000_0000,
        assemble(m, count) == Ok::<Seq<u8>, nat>(all),
        forall|k: int| 0 <= k < count - 1 ==> (#[trigger] piece_data(m, k as u32) matches Some(p) && p.len() == n),
    ensures
        count > 0 ==> all.len() == n * (count - 1) + (piece_data(m, (count - 1) as u32)->Some_0).len(),
        forall|k: int, j: int|
            #![trigger (piece_data(m, k as u32)->Some_0)[j]]
            0 <= k < count && 0 <= j < (piece_data(m, k as u32)->Some_0).len() ==> all[n * k + j]
                == (piece_data(m, k as u32)->Some_0)[j],
    decreases count,
{
    if count > 0 {
        let c1 = (count - 1) as nat;
        let a = assemble(m, c1)->Ok_0;
        let d = piece_data(m, c1 as u32)->Some_0;
        assert(assemble(m, c1) is Ok);
        assert(piece_data(m, c1 as u32) is Some);
        assert(all == a + d);
        law_pieces_joined_in_order(m, c1, n, a);
        if c1 > 0 {
            let c2 = (c1 - 1) as int;
            assert(piece_data(m, c2 as u32) matches Some(p) && p.len() == n);
            assert(n * c2 + n == n * c1) by (nonlinear_arith)
                requires
                    c2 + 1 == c1,
            ;
        }
        assert(a.len() == n * c1) by (nonlinear_arith)
            requires
                c1 > 0 ==> a.len() == n * (c1 - 1) + n,
                c1 == 0 ==> a.len() == 0,
        ;
        assert forall|k: int, j: int|
            #![trigger (piece_data(m, k as u32)->Some_0)[j]]
            0 <= k < count && 0 <= j < (piece_data(m, k as u32)->Some_0).len() implies all[n * k + j]
                == (piece_data(m, k as u32)->Some_0)[j] by {
            if k < c1 {
                assert(piece_data(m, k as u32) matches Some(p) && p.len() == n);
                assert(n * k + j < n * c1) by (nonlinear_arith)
                    requires
                        0 <= k < c1,
                        0 <= j < n,
                ;
                assert(all[n * k + j] == a[n * k + j]);
            } else {
                assert(k == c1);
                assert(all[n * k + j] == d[j]);
            }
        }
    }
}

} // verus!
