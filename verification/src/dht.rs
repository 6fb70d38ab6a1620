use std::collections::VecDeque;
use vstd::prelude::*;

use crate::bencode::lemmas::{lemma_lex_lt_asym, lemma_lex_lt_irrefl, lemma_lex_lt_total, lemma_lex_lt_trans};
use crate::bencode::model::{dict_insert, dict_view, enc, keys_sorted, lex_lt, wf_dict, Val};
use crate::bencode::laws::law_parse_encode;
use crate::bencode::lemmas::{lemma_dict_insert_wf, lemma_dict_view};
use crate::bencode::model::{dict_lookup, spec_parse};
use crate::bencode::{as_bytes, as_int, bytes_lt, dict_get, encode, parse, BencodeError, Dict, Value};
use crate::model::{now_ts, Source};

verus! {

/// A node's address: an IPv4 address (as its 32-bit number) and a port, or an IPv6
/// address (as its 128-bit number), a port, its flow information and its scope id.
#[derive(Debug, Clone, Copy, PartialEq, Eq, Structural)]
pub enum PeerAddr {
    V4(u32, u16),
    V6(u128, u16, u32, u32),
}

pub open spec fn addr_port(a: PeerAddr) -> u16 {
    match a {
        PeerAddr::V4(_, p) => p,
        PeerAddr::V6(_, p, _, _) => p,
    }
}

pub open spec fn addr_unspecified(a: PeerAddr) -> bool {
    match a {
        PeerAddr::V4(ip, _) => ip == 0,
        PeerAddr::V6(ip, _, _, _) => ip == 0,
    }
}

/// What `Ipv4Addr`'s predicates leave public: not unspecified, loopback (127/8), private
/// (10/8, 172.16/12, 192.168/16), multicast (224/4), link-local (169.254/16) or broadcast.
pub open spec fn public_v4(ip: u32) -> bool {
    !(ip == 0 || (0x7f00_0000 <= ip < 0x8000_0000) || (0x0a00_0000 <= ip < 0x0b00_0000) || (
    0xac10_0000 <= ip < 0xac20_0000) || (0xc0a8_0000 <= ip < 0xc0a9_0000) || (0xe000_0000 <= ip
        < 0xf000_0000) || (0xa9fe_0000 <= ip < 0xa9ff_0000) || ip == 0xffff_ffff)
}

/// What `Ipv6Addr`'s predicates leave public: not unspecified, loopback, multicast
/// (ff00::/8), unicast link-local (fe80::/10) or unique local (fc00::/7).
pub open spec fn public_v6(ip: u128) -> bool {
    !(ip == 0 || ip == 1 || ip >= 0xff00_0000_0000_0000_0000_0000_0000_0000u128 || (
    0xfe80_0000_0000_0000_0000_0000_0000_0000u128 <= ip
        < 0xfec0_0000_0000_0000_0000_0000_0000_0000u128) || (
    0xfc00_0000_0000_0000_0000_0000_0000_0000u128 <= ip
        < 0xfe00_0000_0000_0000_0000_0000_0000_0000u128))
}

pub open spec fn global_addr(a: PeerAddr) -> bool {
    match a {
        PeerAddr::V4(ip, _) => public_v4(ip),
        PeerAddr::V6(ip, _, _, _) => public_v6(ip),
    }
}

pub fn is_public_v4(ip: u32) -> (r: bool)
    ensures
        r == public_v4(ip),
{
    !(ip == 0 || (0x7f00_0000 <= ip && ip < 0x8000_0000) || (0x0a00_0000 <= ip && ip
        < 0x0b00_0000) || (0xac10_0000 <= ip && ip < 0xac20_0000) || (0xc0a8_0000 <= ip && ip
        < 0xc0a9_0000) || (0xe000_0000 <= ip && ip < 0xf000_0000) || (0xa9fe_0000 <= ip && ip
        < 0xa9ff_0000) || ip == 0xffff_ffff)
}

pub fn is_public_v6(ip: u128) -> (r: bool)
    ensures
        r == public_v6(ip),
{
    !(ip == 0 || ip == 1 || ip >= 0xff00_0000_0000_0000_0000_0000_0000_0000u128 || (
    0xfe80_0000_0000_0000_0000_0000_0000_0000u128 <= ip && ip
        < 0xfec0_0000_0000_0000_0000_0000_0000_0000u128) || (
    0xfc00_0000_0000_0000_0000_0000_0000_0000u128 <= ip && ip
        < 0xfe00_0000_0000_0000_0000_0000_0000_0000u128))
}

/// Whether an address may be handed to other nodes.
pub fn is_global_address(addr: &PeerAddr) -> (r: bool)
    ensures
        r == global_addr(*addr),
{
    match addr {
        PeerAddr::V4(ip, _) => is_public_v4(*ip),
        PeerAddr::V6(ip, _, _, _) => is_public_v6(*ip),
    }
}

// ---------------------------------------------------------------- compact node lists

/// The big-endian number of `n` bytes of `b` from `off`.
pub open spec fn be_value(b: Seq<u8>, off: int, n: nat) -> nat
    decreases n,
{
    if n == 0 {
        0
    } else {
        be_value(b, off, (n - 1) as nat) * 256 + b[off + n - 1] as nat
    }
}

/// The IPv4 nodes of a compact node list: 26-byte entries (id, address, port) whose port
/// is not 0; a shorter tail is ignored.
pub open spec fn compact_nodes_v4(b: Seq<u8>, k: nat) -> Seq<PeerAddr>
    decreases k,
{
    if k == 0 {
        Seq::empty()
    } else {
        let rest = compact_nodes_v4(b, (k - 1) as nat);
        let off = 26 * (k - 1);
        let port = be_value(b, off + 24, 2);
        if port != 0 {
            rest.push(PeerAddr::V4(be_value(b, off + 20, 4) as u32, port as u16))
        } else {
            rest
        }
    }
}

/// The IPv6 nodes of a compact node list: 38-byte entries (id, address, port) whose port
/// is not 0; a shorter tail is ignored.
pub open spec fn compact_nodes_v6(b: Seq<u8>, k: nat) -> Seq<PeerAddr>
    decreases k,
{
    if k == 0 {
        Seq::empty()
    } else {
        let rest = compact_nodes_v6(b, (k - 1) as nat);
        let off = 38 * (k - 1);
        let port = be_value(b, off + 36, 2);
        if port != 0 {
            rest.push(PeerAddr::V6(be_value(b, off + 20, 16) as u128, port as u16, 0, 0))
        } else {
            rest
        }
    }
}

pub(crate) proof fn lemma_be_value_bound(b: Seq<u8>, off: int, n: nat)
    requires
        0 <= off,
        off + n <= b.len(),
    ensures
        be_value(b, off, n) < vstd::arithmetic::power2::pow2(8 * n),
    decreases n,
{
    vstd::arithmetic::power2::lemma2_to64();
    if n > 0 {
        lemma_be_value_bound(b, off, (n - 1) as nat);
        vstd::arithmetic::power2::lemma_pow2_adds(8 * (n - 1) as nat, 8);
        assert(vstd::arithmetic::power2::pow2(8) == 256);
        let p = vstd::arithmetic::power2::pow2(8 * (n - 1) as nat);
        assert(be_value(b, off, (n - 1) as nat) * 256 + 255 < p * 256) by (nonlinear_arith)
            requires
                be_value(b, off, (n - 1) as nat) < p,
        ;
        assert(8 * (n - 1) as nat + 8 == 8 * n);
    }
}

/// Reads `n` big-endian bytes of `b` from `off`.
pub(crate) fn read_be(b: &[u8], off: usize, n: usize) -> (r: u128)
    requires
        off + n <= b.len(),
        n <= 16,
    ensures
        r == be_value(b@, off as int, n as nat),
{
    let mut r: u128 = 0;
    let mut i: usize = 0;
    while i < n
        invariant
            i <= n <= 16,
            off + n <= b.len(),
            r == be_value(b@, off as int, i as nat),
        decreases n - i,
    {
        proof {
            lemma_be_value_bound(b@, off as int, i as nat);
            if 8 * i < 120 {
                vstd::arithmetic::power2::lemma_pow2_strictly_increases(8 * i as nat, 120);
            }
            assert(vstd::arithmetic::power2::pow2(120) * 256 <= u128::MAX + 1) by {
                vstd::arithmetic::power2::lemma_pow2_adds(120, 8);
                vstd::arithmetic::power2::lemma2_to64();
                vstd::arithmetic::power2::lemma_pow2_adds(64, 64);
            }
        }
        r = r * 256 + b[off + i] as u128;
        i = i + 1;
    }
    r
}


/// The IPv4 nodes of a compact node list.
pub fn parse_compact_nodes(bytes: &[u8]) -> (r: Vec<PeerAddr>)
    ensures
        r@ == compact_nodes_v4(bytes@, (bytes@.len() / 26) as nat),
{
    let mut out: Vec<PeerAddr> = Vec::new();
    let mut off: usize = 0;
    let ghost mut k: nat = 0;
    while 26 <= bytes.len() - off
        invariant
            off == 26 * k,
            off <= bytes.len(),
            out@ == compact_nodes_v4(bytes@, k),
        decreases bytes.len() - off,
    {
        proof {
            lemma_be_value_bound(bytes@, off + 24, 2);
            lemma_be_value_bound(bytes@, off + 20, 4);
            vstd::arithmetic::power2::lemma2_to64();
        }
        let port = read_be(bytes, off + 24, 2);
        let ip = read_be(bytes, off + 20, 4);
        if port != 0 {
            out.push(PeerAddr::V4(ip as u32, port as u16));
        }
        off = off + 26;
        proof {
            k = k + 1;
        }
    }
    assert(k == bytes@.len() / 26) by (nonlinear_arith)
        requires
            off == 26 * k,
            off <= bytes@.len() < off + 26,
    ;
    out
}

/// The IPv6 nodes of a compact node list.
pub fn parse_compact_nodes6(bytes: &[u8]) -> (r: Vec<PeerAddr>)
    ensures
        r@ == compact_nodes_v6(bytes@, (bytes@.len() / 38) as nat),
{
    let mut out: Vec<PeerAddr> = Vec::new();
    let mut off: usize = 0;
    let ghost mut k: nat = 0;
    while 38 <= bytes.len() - off
        invariant
            off == 38 * k,
            off <= bytes.len(),
            out@ == compact_nodes_v6(bytes@, k),
        decreases bytes.len() - off,
    {
        proof {
            lemma_be_value_bound(bytes@, off + 36, 2);
            vstd::arithmetic::power2::lemma2_to64();
        }
        let port = read_be(bytes, off + 36, 2);
        let ip = read_be(bytes, off + 20, 16);
        if port != 0 {
            out.push(PeerAddr::V6(ip, port as u16, 0, 0));
        }
        off = off + 38;
        proof {
            k = k + 1;
        }
    }
    assert(k == bytes@.len() / 38) by (nonlinear_arith)
        requires
            off == 38 * k,
            off <= bytes@.len() < off + 38,
    ;
    out
}

// ---------------------------------------------------------------- randomness

#[verifier::external_type_specification]
#[verifier::external_body]
pub struct ExThreadRng(rand::rngs::ThreadRng);

/// `rand::thread_rng`: a handle on this thread's random generator.
#[verifier::external_body]
pub(crate) fn random_source() -> rand::rngs::ThreadRng {
    rand::thread_rng()
}

/// `RngCore::fill_bytes`: overwrites `dest` with random bytes; only its length is known
/// afterwards.
#[verifier::external_body]
fn fill_random(rng: &mut rand::rngs::ThreadRng, dest: &mut [u8])
    ensures
        final(dest)@.len() == old(dest)@.len(),
{
    rand::RngCore::fill_bytes(rng, dest)
}

/// `Rng::gen_range(0..n)`: a random index below `n` (the call panics on an empty range).
#[verifier::external_body]
fn random_below(rng: &mut rand::rngs::ThreadRng, n: usize) -> (r: usize)
    requires
        n > 0,
    ensures
        r < n,
{
    rand::Rng::gen_range(rng, 0..n)
}

/// A random 20-byte node id.
pub fn random_id() -> (r: [u8; 20]) {
    let mut id = [0u8; 20];
    let mut rng = random_source();
    fill_random(&mut rng, &mut id);
    id
}

/// A random 4-byte transaction id.
pub fn random_transaction() -> (r: Vec<u8>)
    ensures
        r@.len() == 4,
{
    let mut tx = [0u8; 4];
    let mut rng = random_source();
    fill_random(&mut rng, &mut tx);
    let mut out: Vec<u8> = Vec::new();
    let mut i: usize = 0;
    while i < 4
        invariant
            i <= 4,
            out@.len() == i,
        decreases 4 - i,
    {
        out.push(tx[i]);
        i = i + 1;
    }
    out
}

// ---------------------------------------------------------------- node ids

/// Byte-wise exclusive or of two equally long strings.
pub open spec fn xor_seq(a: Seq<u8>, b: Seq<u8>) -> Seq<u8> {
    Seq::new(a.len(), |i: int| a[i] ^ b[i])
}

/// The distance of a node id from a target, as a byte string ordered lexicographically.
pub open spec fn id_distance(id: [u8; 20], target: Seq<u8>) -> Seq<u8> {
    xor_seq(id@, target)
}

/// `ids[k]` is the first of the ids nearest to the target.
pub open spec fn first_closest(ids: Seq<[u8; 20]>, target: Seq<u8>, k: int) -> bool {
    &&& 0 <= k < ids.len()
    &&& forall|j: int|
        0 <= j < ids.len() ==> !lex_lt(#[trigger] id_distance(ids[j], target), id_distance(ids[k], target))
    &&& forall|j: int|
        0 <= j < k ==> lex_lt(id_distance(ids[k], target), #[trigger] id_distance(ids[j], target))
}

/// The first of the ids nearest to the target.
pub open spec fn closest_id(ids: Seq<[u8; 20]>, target: Seq<u8>) -> [u8; 20] {
    ids[choose|k: int| first_closest(ids, target, k)]
}

proof fn lemma_first_closest_unique(ids: Seq<[u8; 20]>, target: Seq<u8>, k: int)
    requires
        first_closest(ids, target, k),
    ensures
        closest_id(ids, target) == ids[k],
{
    let c = choose|c: int| first_closest(ids, target, c);
    assert(first_closest(ids, target, c));
    if c < k {
        assert(lex_lt(id_distance(ids[k], target), id_distance(ids[c], target)));
    } else if k < c {
        assert(lex_lt(id_distance(ids[c], target), id_distance(ids[k], target)));
    }
}

/// A byte string of 20 bytes as an array.
pub fn to_hash(bytes: &[u8]) -> (r: Option<[u8; 20]>)
    ensures
        bytes@.len() == 20 ==> (r matches Some(h) && h@ == bytes@),
        bytes@.len() != 20 ==> r is None,
{
    if bytes.len() != 20 {
        return None;
    }
    let mut hash = [0u8; 20];
    let mut i: usize = 0;
    while i < 20
        invariant
            bytes@.len() == 20,
            i <= 20,
            forall|j: int| 0 <= j < i ==> hash@[j] == bytes@[j],
        decreases 20 - i,
    {
        hash[i] = bytes[i];
        i = i + 1;
    }
    assert(hash@ =~= bytes@);
    Some(hash)
}

/// The byte-wise exclusive or of two ids.
pub fn xor_distance(left: &[u8; 20], right: &[u8; 20]) -> (r: [u8; 20])
    ensures
        r@ == xor_seq(left@, right@),
{
    let mut distance = [0u8; 20];
    let mut i: usize = 0;
    while i < 20
        invariant
            i <= 20,
            forall|j: int| 0 <= j < i ==> distance@[j] == left@[j] ^ right@[j],
        decreases 20 - i,
    {
        distance[i] = left[i] ^ right[i];
        i = i + 1;
    }
    assert(distance@ =~= xor_seq(left@, right@));
    distance
}

/// The first of the ids nearest to the target by XOR distance; a random id when there
/// are none.
pub fn closest_node_id(node_ids: &[[u8; 20]], target: &[u8; 20]) -> (r: [u8; 20])
    ensures
        node_ids@.len() > 0 ==> exists|k: int| first_closest(node_ids@, target@, k) && r == node_ids@[k],
        node_ids@.len() > 0 ==> r == closest_id(node_ids@, target@),
{
    if node_ids.len() == 0 {
        return random_id();
    }
    let mut best: usize = 0;
    let mut best_d = xor_distance(&node_ids[0], target);
    let mut i: usize = 1;
    proof {
        lemma_lex_lt_irrefl(best_d@);
    }
    while i < node_ids.len()
        invariant
            best < i <= node_ids@.len(),
            best_d@ == id_distance(node_ids@[best as int], target@),
            forall|j: int|
                0 <= j < i ==> !lex_lt(#[trigger] id_distance(node_ids@[j], target@), best_d@),
            forall|j: int| 0 <= j < best ==> lex_lt(best_d@, #[trigger] id_distance(node_ids@[j], target@)),
        decreases node_ids.len() - i,
    {
        let d = xor_distance(&node_ids[i], target);
        if bytes_lt(d.as_slice(), best_d.as_slice()) {
            proof {
                assert forall|j: int| 0 <= j < i implies lex_lt(d@, #[trigger] id_distance(node_ids@[j], target@)) by {
                    let dj = id_distance(node_ids@[j], target@);
                    lemma_lex_lt_total(dj, best_d@);
                    if dj != best_d@ {
                        lemma_lex_lt_trans(d@, best_d@, dj);
                    }
                }
                assert forall|j: int| 0 <= j < i + 1 implies !lex_lt(#[trigger] id_distance(node_ids@[j], target@), d@) by {
                    if j < i {
                        lemma_lex_lt_asym(d@, id_distance(node_ids@[j], target@));
                    } else {
                        lemma_lex_lt_irrefl(d@);
                    }
                }
            }
            best = i;
            best_d = d;
        }
        i = i + 1;
    }
    proof {
        assert(first_closest(node_ids@, target@, best as int));
        lemma_first_closest_unique(node_ids@, target@, best as int);
    }
    node_ids[best]
}


// ---------------------------------------------------------------- the routing table

pub open spec fn is_v4(a: PeerAddr) -> bool {
    a is V4
}

/// An address worth keeping: its port is not 0 and its IP is not the unspecified one.
pub open spec fn usable(a: PeerAddr) -> bool {
    addr_port(a) != 0 && !addr_unspecified(a)
}

/// The last `max` entries of a sequence (all of it when it is no longer).
pub open spec fn keep_newest(s: Seq<PeerAddr>, max: nat) -> Seq<PeerAddr> {
    if s.len() > max {
        s.skip(s.len() - max)
    } else {
        s
    }
}

/// The nodes after one address is seen: an unusable address changes nothing, a known one
/// moves to the back, a new one is appended and the oldest beyond `max` are dropped.
pub open spec fn table_add(s: Seq<PeerAddr>, max: nat, a: PeerAddr) -> Seq<PeerAddr> {
    if !usable(a) {
        s
    } else if s.contains(a) {
        s.remove(s.index_of(a)).push(a)
    } else {
        keep_newest(s.push(a), max)
    }
}

/// The nodes after a sequence of addresses is seen, in order.
pub open spec fn table_add_all(s: Seq<PeerAddr>, max: nat, addrs: Seq<PeerAddr>) -> Seq<PeerAddr>
    decreases addrs.len(),
{
    if addrs.len() == 0 {
        s
    } else {
        table_add(table_add_all(s, max, addrs.drop_last()), max, addrs.last())
    }
}

/// A table's nodes are usable, distinct and no more than its limit.
pub open spec fn table_wf(s: Seq<PeerAddr>, max: nat) -> bool {
    &&& s.len() <= max
    &&& s.no_duplicates()
    &&& forall|i: int| 0 <= i < s.len() ==> usable(#[trigger] s[i])
}

/// Known DHT nodes, oldest first, at most `max_nodes` of them.
pub struct NodeTable {
    nodes: VecDeque<PeerAddr>,
    max_nodes: usize,
}

impl View for NodeTable {
    type V = Seq<PeerAddr>;

    closed spec fn view(&self) -> Seq<PeerAddr> {
        self.nodes@
    }
}

fn port_of(a: &PeerAddr) -> (r: u16)
    ensures
        r == addr_port(*a),
{
    match a {
        PeerAddr::V4(_, p) => *p,
        PeerAddr::V6(_, p, _, _) => *p,
    }
}

fn is_unspecified(a: &PeerAddr) -> (r: bool)
    ensures
        r == addr_unspecified(*a),
{
    match a {
        PeerAddr::V4(ip, _) => *ip == 0,
        PeerAddr::V6(ip, _, _, _) => *ip == 0,
    }
}

fn is_ipv4(a: &PeerAddr) -> (r: bool)
    ensures
        r == is_v4(*a),
{
    match a {
        PeerAddr::V4(_, _) => true,
        PeerAddr::V6(_, _, _, _) => false,
    }
}

proof fn lemma_index_of_unique(s: Seq<PeerAddr>, a: PeerAddr, i: int)
    requires
        s.no_duplicates(),
        0 <= i < s.len(),
        s[i] == a,
    ensures
        s.contains(a),
        s.index_of(a) == i,
{
    assert(s.contains(a));
    let k = s.index_of(a);
    assert(0 <= k < s.len() && s[k] == a);
}

/// What `table_add` keeps: a well-formed table stays well-formed.
proof fn lemma_table_add_wf(s: Seq<PeerAddr>, max: nat, a: PeerAddr)
    requires
        table_wf(s, max),
    ensures
        table_wf(table_add(s, max, a), max),
{
    if !usable(a) {
    } else if s.contains(a) {
        let k = s.index_of(a);
        let r = s.remove(k);
        let t = r.push(a);
        assert forall|i: int, j: int| 0 <= i < j < t.len() implies t[i] != t[j] by {
            if j == t.len() - 1 {
                if i < k {
                    assert(s[i] != s[k]);
                } else {
                    assert(s[i + 1] != s[k]);
                }
            } else {
                let si = if i < k { i } else { i + 1 };
                let sj = if j < k { j } else { j + 1 };
                assert(s[si] != s[sj]);
            }
        }
        assert forall|i: int| 0 <= i < t.len() implies usable(#[trigger] t[i]) by {
            if i < t.len() - 1 {
                if i < k {
                    assert(usable(s[i]));
                } else {
                    assert(usable(s[i + 1]));
                }
            }
        }
    } else {
        let t = s.push(a);
        assert forall|i: int, j: int| 0 <= i < j < t.len() implies t[i] != t[j] by {
            if j == t.len() - 1 {
                assert(s[i] == t[i]);
            }
        }
        assert forall|i: int| 0 <= i < t.len() implies usable(#[trigger] t[i]) by {
            if i < t.len() - 1 {
                assert(usable(s[i]));
            }
        }
        if t.len() > max {
            let u = t.skip(t.len() - max);
            assert forall|i: int, j: int| 0 <= i < j < u.len() implies u[i] != u[j] by {
                assert(t[i + t.len() - max] != t[j + t.len() - max]);
            }
            assert forall|i: int| 0 <= i < u.len() implies usable(#[trigger] u[i]) by {
                assert(usable(t[i + t.len() - max]));
            }
        }
    }
}

impl NodeTable {
    /// The nodes are usable, distinct and no more than the limit.
    #[verifier::type_invariant]
    spec fn inv(&self) -> bool {
        table_wf(self.nodes@, self.max_nodes as nat)
    }

    /// The most nodes the table keeps.
    pub closed spec fn max_nodes(&self) -> nat {
        self.max_nodes as nat
    }

    /// An empty table that keeps at most `max_nodes` nodes.
    pub fn new(max_nodes: usize) -> (r: Self)
        ensures
            r@ == Seq::<PeerAddr>::empty(),
            r.max_nodes() == max_nodes,
    {
        NodeTable { nodes: VecDeque::new(), max_nodes }
    }

    /// The number of known nodes.
    pub fn len(&self) -> (r: usize)
        ensures
            r == self@.len(),
    {
        self.nodes.len()
    }

    /// Records that a node was seen.
    #[verifier::loop_isolation(false)]
    pub fn add(&mut self, addr: PeerAddr)
        ensures
            final(self).max_nodes() == old(self).max_nodes(),
            final(self)@ == table_add(old(self)@, old(self).max_nodes(), addr),
    {
        proof {
            use_type_invariant(&*self);
            lemma_table_add_wf(self.nodes@, self.max_nodes as nat, addr);
        }
        if port_of(&addr) == 0 || is_unspecified(&addr) {
            return;
        }
        let max = self.max_nodes;
        let mut nodes: VecDeque<PeerAddr> = VecDeque::new();
        std::mem::swap(&mut nodes, &mut self.nodes);
        let ghost s = nodes@;
        let mut i: usize = 0;
        while i < nodes.len()
            invariant
                s == nodes@,
                self.max_nodes == max,
                table_wf(s, max as nat),
                usable(addr),
                i <= s.len(),
                forall|j: int| 0 <= j < i ==> s[j] != addr,
            decreases nodes@.len() - i,
        {
            if nodes[i] == addr {
                proof {
                    lemma_index_of_unique(s, addr, i as int);
                }
                nodes.remove(i);
                nodes.push_back(addr);
                self.nodes = nodes;
                return;
            }
            i = i + 1;
        }
        assert(!s.contains(addr));
        let ghost t = s.push(addr);
        nodes.push_back(addr);
        while nodes.len() > max
            invariant
                nodes@ == t.skip(t.len() - nodes@.len()),
                nodes@.len() <= t.len(),
                t.len() > max ==> nodes@.len() >= max,
                t.len() <= max ==> nodes@.len() == t.len(),
            decreases nodes@.len(),
        {
            nodes.pop_front();
        }
        assert(t.skip(0) =~= t);
        assert(nodes@ == keep_newest(t, max as nat));
        self.nodes = nodes;
    }

    /// Records that several nodes were seen, in order.
    pub fn add_many(&mut self, addrs: &Vec<PeerAddr>)
        ensures
            final(self).max_nodes() == old(self).max_nodes(),
            final(self)@ == table_add_all(old(self)@, old(self).max_nodes(), addrs@),
    {
        let ghost s = self@;
        let mut i: usize = 0;
        while i < addrs.len()
            invariant
                i <= addrs@.len(),
                self.max_nodes() == old(self).max_nodes(),
                s == old(self)@,
                self@ == table_add_all(s, self.max_nodes(), addrs@.take(i as int)),
            decreases addrs.len() - i,
        {
            assert(addrs@.take(i + 1).drop_last() =~= addrs@.take(i as int));
            self.add(addrs[i]);
            i = i + 1;
        }
        assert(addrs@.take(addrs@.len() as int) =~= addrs@);
    }
}


/// Seeing an address that the table can keep leaves it as the most recent node.
pub proof fn law_add_most_recent(s: Seq<PeerAddr>, max: nat, a: PeerAddr)
    requires
        table_wf(s, max),
        usable(a),
        max > 0,
    ensures
        table_add(s, max, a).len() > 0,
        table_add(s, max, a).last() == a,
{
    if !s.contains(a) {
        let t = s.push(a);
        if t.len() > max {
            assert(t.skip(t.len() - max).last() == t.last());
        }
    }
}

/// Seeing the same address twice in a row changes the table as seeing it once does.
pub proof fn law_add_idempotent(s: Seq<PeerAddr>, max: nat, a: PeerAddr)
    requires
        table_wf(s, max),
    ensures
        table_add(table_add(s, max, a), max, a) == table_add(s, max, a),
{
    let t = table_add(s, max, a);
    lemma_table_add_wf(s, max, a);
    if usable(a) {
        if max > 0 {
            law_add_most_recent(s, max, a);
            let last = t.len() - 1;
            lemma_index_of_unique(t, a, last);
            assert(t.remove(last).push(a) =~= t);
        } else {
            assert(t.len() == 0);
            assert(!t.contains(a));
            assert(keep_newest(t.push(a), max) =~= t);
        }
    }
}

/// The entries of a sequence other than `a`, in their order.
pub open spec fn without(s: Seq<PeerAddr>, a: PeerAddr) -> Seq<PeerAddr>
    decreases s.len(),
{
    if s.len() == 0 {
        s
    } else if s.last() == a {
        without(s.drop_last(), a)
    } else {
        without(s.drop_last(), a).push(s.last())
    }
}

proof fn lemma_without_absent(s: Seq<PeerAddr>, a: PeerAddr)
    requires
        !s.contains(a),
    ensures
        without(s, a) == s,
    decreases s.len(),
{
    if s.len() > 0 {
        let t = s.drop_last();
        assert(!t.contains(a)) by {
            if t.contains(a) {
                let k = choose|k: int| 0 <= k < t.len() && t[k] == a;
                assert(s[k] == a);
            }
        }
        lemma_without_absent(t, a);
        assert(s.last() != a);
        assert(t.push(s.last()) =~= s);
    }
}

proof fn lemma_without_remove(s: Seq<PeerAddr>, a: PeerAddr, i: int)
    requires
        s.no_duplicates(),
        0 <= i < s.len(),
        s[i] == a,
    ensures
        without(s, a) == s.remove(i),
    decreases s.len(),
{
    let t = s.drop_last();
    if i == s.len() - 1 {
        assert(!t.contains(a)) by {
            if t.contains(a) {
                let k = choose|k: int| 0 <= k < t.len() && t[k] == a;
                assert(s[k] == a && k != i);
            }
        }
        lemma_without_absent(t, a);
        assert(s.remove(i) =~= t);
    } else {
        assert(t.no_duplicates()) by {
            assert forall|x: int, y: int| 0 <= x < y < t.len() implies t[x] != t[y] by {
                assert(s[x] == t[x] && s[y] == t[y]);
            }
        }
        assert(t[i] == a);
        lemma_without_remove(t, a, i);
        assert(s.last() != a);
        assert(t.remove(i).push(s.last()) =~= s.remove(i));
    }
}

/// Law: seeing a usable address makes it the newest node and keeps the other nodes in
/// their order, dropping the oldest beyond the limit.
pub proof fn law_add_keeps_order(s: Seq<PeerAddr>, max: nat, a: PeerAddr)
    requires
        table_wf(s, max),
        usable(a),
    ensures
        table_add(s, max, a) == keep_newest(without(s, a).push(a), max),
{
    if s.contains(a) {
        let i = s.index_of(a);
        lemma_without_remove(s, a, i);
        assert(s.remove(i).push(a).len() == s.len());
    } else {
        lemma_without_absent(s, a);
    }
}

/// Seeing an address that cannot be kept (port 0, or the unspecified IP) changes nothing.
pub proof fn law_add_unusable(s: Seq<PeerAddr>, max: nat, a: PeerAddr)
    requires
        !usable(a),
    ensures
        table_add(s, max, a) == s,
{
}

// ---------------------------------------------------------------- sampling

/// The addresses of one family (IPv4 when `v4`), in their order.
pub open spec fn family_of(s: Seq<PeerAddr>, v4: bool) -> Seq<PeerAddr>
    decreases s.len(),
{
    if s.len() == 0 {
        Seq::empty()
    } else {
        let r = family_of(s.drop_last(), v4);
        if is_v4(s.last()) == v4 {
            r.push(s.last())
        } else {
            r
        }
    }
}

/// `x` taken back into `0..n` once.
pub open spec fn wrap(x: int, n: int) -> int {
    if x < n {
        x
    } else {
        x - n
    }
}

/// `limit` entries of `s` going round from `start`.
pub open spec fn rotation(s: Seq<PeerAddr>, start: int, limit: nat) -> Seq<PeerAddr> {
    Seq::new(limit, |i: int| s[wrap(start + i, s.len() as int)])
}

/// `r` may be what sampling at most `limit` entries of `fam` gives: all of them when
/// they are few enough, else `limit` consecutive ones from some start, going round.
pub open spec fn sampled_from(fam: Seq<PeerAddr>, limit: nat, r: Seq<PeerAddr>) -> bool {
    if fam.len() <= limit {
        r == fam
    } else {
        exists|start: int| 0 <= start < fam.len() && r == #[trigger] rotation(fam, start, limit)
    }
}

/// The entries of `items` from `start`, going round, `limit` of them.
pub fn rotate_take(items: &Vec<PeerAddr>, start: usize, limit: usize) -> (r: Vec<PeerAddr>)
    requires
        start < items@.len(),
        limit <= items@.len(),
    ensures
        r@ == rotation(items@, start as int, limit as nat),
{
    let n = items.len();
    let mut out: Vec<PeerAddr> = Vec::new();
    let mut idx: usize = start;
    let mut i: usize = 0;
    while i < limit
        invariant
            n == items@.len(),
            start < n,
            limit <= n,
            i <= limit,
            idx == wrap(start + i, n as int),
            out@ == rotation(items@, start as int, i as nat),
        decreases limit - i,
    {
        out.push(items[idx]);
        assert(out@ =~= rotation(items@, start as int, (i + 1) as nat));
        idx = idx + 1;
        if idx == n {
            idx = 0;
        }
        i = i + 1;
    }
    out
}

/// The addresses of one family, in their order.
fn family_nodes(nodes: &VecDeque<PeerAddr>, v4: bool) -> (r: Vec<PeerAddr>)
    ensures
        r@ == family_of(nodes@, v4),
{
    let mut out: Vec<PeerAddr> = Vec::new();
    let mut i: usize = 0;
    while i < nodes.len()
        invariant
            i <= nodes@.len(),
            out@ == family_of(nodes@.take(i as int), v4),
        decreases nodes@.len() - i,
    {
        let a = nodes[i];
        assert(nodes@.take(i + 1).drop_last() =~= nodes@.take(i as int));
        if is_ipv4(&a) == v4 {
            out.push(a);
        }
        i = i + 1;
    }
    assert(nodes@.take(nodes@.len() as int) =~= nodes@);
    out
}

// ---------------------------------------------------------------- compact entries

pub open spec fn v4_ip(a: PeerAddr) -> u32 {
    match a {
        PeerAddr::V4(ip, _) => ip,
        PeerAddr::V6(_, _, _, _) => 0,
    }
}

/// `out` holds one 26-byte entry per address: 20 bytes of id, then the IPv4 address and
/// the port, big-endian.
pub open spec fn compact_layout(out: Seq<u8>, addrs: Seq<PeerAddr>) -> bool {
    &&& out.len() == 26 * addrs.len()
    &&& forall|k: int|
        0 <= k < addrs.len() ==> be_value(out, 26 * k + 20, 4) == v4_ip(#[trigger] addrs[k])
            && be_value(out, 26 * k + 24, 2) == addr_port(addrs[k])
}

proof fn lemma_be_value_append(a: Seq<u8>, b: Seq<u8>, off: int, n: nat)
    requires
        0 <= off,
        off + n <= a.len(),
    ensures
        be_value(a + b, off, n) == be_value(a, off, n),
    decreases n,
{
    if n > 0 {
        lemma_be_value_append(a, b, off, (n - 1) as nat);
    }
}

fn push_u16_be(out: &mut Vec<u8>, v: u16)
    ensures
        final(out)@.len() == old(out)@.len() + 2,
        final(out)@.subrange(0, old(out)@.len() as int) == old(out)@,
        be_value(final(out)@, old(out)@.len() as int, 2) == v,
{
    assert((v >> 8u16) < 256 && (v & 0xffu16) < 256) by (bit_vector);
    let hi = (v >> 8u16) as u8;
    let lo = (v & 0xffu16) as u8;
    assert(v == (v >> 8u16) * 256 + (v & 0xffu16)) by (bit_vector);
    out.push(hi);
    out.push(lo);
    reveal_with_fuel(be_value, 3);
}

fn push_u32_be(out: &mut Vec<u8>, v: u32)
    ensures
        final(out)@.len() == old(out)@.len() + 4,
        final(out)@.subrange(0, old(out)@.len() as int) == old(out)@,
        be_value(final(out)@, old(out)@.len() as int, 4) == v,
{
    assert((v >> 24u32) < 256 && ((v >> 16u32) & 0xffu32) < 256 && ((v >> 8u32) & 0xffu32) < 256
        && (v & 0xffu32) < 256) by (bit_vector);
    let b0 = (v >> 24u32) as u8;
    let b1 = ((v >> 16u32) & 0xffu32) as u8;
    let b2 = ((v >> 8u32) & 0xffu32) as u8;
    let b3 = (v & 0xffu32) as u8;
    assert(v == (((v >> 24u32) * 256 + ((v >> 16u32) & 0xffu32)) * 256 + ((v >> 8u32) & 0xffu32))
        * 256 + (v & 0xffu32)) by (bit_vector);
    out.push(b0);
    out.push(b1);
    out.push(b2);
    out.push(b3);
    reveal_with_fuel(be_value, 5);
}

/// One compact entry for each IPv4 address, each with a fresh random id.
pub fn compact_entries(addrs: &Vec<PeerAddr>) -> (r: Vec<u8>)
    ensures
        compact_layout(r@, family_of(addrs@, true)),
{
    let mut out: Vec<u8> = Vec::new();
    let mut i: usize = 0;
    while i < addrs.len()
        invariant
            i <= addrs@.len(),
            compact_layout(out@, family_of(addrs@.take(i as int), true)),
        decreases addrs.len() - i,
    {
        assert(addrs@.take(i + 1).drop_last() =~= addrs@.take(i as int));
        let ghost before = family_of(addrs@.take(i as int), true);
        match addrs[i] {
            PeerAddr::V4(ip, port) => {
                let ghost start = out@;
                let id = random_id();
                let mut j: usize = 0;
                while j < 20
                    invariant
                        j <= 20,
                        out@.len() == start.len() + j,
                        out@.subrange(0, start.len() as int) == start,
                    decreases 20 - j,
                {
                    out.push(id[j]);
                    assert(out@.subrange(0, start.len() as int) =~= start);
                    j = j + 1;
                }
                let ghost mid = out@;
                push_u32_be(&mut out, ip);
                let ghost mid2 = out@;
                push_u16_be(&mut out, port);
                proof {
                    let after = before.push(addrs@[i as int]);
                    assert(mid2 =~= mid + mid2.subrange(mid.len() as int, mid2.len() as int));
                    assert(out@ =~= mid2 + out@.subrange(mid2.len() as int, out@.len() as int));
                    assert(out@ =~= start + out@.subrange(start.len() as int, out@.len() as int));
                    lemma_be_value_append(mid2, out@.subrange(mid2.len() as int, out@.len() as int), start.len() as int + 20, 4);
                    assert forall|k: int| 0 <= k < after.len() implies be_value(out@, 26 * k + 20, 4)
                        == v4_ip(#[trigger] after[k]) && be_value(out@, 26 * k + 24, 2) == addr_port(after[k]) by {
                        if k < before.len() {
                            assert(before[k] == after[k]);
                            lemma_be_value_append(start, out@.subrange(start.len() as int, out@.len() as int), 26 * k + 20, 4);
                            lemma_be_value_append(start, out@.subrange(start.len() as int, out@.len() as int), 26 * k + 24, 2);
                        }
                    }
                }
            },
            PeerAddr::V6(_, _, _, _) => {},
        }
        i = i + 1;
    }
    assert(addrs@.take(addrs@.len() as int) =~= addrs@);
    out
}

/// `nb` may be the compact entries of a sample of at most `limit` nodes of the family of
/// `addr`.
pub open spec fn compact_sample(table: Seq<PeerAddr>, addr: PeerAddr, limit: nat, nb: Seq<u8>) -> bool {
    exists|picked: Seq<PeerAddr>|
        sampled_from(family_of(table, is_v4(addr)), limit, picked) && #[trigger] compact_layout(nb, family_of(picked, true))
}

impl NodeTable {
    /// At most `limit` nodes of the family of `family_addr`: all of them when they are
    /// few enough, else `limit` consecutive ones from a random start, going round.
    pub fn sample(&self, family_addr: &PeerAddr, limit: usize) -> (r: Vec<PeerAddr>)
        ensures
            sampled_from(family_of(self@, is_v4(*family_addr)), limit as nat, r@),
    {
        let fam = family_nodes(&self.nodes, is_ipv4(family_addr));
        if fam.len() <= limit {
            return fam;
        }
        let mut rng = random_source();
        let start = random_below(&mut rng, fam.len());
        let r = rotate_take(&fam, start, limit);
        assert(0 <= start < fam@.len() && r@ == rotation(fam@, start as int, limit as nat));
        r
    }

    /// Compact entries for a sample of at most `limit` nodes of the family of
    /// `family_addr`; only IPv4 nodes have an entry.
    pub fn compact_nodes(&self, family_addr: &PeerAddr, limit: usize) -> (r: Vec<u8>)
        ensures
            compact_sample(self@, *family_addr, limit as nat, r@),
    {
        let picked = self.sample(family_addr, limit);
        compact_entries(&picked)
    }
}


/// Reading back compact entries written for IPv4 addresses with non-zero ports gives
/// those addresses, in order.
pub proof fn law_compact_round_trip(out: Seq<u8>, addrs: Seq<PeerAddr>)
    requires
        compact_layout(out, addrs),
        forall|i: int| 0 <= i < addrs.len() ==> is_v4(#[trigger] addrs[i]) && addr_port(addrs[i]) != 0,
    ensures
        compact_nodes_v4(out, out.len() / 26) == addrs,
{
    assert(out.len() / 26 == addrs.len()) by (nonlinear_arith)
        requires
            out.len() == 26 * addrs.len(),
    ;
    lemma_compact_prefix(out, addrs, addrs.len());
    assert(addrs.take(addrs.len() as int) =~= addrs);
}

proof fn lemma_compact_prefix(out: Seq<u8>, addrs: Seq<PeerAddr>, k: nat)
    requires
        compact_layout(out, addrs),
        forall|i: int| 0 <= i < addrs.len() ==> is_v4(#[trigger] addrs[i]) && addr_port(addrs[i]) != 0,
        k <= addrs.len(),
    ensures
        compact_nodes_v4(out, k) == addrs.take(k as int),
    decreases k,
{
    if k > 0 {
        lemma_compact_prefix(out, addrs, (k - 1) as nat);
        let a = addrs[k - 1];
        assert(be_value(out, 26 * (k - 1) + 20, 4) == v4_ip(a));
        assert(be_value(out, 26 * (k - 1) + 24, 2) == addr_port(a));
        assert(addrs.take(k as int) =~= addrs.take(k - 1).push(a));
    } else {
        assert(addrs.take(0) =~= Seq::<PeerAddr>::empty());
    }
}

// ---------------------------------------------------------------- address order

/// The order of socket addresses: every IPv4 one before every IPv6 one, then by IP,
/// then by port, then (for IPv6) by flow information and scope id.
pub open spec fn addr_key(a: PeerAddr) -> int {
    match a {
        PeerAddr::V4(ip, port) => ip * 65536 + port,
        PeerAddr::V6(ip, port, flow, scope) => 0x1_0000_0000_0000 + ip * 0x1_0000_0000_0000_0000_0000 + port
            * 0x1_0000_0000_0000_0000 + flow * 0x1_0000_0000 + scope,
    }
}

/// Strictly increasing in that order, so without repeats.
pub open spec fn strictly_sorted(s: Seq<PeerAddr>) -> bool {
    forall|i: int, j: int| 0 <= i < j < s.len() ==> addr_key(#[trigger] s[i]) < addr_key(#[trigger] s[j])
}

proof fn lemma_addr_key_injective(a: PeerAddr, b: PeerAddr)
    ensures
        addr_key(a) == addr_key(b) ==> a == b,
{
}

fn addr_less(a: &PeerAddr, b: &PeerAddr) -> (r: bool)
    ensures
        r == (addr_key(*a) < addr_key(*b)),
{
    match (a, b) {
        (PeerAddr::V4(i1, p1), PeerAddr::V4(i2, p2)) => *i1 < *i2 || (*i1 == *i2 && *p1 < *p2),
        (PeerAddr::V4(_, _), PeerAddr::V6(_, _, _, _)) => true,
        (PeerAddr::V6(_, _, _, _), PeerAddr::V4(_, _)) => false,
        (PeerAddr::V6(i1, p1, f1, s1), PeerAddr::V6(i2, p2, f2, s2)) => *i1 < *i2 || (*i1 == *i2 && (*p1 < *p2 || (
        *p1 == *p2 && (*f1 < *f2 || (*f1 == *f2 && *s1 < *s2))))),
    }
}

pub(crate) proof fn lemma_push_contains(s: Seq<PeerAddr>, a: PeerAddr)
    ensures
        forall|x: PeerAddr| #[trigger] s.push(a).contains(x) <==> (s.contains(x) || x == a),
{
    assert forall|x: PeerAddr| #[trigger] s.push(a).contains(x) <==> (s.contains(x) || x == a) by {
        let t = s.push(a);
        if s.contains(x) {
            let j = choose|j: int| 0 <= j < s.len() && s[j] == x;
            assert(t[j] == x);
        }
        if x == a {
            assert(t[s.len() as int] == x);
        }
        if t.contains(x) {
            let j = choose|j: int| 0 <= j < t.len() && t[j] == x;
            if j < s.len() {
                assert(s[j] == x);
            }
        }
    }
}

proof fn lemma_insert_contains(s: Seq<PeerAddr>, p: int, a: PeerAddr)
    requires
        0 <= p <= s.len(),
    ensures
        forall|x: PeerAddr| #[trigger] s.insert(p, a).contains(x) <==> (s.contains(x) || x == a),
{
    assert forall|x: PeerAddr| #[trigger] s.insert(p, a).contains(x) <==> (s.contains(x) || x == a) by {
        let t = s.insert(p, a);
        if s.contains(x) {
            let j = choose|j: int| 0 <= j < s.len() && s[j] == x;
            if j < p {
                assert(t[j] == x);
            } else {
                assert(t[j + 1] == x);
            }
        }
        if x == a {
            assert(t[p] == x);
        }
        if t.contains(x) {
            let j = choose|j: int| 0 <= j < t.len() && t[j] == x;
            if j < p {
                assert(s[j] == x);
            } else if j > p {
                assert(s[j - 1] == x);
            }
        }
    }
}

/// The distinct addresses, in increasing order.
pub fn unique(addrs: Vec<PeerAddr>) -> (r: Vec<PeerAddr>)
    ensures
        strictly_sorted(r@),
        forall|x: PeerAddr| r@.contains(x) <==> addrs@.contains(x),
{
    let mut out: Vec<PeerAddr> = Vec::new();
    let mut i: usize = 0;
    while i < addrs.len()
        invariant
            i <= addrs@.len(),
            strictly_sorted(out@),
            forall|x: PeerAddr| out@.contains(x) <==> addrs@.take(i as int).contains(x),
        decreases addrs.len() - i,
    {
        let a = addrs[i];
        let mut p: usize = 0;
        while p < out.len() && addr_less(&out[p], &a)
            invariant
                p <= out@.len(),
                forall|j: int| 0 <= j < p ==> addr_key(#[trigger] out@[j]) < addr_key(a),
            decreases out@.len() - p,
        {
            p = p + 1;
        }
        let ghost old_out = out@;
        proof {
            assert(addrs@.take(i + 1) =~= addrs@.take(i as int).push(a));
            lemma_push_contains(addrs@.take(i as int), a);
        }
        if p < out.len() && out[p] == a {
        } else {
            proof {
                if p < old_out.len() {
                    assert(addr_key(a) <= addr_key(old_out[p as int]));
                    lemma_addr_key_injective(a, old_out[p as int]);
                }
                lemma_insert_contains(old_out, p as int, a);
            }
            out.insert(p, a);
            proof {
                let n = out@;
                assert forall|j: int, k: int| 0 <= j < k < n.len() implies addr_key(#[trigger] n[j]) < addr_key(#[trigger] n[k]) by {
                    if k < p {
                    } else if k == p {
                    } else if j < p {
                        assert(n[k] == old_out[k - 1]);
                        if p < old_out.len() {
                            assert(addr_key(old_out[p as int]) <= addr_key(old_out[k - 1]));
                        }
                    } else if j == p {
                        assert(n[k] == old_out[k - 1]);
                        assert(addr_key(old_out[p as int]) <= addr_key(old_out[k - 1]));
                    } else {
                        assert(n[j] == old_out[j - 1] && n[k] == old_out[k - 1]);
                    }
                }
            }
        }
        i = i + 1;
    }
    assert(addrs@.take(addrs@.len() as int) =~= addrs@);
    out
}

/// The addresses worth handing to other nodes together with an event: the distinct
/// global IPv4 addresses among `sampled` and `addr`, in increasing order.
pub open spec fn seed_set(r: Seq<PeerAddr>, sampled: Seq<PeerAddr>, addr: PeerAddr) -> bool {
    &&& strictly_sorted(r)
    &&& forall|x: PeerAddr|
        r.contains(x) <==> (is_v4(x) && global_addr(x) && (sampled.contains(x) || x == addr))
}

/// The seed nodes for an event from `addr`, out of nodes sampled beforehand.
pub fn seed_nodes_from(sampled: &Vec<PeerAddr>, addr: &PeerAddr) -> (r: Vec<PeerAddr>)
    ensures
        seed_set(r@, sampled@, *addr),
{
    let mut keep: Vec<PeerAddr> = Vec::new();
    let mut i: usize = 0;
    while i < sampled.len()
        invariant
            i <= sampled@.len(),
            forall|x: PeerAddr|
                keep@.contains(x) <==> (is_v4(x) && global_addr(x) && sampled@.take(i as int).contains(x)),
        decreases sampled.len() - i,
    {
        let a = sampled[i];
        proof {
            assert(sampled@.take(i + 1) =~= sampled@.take(i as int).push(a));
            lemma_push_contains(sampled@.take(i as int), a);
            lemma_push_contains(keep@, a);
        }
        if is_ipv4(&a) && is_global_address(&a) {
            keep.push(a);
        }
        i = i + 1;
    }
    assert(sampled@.take(sampled@.len() as int) =~= sampled@);
    if is_ipv4(addr) && is_global_address(addr) {
        proof {
            lemma_push_contains(keep@, *addr);
        }
        keep.push(*addr);
    }
    unique(keep)
}

/// `seeds` may be the seed nodes of an event from `addr`, drawn from a sample of at
/// most 256 known nodes of its family.
pub open spec fn seeds_sample(table: Seq<PeerAddr>, addr: PeerAddr, seeds: Seq<PeerAddr>) -> bool {
    exists|picked: Seq<PeerAddr>|
        sampled_from(family_of(table, is_v4(addr)), 256, picked) && #[trigger] seed_set(seeds, picked, addr)
}

/// The seed nodes for an event from `addr`: global IPv4 nodes among a sample of at
/// most 256 known nodes of its family, and `addr` itself when it is a global IPv4
/// address.
pub fn event_seed_nodes(nodes: &NodeTable, addr: &PeerAddr) -> (r: Vec<PeerAddr>)
    ensures
        seeds_sample(nodes@, *addr, r@),
{
    let sampled = nodes.sample(addr, 256);
    let r = seed_nodes_from(&sampled, addr);
    assert(seed_set(r@, sampled@, *addr));
    r
}


// ---------------------------------------------------------------- KRPC messages

pub open spec fn key_y() -> Seq<u8> {
    seq![121u8]
}

pub open spec fn key_r() -> Seq<u8> {
    seq![114u8]
}

pub open spec fn key_q() -> Seq<u8> {
    seq![113u8]
}

pub open spec fn key_t() -> Seq<u8> {
    seq![116u8]
}

pub open spec fn key_a() -> Seq<u8> {
    seq![97u8]
}

pub open spec fn key_id() -> Seq<u8> {
    seq![105u8, 100]
}

pub open spec fn key_target() -> Seq<u8> {
    seq![116u8, 97, 114, 103, 101, 116]
}

pub open spec fn key_nodes() -> Seq<u8> {
    seq![110u8, 111, 100, 101, 115]
}

pub open spec fn key_nodes6() -> Seq<u8> {
    seq![110u8, 111, 100, 101, 115, 54]
}

pub open spec fn key_info_hash() -> Seq<u8> {
    seq![105u8, 110, 102, 111, 95, 104, 97, 115, 104]
}

pub open spec fn key_implied_port() -> Seq<u8> {
    seq![105u8, 109, 112, 108, 105, 101, 100, 95, 112, 111, 114, 116]
}

pub open spec fn key_port() -> Seq<u8> {
    seq![112u8, 111, 114, 116]
}

pub open spec fn key_token() -> Seq<u8> {
    seq![116u8, 111, 107, 101, 110]
}

pub open spec fn name_ping() -> Seq<u8> {
    seq![112u8, 105, 110, 103]
}

pub open spec fn name_find_node() -> Seq<u8> {
    seq![102u8, 105, 110, 100, 95, 110, 111, 100, 101]
}

pub open spec fn name_get_peers() -> Seq<u8> {
    seq![103u8, 101, 116, 95, 112, 101, 101, 114, 115]
}

pub open spec fn name_announce_peer() -> Seq<u8> {
    seq![97u8, 110, 110, 111, 117, 110, 99, 101, 95, 112, 101, 101, 114]
}

pub open spec fn token_value() -> Seq<u8> {
    seq![100u8, 104, 116, 45, 108, 101, 110, 115]
}

/// A copy of some bytes.
fn bytes_vec(b: &[u8]) -> (r: Vec<u8>)
    ensures
        r@ == b@,
{
    let mut out: Vec<u8> = Vec::new();
    let mut i: usize = 0;
    while i < b.len()
        invariant
            i <= b@.len(),
            out@ == b@.take(i as int),
        decreases b.len() - i,
    {
        out.push(b[i]);
        assert(out@ =~= b@.take(i + 1));
        i = i + 1;
    }
    assert(b@.take(b@.len() as int) =~= b@);
    out
}

fn key_y_bytes() -> (r: Vec<u8>)
    ensures
        r@ == key_y(),
{
    let r = bytes_vec(&[121u8]);
    r
}

fn key_r_bytes() -> (r: Vec<u8>)
    ensures
        r@ == key_r(),
{
    let r = bytes_vec(&[114u8]);
    r
}

fn key_q_bytes() -> (r: Vec<u8>)
    ensures
        r@ == key_q(),
{
    let r = bytes_vec(&[113u8]);
    r
}

fn key_t_bytes() -> (r: Vec<u8>)
    ensures
        r@ == key_t(),
{
    let r = bytes_vec(&[116u8]);
    r
}

fn key_a_bytes() -> (r: Vec<u8>)
    ensures
        r@ == key_a(),
{
    let r = bytes_vec(&[97u8]);
    r
}

fn key_id_bytes() -> (r: Vec<u8>)
    ensures
        r@ == key_id(),
{
    let r = bytes_vec(&[105u8, 100]);
    r
}

fn key_target_bytes() -> (r: Vec<u8>)
    ensures
        r@ == key_target(),
{
    let r = bytes_vec(&[116u8, 97, 114, 103, 101, 116]);
    r
}

fn key_nodes_bytes() -> (r: Vec<u8>)
    ensures
        r@ == key_nodes(),
{
    let r = bytes_vec(&[110u8, 111, 100, 101, 115]);
    r
}

fn key_nodes6_bytes() -> (r: Vec<u8>)
    ensures
        r@ == key_nodes6(),
{
    let r = bytes_vec(&[110u8, 111, 100, 101, 115, 54]);
    r
}

fn key_info_hash_bytes() -> (r: Vec<u8>)
    ensures
        r@ == key_info_hash(),
{
    let r = bytes_vec(&[105u8, 110, 102, 111, 95, 104, 97, 115, 104]);
    r
}

fn key_implied_port_bytes() -> (r: Vec<u8>)
    ensures
        r@ == key_implied_port(),
{
    let r = bytes_vec(&[105u8, 109, 112, 108, 105, 101, 100, 95, 112, 111, 114, 116]);
    r
}

fn key_port_bytes() -> (r: Vec<u8>)
    ensures
        r@ == key_port(),
{
    let r = bytes_vec(&[112u8, 111, 114, 116]);
    r
}

fn key_token_bytes() -> (r: Vec<u8>)
    ensures
        r@ == key_token(),
{
    let r = bytes_vec(&[116u8, 111, 107, 101, 110]);
    r
}

fn name_ping_bytes() -> (r: Vec<u8>)
    ensures
        r@ == name_ping(),
{
    let r = bytes_vec(&[112u8, 105, 110, 103]);
    r
}

fn name_find_node_bytes() -> (r: Vec<u8>)
    ensures
        r@ == name_find_node(),
{
    let r = bytes_vec(&[102u8, 105, 110, 100, 95, 110, 111, 100, 101]);
    r
}

fn name_get_peers_bytes() -> (r: Vec<u8>)
    ensures
        r@ == name_get_peers(),
{
    let r = bytes_vec(&[103u8, 101, 116, 95, 112, 101, 101, 114, 115]);
    r
}

fn name_announce_peer_bytes() -> (r: Vec<u8>)
    ensures
        r@ == name_announce_peer(),
{
    let r = bytes_vec(&[97u8, 110, 110, 111, 117, 110, 99, 101, 95, 112, 101, 101, 114]);
    r
}

fn token_value_bytes() -> (r: Vec<u8>)
    ensures
        r@ == token_value(),
{
    let r = bytes_vec(&[100u8, 104, 116, 45, 108, 101, 110, 115]);
    r
}

/// A `find_node` query: arguments `id` and `target`, transaction `tx`.
pub open spec fn find_node_message(id: Seq<u8>, target: Seq<u8>, tx: Seq<u8>) -> Val {
    Val::Dict(
        seq![
            (key_a(), Val::Dict(seq![(key_id(), Val::Bytes(id)), (key_target(), Val::Bytes(target))])),
            (key_q(), Val::Bytes(name_find_node())),
            (key_t(), Val::Bytes(tx)),
            (key_y(), Val::Bytes(key_q())),
        ],
    )
}

/// A response to transaction `tx`: the values of `extra` with our `id` added.
pub open spec fn response_message(tx: Seq<u8>, id: Seq<u8>, extra: Seq<(Seq<u8>, Val)>) -> Val {
    Val::Dict(
        seq![
            (key_r(), Val::Dict(dict_insert(extra, key_id(), Val::Bytes(id)))),
            (key_t(), Val::Bytes(tx)),
            (key_y(), Val::Bytes(key_r())),
        ],
    )
}

/// The encoded `find_node` query asking for `target` on behalf of `node_id`, under a
/// fresh random 4-byte transaction id.
pub fn find_node_request(node_id: &[u8; 20], target: &[u8; 20]) -> (r: Vec<u8>)
    ensures
        exists|tx: Seq<u8>| tx.len() == 4 && r@ == #[trigger] enc(find_node_message(node_id@, target@, tx)),
{
    let mut args: Vec<(Vec<u8>, Value)> = Vec::new();
    args.push((key_id_bytes(), Value::Bytes(bytes_vec(node_id))));
    args.push((key_target_bytes(), Value::Bytes(bytes_vec(target))));
    let ghost args_v = args@;
    proof {
        lemma_dict_view(args_v);
        assert(dict_view(args_v) =~= seq![(key_id(), Val::Bytes(node_id@)), (key_target(), Val::Bytes(target@))]);
        assert(lex_lt(key_id(), key_target()));
    }
    let args = Dict::from_sorted(args);
    let tx = random_transaction();
    let ghost tx_v = tx@;
    let mut root: Vec<(Vec<u8>, Value)> = Vec::new();
    root.push((key_a_bytes(), Value::Dict(args)));
    root.push((key_q_bytes(), Value::Bytes(name_find_node_bytes())));
    root.push((key_t_bytes(), Value::Bytes(tx)));
    root.push((key_y_bytes(), Value::Bytes(key_q_bytes())));
    proof {
        lemma_dict_view(root@);
        assert(dict_view(root@) =~= seq![
            (key_a(), Val::Dict(dict_view(args_v))),
            (key_q(), Val::Bytes(name_find_node())),
            (key_t(), Val::Bytes(tx_v)),
            (key_y(), Val::Bytes(key_q())),
        ]);
        assert(lex_lt(key_a(), key_q()));
        assert(lex_lt(key_a(), key_t()));
        assert(lex_lt(key_a(), key_y()));
        assert(lex_lt(key_q(), key_t()));
        assert(lex_lt(key_q(), key_y()));
        assert(lex_lt(key_t(), key_y()));
    }
    let msg = Value::Dict(Dict::from_sorted(root));
    assert(msg@ == find_node_message(node_id@, target@, tx_v));
    let mut out: Vec<u8> = Vec::new();
    encode(&msg, &mut out);
    assert(out@ =~= enc(find_node_message(node_id@, target@, tx_v)));
    out
}

/// The encoded response to transaction `transaction` from `node_id`, carrying `extra`.
pub fn response(transaction: &[u8], node_id: [u8; 20], extra: Dict) -> (r: Vec<u8>)
    ensures
        r@ == enc(response_message(transaction@, node_id@, extra@)),
{
    let ghost extra_in = extra@;
    let mut extra = extra;
    extra.insert(key_id_bytes(), Value::Bytes(bytes_vec(&node_id)));
    let ghost extra_v = extra@;
    let mut root: Vec<(Vec<u8>, Value)> = Vec::new();
    root.push((key_r_bytes(), Value::Dict(extra)));
    root.push((key_t_bytes(), Value::Bytes(bytes_vec(transaction))));
    root.push((key_y_bytes(), Value::Bytes(key_r_bytes())));
    proof {
        lemma_dict_view(root@);
        assert(dict_view(root@) =~= seq![
            (key_r(), Val::Dict(extra_v)),
            (key_t(), Val::Bytes(transaction@)),
            (key_y(), Val::Bytes(key_r())),
        ]);
        assert(lex_lt(key_r(), key_t()));
        assert(lex_lt(key_r(), key_y()));
        assert(lex_lt(key_t(), key_y()));
    }
    let msg = Value::Dict(Dict::from_sorted(root));
    let mut out: Vec<u8> = Vec::new();
    encode(&msg, &mut out);
    assert(out@ =~= enc(response_message(transaction@, node_id@, extra_in)));
    out
}


// ---------------------------------------------------------------- dictionary fields

/// The byte string stored under `k`, if that is what is stored there.
pub open spec fn bytes_field(d: Seq<(Seq<u8>, Val)>, k: Seq<u8>) -> Option<Seq<u8>> {
    match dict_lookup(d, k) {
        Some(Val::Bytes(b)) => Some(b),
        _ => None,
    }
}

/// The byte string stored under `k`, or the empty one.
pub open spec fn text_field(d: Seq<(Seq<u8>, Val)>, k: Seq<u8>) -> Seq<u8> {
    match bytes_field(d, k) {
        Some(b) => b,
        None => Seq::empty(),
    }
}

/// The dictionary stored under `k`, if that is what is stored there.
pub open spec fn dict_field(d: Seq<(Seq<u8>, Val)>, k: Seq<u8>) -> Option<Seq<(Seq<u8>, Val)>> {
    match dict_lookup(d, k) {
        Some(Val::Dict(x)) => Some(x),
        _ => None,
    }
}

/// The integer stored under `k`, if that is what is stored there.
pub open spec fn int_field(d: Seq<(Seq<u8>, Val)>, k: Seq<u8>) -> Option<i64> {
    match dict_lookup(d, k) {
        Some(Val::Int(i)) => Some(i),
        _ => None,
    }
}

/// The 20-byte string stored under `k`, if one is stored there.
pub open spec fn hash_field(d: Seq<(Seq<u8>, Val)>, k: Seq<u8>) -> Option<Seq<u8>> {
    match bytes_field(d, k) {
        Some(b) => if b.len() == 20 {
            Some(b)
        } else {
            None
        },
        None => None,
    }
}

fn field_bytes<'a>(d: &'a Dict, key: &[u8]) -> (r: Option<&'a [u8]>)
    ensures
        match bytes_field(d@, key@) {
            Some(b) => r matches Some(x) && x@ == b,
            None => r is None,
        },
{
    match dict_get(d, key) {
        Some(v) => as_bytes(v),
        None => None,
    }
}

fn field_text<'a>(d: &'a Dict, key: &[u8]) -> (r: &'a [u8])
    ensures
        r@ == text_field(d@, key@),
{
    match field_bytes(d, key) {
        Some(b) => b,
        None => {
            let e: &[u8] = &[];
            assert(e@ =~= Seq::<u8>::empty());
            e
        },
    }
}

fn field_dict<'a>(d: &'a Dict, key: &[u8]) -> (r: Option<&'a Dict>)
    ensures
        match dict_field(d@, key@) {
            Some(x) => r matches Some(y) && y@ == x,
            None => r is None,
        },
{
    match dict_get(d, key) {
        Some(Value::Dict(x)) => Some(x),
        _ => None,
    }
}

fn field_int(d: &Dict, key: &[u8]) -> (r: Option<i64>)
    ensures
        r == int_field(d@, key@),
{
    match dict_get(d, key) {
        Some(v) => as_int(v),
        None => None,
    }
}

fn field_hash(d: &Dict, key: &[u8]) -> (r: Option<[u8; 20]>)
    ensures
        match hash_field(d@, key@) {
            Some(h) => r matches Some(x) && x@ == h,
            None => r is None,
        },
{
    match field_bytes(d, key) {
        Some(b) => to_hash(b),
        None => None,
    }
}

// ---------------------------------------------------------------- announced peers

pub open spec fn with_port(a: PeerAddr, p: u16) -> PeerAddr {
    match a {
        PeerAddr::V4(ip, _) => PeerAddr::V4(ip, p),
        PeerAddr::V6(ip, _, _, _) => PeerAddr::V6(ip, p, 0, 0),
    }
}

/// The port an `announce_peer` query names: the sender's own when `implied_port` is 1,
/// else its `port` argument when that fits in 16 bits.
pub open spec fn announced_port(args: Seq<(Seq<u8>, Val)>, addr: PeerAddr) -> Option<u16> {
    if int_field(args, key_implied_port()) == Some(1i64) {
        Some(addr_port(addr))
    } else {
        match int_field(args, key_port()) {
            Some(p) => if 0 <= p <= 65535 {
                Some(p as u16)
            } else {
                None
            },
            None => None,
        }
    }
}

/// The peer an `announce_peer` query from `addr` announces: the sender's IP with the
/// announced port, kept only when the port is not 0 and the address is global.
pub open spec fn announced_peer(args: Seq<(Seq<u8>, Val)>, addr: PeerAddr) -> Option<PeerAddr> {
    match announced_port(args, addr) {
        Some(p) => if p != 0 && global_addr(with_port(addr, p)) {
            Some(with_port(addr, p))
        } else {
            None
        },
        None => None,
    }
}

/// The peer that an `announce_peer` query from `addr` announces, if any.
pub fn announce_peer_addr(args: &Dict, addr: &PeerAddr) -> (r: Option<PeerAddr>)
    ensures
        r == announced_peer(args@, *addr),
{
    let implied = field_int(args, key_implied_port_bytes().as_slice());
    let port: u16 = match implied {
        Some(1) => port_of(addr),
        _ => {
            let p = match field_int(args, key_port_bytes().as_slice()) {
                Some(p) => p,
                None => {
                    return None;
                },
            };
            if p < 0 || p > 65535 {
                return None;
            }
            p as u16
        },
    };
    if port == 0 {
        return None;
    }
    let peer = match addr {
        PeerAddr::V4(ip, _) => PeerAddr::V4(*ip, port),
        PeerAddr::V6(ip, _, _, _) => PeerAddr::V6(*ip, port, 0, 0),
    };
    if is_global_address(&peer) {
        Some(peer)
    } else {
        None
    }
}

// ---------------------------------------------------------------- packets

/// An info hash learned from another node.
#[derive(Debug, Clone)]
pub struct InfoHashEvent {
    pub info_hash: [u8; 20],
    pub source: Source,
    pub peer_count: u32,
    pub peer: Option<PeerAddr>,
    pub seed_nodes: Vec<PeerAddr>,
    pub seen_at: i64,
}

/// What handling one packet calls for: a datagram to send back, an info hash to report.
#[derive(Debug)]
pub struct PacketOutcome {
    pub reply: Option<Vec<u8>>,
    pub event: Option<InfoHashEvent>,
}

pub open spec fn silent(out: PacketOutcome) -> bool {
    out.reply is None && out.event is None
}

pub open spec fn reply_is(out: PacketOutcome, m: Val) -> bool {
    out.reply matches Some(b) && b@ == enc(m)
}

/// The extra values of a `find_node` response.
pub open spec fn nodes_extra(nb: Seq<u8>) -> Seq<(Seq<u8>, Val)> {
    seq![(key_nodes(), Val::Bytes(nb))]
}

/// The extra values of a `get_peers` response.
pub open spec fn peers_extra(nb: Seq<u8>) -> Seq<(Seq<u8>, Val)> {
    seq![(key_nodes(), Val::Bytes(nb)), (key_token(), Val::Bytes(token_value()))]
}

/// The id a response is sent under: the one nearest to the named hash, or the first.
pub open spec fn answering_id(ids: Seq<[u8; 20]>, h: Option<Seq<u8>>) -> Seq<u8> {
    match h {
        Some(t) => closest_id(ids, t)@,
        None => ids[0]@,
    }
}

/// The table after a response: the IPv4 and then the IPv6 nodes it lists are seen.
pub open spec fn learned_nodes(table: Seq<PeerAddr>, max: nat, d: Seq<(Seq<u8>, Val)>) -> Seq<PeerAddr> {
    match dict_field(d, key_r()) {
        Some(resp) => {
            let t1 = match bytes_field(resp, key_nodes()) {
                Some(b) => table_add_all(table, max, compact_nodes_v4(b, b.len() / 26)),
                None => table,
            };
            match bytes_field(resp, key_nodes6()) {
                Some(b) => table_add_all(t1, max, compact_nodes_v6(b, b.len() / 38)),
                None => t1,
            }
        },
        None => table,
    }
}

/// What a message other than a response calls for, given the ids we answer under, the
/// known nodes and the sender.
pub open spec fn query_outcome(
    ids: Seq<[u8; 20]>,
    table: Seq<PeerAddr>,
    addr: PeerAddr,
    d: Seq<(Seq<u8>, Val)>,
    out: PacketOutcome,
) -> bool {
    let q = text_field(d, key_q());
    let tx = text_field(d, key_t());
    if text_field(d, key_y()) != key_q() {
        silent(out)
    } else {
        match dict_field(d, key_a()) {
            None => silent(out),
            Some(args) => if q == name_ping() {
                out.event is None && reply_is(out, response_message(tx, ids[0]@, Seq::empty()))
            } else if q == name_find_node() {
                &&& out.event is None
                &&& exists|nb: Seq<u8>|
                    compact_sample(table, addr, 8, nb) && #[trigger] reply_is(
                        out,
                        response_message(tx, answering_id(ids, hash_field(args, key_target())), nodes_extra(nb)),
                    )
            } else if q == name_get_peers() {
                let h = hash_field(args, key_info_hash());
                &&& exists|nb: Seq<u8>|
                    compact_sample(table, addr, 8, nb) && #[trigger] reply_is(
                        out,
                        response_message(tx, answering_id(ids, h), peers_extra(nb)),
                    )
                &&& match h {
                    Some(hash) => out.event matches Some(ev) && ev.info_hash@ == hash && ev.source
                        == Source::DhtGetPeers && ev.peer_count == 0 && ev.peer is None && seeds_sample(
                        table,
                        addr,
                        ev.seed_nodes@,
                    ),
                    None => out.event is None,
                }
            } else if q == name_announce_peer() {
                match hash_field(args, key_info_hash()) {
                    Some(hash) => {
                        &&& reply_is(out, response_message(tx, closest_id(ids, hash)@, Seq::empty()))
                        &&& out.event matches Some(ev) && ev.info_hash@ == hash && ev.source
                            == Source::DhtAnnouncePeer && ev.peer == announced_peer(args, addr)
                            && ev.peer_count == (if ev.peer is Some {
                            1u32
                        } else {
                            0u32
                        }) && seeds_sample(table, addr, ev.seed_nodes@)
                    },
                    None => out.event is None && reply_is(out, response_message(tx, ids[0]@, Seq::empty())),
                }
            } else {
                silent(out)
            },
        }
    }
}

/// Adds the nodes a response lists.
fn learn_nodes(nodes: &mut NodeTable, d: &Dict)
    ensures
        final(nodes).max_nodes() == old(nodes).max_nodes(),
        final(nodes)@ == learned_nodes(old(nodes)@, old(nodes).max_nodes(), d@),
{
    if let Some(response) = field_dict(d, key_r_bytes().as_slice()) {
        if let Some(bytes) = field_bytes(response, key_nodes_bytes().as_slice()) {
            nodes.add_many(&parse_compact_nodes(bytes));
        }
        if let Some(bytes) = field_bytes(response, key_nodes6_bytes().as_slice()) {
            nodes.add_many(&parse_compact_nodes6(bytes));
        }
    }
}

/// The answer to a message other than a response.
fn answer_query(node_ids: &Vec<[u8; 20]>, nodes: &NodeTable, addr: &PeerAddr, d: &Dict) -> (out: PacketOutcome)
    requires
        node_ids@.len() > 0,
    ensures
        query_outcome(node_ids@, nodes@, *addr, d@, out),
{
    let none = PacketOutcome { reply: None, event: None };
    let y = field_text(d, key_y_bytes().as_slice());
    let transaction = field_text(d, key_t_bytes().as_slice());
    if !crate::bencode::bytes_eq(y, key_q_bytes().as_slice()) {
        return none;
    }
    let query = field_text(d, key_q_bytes().as_slice());
    let args = match field_dict(d, key_a_bytes().as_slice()) {
        Some(args) => args,
        None => {
            return none;
        },
    };
    if crate::bencode::bytes_eq(query, name_ping_bytes().as_slice()) {
        let reply = response(transaction, node_ids[0], Dict::new());
        PacketOutcome { reply: Some(reply), event: None }
    } else if crate::bencode::bytes_eq(query, name_find_node_bytes().as_slice()) {
        let node_id = match field_hash(args, key_target_bytes().as_slice()) {
            Some(target) => closest_node_id(node_ids.as_slice(), &target),
            None => node_ids[0],
        };
        let nb = nodes.compact_nodes(addr, 8);
        let ghost nbv = nb@;
        let mut extra: Vec<(Vec<u8>, Value)> = Vec::new();
        extra.push((key_nodes_bytes(), Value::Bytes(nb)));
        proof {
            lemma_dict_view(extra@);
            assert(dict_view(extra@) =~= seq![(key_nodes(), Val::Bytes(nbv))]);
        }
        let extra = Dict::from_sorted(extra);
        let out = PacketOutcome { reply: Some(response(transaction, node_id, extra)), event: None };
        assert(reply_is(out, response_message(transaction@, node_id@, nodes_extra(nbv))));
        out
    } else if crate::bencode::bytes_eq(query, name_get_peers_bytes().as_slice()) {
        let h = field_hash(args, key_info_hash_bytes().as_slice());
        let event = match h {
            Some(hash) => Some(
                InfoHashEvent {
                    info_hash: hash,
                    source: Source::DhtGetPeers,
                    peer_count: 0,
                    peer: None,
                    seed_nodes: event_seed_nodes(nodes, addr),
                    seen_at: now_ts(),
                },
            ),
            None => None,
        };
        let node_id = match h {
            Some(hash) => closest_node_id(node_ids.as_slice(), &hash),
            None => node_ids[0],
        };
        let nb = nodes.compact_nodes(addr, 8);
        let ghost nbv = nb@;
        let mut extra: Vec<(Vec<u8>, Value)> = Vec::new();
        extra.push((key_nodes_bytes(), Value::Bytes(nb)));
        extra.push((key_token_bytes(), Value::Bytes(token_value_bytes())));
        proof {
            lemma_dict_view(extra@);
            assert(dict_view(extra@) =~= seq![(key_nodes(), Val::Bytes(nbv)), (key_token(), Val::Bytes(token_value()))]);
            assert(lex_lt(key_nodes(), key_token()));
        }
        let extra = Dict::from_sorted(extra);
        let out = PacketOutcome { reply: Some(response(transaction, node_id, extra)), event };
        assert(reply_is(out, response_message(transaction@, node_id@, peers_extra(nbv))));
        out
    } else if crate::bencode::bytes_eq(query, name_announce_peer_bytes().as_slice()) {
        match field_hash(args, key_info_hash_bytes().as_slice()) {
            Some(hash) => {
                let node_id = closest_node_id(node_ids.as_slice(), &hash);
                let peer = announce_peer_addr(args, addr);
                let peer_count: u32 = if peer.is_some() {
                    1
                } else {
                    0
                };
                let event = InfoHashEvent {
                    info_hash: hash,
                    source: Source::DhtAnnouncePeer,
                    peer_count,
                    peer,
                    seed_nodes: event_seed_nodes(nodes, addr),
                    seen_at: now_ts(),
                };
                let reply = response(transaction, node_id, Dict::new());
                PacketOutcome { reply: Some(reply), event: Some(event) }
            },
            None => {
                let reply = response(transaction, node_ids[0], Dict::new());
                PacketOutcome { reply: Some(reply), event: None }
            },
        }
    } else {
        none
    }
}

/// Handles one datagram from `addr`: a response teaches the nodes it lists; a query is
/// answered, and a `get_peers` or `announce_peer` naming an info hash is reported. A
/// datagram that is not bencode fails with the parse error.
pub fn handle_packet(node_ids: &Vec<[u8; 20]>, nodes: &mut NodeTable, addr: &PeerAddr, packet: &[u8]) -> (r: Result<
    PacketOutcome,
    BencodeError,
>)
    requires
        node_ids@.len() > 0,
    ensures
        final(nodes).max_nodes() == old(nodes).max_nodes(),
        match spec_parse(packet@) {
            Err(e) => r == Err::<PacketOutcome, BencodeError>(e) && final(nodes)@ == old(nodes)@,
            Ok(Val::Dict(d)) => r matches Ok(out) && if text_field(d, key_y()) == key_r() {
                silent(out) && final(nodes)@ == learned_nodes(old(nodes)@, old(nodes).max_nodes(), d)
            } else {
                final(nodes)@ == old(nodes)@ && query_outcome(node_ids@, old(nodes)@, *addr, d, out)
            },
            Ok(_) => r matches Ok(out) && silent(out) && final(nodes)@ == old(nodes)@,
        },
{
    let value = match parse(packet) {
        Ok(v) => v,
        Err(e) => {
            return Err(e);
        },
    };
    let dict = match &value {
        Value::Dict(d) => d,
        _ => {
            return Ok(PacketOutcome { reply: None, event: None });
        },
    };
    let y = field_text(dict, key_y_bytes().as_slice());
    if crate::bencode::bytes_eq(y, key_r_bytes().as_slice()) {
        learn_nodes(nodes, dict);
        return Ok(PacketOutcome { reply: None, event: None });
    }
    Ok(answer_query(node_ids, nodes, addr, dict))
}


// ---------------------------------------------------------------- bootstrapping

/// `r` may be the nodes a bootstrap round queries from a listener at `local`: the
/// distinct addresses of its family among a sample of at most `limit` known nodes and
/// the resolved bootstrap addresses, in increasing order.
pub open spec fn bootstrap_set(table: Seq<PeerAddr>, local: PeerAddr, limit: nat, resolved: Seq<PeerAddr>, r: Seq<PeerAddr>) -> bool {
    exists|picked: Seq<PeerAddr>|
        #[trigger] sampled_from(family_of(table, is_v4(local)), limit, picked) && strictly_sorted(r) && forall|x: PeerAddr|
            r.contains(x) <==> (is_v4(x) == is_v4(local) && (picked.contains(x) || resolved.contains(x)))
}

/// The nodes one bootstrap round queries.
pub fn bootstrap_targets(nodes: &NodeTable, local: &PeerAddr, limit: usize, resolved: &Vec<PeerAddr>) -> (r: Vec<PeerAddr>)
    ensures
        bootstrap_set(nodes@, *local, limit as nat, resolved@, r@),
{
    let picked = nodes.sample(local, limit);
    let v4 = is_ipv4(local);
    let mut all: Vec<PeerAddr> = Vec::new();
    let mut i: usize = 0;
    while i < picked.len()
        invariant
            i <= picked@.len(),
            forall|x: PeerAddr| #[trigger] all@.contains(x) <==> (is_v4(x) == v4 && picked@.take(i as int).contains(x)),
        decreases picked.len() - i,
    {
        let a = picked[i];
        proof {
            assert(picked@.take(i + 1) =~= picked@.take(i as int).push(a));
            lemma_push_contains(picked@.take(i as int), a);
            lemma_push_contains(all@, a);
        }
        let ghost before = all@;
        if is_ipv4(&a) == v4 {
            all.push(a);
        }
        proof {
            assert forall|x: PeerAddr| all@.contains(x) <==> (is_v4(x) == v4 && picked@.take(i + 1).contains(x)) by {
                if is_v4(a) == v4 {
                    assert(all@ == before.push(a));
                } else {
                    assert(all@ == before);
                }
            }
        }
        i = i + 1;
    }
    assert(picked@.take(picked@.len() as int) =~= picked@);
    let mut j: usize = 0;
    while j < resolved.len()
        invariant
            j <= resolved@.len(),
            forall|x: PeerAddr|
                #[trigger] all@.contains(x) <==> (is_v4(x) == v4 && (picked@.contains(x) || resolved@.take(j as int).contains(x))),
        decreases resolved.len() - j,
    {
        let a = resolved[j];
        proof {
            assert(resolved@.take(j + 1) =~= resolved@.take(j as int).push(a));
            lemma_push_contains(resolved@.take(j as int), a);
            lemma_push_contains(all@, a);
        }
        let ghost before = all@;
        if is_ipv4(&a) == v4 {
            all.push(a);
        }
        proof {
            assert forall|x: PeerAddr|
                all@.contains(x) <==> (is_v4(x) == v4 && (picked@.contains(x) || resolved@.take(j + 1).contains(x))) by {
                if is_v4(a) == v4 {
                    assert(all@ == before.push(a));
                } else {
                    assert(all@ == before);
                }
            }
        }
        j = j + 1;
    }
    assert(resolved@.take(resolved@.len() as int) =~= resolved@);
    let r = unique(all);
    assert(sampled_from(family_of(nodes@, is_v4(*local)), limit as nat, picked@));
    r
}

/// The encoded `find_node` query a bootstrap round sends next: from the virtual node
/// whose turn it is, for a random target; the turn then passes on.
pub fn bootstrap_request(node_ids: &Vec<[u8; 20]>, node_index: &mut usize) -> (r: Vec<u8>)
    requires
        node_ids@.len() > 0,
    ensures
        *final(node_index) == (if *old(node_index) == usize::MAX {
            0
        } else {
            (*old(node_index) + 1) as usize
        }),
        exists|target: Seq<u8>, tx: Seq<u8>|
            target.len() == 20 && tx.len() == 4 && r@ == #[trigger] enc(
                find_node_message(node_ids@[(*old(node_index) as int) % (node_ids@.len() as int)]@, target, tx),
            ),
{
    let target = random_id();
    let node_id = node_ids[*node_index % node_ids.len()];
    *node_index = if *node_index == usize::MAX {
        0
    } else {
        *node_index + 1
    };
    let r = find_node_request(&node_id, &target);
    r
}

/// Fresh random ids for the virtual nodes of a listener.
pub fn virtual_node_ids(count: usize) -> (r: Vec<[u8; 20]>)
    ensures
        r@.len() == count,
{
    let mut ids: Vec<[u8; 20]> = Vec::new();
    let mut i: usize = 0;
    while i < count
        invariant
            i <= count,
            ids@.len() == i,
        decreases count - i,
    {
        ids.push(random_id());
        i = i + 1;
    }
    ids
}


/// Law: a response we send reads back as the message it encodes.
pub proof fn law_response_reads_back(tx: Seq<u8>, id: Seq<u8>, extra: Seq<(Seq<u8>, Val)>)
    requires
        keys_sorted(extra),
        wf_dict(extra),
        enc(response_message(tx, id, extra)).len() <= usize::MAX,
    ensures
        spec_parse(enc(response_message(tx, id, extra))) == Ok::<Val, BencodeError>(response_message(tx, id, extra)),
{
    lemma_dict_insert_wf(extra, key_id(), Val::Bytes(id));
    let inner = dict_insert(extra, key_id(), Val::Bytes(id));
    let e = seq![(key_r(), Val::Dict(inner)), (key_t(), Val::Bytes(tx)), (key_y(), Val::Bytes(key_r()))];
    assert(lex_lt(e[0].0, e[1].0));
    assert(lex_lt(e[1].0, e[2].0));
    assert(lex_lt(e[0].0, e[2].0));
    assert(keys_sorted(e));
    reveal_with_fuel(wf_dict, 4);
    assert(e.subrange(0, 2) =~= seq![(key_r(), Val::Dict(inner)), (key_t(), Val::Bytes(tx))]);
    assert(e.subrange(0, 2).subrange(0, 1) =~= seq![(key_r(), Val::Dict(inner))]);
    assert(e.subrange(0, 2).subrange(0, 1).subrange(0, 0) =~= Seq::<(Seq<u8>, Val)>::empty());
    assert(wf_dict(e));
    assert(response_message(tx, id, extra) == Val::Dict(e));
    law_parse_encode(response_message(tx, id, extra));
}

/// Law: a `find_node` query we send reads back as the message it encodes.
pub proof fn law_find_node_reads_back(id: Seq<u8>, target: Seq<u8>, tx: Seq<u8>)
    requires
        enc(find_node_message(id, target, tx)).len() <= usize::MAX,
    ensures
        spec_parse(enc(find_node_message(id, target, tx))) == Ok::<Val, BencodeError>(find_node_message(id, target, tx)),
{
    let args = seq![(key_id(), Val::Bytes(id)), (key_target(), Val::Bytes(target))];
    let e = seq![
        (key_a(), Val::Dict(args)),
        (key_q(), Val::Bytes(name_find_node())),
        (key_t(), Val::Bytes(tx)),
        (key_y(), Val::Bytes(key_q())),
    ];
    reveal_with_fuel(wf_dict, 5);
    assert(lex_lt(args[0].0, args[1].0));
    assert(keys_sorted(args));
    assert(args.subrange(0, 1) =~= seq![(key_id(), Val::Bytes(id))]);
    assert(args.subrange(0, 1).subrange(0, 0) =~= Seq::<(Seq<u8>, Val)>::empty());
    assert(wf_dict(args));
    assert(lex_lt(e[0].0, e[1].0));
    assert(lex_lt(e[1].0, e[2].0));
    assert(lex_lt(e[2].0, e[3].0));
    assert(lex_lt(e[0].0, e[2].0));
    assert(lex_lt(e[0].0, e[3].0));
    assert(lex_lt(e[1].0, e[3].0));
    assert(keys_sorted(e));
    assert(e.subrange(0, 3) =~= seq![(key_a(), Val::Dict(args)), (key_q(), Val::Bytes(name_find_node())), (key_t(), Val::Bytes(tx))]);
    assert(e.subrange(0, 3).subrange(0, 2) =~= seq![(key_a(), Val::Dict(args)), (key_q(), Val::Bytes(name_find_node()))]);
    assert(e.subrange(0, 3).subrange(0, 2).subrange(0, 1) =~= seq![(key_a(), Val::Dict(args))]);
    assert(e.subrange(0, 3).subrange(0, 2).subrange(0, 1).subrange(0, 0) =~= Seq::<(Seq<u8>, Val)>::empty());
    assert(wf_dict(e));
    assert(find_node_message(id, target, tx) == Val::Dict(e));
    law_parse_encode(find_node_message(id, target, tx));
}


/// Law: every response names itself a response (`y` is `r`), echoes the transaction id
/// it answers and carries our id among its values.
pub proof fn law_response_echoes_transaction(tx: Seq<u8>, id: Seq<u8>, extra: Seq<(Seq<u8>, Val)>)
    requires
        keys_sorted(extra),
        wf_dict(extra),
    ensures
        response_message(tx, id, extra) matches Val::Dict(d) && bytes_field(d, key_t()) == Some(tx) && bytes_field(d, key_y())
            == Some(key_r()) && (dict_field(d, key_r()) matches Some(r) && bytes_field(r, key_id()) == Some(id)),
{
    let inner = dict_insert(extra, key_id(), Val::Bytes(id));
    let d = seq![(key_r(), Val::Dict(inner)), (key_t(), Val::Bytes(tx)), (key_y(), Val::Bytes(key_r()))];
    assert(key_r() != key_t() && key_r() != key_y() && key_t() != key_y()) by {
        assert(key_r()[0] != key_t()[0] && key_r()[0] != key_y()[0] && key_t()[0] != key_y()[0]);
    }
    assert(d.drop_first() =~= seq![(key_t(), Val::Bytes(tx)), (key_y(), Val::Bytes(key_r()))]);
    assert(d.drop_first().drop_first() =~= seq![(key_y(), Val::Bytes(key_r()))]);
    crate::bencode::laws::law_dict_insert_lookup(extra, key_id(), Val::Bytes(id), key_id());
    reveal_with_fuel(dict_lookup, 4);
    assert(dict_lookup(d, key_r()) == Some(Val::Dict(inner)));
    assert(dict_lookup(d, key_t()) == Some(Val::Bytes(tx)));
    assert(dict_lookup(d, key_y()) == Some(Val::Bytes(key_r())));
    assert(response_message(tx, id, extra) == Val::Dict(d));
}


/// Law: a sample holds as many nodes as the limit allows, all of them known nodes of the
/// asked family, none twice when the table holds none twice.
pub proof fn law_sample_known(table: Seq<PeerAddr>, v4: bool, limit: nat, r: Seq<PeerAddr>)
    requires
        sampled_from(family_of(table, v4), limit, r),
    ensures
        r.len() == (if family_of(table, v4).len() < limit {
            family_of(table, v4).len()
        } else {
            limit
        }),
        forall|i: int| 0 <= i < r.len() ==> table.contains(#[trigger] r[i]) && is_v4(r[i]) == v4,
        table.no_duplicates() ==> r.no_duplicates(),
{
    let fam = family_of(table, v4);
    lemma_family_of(table, v4);
    if fam.len() > limit {
        let start = choose|start: int| 0 <= start < fam.len() && r == #[trigger] rotation(fam, start, limit);
        assert forall|i: int| 0 <= i < r.len() implies table.contains(#[trigger] r[i]) && is_v4(r[i]) == v4 by {
            assert(r[i] == fam[wrap(start + i, fam.len() as int)]);
        }
        if table.no_duplicates() {
            assert forall|i: int, j: int| 0 <= i < j < r.len() implies r[i] != r[j] by {
                let a = wrap(start + i, fam.len() as int);
                let b = wrap(start + j, fam.len() as int);
                assert(a != b);
                assert(r[i] == fam[a] && r[j] == fam[b]);
            }
        }
    }
}

proof fn lemma_family_of(s: Seq<PeerAddr>, v4: bool)
    ensures
        forall|i: int| 0 <= i < family_of(s, v4).len() ==> s.contains(#[trigger] family_of(s, v4)[i]) && is_v4(family_of(s, v4)[i]) == v4,
        s.no_duplicates() ==> family_of(s, v4).no_duplicates(),
        family_of(s, v4).len() <= s.len(),
    decreases s.len(),
{
    if s.len() > 0 {
        let t = s.drop_last();
        lemma_family_of(t, v4);
        let r = family_of(t, v4);
        let f = family_of(s, v4);
        assert forall|i: int| 0 <= i < f.len() implies s.contains(#[trigger] f[i]) && is_v4(f[i]) == v4 by {
            if i < r.len() {
                assert(f[i] == r[i]);
                let k = choose|k: int| 0 <= k < t.len() && t[k] == r[i];
                assert(s[k] == r[i]);
            } else {
                assert(s[s.len() - 1] == f[i]);
            }
        }
        if s.no_duplicates() {
            assert(t.no_duplicates()) by {
                assert forall|i: int, j: int| 0 <= i < j < t.len() implies t[i] != t[j] by {
                    assert(s[i] == t[i] && s[j] == t[j]);
                }
            }
            assert forall|i: int, j: int| 0 <= i < j < f.len() implies f[i] != f[j] by {
                if j == r.len() {
                    assert(f[i] == r[i] && f[j] == s.last());
                    let k = choose|k: int| 0 <= k < t.len() && t[k] == r[i];
                    assert(s[k] == t[k]);
                } else {
                    assert(f[i] == r[i] && f[j] == r[j]);
                }
            }
        }
    }
}


proof fn lemma_first_closest_prefix(ids: Seq<[u8; 20]>, target: Seq<u8>, n: int) -> (k: int)
    requires
        1 <= n <= ids.len(),
    ensures
        0 <= k < n,
        forall|j: int| 0 <= j < n ==> !lex_lt(#[trigger] id_distance(ids[j], target), id_distance(ids[k], target)),
        forall|j: int| 0 <= j < k ==> lex_lt(id_distance(ids[k], target), #[trigger] id_distance(ids[j], target)),
    decreases n,
{
    if n == 1 {
        lemma_lex_lt_irrefl(id_distance(ids[0], target));
        0
    } else {
        let k0 = lemma_first_closest_prefix(ids, target, n - 1);
        let last = n - 1;
        let dl = id_distance(ids[last], target);
        let dk = id_distance(ids[k0], target);
        if lex_lt(dl, dk) {
            assert forall|j: int| 0 <= j < n implies !lex_lt(#[trigger] id_distance(ids[j], target), dl) by {
                if j == last {
                    lemma_lex_lt_irrefl(dl);
                } else if lex_lt(id_distance(ids[j], target), dl) {
                    lemma_lex_lt_trans(id_distance(ids[j], target), dl, dk);
                }
            }
            assert forall|j: int| 0 <= j < last implies lex_lt(dl, #[trigger] id_distance(ids[j], target)) by {
                let dj = id_distance(ids[j], target);
                lemma_lex_lt_total(dj, dl);
                if dj == dl {
                    assert(lex_lt(dj, dk));
                }
            }
            last
        } else {
            k0
        }
    }
}

/// Law: a `get_peers` query that names a 20-byte info hash is answered under a virtual
/// node id nearest to that hash by XOR distance (and the first such id of the list).
pub proof fn law_get_peers_nearest_id(
    ids: Seq<[u8; 20]>,
    table: Seq<PeerAddr>,
    addr: PeerAddr,
    d: Seq<(Seq<u8>, Val)>,
    args: Seq<(Seq<u8>, Val)>,
    hash: Seq<u8>,
    out: PacketOutcome,
)
    requires
        ids.len() > 0,
        query_outcome(ids, table, addr, d, out),
        text_field(d, seq![121u8]) == seq![113u8],
        text_field(d, seq![113u8]) == seq![103u8, 101, 116, 95, 112, 101, 101, 114, 115],
        dict_field(d, seq![97u8]) == Some(args),
        bytes_field(args, seq![105u8, 110, 102, 111, 95, 104, 97, 115, 104]) == Some(hash),
        hash.len() == 20,
    ensures
        exists|k: int, nb: Seq<u8>|
            0 <= k < ids.len() && (forall|j: int|
                0 <= j < ids.len() ==> !lex_lt(
                    #[trigger] xor_seq(ids[j]@, hash),
                    xor_seq(ids[k]@, hash),
                )) && (forall|j: int| 0 <= j < k ==> lex_lt(xor_seq(ids[k]@, hash), #[trigger] xor_seq(ids[j]@, hash)))
                && #[trigger] reply_is(
                out,
                response_message(text_field(d, seq![116u8]), ids[k]@, peers_extra(nb)),
            ),
{
    assert(key_y() == seq![121u8]);
    assert(key_q() == seq![113u8]);
    assert(key_a() == seq![97u8]);
    assert(key_t() == seq![116u8]);
    assert(key_info_hash() == seq![105u8, 110, 102, 111, 95, 104, 97, 115, 104]);
    assert(name_get_peers() == seq![103u8, 101, 116, 95, 112, 101, 101, 114, 115]);
    assert(name_ping() != name_get_peers());
    assert(name_find_node() != name_get_peers());
    let k = lemma_first_closest_prefix(ids, hash, ids.len() as int);
    assert(first_closest(ids, hash, k));
    lemma_first_closest_unique(ids, hash, k);
    assert(hash_field(args, key_info_hash()) == Some(hash));
    let nb = choose|nb: Seq<u8>|
        compact_sample(table, addr, 8, nb) && #[trigger] reply_is(
            out,
            response_message(text_field(d, key_t()), answering_id(ids, Some(hash)), peers_extra(nb)),
        );
    assert forall|j: int| 0 <= j < ids.len() implies !lex_lt(#[trigger] xor_seq(ids[j]@, hash), xor_seq(ids[k]@, hash)) by {
        assert(id_distance(ids[j], hash) == xor_seq(ids[j]@, hash));
    }
    assert forall|j: int| 0 <= j < k implies lex_lt(xor_seq(ids[k]@, hash), #[trigger] xor_seq(ids[j]@, hash)) by {
        assert(id_distance(ids[j], hash) == xor_seq(ids[j]@, hash));
    }
    assert(reply_is(out, response_message(text_field(d, seq![116u8]), ids[k]@, peers_extra(nb))));
}


/// Law: a `find_node` query that names a 20-byte target is answered under a virtual node
/// id nearest to that target by XOR distance (and the first such id of the list).
pub proof fn law_find_node_nearest_id(
    ids: Seq<[u8; 20]>,
    table: Seq<PeerAddr>,
    addr: PeerAddr,
    d: Seq<(Seq<u8>, Val)>,
    args: Seq<(Seq<u8>, Val)>,
    target: Seq<u8>,
    out: PacketOutcome,
)
    requires
        ids.len() > 0,
        query_outcome(ids, table, addr, d, out),
        text_field(d, seq![121u8]) == seq![113u8],
        text_field(d, seq![113u8]) == seq![102u8, 105, 110, 100, 95, 110, 111, 100, 101],
        dict_field(d, seq![97u8]) == Some(args),
        bytes_field(args, seq![116u8, 97, 114, 103, 101, 116]) == Some(target),
        target.len() == 20,
    ensures
        exists|k: int, nb: Seq<u8>|
            0 <= k < ids.len() && (forall|j: int|
                0 <= j < ids.len() ==> !lex_lt(
                    #[trigger] xor_seq(ids[j]@, target),
                    xor_seq(ids[k]@, target),
                )) && (forall|j: int| 0 <= j < k ==> lex_lt(xor_seq(ids[k]@, target), #[trigger] xor_seq(ids[j]@, target)))
                && #[trigger] reply_is(
                out,
                response_message(text_field(d, seq![116u8]), ids[k]@, nodes_extra(nb)),
            ),
{
    assert(key_y() == seq![121u8]);
    assert(key_q() == seq![113u8]);
    assert(key_a() == seq![97u8]);
    assert(key_t() == seq![116u8]);
    assert(key_target() == seq![116u8, 97, 114, 103, 101, 116]);
    assert(name_find_node() == seq![102u8, 105, 110, 100, 95, 110, 111, 100, 101]);
    assert(name_ping() != name_find_node());
    let k = lemma_first_closest_prefix(ids, target, ids.len() as int);
    assert(first_closest(ids, target, k));
    lemma_first_closest_unique(ids, target, k);
    assert(hash_field(args, key_target()) == Some(target));
    let nb = choose|nb: Seq<u8>|
        compact_sample(table, addr, 8, nb) && #[trigger] reply_is(
            out,
            response_message(text_field(d, key_t()), answering_id(ids, Some(target)), nodes_extra(nb)),
        );
    assert forall|j: int| 0 <= j < ids.len() implies !lex_lt(#[trigger] xor_seq(ids[j]@, target), xor_seq(ids[k]@, target)) by {
        assert(id_distance(ids[j], target) == xor_seq(ids[j]@, target));
    }
    assert forall|j: int| 0 <= j < k implies lex_lt(xor_seq(ids[k]@, target), #[trigger] xor_seq(ids[j]@, target)) by {
        assert(id_distance(ids[j], target) == xor_seq(ids[j]@, target));
    }
    assert(reply_is(out, response_message(text_field(d, seq![116u8]), ids[k]@, nodes_extra(nb))));
}

} // verus!
