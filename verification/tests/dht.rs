use dht_lens::bencode::{as_bytes, as_int, dict_get, encode, parse, BencodeError, Dict, Value};
use dht_lens::dht::{
    announce_peer_addr, bootstrap_request, bootstrap_targets, closest_node_id, event_seed_nodes, find_node_request,
    handle_packet, is_global_address, is_public_v4, is_public_v6, parse_compact_nodes, parse_compact_nodes6,
    response, rotate_take, seed_nodes_from, to_hash, unique, virtual_node_ids, xor_distance, NodeTable, PeerAddr,
};
use dht_lens::model::Source;

fn v4(a: u8, b: u8, c: u8, d: u8, port: u16) -> PeerAddr {
    PeerAddr::V4(u32::from_be_bytes([a, b, c, d]), port)
}

fn dict_of(entries: Vec<(&[u8], Value)>) -> Dict {
    let mut d = Dict::new();
    for (k, v) in entries {
        d.insert(k.to_vec(), v);
    }
    d
}

fn dict(entries: Vec<(&[u8], Value)>) -> Value {
    Value::Dict(dict_of(entries))
}

fn bytes(b: &[u8]) -> Value {
    Value::Bytes(b.to_vec())
}

fn enc(v: &Value) -> Vec<u8> {
    let mut out = Vec::new();
    encode(v, &mut out);
    out
}

fn compact_entry(ip: [u8; 4], port: u16) -> Vec<u8> {
    let mut e = vec![7u8; 20];
    e.extend_from_slice(&ip);
    e.extend_from_slice(&port.to_be_bytes());
    e
}

#[test]
fn to_hash_takes_exactly_twenty_bytes() {
    let b: Vec<u8> = (0u8..20).collect();
    let h = to_hash(&b).expect("20 bytes");
    assert_eq!(h.to_vec(), b);
    assert!(to_hash(&b[..19]).is_none());
    assert!(to_hash(&[0u8; 21]).is_none());
}

#[test]
fn xor_distance_is_bytewise() {
    let mut a = [0u8; 20];
    let mut b = [0u8; 20];
    a[0] = 0b1100;
    b[0] = 0b1010;
    a[19] = 0xff;
    let d = xor_distance(&a, &b);
    assert_eq!(d[0], 0b0110);
    assert_eq!(d[19], 0xff);
    assert_eq!(&d[1..19], &[0u8; 18]);
}

#[test]
fn closest_node_id_takes_the_first_nearest() {
    let target = [0u8; 20];
    let mut far = [0u8; 20];
    far[0] = 0x80;
    let mut near = [0u8; 20];
    near[19] = 1;
    let ids = vec![far, near, near];
    assert_eq!(closest_node_id(&ids, &target), near);
    let exact = [0u8; 20];
    assert_eq!(closest_node_id(&[far, exact, near], &target), exact);
    assert_eq!(closest_node_id(&[], &target).len(), 20);
}

#[test]
fn compact_nodes_skip_port_zero_and_short_tails() {
    let mut b = compact_entry([1, 2, 3, 4], 6881);
    b.extend(compact_entry([5, 6, 7, 8], 0));
    b.extend(compact_entry([9, 9, 9, 9], 1));
    b.extend_from_slice(&[1, 2, 3]);
    assert_eq!(parse_compact_nodes(&b), vec![v4(1, 2, 3, 4, 6881), v4(9, 9, 9, 9, 1)]);

    let mut b6 = vec![0u8; 20];
    let ip: [u8; 16] = [0x20, 0x01, 0x0d, 0xb8, 0, 0, 0, 0, 0, 0, 0, 0, 0, 0, 0, 1];
    b6.extend_from_slice(&ip);
    b6.extend_from_slice(&443u16.to_be_bytes());
    assert_eq!(parse_compact_nodes6(&b6), vec![PeerAddr::V6(u128::from_be_bytes(ip), 443, 0, 0)]);
    assert!(parse_compact_nodes6(&b6[..37]).is_empty());
}

#[test]
fn public_addresses() {
    assert!(is_public_v4(u32::from_be_bytes([8, 8, 8, 8])));
    for ip in [[0, 0, 0, 0], [127, 0, 0, 1], [10, 1, 2, 3], [172, 16, 0, 1], [172, 31, 255, 255], [192, 168, 1, 1], [169, 254, 0, 1], [224, 0, 0, 1], [255, 255, 255, 255]] {
        assert!(!is_public_v4(u32::from_be_bytes(ip)), "{ip:?}");
    }
    assert!(is_public_v4(u32::from_be_bytes([172, 32, 0, 1])));
    assert!(is_public_v6(0x2001_4860_4860_0000_0000_0000_0000_8888));
    for ip in [0u128, 1, 0xfe80 << 112, 0xfc00 << 112, 0xfd12 << 112, 0xff02 << 112] {
        assert!(!is_public_v6(ip), "{ip:x}");
    }
    assert!(is_global_address(&v4(1, 1, 1, 1, 80)));
    assert!(!is_global_address(&PeerAddr::V6(1, 80, 0, 0)));
}

fn all_v4(t: &NodeTable) -> Vec<PeerAddr> {
    t.sample(&v4(1, 1, 1, 1, 1), usize::MAX)
}

#[test]
fn node_table_moves_seen_nodes_back_and_drops_the_oldest() {
    let mut t = NodeTable::new(3);
    t.add(v4(1, 0, 0, 1, 1));
    t.add(v4(1, 0, 0, 2, 1));
    t.add(v4(1, 0, 0, 1, 1));
    assert_eq!(all_v4(&t), vec![v4(1, 0, 0, 2, 1), v4(1, 0, 0, 1, 1)]);
    t.add(v4(1, 0, 0, 3, 1));
    t.add(v4(1, 0, 0, 4, 1));
    assert_eq!(t.len(), 3);
    assert_eq!(all_v4(&t), vec![v4(1, 0, 0, 1, 1), v4(1, 0, 0, 3, 1), v4(1, 0, 0, 4, 1)]);
    t.add(v4(1, 0, 0, 5, 0));
    t.add(v4(0, 0, 0, 0, 5));
    t.add(PeerAddr::V6(0, 5, 0, 0));
    assert_eq!(t.len(), 3);
    t.add_many(&vec![v4(1, 0, 0, 3, 1), PeerAddr::V6(7, 7, 0, 0)]);
    assert_eq!(all_v4(&t), vec![v4(1, 0, 0, 4, 1), v4(1, 0, 0, 3, 1)]);
    assert_eq!(t.sample(&PeerAddr::V6(1, 1, 0, 0), 10), vec![PeerAddr::V6(7, 7, 0, 0)]);
}

#[test]
fn node_table_with_no_room_keeps_nothing() {
    let mut t = NodeTable::new(0);
    t.add(v4(8, 8, 8, 8, 53));
    assert_eq!(t.len(), 0);
}

#[test]
fn sampling_goes_round_from_a_start() {
    let items: Vec<PeerAddr> = (1..=5).map(|i| v4(1, 0, 0, i, 1)).collect();
    assert_eq!(rotate_take(&items, 3, 4), vec![items[3], items[4], items[0], items[1]]);
    let mut t = NodeTable::new(10);
    t.add_many(&items);
    let s = t.sample(&v4(9, 9, 9, 9, 9), 2);
    assert_eq!(s.len(), 2);
    let start = items.iter().position(|x| *x == s[0]).unwrap();
    assert_eq!(s[1], items[(start + 1) % 5]);
}

#[test]
fn compact_nodes_read_back_as_the_sampled_nodes() {
    let mut t = NodeTable::new(10);
    t.add_many(&vec![v4(1, 2, 3, 4, 6881), v4(5, 6, 7, 8, 51413), PeerAddr::V6(9, 9, 0, 0)]);
    let c = t.compact_nodes(&v4(1, 1, 1, 1, 1), 8);
    assert_eq!(c.len(), 52);
    assert_eq!(parse_compact_nodes(&c), vec![v4(1, 2, 3, 4, 6881), v4(5, 6, 7, 8, 51413)]);
    assert!(t.compact_nodes(&PeerAddr::V6(1, 1, 0, 0), 8).is_empty());
}

#[test]
fn unique_sorts_and_removes_repeats() {
    let a = v4(2, 0, 0, 0, 1);
    let b = v4(1, 0, 0, 0, 9);
    let c = v4(1, 0, 0, 0, 2);
    let d = PeerAddr::V6(0, 1, 0, 0);
    assert_eq!(unique(vec![d, a, b, a, c, b]), vec![c, b, a, d]);
}

#[test]
fn seed_nodes_keep_global_ipv4_addresses() {
    let sampled = vec![v4(8, 8, 8, 8, 1), v4(10, 0, 0, 1, 1), PeerAddr::V6(0x2001 << 112, 1, 0, 0), v4(8, 8, 8, 8, 1)];
    assert_eq!(seed_nodes_from(&sampled, &v4(1, 1, 1, 1, 2)), vec![v4(1, 1, 1, 1, 2), v4(8, 8, 8, 8, 1)]);
    assert_eq!(seed_nodes_from(&sampled, &v4(192, 168, 0, 1, 2)), vec![v4(8, 8, 8, 8, 1)]);
    let mut t = NodeTable::new(10);
    t.add(v4(9, 9, 9, 9, 9));
    assert_eq!(event_seed_nodes(&t, &v4(1, 1, 1, 1, 2)), vec![v4(1, 1, 1, 1, 2), v4(9, 9, 9, 9, 9)]);
}

#[test]
fn find_node_request_reads_back() {
    let id = [1u8; 20];
    let target = [2u8; 20];
    let req = find_node_request(&id, &target);
    let Value::Dict(d) = parse(&req).unwrap() else { panic!("dict") };
    assert_eq!(d.entries().iter().map(|(k, _)| k.clone()).collect::<Vec<_>>(), vec![b"a".to_vec(), b"q".to_vec(), b"t".to_vec(), b"y".to_vec()]);
    assert_eq!(dict_get(&d, b"y").and_then(as_bytes), Some(&b"q"[..]));
    assert_eq!(dict_get(&d, b"q").and_then(as_bytes), Some(&b"find_node"[..]));
    assert_eq!(dict_get(&d, b"t").and_then(as_bytes).map(|t| t.len()), Some(4));
    let Some(Value::Dict(a)) = dict_get(&d, b"a") else { panic!("args") };
    assert_eq!(dict_get(a, b"id").and_then(as_bytes), Some(&id[..]));
    assert_eq!(dict_get(a, b"target").and_then(as_bytes), Some(&target[..]));
}

#[test]
fn response_text_is_exact() {
    let id = [b'x'; 20];
    let r = response(b"aa", id, dict_of(vec![(b"token", bytes(b"k"))]));
    let mut expected = b"d1:rd2:id20:".to_vec();
    expected.extend_from_slice(&id);
    expected.extend_from_slice(b"5:token1:ke1:t2:aa1:y1:re");
    assert_eq!(r, expected);
}

fn args(entries: Vec<(&[u8], Value)>) -> Dict {
    dict_of(entries)
}

#[test]
fn announced_peers() {
    let from = v4(8, 8, 4, 4, 1000);
    assert_eq!(announce_peer_addr(&args(vec![(b"implied_port", Value::Int(1)), (b"port", Value::Int(5))]), &from), Some(v4(8, 8, 4, 4, 1000)));
    assert_eq!(announce_peer_addr(&args(vec![(b"implied_port", Value::Int(0)), (b"port", Value::Int(6881))]), &from), Some(v4(8, 8, 4, 4, 6881)));
    assert_eq!(announce_peer_addr(&args(vec![(b"port", Value::Int(0))]), &from), None);
    assert_eq!(announce_peer_addr(&args(vec![(b"port", Value::Int(70000))]), &from), None);
    assert_eq!(announce_peer_addr(&args(vec![(b"port", Value::Int(-1))]), &from), None);
    assert_eq!(announce_peer_addr(&args(vec![]), &from), None);
    assert_eq!(announce_peer_addr(&args(vec![(b"port", Value::Int(80))]), &v4(10, 0, 0, 1, 1)), None);
}

fn query(q: &[u8], a: Vec<(&[u8], Value)>) -> Vec<u8> {
    enc(&dict(vec![(b"a", dict(a)), (b"q", bytes(q)), (b"t", bytes(b"tx")), (b"y", bytes(b"q"))]))
}

#[test]
fn ping_is_answered_with_the_first_id() {
    let ids = vec![[3u8; 20], [4u8; 20]];
    let mut t = NodeTable::new(10);
    let from = v4(8, 8, 8, 8, 1);
    let out = handle_packet(&ids, &mut t, &from, &query(b"ping", vec![(b"id", bytes(&[9u8; 20]))])).unwrap();
    assert!(out.event.is_none());
    assert_eq!(out.reply.unwrap(), response(b"tx", ids[0], Dict::new()));
}

#[test]
fn find_node_is_answered_by_the_nearest_id_with_nodes() {
    let ids = vec![[0xf0u8; 20], [0x01u8; 20]];
    let mut t = NodeTable::new(10);
    t.add(v4(1, 2, 3, 4, 5));
    let from = v4(8, 8, 8, 8, 1);
    let out = handle_packet(&ids, &mut t, &from, &query(b"find_node", vec![(b"target", bytes(&[0u8; 20]))])).unwrap();
    assert!(out.event.is_none());
    let reply = parse(&out.reply.unwrap()).unwrap();
    let Value::Dict(d) = reply else { panic!() };
    let Some(Value::Dict(r)) = dict_get(&d, b"r") else { panic!() };
    assert_eq!(dict_get(r, b"id").and_then(as_bytes), Some(&[0x01u8; 20][..]));
    let nodes = dict_get(r, b"nodes").and_then(as_bytes).unwrap();
    assert_eq!(parse_compact_nodes(nodes), vec![v4(1, 2, 3, 4, 5)]);
    assert_eq!(dict_get(&d, b"t").and_then(as_bytes), Some(&b"tx"[..]));
}

#[test]
fn get_peers_reports_the_hash() {
    let ids = vec![[5u8; 20]];
    let mut t = NodeTable::new(10);
    let from = v4(8, 8, 8, 8, 1);
    let hash = [0xabu8; 20];
    let out = handle_packet(&ids, &mut t, &from, &query(b"get_peers", vec![(b"info_hash", bytes(&hash))])).unwrap();
    let ev = out.event.expect("event");
    assert_eq!(ev.info_hash, hash);
    assert_eq!(ev.source, Source::DhtGetPeers);
    assert_eq!(ev.peer_count, 0);
    assert_eq!(ev.peer, None);
    assert_eq!(ev.seed_nodes, vec![from]);
    let Value::Dict(d) = parse(&out.reply.unwrap()).unwrap() else { panic!() };
    let Some(Value::Dict(r)) = dict_get(&d, b"r") else { panic!() };
    assert_eq!(dict_get(r, b"token").and_then(as_bytes), Some(&b"dht-lens"[..]));
    let bad = handle_packet(&ids, &mut t, &from, &query(b"get_peers", vec![(b"info_hash", bytes(&hash[..5]))])).unwrap();
    assert!(bad.event.is_none());
    assert!(bad.reply.is_some());
}

#[test]
fn announce_peer_reports_the_peer() {
    let ids = vec![[5u8; 20]];
    let mut t = NodeTable::new(10);
    let from = v4(8, 8, 8, 8, 1);
    let hash = [0x11u8; 20];
    let out = handle_packet(&ids, &mut t, &from, &query(b"announce_peer", vec![(b"info_hash", bytes(&hash)), (b"port", Value::Int(6881))])).unwrap();
    let ev = out.event.expect("event");
    assert_eq!(ev.source, Source::DhtAnnouncePeer);
    assert_eq!(ev.peer, Some(v4(8, 8, 8, 8, 6881)));
    assert_eq!(ev.peer_count, 1);
    assert_eq!(out.reply.unwrap(), response(b"tx", ids[0], Dict::new()));
}

#[test]
fn responses_teach_nodes_and_other_packets_are_ignored() {
    let ids = vec![[5u8; 20]];
    let mut t = NodeTable::new(10);
    let from = v4(8, 8, 8, 8, 1);
    let mut nodes = compact_entry([1, 2, 3, 4], 10);
    nodes.extend(compact_entry([1, 2, 3, 5], 0));
    let resp = enc(&dict(vec![(b"r", dict(vec![(b"id", bytes(&[1u8; 20])), (b"nodes", Value::Bytes(nodes))])), (b"t", bytes(b"x")), (b"y", bytes(b"r"))]));
    let out = handle_packet(&ids, &mut t, &from, &resp).unwrap();
    assert!(out.reply.is_none() && out.event.is_none());
    assert_eq!(all_v4(&t), vec![v4(1, 2, 3, 4, 10)]);

    let err = handle_packet(&ids, &mut t, &from, b"d1:ae");
    assert!(err.is_err());
    let trailing = handle_packet(&ids, &mut t, &from, b"dei1e");
    assert!(matches!(trailing, Err(BencodeError::TrailingBytes)));
    let list = handle_packet(&ids, &mut t, &from, b"le").unwrap();
    assert!(list.reply.is_none() && list.event.is_none());
    let unknown = handle_packet(&ids, &mut t, &from, &query(b"vote", vec![])).unwrap();
    assert!(unknown.reply.is_none() && unknown.event.is_none());
}

#[test]
fn bootstrap_requests_take_turns() {
    let ids = vec![[1u8; 20], [2u8; 20]];
    let mut index = usize::MAX;
    let req = bootstrap_request(&ids, &mut index);
    assert_eq!(index, 0);
    let Value::Dict(d) = parse(&req).unwrap() else { panic!() };
    let Some(Value::Dict(a)) = dict_get(&d, b"a") else { panic!() };
    assert_eq!(dict_get(a, b"id").and_then(as_bytes), Some(&ids[usize::MAX % 2][..]));
    let _ = bootstrap_request(&ids, &mut index);
    assert_eq!(index, 1);
    assert_eq!(virtual_node_ids(3).len(), 3);
}

#[test]
fn bootstrap_targets_keep_the_listener_family() {
    let mut t = NodeTable::new(10);
    t.add(v4(1, 1, 1, 1, 1));
    let resolved = vec![v4(2, 2, 2, 2, 2), PeerAddr::V6(5, 5, 0, 0), v4(1, 1, 1, 1, 1)];
    assert_eq!(bootstrap_targets(&t, &v4(0, 0, 0, 0, 6881), 8, &resolved), vec![v4(1, 1, 1, 1, 1), v4(2, 2, 2, 2, 2)]);
    assert_eq!(bootstrap_targets(&t, &PeerAddr::V6(0, 6881, 0, 0), 8, &resolved), vec![PeerAddr::V6(5, 5, 0, 0)]);
    let _ = as_int;
}

#[test]
fn seeing_a_node_twice_is_seeing_it_once() {
    let mut once = NodeTable::new(2);
    once.add_many(&vec![v4(1, 0, 0, 1, 1), v4(1, 0, 0, 2, 1)]);
    let mut twice = NodeTable::new(2);
    twice.add_many(&vec![v4(1, 0, 0, 1, 1), v4(1, 0, 0, 2, 1), v4(1, 0, 0, 2, 1)]);
    assert_eq!(all_v4(&once), all_v4(&twice));
    twice.add(v4(1, 0, 0, 1, 1));
    assert_eq!(all_v4(&twice).last(), Some(&v4(1, 0, 0, 1, 1)));
}

#[test]
fn responses_read_back_and_our_id_replaces_theirs() {
    let id = [9u8; 20];
    let r = response(b"tt", id, dict_of(vec![(b"id", bytes(b"other")), (b"nodes", bytes(b""))]));
    let Value::Dict(d) = parse(&r).unwrap() else { panic!() };
    assert_eq!(dict_get(&d, b"t").and_then(as_bytes), Some(&b"tt"[..]));
    assert_eq!(dict_get(&d, b"y").and_then(as_bytes), Some(&b"r"[..]));
    let Some(Value::Dict(inner)) = dict_get(&d, b"r") else { panic!() };
    assert_eq!(inner.entries().len(), 2);
    assert_eq!(dict_get(inner, b"id").and_then(as_bytes), Some(&id[..]));
    assert_eq!(enc(&Value::Dict(d)), r);
}

#[test]
fn seeing_a_node_again_keeps_the_others_in_order() {
    let mut t = NodeTable::new(5);
    for n in 1..=4 {
        t.add(v4(1, 0, 0, n, 1));
    }
    t.add(v4(1, 0, 0, 2, 1));
    assert_eq!(all_v4(&t), vec![v4(1, 0, 0, 1, 1), v4(1, 0, 0, 3, 1), v4(1, 0, 0, 4, 1), v4(1, 0, 0, 2, 1)]);
}

#[test]
fn ipv6_addresses_keep_flow_and_scope() {
    let ip = (0x2400u128 << 112) | 1;
    let mut t = NodeTable::new(10);
    t.add(PeerAddr::V6(ip, 80, 0, 1));
    t.add(PeerAddr::V6(ip, 80, 0, 2));
    assert_eq!(t.len(), 2);
    assert_eq!(unique(vec![PeerAddr::V6(ip, 80, 0, 2), PeerAddr::V6(ip, 80, 0, 1)]), vec![PeerAddr::V6(ip, 80, 0, 1), PeerAddr::V6(ip, 80, 0, 2)]);
    let from = PeerAddr::V6(ip, 1000, 7, 3);
    assert_eq!(announce_peer_addr(&args(vec![(b"port", Value::Int(5))]), &from), Some(PeerAddr::V6(ip, 5, 0, 0)));
}
