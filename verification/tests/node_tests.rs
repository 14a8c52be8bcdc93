use dht_node::data::{Data, FileMetadata};
use dht_node::key::Key;
use dht_node::node::{
    derive_request, ping_reply, reply_envelope, Client, DhtKind, DHTMessage,
};
use dht_node::wire::{create_empty_peer_record, Message, MsgType};

fn b(s: &str) -> Vec<u8> {
    s.as_bytes().to_vec()
}

fn d(id: u32, bytes: &str, filename: &str) -> Data {
    Data { id, vec: b(bytes), file_meta: FileMetadata { filename: b(filename) } }
}

fn peer(k: u32, addr: &str) -> (Key, Vec<u8>) {
    (Key { key: k }, b(addr))
}

fn regular_node(port: &str) -> Client {
    Client::new(b("127.0.0.1"), b(port))
}

fn insert_dht(sender: (Key, Vec<u8>), name: &str, key: u32, data: Data) -> DHTMessage {
    DHTMessage {
        type_of: DhtKind::Insert,
        sending_node: sender,
        key: (Key { key: 0 }, b(name)),
        keys: Vec::new(),
        data: (Key { key }, data),
        providers: Vec::new(),
        name: b(name),
    }
}

fn routing_contains(c: &Client, k: u32, addr: &str) -> bool {
    let (peers, _, _) = c.dump_state();
    peers.iter().any(|e| e.0.key == k && e.1 == b(addr))
}

#[test]
fn distance_is_symmetric_and_zero_on_self() {
    let a = Key { key: 0xdead_beef };
    let c = Key { key: 0x1234_5678 };
    assert_eq!(a.distance(c), c.distance(a));
    assert_eq!(a.distance(a), 0);
    assert_eq!(c.distance(c), 0);
    assert_eq!(Key { key: 0b1100 }.distance(Key { key: 0b1010 }), 0b0110);
}

#[test]
fn fingerprint_is_deterministic() {
    let k1 = Key::generate_hash_from_data(b"doc".as_slice());
    let k2 = Key::generate_hash_from_data(b"doc".as_slice());
    assert_eq!(k1.key, k2.key);
}

#[test]
fn bootnode_takes_reserved_key_and_empty_table() {
    let c = Client::new(b("127.0.0.1"), b("12345"));
    assert_eq!(c.key.key, 1);
    let (peers, records, providers) = c.dump_state();
    assert!(peers.is_empty());
    assert!(records.is_empty());
    assert!(providers.is_empty());
}

#[test]
fn regular_node_starts_with_bootstrap_peer() {
    let c = regular_node("4001");
    assert!(routing_contains(&c, 1, "127.0.0.1:12345"));
}

#[test]
fn bootstrap_fills_routing_with_bootstrap_node() {
    // the well-known peer is queried, and its reply is merged: afterwards
    // the routing table still maps the bootstrap key to its address
    let mut c = regular_node("4002");
    let reqs = c.bootstrap_requests();
    assert_eq!(reqs.len(), 1);
    assert_eq!(reqs[0].type_of, MsgType::PeersI);
    assert_eq!(reqs[0].to.1, b("127.0.0.1:12345"));
    let reply_keys = vec![peer(50, "127.0.0.1:5050"), peer(1, "127.0.0.1:12345"), (c.key, b("me"))];
    c.merge_peers(&reply_keys);
    assert!(routing_contains(&c, 1, "127.0.0.1:12345"));
    assert!(routing_contains(&c, 50, "127.0.0.1:5050"));
    // a node never records itself
    let (peers, _, _) = c.dump_state();
    assert!(!peers.iter().any(|e| e.0 == c.key));
}

#[test]
fn merge_peers_keeps_first_recorded_address() {
    let mut c = regular_node("4003");
    c.merge_peers(&vec![peer(9, "127.0.0.1:9000")]);
    c.merge_peers(&vec![peer(9, "127.0.0.1:9999")]);
    assert!(routing_contains(&c, 9, "127.0.0.1:9000"));
    assert!(!routing_contains(&c, 9, "127.0.0.1:9999"));
}

#[test]
fn k_closest_is_sorted_and_bounded() {
    let mut c = regular_node("4004");
    let mut records = Vec::new();
    for i in 0..30u32 {
        records.push(peer(i * 7 + 2, &format!("127.0.0.1:{}", 6000 + i)));
    }
    c.merge_peers(&records);
    let target = Key { key: 100 };
    let closest = c.find_k_closest_computers(&target);
    assert_eq!(closest.len(), 20);
    for w in closest.windows(2) {
        assert!(w[0].0.distance(target) <= w[1].0.distance(target));
    }
    for e in &closest {
        assert!(routing_contains(&c, e.0.key, std::str::from_utf8(&e.1).unwrap()));
    }
    for i in 0..closest.len() {
        for j in i + 1..closest.len() {
            assert_ne!(closest[i].0, closest[j].0);
        }
    }
    // the selection holds exactly the 20 nearest known identifiers
    let (peers, _, _) = c.dump_state();
    let mut dists: Vec<u32> = peers.iter().map(|e| e.0.distance(target)).collect();
    dists.sort();
    let worst_selected = closest.last().unwrap().0.distance(target);
    assert_eq!(worst_selected, dists[19]);
    for e in &peers {
        if !closest.iter().any(|x| x.0 == e.0) {
            assert!(e.0.distance(target) >= worst_selected);
        }
    }
}

#[test]
fn k_closest_returns_fewer_when_table_is_small() {
    let mut c = regular_node("4005");
    c.merge_peers(&vec![peer(8, "127.0.0.1:8000")]);
    let closest = c.find_k_closest_computers(&Key { key: 8 });
    // the bootstrap seed and the merged peer
    assert_eq!(closest.len(), 2);
    assert_eq!(closest[0].0.key, 8);
}

#[test]
fn handle_insert_stores_record_and_provider() {
    let mut c = regular_node("4006");
    let r = c.handle_message(&insert_dht(peer(77, "127.0.0.1:7700"), "doc", 555, d(1, "hello", "doc")));
    assert!(r.is_none());
    let (peers, records, providers) = c.dump_state();
    assert!(peers.iter().any(|e| e.0.key == 77));
    assert!(records.iter().any(|e| e.0.key == 555 && e.1.vec == b("hello")));
    assert!(providers.iter().any(|e| e.0 == b("doc") && e.1.key == 555));
}

#[test]
fn handle_k_peers_answers_with_closest_peers() {
    let mut c = regular_node("4007");
    c.merge_peers(&vec![peer(10, "127.0.0.1:1000"), peer(20, "127.0.0.1:2000")]);
    let msg = DHTMessage {
        type_of: DhtKind::KPeers,
        sending_node: peer(30, "127.0.0.1:3000"),
        key: (Key { key: 12 }, Vec::new()),
        keys: Vec::new(),
        data: (Key { key: 0 }, Data::create_empty()),
        providers: Vec::new(),
        name: Vec::new(),
    };
    let reply = c.handle_message(&msg).expect("a lookup is answered");
    assert_eq!(reply.type_of, DhtKind::KPeers);
    // the sender itself was recorded before the reply was computed
    assert!(reply.keys.iter().any(|e| e.0.key == 30));
    assert!(reply.keys.iter().any(|e| e.0.key == 10));
    let target = Key { key: 12 };
    for w in reply.keys.windows(2) {
        assert!(w[0].0.distance(target) <= w[1].0.distance(target));
    }
}

#[test]
fn handle_k_peers_substitutes_held_content() {
    let mut c = regular_node("4008");
    c.handle_message(&insert_dht(peer(70, "127.0.0.1:7000"), "doc", 555, d(1, "hello", "doc")));
    let msg = DHTMessage {
        type_of: DhtKind::KPeers,
        sending_node: peer(30, "127.0.0.1:3000"),
        key: (Key { key: 555 }, Vec::new()),
        keys: Vec::new(),
        data: (Key { key: 555 }, Data::create_empty()),
        providers: Vec::new(),
        name: Vec::new(),
    };
    let reply = c.handle_message(&msg).expect("a lookup is answered");
    assert_eq!(reply.data.0.key, 555);
    assert_eq!(reply.data.1.vec, b("hello"));
    // the held content is registered under its filename tag
    let (_, _, providers) = c.dump_state();
    assert!(providers.iter().any(|e| e.0 == b("doc") && e.1.key == 555));
}

#[test]
fn handle_providers_snapshots_the_index() {
    let mut c = regular_node("4009");
    c.handle_message(&insert_dht(peer(70, "127.0.0.1:7000"), "a", 5, d(1, "x", "a")));
    c.handle_message(&insert_dht(peer(70, "127.0.0.1:7000"), "b", 6, d(1, "y", "b")));
    let msg = DHTMessage {
        type_of: DhtKind::Providers,
        sending_node: peer(30, "127.0.0.1:3000"),
        key: create_empty_peer_record(),
        keys: Vec::new(),
        data: (Key { key: 0 }, Data::create_empty()),
        providers: Vec::new(),
        name: Vec::new(),
    };
    let reply = c.handle_message(&msg).expect("a providers request is answered");
    assert_eq!(reply.type_of, DhtKind::Providers);
    assert_eq!(reply.providers.len(), 2);
    assert!(reply.providers.iter().any(|e| e.0 == b("a") && e.1.key == 5));
    assert!(reply.providers.iter().any(|e| e.0 == b("b") && e.1.key == 6));
}

#[test]
fn put_then_local_get_returns_content_unchanged() {
    let mut a = regular_node("4010");
    let content = d(1, "payload bytes", "doc");
    a.put_data(b("doc"), content.clone());
    let hash = Key::generate_hash_from_data(b"doc".as_slice());
    let st = a.get_data_begin(hash);
    let f = st.found.expect("held content is found locally");
    assert_eq!(f.0.key, hash.key);
    assert_eq!(f.1.vec, b("payload bytes"));
    assert_eq!(f.1.file_meta.filename, b("doc"));
}

#[test]
fn put_reaches_closest_peer_through_the_wire() {
    // node A knows B; a put on A carries the record to B's tables
    let mut a = regular_node("4011");
    let mut bnode = regular_node("4012");
    bnode.key = Key { key: 42 };
    a.merge_peers(&vec![(bnode.key, b("127.0.0.1:4012"))]);
    let msgs = a.put_data(b("doc"), d(1, "hello", "doc"));
    let to_b: Vec<&Message> = msgs.iter().filter(|m| m.to.0 == bnode.key).collect();
    assert_eq!(to_b.len(), 1);
    let bytes = to_b[0].make_message();
    let decoded = Message::read_message(&bytes).expect("the frame decodes at B");
    let dht = derive_request(&decoded).expect("an INSERT is forwarded to dispatch");
    assert_eq!(dht.type_of, DhtKind::Insert);
    bnode.handle_message(&dht);
    let hash = Key::generate_hash_from_data(b"doc".as_slice());
    let (_, records, providers) = bnode.dump_state();
    assert!(records.iter().any(|e| e.0.key == hash.key && e.1.vec == b("hello")));
    assert!(providers.iter().any(|e| e.0 == b("doc") && e.1.key == hash.key));
}

#[test]
fn get_retrieves_content_from_peer() {
    // A stored "hello" at B; C looks the key up at B over the wire
    let mut a = regular_node("4013");
    let mut bnode = regular_node("4014");
    bnode.key = Key { key: 42 };
    a.merge_peers(&vec![(bnode.key, b("127.0.0.1:4014"))]);
    for m in a.put_data(b("doc"), d(1, "hello", "doc")) {
        if m.to.0 == bnode.key {
            let decoded = Message::read_message(&m.make_message()).unwrap();
            bnode.handle_message(&derive_request(&decoded).unwrap());
        }
    }
    let hash = Key::generate_hash_from_data(b"doc".as_slice());

    let mut cnode = regular_node("4015");
    cnode.key = Key { key: 77 };
    cnode.merge_peers(&vec![(bnode.key, b("127.0.0.1:4014"))]);
    let mut st = cnode.get_data_begin(hash);
    assert!(st.found.is_none());
    let mut rounds = 0;
    while let Some(req) = cnode.get_data_request(&st) {
        // the request travels to its target and is served there
        let wire_req = Message::read_message(&req.make_message()).unwrap();
        assert_eq!(wire_req.type_of, MsgType::PeersIGet);
        let reply = if wire_req.to.0 == bnode.key {
            let dht = derive_request(&wire_req).unwrap();
            let answer = bnode.handle_message(&dht).unwrap();
            reply_envelope(&wire_req, &answer)
        } else {
            // any other peer holds nothing and answers empty
            Message::new(
                MsgType::PeersRGet,
                (wire_req.to.0, wire_req.to.1.clone()),
                (cnode.key, b("127.0.0.1:4015")),
                (hash, Vec::new()),
                Key { key: 0 },
                Data::create_empty(),
            )
        };
        let wire_reply = Message::read_message(&reply.make_message()).unwrap();
        assert_eq!(wire_reply.type_of, MsgType::PeersRGet);
        cnode.get_data_on_response(&mut st, &wire_reply);
        rounds += 1;
        assert!(rounds < 100);
    }
    let (found, replications) = cnode.get_data_finish(&st);
    let got = found.expect("the content is retrieved");
    assert_eq!(got.vec, b("hello"));
    // empty responders asked before the hit get a replication insert
    for r in &replications {
        assert_eq!(r.type_of, MsgType::Insert);
        assert_eq!(r.data.1.vec, b("hello"));
    }
    // the value is cached locally
    let again = cnode.get_data_begin(hash);
    assert!(again.found.is_some());
}

#[test]
fn get_replicates_to_empty_responders() {
    let mut c = regular_node("4016");
    c.key = Key { key: 90 };
    c.merge_peers(&vec![peer(10, "127.0.0.1:1000"), peer(20, "127.0.0.1:2000")]);
    let mut st = c.get_data_begin(Key { key: 300 });
    // the first peer answers empty, the second holds the content
    let empty_reply = Message::new(
        MsgType::PeersRGet,
        peer(10, "127.0.0.1:1000"),
        (c.key, b("127.0.0.1:4016")),
        (Key { key: 300 }, Vec::new()),
        Key { key: 0 },
        Data::create_empty(),
    );
    let full_reply = Message::new(
        MsgType::PeersRGet,
        peer(20, "127.0.0.1:2000"),
        (c.key, b("127.0.0.1:4016")),
        (Key { key: 300 }, Vec::new()),
        Key { key: 300 },
        d(1, "found it", "doc"),
    );
    c.get_data_request(&st).expect("a first request exists");
    c.get_data_on_response(&mut st, &empty_reply);
    c.get_data_request(&st).expect("a second request exists");
    c.get_data_on_response(&mut st, &full_reply);
    assert!(c.get_data_request(&st).is_none());
    let (found, replications) = c.get_data_finish(&st);
    assert_eq!(found.unwrap().vec, b("found it"));
    assert_eq!(replications.len(), 1);
    assert_eq!(replications[0].type_of, MsgType::Insert);
    assert_eq!(replications[0].to.0.key, st.empties[0].0.key);
    assert_eq!(replications[0].data.1.vec, b("found it"));
}

#[test]
fn fetch_providers_never_duplicates_an_entry() {
    let mut c = regular_node("4017");
    let fetched = vec![(b("doc"), Key { key: 5 }), (b("song"), Key { key: 6 })];
    c.merge_providers(&fetched);
    c.merge_providers(&fetched);
    c.merge_providers(&fetched);
    let (_, _, providers) = c.dump_state();
    assert_eq!(providers.len(), 2);
    assert_eq!(providers.iter().filter(|e| e.0 == b("doc")).count(), 1);
    assert_eq!(providers.iter().filter(|e| e.0 == b("song")).count(), 1);
}

#[test]
fn merge_providers_last_write_wins() {
    let mut c = regular_node("4018");
    c.merge_providers(&vec![(b("doc"), Key { key: 5 })]);
    c.merge_providers(&vec![(b("doc"), Key { key: 9 })]);
    let (_, _, providers) = c.dump_state();
    assert_eq!(providers.len(), 1);
    assert!(providers.iter().any(|e| e.0 == b("doc") && e.1.key == 9));
}

#[test]
fn fetch_provider_requests_skip_self() {
    let mut c = regular_node("4019");
    c.key = Key { key: 90 };
    c.merge_peers(&vec![peer(10, "127.0.0.1:1000")]);
    let reqs = c.fetch_provider_requests();
    assert_eq!(reqs.len(), 2);
    for r in &reqs {
        assert_eq!(r.type_of, MsgType::ProviderGet);
        assert_ne!(r.to.0, c.key);
    }
}

#[test]
fn ping_request_resolves_known_peer_only() {
    let mut c = regular_node("4020");
    c.merge_peers(&vec![peer(10, "127.0.0.1:1000")]);
    let (addr, msg) = c.ping_request(Key { key: 10 }).expect("the peer is known");
    assert_eq!(addr, b("127.0.0.1:1000"));
    assert_eq!(msg.type_of, MsgType::Ping);
    assert_eq!(msg.to.0.key, 10);
    assert!(c.ping_request(Key { key: 999 }).is_none());
}

#[test]
fn ping_is_echoed_with_swapped_envelope() {
    let m = Message::new(
        MsgType::Ping,
        peer(1, "a:1"),
        peer(2, "b:2"),
        create_empty_peer_record(),
        Key { key: 0 },
        Data::create_empty(),
    );
    let echo = ping_reply(&m);
    assert_eq!(echo.type_of, MsgType::Ping);
    assert_eq!(echo.from.0.key, 2);
    assert_eq!(echo.to.0.key, 1);
}

#[test]
fn derive_request_maps_types() {
    let mk = |t| {
        Message::new(
            t,
            peer(1, "a:1"),
            peer(2, "b:2"),
            (Key { key: 7 }, b("doc")),
            Key { key: 7 },
            Data::create_empty(),
        )
    };
    assert_eq!(derive_request(&mk(MsgType::PeersI)).unwrap().type_of, DhtKind::KPeers);
    assert_eq!(derive_request(&mk(MsgType::PeersIGet)).unwrap().type_of, DhtKind::KPeers);
    assert_eq!(derive_request(&mk(MsgType::ProviderGet)).unwrap().type_of, DhtKind::Providers);
    let ins = derive_request(&mk(MsgType::Insert)).unwrap();
    assert_eq!(ins.type_of, DhtKind::Insert);
    assert_eq!(ins.name, b("doc"));
    assert!(derive_request(&mk(MsgType::Ping)).is_none());
    assert!(derive_request(&mk(MsgType::Init)).is_none());
    assert!(derive_request(&mk(MsgType::PeersR)).is_none());
}

#[test]
fn reply_envelope_swaps_and_sets_reply_type() {
    let req = Message::new(
        MsgType::PeersI,
        peer(1, "a:1"),
        peer(2, "b:2"),
        create_empty_peer_record(),
        Key { key: 0 },
        Data::create_empty(),
    );
    let answer = DHTMessage {
        type_of: DhtKind::KPeers,
        sending_node: peer(1, "a:1"),
        key: create_empty_peer_record(),
        keys: vec![peer(5, "c:3")],
        data: (Key { key: 0 }, Data::create_empty()),
        providers: Vec::new(),
        name: Vec::new(),
    };
    let r = reply_envelope(&req, &answer);
    assert_eq!(r.type_of, MsgType::PeersR);
    assert_eq!(r.from.0.key, 2);
    assert_eq!(r.to.0.key, 1);
    assert_eq!(r.keys.len(), 1);
    assert_eq!(r.keys[0].0.key, 5);
}
