use dht_node::data::{Data, FileMetadata};
use dht_node::key::Key;
use dht_node::wire::{
    create_empty_peer_record, empty_data, message_has_content, parse_peer_record, parse_providers,
    peek_type, Message, MsgType,
};

fn b(s: &str) -> Vec<u8> {
    s.as_bytes().to_vec()
}

fn d(id: u32, bytes: &str, filename: &str) -> Data {
    Data { id, vec: b(bytes), file_meta: FileMetadata { filename: b(filename) } }
}

fn peer(k: u32, addr: &str) -> (Key, Vec<u8>) {
    (Key { key: k }, b(addr))
}

fn assert_data_eq(x: &Data, y: &Data) {
    assert_eq!(x.id, y.id);
    assert_eq!(x.vec, y.vec);
    assert_eq!(x.file_meta.filename, y.file_meta.filename);
}

fn assert_round_trip(m: &Message) -> Message {
    let bytes = m.make_message();
    let back = Message::read_message(&bytes).expect("canonical frame must decode");
    assert_eq!(back.type_of, m.type_of);
    assert_eq!(back.from.0, m.from.0);
    assert_eq!(back.from.1, m.from.1);
    assert_eq!(back.to.0, m.to.0);
    assert_eq!(back.to.1, m.to.1);
    back
}

#[test]
fn round_trip_ping() {
    let m = Message::new(
        MsgType::Ping,
        peer(7, "127.0.0.1:4000"),
        peer(9, "127.0.0.1:4001"),
        create_empty_peer_record(),
        Key { key: 0 },
        Data::create_empty(),
    );
    let back = assert_round_trip(&m);
    assert_eq!(back.key.0.key, 0);
    assert!(back.key.1.is_empty());
    assert!(back.keys.is_empty());
    assert!(back.providers.is_empty());
}

#[test]
fn round_trip_init_and_peers_i_and_provider_get() {
    for t in [MsgType::Init, MsgType::PeersI, MsgType::ProviderGet] {
        let m = Message::new(
            t,
            peer(1, "127.0.0.1:12345"),
            peer(0xffff_ffff, "10.0.0.2:80"),
            create_empty_peer_record(),
            Key { key: 0 },
            Data::create_empty(),
        );
        assert_round_trip(&m);
    }
}

#[test]
fn round_trip_peers_r_keeps_key_list_order() {
    let mut m = Message::new(
        MsgType::PeersR,
        peer(1, "127.0.0.1:12345"),
        peer(2, "127.0.0.1:4000"),
        create_empty_peer_record(),
        Key { key: 0 },
        Data::create_empty(),
    );
    m.keys = vec![
        peer(42, "127.0.0.1:5000"),
        peer(7, "127.0.0.1:5001"),
        peer(0, "127.0.0.1:5002"),
        peer(4294967295, "host.example:9"),
    ];
    let back = assert_round_trip(&m);
    assert_eq!(back.keys.len(), 4);
    for (i, k) in m.keys.iter().enumerate() {
        assert_eq!(back.keys[i].0, k.0);
        assert_eq!(back.keys[i].1, k.1);
    }
}

#[test]
fn round_trip_peers_r_empty_list() {
    let m = Message::new(
        MsgType::PeersR,
        peer(1, "127.0.0.1:12345"),
        peer(2, "127.0.0.1:4000"),
        create_empty_peer_record(),
        Key { key: 0 },
        Data::create_empty(),
    );
    let back = assert_round_trip(&m);
    assert!(back.keys.is_empty());
}

#[test]
fn round_trip_providers_reply_keeps_order() {
    let mut m = Message::new(
        MsgType::ProvidersGetReply,
        peer(1, "127.0.0.1:12345"),
        peer(2, "127.0.0.1:4000"),
        create_empty_peer_record(),
        Key { key: 0 },
        Data::create_empty(),
    );
    m.providers = vec![
        (b("alpha.txt"), Key { key: 3 }),
        (b("beta"), Key { key: 1000000 }),
        (b("z"), Key { key: 0 }),
    ];
    let back = assert_round_trip(&m);
    assert_eq!(back.providers.len(), 3);
    for (i, p) in m.providers.iter().enumerate() {
        assert_eq!(back.providers[i].0, p.0);
        assert_eq!(back.providers[i].1, p.1);
    }
}

#[test]
fn round_trip_insert_carries_content() {
    let m = Message::new(
        MsgType::Insert,
        peer(5, "127.0.0.1:4000"),
        peer(6, "127.0.0.1:4001"),
        (Key { key: 0 }, b("doc")),
        Key { key: 1234567 },
        d(1, "hello world", "doc"),
    );
    let back = assert_round_trip(&m);
    assert_eq!(back.key.0.key, 0);
    assert_eq!(back.key.1, b("doc"));
    assert_eq!(back.data.0.key, 1234567);
    assert_data_eq(&back.data.1, &m.data.1);
}

#[test]
fn round_trip_insert_empty_payload_bytes() {
    let m = Message::new(
        MsgType::Insert,
        peer(5, "127.0.0.1:4000"),
        peer(6, "127.0.0.1:4001"),
        (Key { key: 0 }, b("empty_doc")),
        Key { key: 9 },
        d(0, "", ""),
    );
    let back = assert_round_trip(&m);
    assert_eq!(back.data.1.vec.len(), 0);
    assert_eq!(back.data.1.file_meta.filename.len(), 0);
}

#[test]
fn round_trip_peers_i_get_and_r_get() {
    for t in [MsgType::PeersIGet, MsgType::PeersRGet] {
        let m = Message::new(
            t,
            peer(5, "127.0.0.1:4000"),
            peer(6, "127.0.0.1:4001"),
            (Key { key: 77 }, Vec::new()),
            Key { key: 77 },
            d(2, "abc", "f.txt"),
        );
        let back = assert_round_trip(&m);
        assert_eq!(back.key.0.key, 77);
        assert_eq!(back.data.0.key, 77);
        assert_data_eq(&back.data.1, &m.data.1);
    }
}

#[test]
fn encode_ping_exact_bytes() {
    let m = Message::new(
        MsgType::Ping,
        peer(1, "127.0.0.1:12345"),
        peer(2, "127.0.0.1:4000"),
        create_empty_peer_record(),
        Key { key: 0 },
        Data::create_empty(),
    );
    let bytes = m.make_message();
    let expected =
        "P2P/1.0 PING\r\nFROM- (1,127.0.0.1:12345)\r\nTO- (2,127.0.0.1:4000)\r\n\r\n";
    assert_eq!(bytes, expected.as_bytes().to_vec());
}

#[test]
fn encode_insert_exact_bytes() {
    let m = Message::new(
        MsgType::Insert,
        peer(1, "a:1"),
        peer(2, "b:2"),
        (Key { key: 0 }, b("doc")),
        Key { key: 42 },
        d(1, "hi", "doc"),
    );
    let bytes = m.make_message();
    let expected = "P2P/1.0 INSERT\r\nFROM- (1,a:1)\r\nTO- (2,b:2)\r\nPROVIDER- doc\r\nDATA_KEY- 42\r\n\r\n{\"id\":1,\"vec\":[104,105],\"filename\":\"doc\"}\r\n";
    assert_eq!(bytes, expected.as_bytes().to_vec());
}

#[test]
fn encode_peers_r_exact_bytes() {
    let mut m = Message::new(
        MsgType::PeersR,
        peer(1, "a:1"),
        peer(2, "b:2"),
        create_empty_peer_record(),
        Key { key: 0 },
        Data::create_empty(),
    );
    m.keys = vec![peer(3, "c:3"), peer(4, "d:4")];
    let bytes = m.make_message();
    let expected = "P2P/1.0 PEERS_R\r\nFROM- (1,a:1)\r\nTO- (2,b:2)\r\nKEYS- (3,c:3) (4,d:4) \r\n\r\n";
    assert_eq!(bytes, expected.as_bytes().to_vec());
}

#[test]
fn decode_truncated_frame_fails() {
    let whole = Message::new(
        MsgType::Ping,
        peer(1, "a:1"),
        peer(2, "b:2"),
        create_empty_peer_record(),
        Key { key: 0 },
        Data::create_empty(),
    )
    .make_message();
    for cut in [0, 1, 10, whole.len() - 1] {
        let part = whole[..cut].to_vec();
        assert!(Message::read_message(&part).is_err(), "cut at {} must fail", cut);
    }
}

#[test]
fn decode_numeric_overflow_fails() {
    let raw = "P2P/1.0 PING\r\nFROM- (99999999999,a:1)\r\nTO- (2,b:2)\r\n\r\n";
    assert!(Message::read_message(raw.as_bytes()).is_err());
}

#[test]
fn decode_missing_field_fails() {
    // a PEERS_R frame without its KEYS line
    let raw = "P2P/1.0 PEERS_R\r\nFROM- (1,a:1)\r\nTO- (2,b:2)\r\n\r\n";
    assert!(Message::read_message(raw.as_bytes()).is_err());
    // an INSERT frame without its content line
    let raw2 = "P2P/1.0 INSERT\r\nFROM- (1,a:1)\r\nTO- (2,b:2)\r\nPROVIDER- doc\r\nDATA_KEY- 42\r\n\r\n";
    assert!(Message::read_message(raw2.as_bytes()).is_err());
}

#[test]
fn decode_unknown_type_fails() {
    let raw = "P2P/1.0 NONSENSE\r\nFROM- (1,a:1)\r\nTO- (2,b:2)\r\n\r\n";
    assert!(Message::read_message(raw.as_bytes()).is_err());
}

#[test]
fn decode_trailing_bytes_fail() {
    let mut whole = Message::new(
        MsgType::Ping,
        peer(1, "a:1"),
        peer(2, "b:2"),
        create_empty_peer_record(),
        Key { key: 0 },
        Data::create_empty(),
    )
    .make_message();
    whole.push(b'x');
    assert!(Message::read_message(&whole).is_err());
}

#[test]
fn decode_valid_hand_written_frame() {
    let raw = "P2P/1.0 PEERS_I\r\nFROM- (10,127.0.0.1:7777)\r\nTO- (1,127.0.0.1:12345)\r\n\r\n";
    let m = Message::read_message(raw.as_bytes()).expect("must decode");
    assert_eq!(m.type_of, MsgType::PeersI);
    assert_eq!(m.from.0.key, 10);
    assert_eq!(m.from.1, b("127.0.0.1:7777"));
    assert_eq!(m.to.0.key, 1);
}

#[test]
fn parse_peer_record_ok_and_bad() {
    let p = parse_peer_record(b"(123,10.0.0.1:99)").expect("well-formed record");
    assert_eq!(p.0.key, 123);
    assert_eq!(p.1, b("10.0.0.1:99"));
    assert!(parse_peer_record(b"(abc,10.0.0.1:99)").is_none());
    assert!(parse_peer_record(b"123,10.0.0.1:99").is_none());
    assert!(parse_peer_record(b"(123,10.0.0.1:99) extra").is_none());
}

#[test]
fn parse_providers_ok_and_bad() {
    let p = parse_providers(b"(movie.mp4,77)").expect("well-formed entry");
    assert_eq!(p.0, b("movie.mp4"));
    assert_eq!(p.1.key, 77);
    assert!(parse_providers(b"(movie.mp4,)").is_none());
    assert!(parse_providers(b"(movie.mp4,77").is_none());
}

#[test]
fn empty_data_checks_the_key() {
    assert!(empty_data(&(Key { key: 0 }, d(1, "x", "y"))));
    assert!(!empty_data(&(Key { key: 5 }, Data::create_empty())));
}

#[test]
fn create_empty_peer_record_is_zeroed() {
    let p = create_empty_peer_record();
    assert_eq!(p.0.key, 0);
    assert!(p.1.is_empty());
}

#[test]
fn data_create_empty_is_zeroed() {
    let e = Data::create_empty();
    assert_eq!(e.id, 0);
    assert!(e.vec.is_empty());
    assert!(e.file_meta.filename.is_empty());
}

#[test]
fn content_line_only_for_data_types() {
    assert!(message_has_content(MsgType::Insert));
    assert!(message_has_content(MsgType::PeersIGet));
    assert!(message_has_content(MsgType::PeersRGet));
    assert!(!message_has_content(MsgType::Ping));
    assert!(!message_has_content(MsgType::PeersR));
    assert!(!message_has_content(MsgType::Init));
}

#[test]
fn peek_type_reads_the_status_line() {
    assert_eq!(peek_type(b"P2P/1.0 INSERT\r\n"), Some(MsgType::Insert));
    assert_eq!(peek_type(b"P2P/1.0 PEERS_I\r\n"), Some(MsgType::PeersI));
    assert_eq!(peek_type(b"P2P/1.0 PEERS_I_GET\r\n"), Some(MsgType::PeersIGet));
    assert_eq!(peek_type(b"P2P/1.0 NONSENSE\r\n"), None);
    assert_eq!(peek_type(b"HTTP/1.1 200 OK\r\n"), None);
}
