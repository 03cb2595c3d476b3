use bittorrent::tracker::{parse_peers, peers_from_response, Peer, TrackerError, TrackerRequest, TrackerResponse};
use bittorrent::value::Value;

#[test]
fn announce_url_has_every_parameter() {
    let req = TrackerRequest {
        info_hash: [0xab; 20],
        port: 6881,
        peer_id: *b"code5craf5ters5code5",
        uploaded: 0,
        downloaded: 0,
        left: 92063,
        compact: 1,
    };
    let url = String::from_utf8(req.url(b"http://t.example/announce")).unwrap();
    let mut expected = String::from("http://t.example/announce?port=6881&peer_id=code5craf5ters5code5&uploaded=0&downloaded=0&left=92063&compact=1&info_hash=");
    for _ in 0..20 {
        expected.push_str("%ab");
    }
    assert_eq!(url, expected);
}

#[test]
fn info_hash_is_percent_encoded_byte_by_byte() {
    let mut hash = [0u8; 20];
    hash[0] = 0x0f;
    hash[1] = 0xd6;
    hash[19] = 0x90;
    let req = TrackerRequest { info_hash: hash, port: 1, peer_id: [b'a'; 20], uploaded: 7, downloaded: 8, left: 9, compact: 1 };
    let url = String::from_utf8(req.url(b"")).unwrap();
    assert!(url.ends_with("&info_hash=%0f%d6%00%00%00%00%00%00%00%00%00%00%00%00%00%00%00%00%00%90"));
    assert!(url.starts_with("?port=1&peer_id=aaaaaaaaaaaaaaaaaaaa&uploaded=7&downloaded=8&left=9&compact=1"));
}

#[test]
fn compact_peers_are_read() {
    let peers = parse_peers(&[165, 232, 33, 77, 201, 11, 10, 0, 0, 1, 0, 80]).unwrap();
    assert_eq!(
        peers,
        vec![Peer { ip: [165, 232, 33, 77], port: 51467 }, Peer { ip: [10, 0, 0, 1], port: 80 }]
    );
    assert_eq!(parse_peers(&[]).unwrap(), vec![]);
    assert_eq!(parse_peers(&[1, 2, 3, 4, 5]), Err(TrackerError::BadPeers));
}

#[test]
fn tracker_response_is_read() {
    let body = b"d8:intervali60e5:peers6:\x01\x02\x03\x04\x1a\xe1e";
    assert_eq!(peers_from_response(body), Ok(vec![Peer { ip: [1, 2, 3, 4], port: 6881 }]));
    let v = Value::decode(body).unwrap();
    let tr = TrackerResponse::from_value(v).unwrap();
    assert_eq!(tr.interval, 60);
    assert_eq!(tr.peers, vec![1, 2, 3, 4, 0x1a, 0xe1]);
}

#[test]
fn tracker_response_errors() {
    assert_eq!(peers_from_response(b"d8:intervali60e"), Err(TrackerError::Malformed));
    assert_eq!(peers_from_response(b"li1ee"), Err(TrackerError::NotADict));
    assert_eq!(peers_from_response(b"d5:peers0:e"), Err(TrackerError::MissingInterval));
    assert_eq!(peers_from_response(b"d8:intervali60ee"), Err(TrackerError::MissingPeers));
    assert_eq!(peers_from_response(b"d8:intervali60e5:peers5:abcdee"), Err(TrackerError::BadPeers));
}
