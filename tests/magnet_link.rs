use bittorrent::magnet::{
    extension_handshake_payload, info_from_metadata, metadata_request_payload,
    parse_extension_handshake, ExtensionError, Magnet, MagnetError,
};
use bittorrent::torrent::{Info, TorrentInfo};
use bittorrent::value::Value;
use sha1::{Digest, Sha1};

const LINK: &str = "magnet:?xt=urn:btih:ad42ce8109f54c99613ce38f9b4d87e70f24a165&dn=magnet1.gif&tr=http%3A%2F%2Ftracker.example.org%2Fannounce";

#[test]
fn magnet_link_is_parsed() {
    let m = Magnet::parse(LINK).unwrap();
    assert_eq!(m.tracker_url, "http://tracker.example.org/announce");
    assert_eq!(m.name, "magnet1.gif");
    assert_eq!(
        m.info_hash,
        [0xad, 0x42, 0xce, 0x81, 0x09, 0xf5, 0x4c, 0x99, 0x61, 0x3c, 0xe3, 0x8f, 0x9b, 0x4d, 0x87, 0xe7, 0x0f, 0x24, 0xa1, 0x65]
    );
    assert_eq!(TorrentInfo::length(&m), 1);
    assert_eq!(TorrentInfo::announce(&m), b"http://tracker.example.org/announce".to_vec());
}

#[test]
fn upper_case_hex_and_later_pairs() {
    let m = Magnet::parse("magnet:?xt=urn:btih:AD42CE8109F54C99613CE38F9B4D87E70F24A165&dn=a&tr=x&dn=b").unwrap();
    assert_eq!(m.name, "b");
    assert_eq!(m.info_hash[0], 0xad);
}

#[test]
fn magnet_link_errors() {
    assert_eq!(Magnet::parse("not a url").unwrap_err(), MagnetError::NotAUrl);
    assert_eq!(Magnet::parse("magnet:?xt=urn:btih:00&dn=a").unwrap_err(), MagnetError::MissingTracker);
    assert_eq!(Magnet::parse("magnet:?xt=urn:btih:00&tr=t").unwrap_err(), MagnetError::MissingName);
    assert_eq!(Magnet::parse("magnet:?dn=a&tr=t").unwrap_err(), MagnetError::MissingInfoHash);
    assert_eq!(Magnet::parse("magnet:?xt=urn:btih:zz&dn=a&tr=t").unwrap_err(), MagnetError::BadInfoHash);
    assert_eq!(Magnet::parse("magnet:?xt=urn:btih:abcd&dn=a&tr=t").unwrap_err(), MagnetError::BadInfoHash);
}

#[test]
fn extension_messages() {
    let mut expected = vec![0u8];
    expected.extend_from_slice(b"d1:md11:ut_metadatai1e6:ut_pexi2eee");
    assert_eq!(extension_handshake_payload(), expected);
    let mut expected = vec![3u8];
    expected.extend_from_slice(b"d8:msg_typei0e5:piecei0ee");
    assert_eq!(metadata_request_payload(3), expected);
}

#[test]
fn peer_extension_handshake() {
    let mut p = vec![0u8];
    p.extend_from_slice(b"d1:md11:ut_metadatai16e6:ut_pexi2ee13:metadata_sizei132ee");
    assert_eq!(parse_extension_handshake(&p), Ok(16));
    assert_eq!(parse_extension_handshake(b"\x01de"), Err(ExtensionError::UnexpectedMessage));
    assert_eq!(parse_extension_handshake(b"\x00d1:mdee"), Err(ExtensionError::NoMetadataSupport));
    assert_eq!(parse_extension_handshake(b"\x00d1:m"), Err(ExtensionError::Malformed));
}

#[test]
fn metadata_reply_is_checked_against_info_hash() {
    let pieces: Vec<u8> = (0..20u8).collect();
    let mut info = b"d6:lengthi10e4:name1:a12:piece lengthi16e6:pieces20:".to_vec();
    info.extend_from_slice(&pieces);
    info.push(b'e');
    let hash: [u8; 20] = Sha1::digest(&info).into();
    let mut payload = vec![1u8];
    payload.extend_from_slice(format!("d8:msg_typei1e5:piecei0e10:total_sizei{}ee", info.len()).as_bytes());
    payload.extend_from_slice(&info);
    let got: Info = info_from_metadata(&payload, &hash).unwrap();
    assert_eq!(got.length, 10);
    assert_eq!(got.hash(), hash);
    assert_eq!(info_from_metadata(&payload, &[0u8; 20]).unwrap_err(), ExtensionError::InfoHashMismatch);
    assert_eq!(info_from_metadata(&[], &hash).unwrap_err(), ExtensionError::UnexpectedMessage);
    let v = Value::decode(&info).unwrap();
    assert_eq!(Info::from_value(&v).unwrap().hash(), hash);
}
