use bittorrent::download::{block_count, block_len, plan_blocks, BlockRequest, DownloadError, PieceDownload};
use bittorrent::torrent::{Field, Info, MetainfoError, Torrent, TorrentInfo};
use bittorrent::value::Value;
use sha1::{Digest, Sha1};

fn info_bytes(length: u64, piece_length: u64, pieces: &[u8]) -> Vec<u8> {
    let mut b = Vec::new();
    b.extend_from_slice(format!("d6:lengthi{}e4:name10:sample.txt12:piece lengthi{}e6:pieces{}:", length, piece_length, pieces.len()).as_bytes());
    b.extend_from_slice(pieces);
    b.push(b'e');
    b
}

fn sample_pieces() -> Vec<u8> {
    (0..60u8).collect()
}

fn sample_info() -> Info {
    let v = Value::decode(&info_bytes(92063, 32768, &sample_pieces())).unwrap();
    Info::from_value(&v).unwrap()
}

#[test]
fn info_fields_are_read() {
    let info = sample_info();
    assert_eq!(info.length, 92063);
    assert_eq!(info.name, b"sample.txt".to_vec());
    assert_eq!(info.piece_length, 32768);
    assert_eq!(info.pieces.len(), 3);
    assert_eq!(info.pieces[1].to_vec(), (20..40u8).collect::<Vec<u8>>());
}

#[test]
fn piece_lengths_of_three_piece_torrent() {
    let info = sample_info();
    assert_eq!(info.piece_count(), 3);
    assert_eq!(info.piece_len(0), 32768);
    assert_eq!(info.piece_len(1), 32768);
    assert_eq!(info.piece_len(2), 26527);
    let total: u64 = (0..3).map(|i| info.piece_len(i) as u64).sum();
    assert_eq!(total, 92063);
}

#[test]
fn blocks_of_last_piece() {
    assert_eq!(block_count(26527), 2);
    assert_eq!(block_len(26527, 0), 16384);
    assert_eq!(block_len(26527, 1), 10143);
    assert_eq!(
        plan_blocks(2, 26527),
        vec![
            BlockRequest { index: 2, begin: 0, length: 16384 },
            BlockRequest { index: 2, begin: 16384, length: 10143 },
        ]
    );
}

#[test]
fn blocks_of_exact_multiple_and_empty_piece() {
    assert_eq!(block_count(32768), 2);
    assert_eq!(block_len(32768, 1), 16384);
    assert_eq!(block_count(0), 0);
    assert_eq!(block_count(1), 1);
    assert_eq!(block_len(1, 0), 1);
}

#[test]
fn info_reencodes_to_the_bytes_read() {
    let bytes = info_bytes(92063, 32768, &sample_pieces());
    let info = sample_info();
    assert_eq!(info.to_value().encode(), bytes);
    let expected: [u8; 20] = Sha1::digest(&bytes).into();
    assert_eq!(info.hash(), expected);
}

#[test]
fn info_errors_name_the_field() {
    let missing = Value::decode(b"d4:name1:a12:piece lengthi1e6:pieces0:e").unwrap();
    assert_eq!(Info::from_value(&missing).unwrap_err(), MetainfoError::Missing(Field::Length));
    let wrong = Value::decode(b"d6:length1:a4:name1:a12:piece lengthi1e6:pieces0:e").unwrap();
    assert_eq!(Info::from_value(&wrong).unwrap_err(), MetainfoError::WrongType(Field::Length));
    let negative = Value::decode(&info_bytes(0, 1, &[])).unwrap();
    assert_eq!(Info::from_value(&negative).unwrap_err(), MetainfoError::OutOfRange(Field::Pieces));
    let zero_pl = Value::decode(&info_bytes(5, 0, &sample_pieces())).unwrap();
    assert_eq!(Info::from_value(&zero_pl).unwrap_err(), MetainfoError::OutOfRange(Field::PieceLength));
    let too_long = Value::decode(&info_bytes(4294967296, 1, &sample_pieces())).unwrap();
    assert_eq!(Info::from_value(&too_long).unwrap_err(), MetainfoError::OutOfRange(Field::Length));
    let short = Value::decode(&info_bytes(65536, 32768, &sample_pieces())).unwrap();
    assert_eq!(Info::from_value(&short).unwrap_err(), MetainfoError::Inconsistent);
    let odd = Value::decode(&info_bytes(10, 32768, &[1, 2, 3])).unwrap();
    assert_eq!(Info::from_value(&odd).unwrap_err(), MetainfoError::OutOfRange(Field::Pieces));
    assert_eq!(Info::from_value(&Value::Integer(1)).unwrap_err(), MetainfoError::NotADict);
}

#[test]
fn torrent_from_metainfo() {
    let mut b = b"d8:announce31:http://tracker.example/announce4:info".to_vec();
    b.extend_from_slice(&info_bytes(92063, 32768, &sample_pieces()));
    b.push(b'e');
    let v = Value::decode(&b).unwrap();
    let t = Torrent::from_value(&v).unwrap();
    assert_eq!(t.announce, b"http://tracker.example/announce".to_vec());
    assert_eq!(TorrentInfo::announce(&t), b"http://tracker.example/announce".to_vec());
    assert_eq!(TorrentInfo::length(&t), 92063);
    assert_eq!(t.piece_hashes().len(), 3);
    let expected: [u8; 20] = Sha1::digest(&info_bytes(92063, 32768, &sample_pieces())).into();
    assert_eq!(TorrentInfo::info_hash(&t), expected);
    let no_info = Value::decode(b"d8:announce1:xe").unwrap();
    assert_eq!(Torrent::from_value(&no_info).unwrap_err(), MetainfoError::Missing(Field::Info));
}

fn reply(index: u32, begin: u32, data: &[u8]) -> Vec<u8> {
    let mut p = index.to_be_bytes().to_vec();
    p.extend_from_slice(&begin.to_be_bytes());
    p.extend_from_slice(data);
    p
}

#[test]
fn piece_download_assembles_and_checks_hash() {
    let piece: Vec<u8> = (0..26527u32).map(|i| (i % 251) as u8).collect();
    let hash: [u8; 20] = Sha1::digest(&piece).into();
    let mut d = PieceDownload::new(2, 26527);
    let window = d.next_requests();
    assert_eq!(window.len(), 2);
    assert!(d.next_requests().is_empty());
    assert_eq!(d.accept_block(&reply(2, 0, &piece[..16384])), Ok(()));
    assert_eq!(d.accept_block(&reply(2, 16384, &piece[16384..])), Ok(()));
    assert!(d.is_complete());
    assert_eq!(d.finish(&hash), Ok(piece));
}

#[test]
fn piece_download_rejects_bad_replies() {
    let mut d = PieceDownload::new(0, 100);
    assert_eq!(d.accept_block(&reply(0, 0, &[0; 100])), Err(DownloadError::NothingPending));
    assert_eq!(d.next_requests().len(), 1);
    assert_eq!(d.accept_block(&[0, 0, 0]), Err(DownloadError::ShortPayload));
    assert_eq!(d.accept_block(&reply(1, 0, &[0; 100])), Err(DownloadError::WrongIndex));
    assert_eq!(d.accept_block(&reply(0, 16384, &[0; 100])), Err(DownloadError::WrongOffset));
    assert_eq!(d.accept_block(&reply(0, 0, &[0; 99])), Err(DownloadError::WrongLength));
    assert_eq!(d.accept_block(&reply(0, 0, &[7; 100])), Ok(()));
    assert_eq!(d.finish(&[0u8; 20]), Err(DownloadError::HashMismatch));
}

#[test]
fn pipeline_windows_hold_five_requests() {
    let mut d = PieceDownload::new(0, 16384 * 7);
    let first = d.next_requests();
    assert_eq!(first.len(), 5);
    assert_eq!(first[4], BlockRequest { index: 0, begin: 16384 * 4, length: 16384 });
    for k in 0..5u32 {
        assert_eq!(d.accept_block(&reply(0, k * 16384, &vec![0u8; 16384])), Ok(()));
    }
    let second = d.next_requests();
    assert_eq!(second.len(), 2);
    assert_eq!(second[0].begin, 16384 * 5);
}

#[test]
fn whole_file_hash_matches_joined_pieces() {
    let file: Vec<u8> = (0..92063u32).map(|i| (i % 253) as u8).collect();
    let mut joined = Vec::new();
    for (index, range) in [(0u32, 0..32768usize), (1, 32768..65536), (2, 65536..92063)] {
        let piece = &file[range];
        let hash: [u8; 20] = Sha1::digest(piece).into();
        let mut d = PieceDownload::new(index, piece.len() as u32);
        let mut offset = 0usize;
        while !d.is_complete() {
            for req in d.next_requests() {
                let end = offset + req.length as usize;
                assert_eq!(d.accept_block(&reply(index, req.begin, &piece[offset..end])), Ok(()));
                offset = end;
            }
        }
        joined.extend(d.finish(&hash).unwrap());
    }
    let a: [u8; 20] = Sha1::digest(&joined).into();
    let b: [u8; 20] = Sha1::digest(&file).into();
    assert_eq!(a, b);
}
