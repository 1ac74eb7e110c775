use sha1::Digest;
use bittorrent::peer::{
    block_len, check_handshake, num_blocks, parse_piece_payload, piece_size, Handshake, Message,
    MessageId, PeerError, PieceProgress, Session, SessionState,
};
use bittorrent::torrent::Torrent;
use bittorrent::tracker::{parse_peers, parse_tracker_response, Request, tracker_url, TrackerError};

fn sample_metainfo() -> Vec<u8> {
    let mut doc = Vec::new();
    doc.extend_from_slice(b"d8:announce31:http://tracker.example/announce4:info");
    doc.extend_from_slice(b"d6:lengthi40e4:name10:sample.txt12:piece lengthi32768e6:pieces20:");
    doc.extend_from_slice(&sample_piece_hash());
    doc.extend_from_slice(b"ee");
    doc
}

fn sample_piece_hash() -> [u8; 20] {
    // SHA-1 of forty 'A' bytes, the single piece of the sample file.
    [
        92, 219, 182, 66, 66, 216, 85, 26, 124, 245, 131, 144, 63, 215, 213, 183, 43, 39, 117, 55,
    ]
}

#[test]
fn torrent_projection() {
    let doc = sample_metainfo();
    let t = Torrent::from_bytes(&doc).unwrap();
    assert_eq!(t.announce, b"http://tracker.example/announce".to_vec());
    assert_eq!(t.info.name, b"sample.txt".to_vec());
    assert_eq!(t.info.length, 40);
    assert_eq!(t.info.piece_length, 32768);
    assert_eq!(t.info.pieces.len(), 1);
    assert_eq!(t.info.pieces[0], sample_piece_hash());
}

#[test]
fn torrent_info_hash() {
    let doc = sample_metainfo();
    let t = Torrent::from_bytes(&doc).unwrap();
    assert_eq!(t.info_hash(), "d1b257d236e4dd5d6be27c983a26f103fde78450");
}

#[test]
fn info_hash_matches_original_slice() {
    // The info dictionary occupies a sub-slice of the document; hashing that
    // slice directly must give the same digest as hashing the re-encoding.
    let doc = sample_metainfo();
    let info_start = doc.windows(4).position(|w| w == b"info").unwrap() + 4;
    let info_slice = &doc[info_start..doc.len() - 1];
    let t = Torrent::from_bytes(&doc).unwrap();
    let direct: [u8; 20] = sha1::Sha1::digest(info_slice).into();
    assert_eq!(t.info_hash_bytes(), direct);
}

#[test]
fn torrent_rejects_missing_fields() {
    let doc = b"d8:announce3:url4:infod4:name1:xee".to_vec();
    assert!(Torrent::from_bytes(&doc).is_err());
    let not_dict = b"i42e".to_vec();
    assert!(Torrent::from_bytes(&not_dict).is_err());
}

#[test]
fn compact_peers_parse() {
    let blob: Vec<u8> = vec![127, 0, 0, 1, 0x1A, 0xE1, 10, 0, 0, 2, 0, 80];
    let peers = parse_peers(&blob).unwrap();
    assert_eq!(peers.len(), 2);
    assert_eq!(peers[0].ip, [127, 0, 0, 1]);
    assert_eq!(peers[0].port, 6881);
    assert_eq!(peers[1].ip, [10, 0, 0, 2]);
    assert_eq!(peers[1].port, 80);
}

#[test]
fn compact_peers_reject_ragged_blob() {
    let blob: Vec<u8> = vec![127, 0, 0, 1, 0x1A];
    assert_eq!(parse_peers(&blob), Err(TrackerError::Decode));
}

#[test]
fn tracker_response_parse() {
    let mut body = b"d8:intervali1800e5:peers6:".to_vec();
    body.extend_from_slice(&[192, 168, 1, 9, 0x1A, 0xE1]);
    body.push(b'e');
    let peers = parse_tracker_response(&body).unwrap();
    assert_eq!(peers.len(), 1);
    assert_eq!(peers[0].ip, [192, 168, 1, 9]);
    assert_eq!(peers[0].port, 6881);
}

#[test]
fn tracker_response_empty_peers() {
    let body = b"d5:peers0:e".to_vec();
    assert_eq!(parse_tracker_response(&body), Err(TrackerError::NoPeers));
    let bad = b"d5:peersi1ee".to_vec();
    assert_eq!(parse_tracker_response(&bad), Err(TrackerError::Decode));
}

#[test]
fn tracker_query_string() {
    let request = Request::new(b"00000000000000000000".to_vec(), 6881, 40);
    let query = request.query(&sample_piece_hash());
    let expected = "info_hash=%5c%db%b6%42%42%d8%55%1a%7c%f5%83%90%3f%d7%d5%b7%2b%27%75%37\
&peer_id=00000000000000000000&port=6881&uploaded=0&downloaded=0&left=40&compact=1";
    assert_eq!(query, expected.as_bytes().to_vec());
    let url = tracker_url(&b"http://t.example/a".to_vec(), &query);
    assert_eq!(&url[..19], b"http://t.example/a?");
}

#[test]
fn handshake_round_trip() {
    let h = Handshake::from_parts([7u8; 20], [9u8; 20]);
    let bytes = h.as_bytes();
    assert_eq!(bytes.len(), 68);
    assert_eq!(bytes[0], 19);
    assert_eq!(&bytes[1..20], b"BitTorrent protocol");
    let mut frame = [0u8; 68];
    frame.copy_from_slice(&bytes);
    let parsed = Handshake::from_bytes(&frame).unwrap();
    assert_eq!(parsed.pstr, h.pstr);
    assert_eq!(parsed.reserved, h.reserved);
    assert_eq!(parsed.info_hash, h.info_hash);
    assert_eq!(parsed.peer_id, h.peer_id);
}

#[test]
fn handshake_from_hex() {
    let h = Handshake::new("d1b257d236e4dd5d6be27c983a26f103fde78450", [1u8; 20]).unwrap();
    assert_eq!(h.info_hash[0], 0xd1);
    assert_eq!(h.info_hash[19], 0x50);
    assert!(Handshake::new("zz", [1u8; 20]).is_err());
    assert!(Handshake::new("abc", [1u8; 20]).is_err());
}

#[test]
fn handshake_rejects_foreign_info_hash() {
    let ours = [7u8; 20];
    let theirs = Handshake::from_parts([8u8; 20], [9u8; 20]);
    let bytes = theirs.as_bytes();
    let mut frame = [0u8; 68];
    frame.copy_from_slice(&bytes);
    assert_eq!(
        check_handshake(&frame, &ours),
        Err(PeerError::InfoHashMismatch)
    );
    let good = Handshake::from_parts(ours, [9u8; 20]).as_bytes();
    frame.copy_from_slice(&good);
    assert_eq!(check_handshake(&frame, &ours), Ok([9u8; 20]));
}

#[test]
fn message_frames() {
    let m = Message::interested();
    assert_eq!(m.as_bytes(), vec![0, 0, 0, 1, 2]);
    let parsed = Message::from_bytes(&[4, 0, 0, 1, 44]).unwrap().unwrap();
    assert_eq!(parsed.id, MessageId::Have);
    assert_eq!(parsed.payload, vec![0, 0, 1, 44]);
    assert!(Message::from_bytes(&[]).unwrap().is_none());
    assert!(matches!(
        Message::from_bytes(&[9, 1, 2]),
        Err(PeerError::UnknownMessage)
    ));
}

#[test]
fn block_arithmetic() {
    // 82000 bytes in 32768-byte pieces: two full pieces and a 16464 tail.
    assert_eq!(piece_size(0, 82000, 32768), 32768);
    assert_eq!(piece_size(1, 82000, 32768), 32768);
    assert_eq!(piece_size(2, 82000, 32768), 16464);
    assert_eq!(num_blocks(32768), 2);
    assert_eq!(block_len(0, 32768), 16384);
    assert_eq!(block_len(1, 32768), 16384);
    assert_eq!(num_blocks(16464), 2);
    assert_eq!(block_len(0, 16464), 16384);
    assert_eq!(block_len(1, 16464), 80);
    let total: u64 = (0..3u32).map(|i| piece_size(i, 82000, 32768) as u64).sum();
    assert_eq!(total, 82000);
}

#[test]
fn piece_download_and_verify() {
    // SHA-1 of "hello world".
    let expected: [u8; 20] = [
        42, 174, 108, 53, 201, 79, 207, 180, 21, 219, 233, 95, 64, 139, 156, 233, 30, 232, 70, 237,
    ];
    let mut p = PieceProgress::new(3, 11);
    let (index, begin, len) = p.next_request();
    assert_eq!((index, begin, len), (3, 0, 11));
    let m = p.request_message();
    assert_eq!(m.id, MessageId::Request);
    assert_eq!(m.as_bytes(), vec![0, 0, 0, 13, 6, 0, 0, 0, 3, 0, 0, 0, 0, 0, 0, 0, 11]);
    assert_eq!(
        p.accept_block(3, 1, b"hello world"),
        Err(PeerError::MismatchedBlock)
    );
    assert_eq!(p.accept_block(3, 0, b"hello world"), Ok(true));
    let bytes = p.finish(&expected).unwrap();
    assert_eq!(bytes, b"hello world".to_vec());

    let mut wrong = PieceProgress::new(0, 5);
    assert_eq!(wrong.accept_block(0, 0, b"bogus"), Ok(true));
    assert!(wrong.finish(&expected).is_err());
}

#[test]
fn session_transitions() {
    let mut s = Session::new();
    assert_eq!(s.state, SessionState::Connected);
    s.on_handshake_verified();
    assert_eq!(s.state, SessionState::HandshakeDone);
    s.on_message(MessageId::Have);
    assert_eq!(s.state, SessionState::HandshakeDone);
    s.on_message(MessageId::Bitfield);
    assert_eq!(s.state, SessionState::AwaitBitfield);
    s.on_sent_interested();
    assert_eq!(s.state, SessionState::Interested);
    s.on_message(MessageId::Unchoke);
    assert_eq!(s.state, SessionState::Unchoked);
    s.start_piece();
    assert_eq!(s.state, SessionState::Downloading);
    s.on_message(MessageId::Choke);
    assert_eq!(s.state, SessionState::Interested);
    s.on_message(MessageId::Unchoke);
    assert_eq!(s.state, SessionState::Unchoked);
    s.close();
    assert_eq!(s.state, SessionState::Closed);
}

#[test]
fn piece_payload_parse() {
    let mut payload = vec![0, 0, 0, 3, 0, 0, 64, 0];
    payload.extend_from_slice(b"data");
    let (index, begin, block) = parse_piece_payload(&payload).unwrap();
    assert_eq!(index, 3);
    assert_eq!(begin, 16384);
    assert_eq!(block, b"data".to_vec());
    assert!(parse_piece_payload(&[1, 2, 3]).is_err());
}
