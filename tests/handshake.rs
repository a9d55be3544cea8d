use bittorrent_peer::peer::{Handshake, HandshakeError, PieceResponse, Request};

const PEER_ID: [u8; 20] = *b"00112233445566778899";

fn info_hash() -> [u8; 20] {
    let mut h = [0u8; 20];
    for (i, b) in h.iter_mut().enumerate() {
        *b = (i as u8) * 13;
    }
    h
}

#[test]
fn new_fills_the_fixed_fields() {
    let h = Handshake::new(info_hash(), PEER_ID);
    assert_eq!(h.length, 19);
    assert_eq!(&h.bittorrent, b"BitTorrent protocol");
    assert_eq!(h.reserved, [0u8; 8]);
    assert_eq!(h.info_hash, info_hash());
    assert_eq!(h.peer_id, PEER_ID);
}

#[test]
fn handshake_layout_is_68_bytes() {
    let bytes = Handshake::new(info_hash(), PEER_ID).to_bytes();
    assert_eq!(bytes.len(), 68);
    assert_eq!(bytes[0], 19);
    assert_eq!(&bytes[1..20], b"BitTorrent protocol");
    assert_eq!(&bytes[20..28], &[0u8; 8]);
    assert_eq!(&bytes[28..48], &info_hash());
    assert_eq!(&bytes[48..68], &PEER_ID);
}

#[test]
fn handshake_round_trip() {
    let bytes = Handshake::new(info_hash(), PEER_ID).to_bytes();
    let h = Handshake::from_bytes(&bytes).unwrap();
    assert_eq!(h.length, 19);
    assert_eq!(&h.bittorrent, b"BitTorrent protocol");
    assert_eq!(h.info_hash, info_hash());
    assert_eq!(h.peer_id, PEER_ID);
}

#[test]
fn handshake_reads_first_68_bytes_of_a_longer_buffer() {
    let mut bytes = Handshake::new(info_hash(), *b"-XX0001-abcdefghijkl").to_bytes();
    bytes[25] = 0x10;
    bytes.extend_from_slice(&[0, 0, 0, 1, 1]);
    let h = Handshake::from_bytes(&bytes).unwrap();
    assert_eq!(&h.peer_id, b"-XX0001-abcdefghijkl");
    assert_eq!(h.reserved, [0, 0, 0, 0, 0, 0x10, 0, 0]);
    assert_eq!(h.to_bytes(), bytes[..68].to_vec());
}

#[test]
fn handshake_wrong_length_byte() {
    let mut bytes = Handshake::new(info_hash(), PEER_ID).to_bytes();
    bytes[0] = 18;
    assert_eq!(
        Handshake::from_bytes(&bytes).unwrap_err(),
        HandshakeError::ProtocolMismatch
    );
}

#[test]
fn handshake_wrong_label() {
    let mut bytes = Handshake::new(info_hash(), PEER_ID).to_bytes();
    bytes[19] = b'L';
    assert_eq!(
        Handshake::from_bytes(&bytes).unwrap_err(),
        HandshakeError::ProtocolMismatch
    );
}

#[test]
fn request_is_three_big_endian_words() {
    let r = Request::new(1, 16384, 3616);
    assert_eq!(r.index, [0, 0, 0, 1]);
    assert_eq!(r.begin, [0, 0, 0x40, 0]);
    assert_eq!(r.length, [0, 0, 0x0e, 0x20]);
    assert_eq!(
        r.to_bytes(),
        vec![0, 0, 0, 1, 0, 0, 0x40, 0, 0, 0, 0x0e, 0x20]
    );
    assert_eq!(
        Request::new(0x01020304, 0xffffffff, 0).to_bytes(),
        vec![1, 2, 3, 4, 0xff, 0xff, 0xff, 0xff, 0, 0, 0, 0]
    );
}

#[test]
fn piece_response_splits_payload() {
    let p = PieceResponse::from_bytes(&[0, 0, 0, 2, 0, 0, 0x40, 0, 5, 6, 7]);
    assert_eq!(p.index, [0, 0, 0, 2]);
    assert_eq!(p.begin, [0, 0, 0x40, 0]);
    assert_eq!(p.block, vec![5, 6, 7]);
    let empty = PieceResponse::from_bytes(&[1, 2, 3, 4, 5, 6, 7, 8]);
    assert!(empty.block.is_empty());
}
