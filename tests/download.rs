use bittorrent_peer::checksum::checksum;
use bittorrent_peer::download::{
    verify_piece, DownloadError, Phase, PieceDownload, Step, BLOCK_MAX,
};
use bittorrent_peer::peer::{Message, MessageTag};

fn msg(tag: MessageTag, payload: Vec<u8>) -> Message {
    Message { tag, payload }
}

fn digest(hex_text: &str) -> [u8; 20] {
    hex::decode(hex_text).unwrap().try_into().unwrap()
}

fn be(n: u32) -> [u8; 4] {
    n.to_be_bytes()
}

fn parse_request(m: &Message) -> (u32, u32, u32) {
    assert_eq!(m.tag, MessageTag::Request);
    assert_eq!(m.payload.len(), 12);
    let w = |i: usize| u32::from_be_bytes(m.payload[i..i + 4].try_into().unwrap());
    (w(0), w(4), w(8))
}

fn piece_msg(index: u32, begin: u32, block: &[u8]) -> Message {
    let mut p = Vec::new();
    p.extend_from_slice(&be(index));
    p.extend_from_slice(&be(begin));
    p.extend_from_slice(block);
    msg(MessageTag::Piece, p)
}

/// Plays a peer that sends Bitfield, then Unchoke, then answers each request
/// exactly from `data`. Returns the requests seen and the result.
fn simulate(index: u32, data: &[u8], expected: [u8; 20]) -> (Vec<(u32, u32, u32)>, Result<Vec<u8>, DownloadError>) {
    let mut d = PieceDownload::new(index, data.len() as u32, expected);
    assert_eq!(d.phase(), Phase::AwaitBitfield);
    match d.on_message(msg(MessageTag::Bitfield, vec![0xff])).unwrap() {
        Step::Send(m) => {
            assert_eq!(m.tag, MessageTag::Interested);
            assert!(m.payload.is_empty());
        }
        other => panic!("unexpected {:?}", other),
    }
    assert_eq!(d.phase(), Phase::AwaitUnchoke);
    let mut requests = Vec::new();
    let mut step = d.on_message(msg(MessageTag::Unchoke, vec![]));
    loop {
        match step {
            Ok(Step::Send(m)) => {
                let (i, b, l) = parse_request(&m);
                requests.push((i, b, l));
                let block = &data[b as usize..(b + l) as usize];
                step = d.on_message(piece_msg(i, b, block));
            }
            Ok(Step::Finished(v)) => {
                assert_eq!(d.phase(), Phase::Done);
                return (requests, Ok(v));
            }
            Err(e) => {
                assert_eq!(d.phase(), Phase::Failed);
                return (requests, Err(e));
            }
        }
    }
}

fn started_requesting(index: u32, length: u32) -> PieceDownload {
    let mut d = PieceDownload::new(index, length, [0u8; 20]);
    d.on_message(msg(MessageTag::Bitfield, vec![])).unwrap();
    d.on_message(msg(MessageTag::Unchoke, vec![])).unwrap();
    d
}

#[test]
fn checksum_of_known_inputs() {
    assert_eq!(checksum(b"abc"), digest("a9993e364706816aba3e25717850c26c9cd0d89d"));
    assert_eq!(checksum(b""), digest("da39a3ee5e6b4b0d3255bfef95601890afd80709"));
    assert_eq!(
        checksum(b"The quick brown fox jumps over the lazy dog"),
        digest("2fd4e1c67a2d28fced849ee1bb76e7391b93eb12")
    );
}

#[test]
fn two_full_blocks_for_32768() {
    let data: Vec<u8> = (0..32768u32).map(|i| (i % 251) as u8).collect();
    let (reqs, r) = simulate(3, &data, checksum(&data));
    assert_eq!(reqs, vec![(3, 0, 16384), (3, 16384, 16384)]);
    assert_eq!(r.unwrap(), data);
}

#[test]
fn short_last_block_for_20000() {
    let data: Vec<u8> = (0..20000u32).map(|i| (i * 7 % 256) as u8).collect();
    let (reqs, r) = simulate(0, &data, checksum(&data));
    assert_eq!(reqs, vec![(0, 0, 16384), (0, 16384, 3616)]);
    assert_eq!(r.unwrap(), data);
    assert_eq!(BLOCK_MAX, 16384);
}

#[test]
fn end_to_end_known_fixture() {
    let data = b"The quick brown fox jumps over the lazy dog".to_vec();
    let expected = digest("2fd4e1c67a2d28fced849ee1bb76e7391b93eb12");
    let (reqs, r) = simulate(7, &data, expected);
    assert_eq!(reqs, vec![(7, 0, 43)]);
    assert_eq!(r.unwrap(), data);
}

#[test]
fn checksum_mismatch_drops_piece() {
    let data = b"abc".to_vec();
    let mut wrong = digest("a9993e364706816aba3e25717850c26c9cd0d89d");
    wrong[19] ^= 1;
    let (reqs, r) = simulate(1, &data, wrong);
    assert_eq!(reqs, vec![(1, 0, 3)]);
    assert_eq!(r, Err(DownloadError::ChecksumMismatch));
}

#[test]
fn verify_piece_gate() {
    let d = digest("a9993e364706816aba3e25717850c26c9cd0d89d");
    assert_eq!(verify_piece(b"abc".to_vec(), &d, &d), Ok(b"abc".to_vec()));
    let mut other = d;
    other[0] = 0;
    assert_eq!(
        verify_piece(b"abc".to_vec(), &d, &other),
        Err(DownloadError::ChecksumMismatch)
    );
}

#[test]
fn empty_piece_is_checked_at_unchoke() {
    let empty = digest("da39a3ee5e6b4b0d3255bfef95601890afd80709");
    let (reqs, r) = simulate(0, &[], empty);
    assert!(reqs.is_empty());
    assert_eq!(r.unwrap(), Vec::<u8>::new());
}

#[test]
fn first_message_must_be_bitfield() {
    let mut d = PieceDownload::new(0, 10, [0u8; 20]);
    let r = d.on_message(msg(MessageTag::Unchoke, vec![]));
    assert_eq!(
        r.unwrap_err(),
        DownloadError::UnexpectedMessage { phase: Phase::AwaitBitfield, got: MessageTag::Unchoke }
    );
    assert_eq!(d.phase(), Phase::Failed);
}

#[test]
fn have_while_awaiting_unchoke_fails() {
    let mut d = PieceDownload::new(0, 10, [0u8; 20]);
    d.on_message(msg(MessageTag::Bitfield, vec![])).unwrap();
    let r = d.on_message(msg(MessageTag::Have, vec![0, 0, 0, 1]));
    assert_eq!(
        r.unwrap_err(),
        DownloadError::UnexpectedMessage { phase: Phase::AwaitUnchoke, got: MessageTag::Have }
    );
}

#[test]
fn unchoke_requests_first_block() {
    let mut d = PieceDownload::new(2, 40000, [0u8; 20]);
    d.on_message(msg(MessageTag::Bitfield, vec![])).unwrap();
    match d.on_message(msg(MessageTag::Unchoke, vec![])).unwrap() {
        Step::Send(m) => assert_eq!(parse_request(&m), (2, 0, 16384)),
        other => panic!("unexpected {:?}", other),
    }
    assert_eq!(d.phase(), Phase::Requesting);
}

#[test]
fn wrong_message_while_requesting() {
    let mut d = started_requesting(0, 100);
    let r = d.on_message(msg(MessageTag::Choke, vec![]));
    assert_eq!(
        r.unwrap_err(),
        DownloadError::UnexpectedMessage { phase: Phase::Requesting, got: MessageTag::Choke }
    );
}

#[test]
fn response_with_wrong_index() {
    let mut d = started_requesting(4, 100);
    let r = d.on_message(piece_msg(5, 0, &[0u8; 100]));
    assert_eq!(r.unwrap_err(), DownloadError::ResponseMismatch { index: 4, begin: 0 });
    assert_eq!(d.phase(), Phase::Failed);
}

#[test]
fn response_with_wrong_offset() {
    let mut d = started_requesting(4, 100);
    let r = d.on_message(piece_msg(4, 1, &[0u8; 100]));
    assert_eq!(r.unwrap_err(), DownloadError::ResponseMismatch { index: 4, begin: 0 });
}

#[test]
fn response_with_wrong_block_length() {
    let mut d = started_requesting(4, 100);
    let r = d.on_message(piece_msg(4, 0, &[0u8; 99]));
    assert_eq!(r.unwrap_err(), DownloadError::ResponseMismatch { index: 4, begin: 0 });
}

#[test]
fn response_too_short() {
    let mut d = started_requesting(4, 100);
    let r = d.on_message(msg(MessageTag::Piece, vec![0, 0, 0, 4, 0, 0, 0]));
    assert_eq!(r.unwrap_err(), DownloadError::ResponseMismatch { index: 4, begin: 0 });
}

#[test]
fn finished_machine_refuses_more() {
    let data = b"abc".to_vec();
    let mut d = PieceDownload::new(0, 3, checksum(&data));
    d.on_message(msg(MessageTag::Bitfield, vec![])).unwrap();
    d.on_message(msg(MessageTag::Unchoke, vec![])).unwrap();
    let r = d.on_message(piece_msg(0, 0, &data)).unwrap();
    assert!(matches!(r, Step::Finished(ref v) if *v == data));
    let again = d.on_message(piece_msg(0, 0, &data));
    assert_eq!(
        again.unwrap_err(),
        DownloadError::UnexpectedMessage { phase: Phase::Done, got: MessageTag::Piece }
    );
}
