use bittorrent_peer::download::Phase;
use bittorrent_peer::torrent::{File, Hashes, Info, Keys, Torrent};
use bittorrent_peer::tracker::{tracker_url, urlencode, Peers};

fn torrent(piece_length: usize, pieces: usize, keys: Keys) -> Torrent {
    let hashes = (0..pieces).map(|i| [i as u8; 20]).collect();
    Torrent {
        announce: String::from("http://tracker.example/announce"),
        info: Info {
            name: String::from("sample.txt"),
            piece_length,
            pieces: Hashes(hashes),
            keys,
        },
    }
}

#[test]
fn hashes_split_and_join() {
    let bytes: Vec<u8> = (0..60u8).collect();
    let h = Hashes::from_bytes(&bytes).unwrap();
    assert_eq!(h.0.len(), 3);
    assert_eq!(h.0[1].to_vec(), (20..40u8).collect::<Vec<u8>>());
    assert_eq!(h.to_bytes(), bytes);
    assert!(Hashes::from_bytes(&[]).unwrap().0.is_empty());
}

#[test]
fn hashes_refuse_ragged_length() {
    assert!(Hashes::from_bytes(&[0u8; 21]).is_none());
    assert!(Hashes::from_bytes(&[0u8; 19]).is_none());
}

#[test]
fn last_piece_holds_the_remainder() {
    let t = torrent(32768, 3, Keys::SingleFile { length: 92063 });
    assert_eq!(t.length(), 92063);
    assert_eq!(t.piece_count(), 3);
    assert_eq!(t.piece_len(0), 32768);
    assert_eq!(t.piece_len(1), 32768);
    assert_eq!(t.piece_len(2), 92063 - 65536);
}

#[test]
fn last_piece_full_when_length_divides() {
    let t = torrent(16384, 2, Keys::SingleFile { length: 32768 });
    assert_eq!(t.piece_len(1), 16384);
}

#[test]
fn multi_file_counts_zero_length() {
    let files = vec![File { length: 5, path: vec![String::from("a")] }];
    let t = torrent(100, 2, Keys::MultiFile { files });
    assert_eq!(t.length(), 0);
    assert_eq!(t.piece_len(1), 100);
}

#[test]
fn start_download_sets_up_piece() {
    let t = torrent(20000, 2, Keys::SingleFile { length: 30000 });
    let d = t.start_download(1).unwrap();
    assert_eq!(d.phase(), Phase::AwaitBitfield);
    assert!(t.start_download(2).is_none());
    let zero = torrent(0, 1, Keys::SingleFile { length: 0 });
    assert!(zero.start_download(0).is_none());
}

#[test]
fn tracker_request_fields() {
    let t = torrent(100, 1, Keys::SingleFile { length: 77 });
    let r = t.tracker_request(String::from("00112233445566778899"), 6881);
    assert_eq!(r.peer_id, "00112233445566778899");
    assert_eq!(r.port, 6881);
    assert_eq!(r.uploaded, 0);
    assert_eq!(r.downloaded, 0);
    assert_eq!(r.left, 77);
    assert_eq!(r.compact, 1);
}

#[test]
fn urlencode_every_byte() {
    let mut h = [0u8; 20];
    h[0] = 0xd6;
    h[1] = 0x9f;
    h[19] = 0x0a;
    let s = urlencode(&h);
    assert_eq!(s.len(), 60);
    assert!(s.starts_with("%d6%9f%00"));
    assert!(s.ends_with("%00%0a"));
}

#[test]
fn tracker_url_joins_parts() {
    let h = [0xabu8; 20];
    let url = tracker_url("http://t.example/announce", "port=6881&compact=1", &h);
    let mut expected = String::from("http://t.example/announce?port=6881&compact=1&info_hash=");
    for _ in 0..20 {
        expected.push_str("%ab");
    }
    assert_eq!(url, expected);
}

#[test]
fn compact_peers() {
    let bytes = [165, 232, 33, 77, 0xc8, 0xd5, 10, 0, 0, 1, 0x1a, 0xe1];
    let p = Peers::from_compact(&bytes).unwrap();
    assert_eq!(p.0.len(), 2);
    assert_eq!(p.0[0].ip, [165, 232, 33, 77]);
    assert_eq!(p.0[0].port, 51413);
    assert_eq!(p.0[1].ip, [10, 0, 0, 1]);
    assert_eq!(p.0[1].port, 6881);
    assert!(Peers::from_compact(&bytes[..7]).is_none());
    assert!(Peers::from_compact(&[]).unwrap().0.is_empty());
}
