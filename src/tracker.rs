//! The exchange with the tracker: the announce request that this client
//! sends, and the compact list of peers that comes back.
use vstd::prelude::*;

use crate::torrent::content_length;
use crate::torrent::Torrent;

verus! {

/// The query parameters of an announce request.
#[derive(Debug, Clone)]
pub struct TrackerRequest {
    /// A 20-character identity that this client picks.
    pub peer_id: String,
    /// The port that this client listens on.
    pub port: u16,
    /// The bytes uploaded so far.
    pub uploaded: usize,
    /// The bytes downloaded so far.
    pub downloaded: usize,
    /// The bytes still to download.
    pub left: usize,
    /// 1 asks for the compact list of peers.
    pub compact: u8,
}

impl Torrent {
    /// The first announce of a client that has downloaded nothing yet and
    /// asks for the compact list of peers.
    pub fn tracker_request(&self, peer_id: String, port: u16) -> (r: TrackerRequest)
        ensures
            r.peer_id@ == peer_id@,
            r.port == port,
            r.uploaded == 0,
            r.downloaded == 0,
            r.left == content_length(self.info.keys),
            r.compact == 1,
    {
        TrackerRequest { peer_id, port, uploaded: 0, downloaded: 0, left: self.length(), compact: 1 }
    }
}

/// The lower-case hexadecimal digits.
pub open spec fn hex_digits() -> Seq<char> {
    seq!['0', '1', '2', '3', '4', '5', '6', '7', '8', '9', 'a', 'b', 'c', 'd', 'e', 'f']
}

/// Each byte written as `%` and two lower-case hexadecimal digits.
pub open spec fn percent_encoded(b: Seq<u8>) -> Seq<char>
    decreases b.len(),
{
    if b.len() == 0 {
        Seq::empty()
    } else {
        let x = b.last();
        percent_encoded(b.drop_last()) + seq!['%', hex_digits()[x as int / 16], hex_digits()[x as int % 16]]
    }
}

fn hex_digit(n: u8) -> (r: &'static str)
    requires
        n < 16,
    ensures
        r@ == seq![hex_digits()[n as int]],
{
    proof {
        reveal_strlit("0");
        reveal_strlit("1");
        reveal_strlit("2");
        reveal_strlit("3");
        reveal_strlit("4");
        reveal_strlit("5");
        reveal_strlit("6");
        reveal_strlit("7");
        reveal_strlit("8");
        reveal_strlit("9");
        reveal_strlit("a");
        reveal_strlit("b");
        reveal_strlit("c");
        reveal_strlit("d");
        reveal_strlit("e");
        reveal_strlit("f");
    }
    let r = match n {
        0 => "0",
        1 => "1",
        2 => "2",
        3 => "3",
        4 => "4",
        5 => "5",
        6 => "6",
        7 => "7",
        8 => "8",
        9 => "9",
        10 => "a",
        11 => "b",
        12 => "c",
        13 => "d",
        14 => "e",
        _ => "f",
    };
    assert(r@ =~= seq![hex_digits()[n as int]]);
    r
}

/// The URL encoding of a 20-byte digest: every byte as `%` and two
/// lower-case hexadecimal digits.
pub fn urlencode(t: &[u8; 20]) -> (r: String)
    ensures
        r@ == percent_encoded(t@),
{
    let mut s = String::new();
    let mut i: usize = 0;
    assert(t@.subrange(0, 0) =~= Seq::<u8>::empty());
    while i < 20
        invariant
            i <= 20,
            s@ == percent_encoded(t@.subrange(0, i as int)),
        decreases 20 - i,
    {
        let b = t[i];
        proof {
            reveal_strlit("%");
        }
        s.append("%");
        s.append(hex_digit(b / 16));
        s.append(hex_digit(b % 16));
        let ghost sub = t@.subrange(0, i + 1);
        assert(sub.drop_last() =~= t@.subrange(0, i as int));
        assert(sub.last() == b);
        i = i + 1;
        assert(s@ =~= percent_encoded(t@.subrange(0, i as int)));
    }
    assert(t@.subrange(0, 20) =~= t@);
    s
}

/// The announce URL: the tracker's address, then the query parameters
/// `url_params`, then the URL-encoded fingerprint.
pub fn tracker_url(announce: &str, url_params: &str, info_hash: &[u8; 20]) -> (r: String)
    ensures
        r@ == announce@ + seq!['?'] + url_params@ + "&info_hash="@ + percent_encoded(info_hash@),
{
    proof {
        reveal_strlit("?");
    }
    let mut s = String::from_str(announce);
    s.append("?");
    s.append(url_params);
    s.append("&info_hash=");
    let h = urlencode(info_hash);
    s.append(h.as_str());
    s
}

/// A peer's IPv4 address and port.
#[derive(Debug, Clone, Copy)]
pub struct PeerAddr {
    pub ip: [u8; 4],
    pub port: u16,
}

/// The peers that the tracker names.
#[derive(Debug, Clone)]
pub struct Peers(pub Vec<PeerAddr>);

/// Whether `p` is the peer that the six bytes of `v` at `at` stand for: four
/// bytes of address, then the port, big-endian.
pub open spec fn compact_peer_at(v: Seq<u8>, at: int, p: PeerAddr) -> bool {
    &&& p.ip@ == v.subrange(at, at + 4)
    &&& p.port == v[at + 4] as int * 256 + v[at + 5] as int
}

impl Peers {
    /// Reads the compact peer list: six bytes for each peer. `None` unless
    /// the length is a multiple of six.
    pub fn from_compact(v: &[u8]) -> (r: Option<Peers>)
        ensures
            r is Some <==> v@.len() % 6 == 0,
            r matches Some(p) ==> p.0@.len() * 6 == v@.len() && forall|j: int|
                0 <= j < p.0@.len() ==> compact_peer_at(v@, 6 * j, #[trigger] p.0@[j]),
    {
        if v.len() % 6 != 0 {
            return None;
        }
        let mut out: Vec<PeerAddr> = Vec::new();
        let mut i: usize = 0;
        while i < v.len()
            invariant
                i <= v@.len(),
                v@.len() % 6 == 0,
                out@.len() * 6 == i,
                forall|j: int| 0 <= j < out@.len() ==> compact_peer_at(v@, 6 * j, #[trigger] out@[j]),
            decreases v@.len() - i,
        {
            let ip = [v[i], v[i + 1], v[i + 2], v[i + 3]];
            let port = (v[i + 4] as u16) * 256 + v[i + 5] as u16;
            let p = PeerAddr { ip, port };
            assert(ip@ =~= v@.subrange(i as int, i + 4));
            out.push(p);
            i = i + 6;
        }
        Some(Peers(out))
    }
}

} // verus!
