//! What the library reads from a torrent's metainfo: the tracker's address,
//! the piece length, the digest of each piece and the content's length.
use vstd::prelude::*;

use crate::download::PieceDownload;
use crate::download::DownloadState;
use crate::download::Phase;
use crate::wire::append_bytes;
use crate::wire::array20;

verus! {

/// The digests of the pieces, one for each piece index.
#[derive(Debug, Clone)]
pub struct Hashes(pub Vec<[u8; 20]>);

/// The digests laid end to end, as the metainfo stores them.
pub open spec fn flat_hashes(h: Seq<[u8; 20]>) -> Seq<u8>
    decreases h.len(),
{
    if h.len() == 0 {
        Seq::empty()
    } else {
        flat_hashes(h.drop_last()) + h.last()@
    }
}

proof fn lemma_flat_hashes_len(h: Seq<[u8; 20]>)
    ensures
        flat_hashes(h).len() == 20 * h.len(),
    decreases h.len(),
{
    if h.len() > 0 {
        lemma_flat_hashes_len(h.drop_last());
    }
}

impl Hashes {
    /// Splits a byte string into 20-byte digests; `None` unless its length
    /// is a multiple of 20.
    pub fn from_bytes(v: &[u8]) -> (r: Option<Hashes>)
        ensures
            r is Some <==> v@.len() % 20 == 0,
            r matches Some(h) ==> flat_hashes(h.0@) == v@,
    {
        if v.len() % 20 != 0 {
            return None;
        }
        let mut out: Vec<[u8; 20]> = Vec::new();
        let mut i: usize = 0;
        assert(v@.subrange(0, 0) =~= flat_hashes(out@));
        while i < v.len()
            invariant
                i <= v@.len(),
                i % 20 == 0,
                v@.len() % 20 == 0,
                flat_hashes(out@) == v@.subrange(0, i as int),
            decreases v@.len() - i,
        {
            let a = array20(v, i);
            let ghost before = out@;
            out.push(a);
            assert(out@.drop_last() == before);
            assert(v@.subrange(0, i + 20) =~= v@.subrange(0, i as int) + a@);
            i = i + 20;
        }
        assert(v@.subrange(0, v@.len() as int) =~= v@);
        Some(Hashes(out))
    }

    /// The digests laid end to end.
    pub fn to_bytes(&self) -> (r: Vec<u8>)
        ensures
            r@ == flat_hashes(self.0@),
    {
        let mut r: Vec<u8> = Vec::new();
        let mut i: usize = 0;
        assert(self.0@.subrange(0, 0) =~= Seq::<[u8; 20]>::empty());
        while i < self.0.len()
            invariant
                i <= self.0@.len(),
                r@ == flat_hashes(self.0@.subrange(0, i as int)),
            decreases self.0@.len() - i,
        {
            append_bytes(&mut r, self.0[i].as_slice());
            assert(self.0@.subrange(0, i + 1).drop_last() =~= self.0@.subrange(0, i as int));
            i = i + 1;
        }
        assert(self.0@.subrange(0, self.0@.len() as int) =~= self.0@);
        r
    }
}

/// One file of a torrent that holds several.
#[derive(Debug, Clone)]
pub struct File {
    pub length: usize,
    pub path: Vec<String>,
}

/// A torrent holds one file, of a length, or a list of files.
#[derive(Debug, Clone)]
pub enum Keys {
    SingleFile { length: usize },
    MultiFile { files: Vec<File> },
}

/// The content of the torrent's info dictionary.
#[derive(Debug, Clone)]
pub struct Info {
    /// The suggested name of the file, or of the directory.
    pub name: String,
    /// The length of each piece but possibly the last.
    pub piece_length: usize,
    /// The digest of each piece.
    pub pieces: Hashes,
    pub keys: Keys,
}

/// A torrent's metainfo.
#[derive(Debug, Clone)]
pub struct Torrent {
    /// The URL of the tracker.
    pub announce: String,
    pub info: Info,
}

/// The length of the content that the piece digests cover: the file's length
/// for a single file, and zero for a list of files.
pub open spec fn content_length(keys: Keys) -> usize {
    match keys {
        Keys::SingleFile { length } => length,
        Keys::MultiFile { .. } => 0,
    }
}

/// The length of piece `index` of a torrent with `count` pieces of
/// `piece_length` bytes over `total` bytes: the full piece length but for the
/// last piece, which holds what remains.
pub open spec fn piece_len_of(piece_length: nat, count: nat, total: nat, index: nat) -> nat {
    if index + 1 < count {
        piece_length
    } else if total % piece_length == 0 {
        piece_length
    } else {
        total % piece_length
    }
}

impl Torrent {
    /// The length of the content.
    pub fn length(&self) -> (r: usize)
        ensures
            r == content_length(self.info.keys),
    {
        match self.info.keys {
            Keys::SingleFile { length } => length,
            Keys::MultiFile { .. } => 0,
        }
    }

    /// The number of pieces.
    pub fn piece_count(&self) -> (r: usize)
        ensures
            r == self.info.pieces.0@.len(),
    {
        self.info.pieces.0.len()
    }

    /// The length of piece `piece_index`.
    pub fn piece_len(&self, piece_index: usize) -> (r: usize)
        requires
            piece_index < self.info.pieces.0@.len(),
            self.info.piece_length > 0,
        ensures
            r == piece_len_of(
                self.info.piece_length as nat,
                self.info.pieces.0@.len(),
                content_length(self.info.keys) as nat,
                piece_index as nat,
            ),
    {
        let pl = self.info.piece_length;
        if piece_index < self.info.pieces.0.len() - 1 {
            pl
        } else {
            let rem = self.length() % pl;
            if rem == 0 {
                pl
            } else {
                rem
            }
        }
    }

    /// Starts the acquisition of piece `piece_index`, with its length and its
    /// expected digest. `None` where there is no such piece, where the piece
    /// length is zero, or where the index or the piece's length does not fit
    /// in the 32 bits that a request carries.
    pub fn start_download(&self, piece_index: usize) -> (r: Option<PieceDownload>)
        ensures
            r is Some <==> piece_index < self.info.pieces.0@.len() && self.info.piece_length > 0
                && piece_index <= u32::MAX && piece_len_of(
                self.info.piece_length as nat,
                self.info.pieces.0@.len(),
                content_length(self.info.keys) as nat,
                piece_index as nat,
            ) <= u32::MAX,
            r matches Some(d) ==> d@ == (DownloadState {
                index: piece_index as u32,
                length: piece_len_of(
                    self.info.piece_length as nat,
                    self.info.pieces.0@.len(),
                    content_length(self.info.keys) as nat,
                    piece_index as nat,
                ) as u32,
                expected: self.info.pieces.0@[piece_index as int]@,
                phase: Phase::AwaitBitfield,
                offset: 0,
                received: Seq::empty(),
            }),
    {
        if piece_index >= self.info.pieces.0.len() || self.info.piece_length == 0 || piece_index
            > u32::MAX as usize {
            return None;
        }
        let len = self.piece_len(piece_index);
        if len > u32::MAX as usize {
            return None;
        }
        Some(PieceDownload::new(piece_index as u32, len as u32, self.info.pieces.0[piece_index]))
    }
}

} // verus!
