//! The peer wire protocol: the handshake record, the message tags, and the
//! length-prefixed framing of messages on the byte stream.
use vstd::prelude::*;

use crate::wire::append_bytes;
use crate::wire::array19;
use crate::wire::array20;
use crate::wire::array8;
use crate::wire::be32_array;
use crate::wire::be32_at;
use crate::wire::be32_bytes;
use crate::wire::copy_range;
use crate::wire::push_be32;
use crate::wire::read_be32;

verus! {

/// The largest frame, counting the tag and the payload, that either side accepts.
pub const MAX_FRAME_LEN: usize = 65536;

/// Peer message type.
#[derive(Debug, Clone, Copy, PartialEq, Eq, Structural)]
pub enum MessageTag {
    Choke,
    Unchoke,
    Interested,
    NotInterested,
    Have,
    Bitfield,
    Request,
    Piece,
    Cancel,
}

/// The byte that stands for `t` on the wire.
pub open spec fn tag_byte(t: MessageTag) -> u8 {
    match t {
        MessageTag::Choke => 0,
        MessageTag::Unchoke => 1,
        MessageTag::Interested => 2,
        MessageTag::NotInterested => 3,
        MessageTag::Have => 4,
        MessageTag::Bitfield => 5,
        MessageTag::Request => 6,
        MessageTag::Piece => 7,
        MessageTag::Cancel => 8,
    }
}

/// The tag that the byte `b` stands for, if any.
pub open spec fn tag_of_byte(b: u8) -> Option<MessageTag> {
    if b == 0 {
        Some(MessageTag::Choke)
    } else if b == 1 {
        Some(MessageTag::Unchoke)
    } else if b == 2 {
        Some(MessageTag::Interested)
    } else if b == 3 {
        Some(MessageTag::NotInterested)
    } else if b == 4 {
        Some(MessageTag::Have)
    } else if b == 5 {
        Some(MessageTag::Bitfield)
    } else if b == 6 {
        Some(MessageTag::Request)
    } else if b == 7 {
        Some(MessageTag::Piece)
    } else if b == 8 {
        Some(MessageTag::Cancel)
    } else {
        None
    }
}

impl MessageTag {
    /// The tag whose wire byte is `value`; `None` for a byte outside the known set.
    pub fn from_u8(value: u8) -> (r: Option<MessageTag>)
        ensures
            r == tag_of_byte(value),
            r matches Some(t) ==> tag_byte(t) == value,
    {
        match value {
            0 => Some(MessageTag::Choke),
            1 => Some(MessageTag::Unchoke),
            2 => Some(MessageTag::Interested),
            3 => Some(MessageTag::NotInterested),
            4 => Some(MessageTag::Have),
            5 => Some(MessageTag::Bitfield),
            6 => Some(MessageTag::Request),
            7 => Some(MessageTag::Piece),
            8 => Some(MessageTag::Cancel),
            _ => None,
        }
    }

    /// The byte that stands for this tag on the wire.
    pub fn to_u8(self) -> (r: u8)
        ensures
            r == tag_byte(self),
            tag_of_byte(r) == Some(self),
    {
        match self {
            MessageTag::Choke => 0,
            MessageTag::Unchoke => 1,
            MessageTag::Interested => 2,
            MessageTag::NotInterested => 3,
            MessageTag::Have => 4,
            MessageTag::Bitfield => 5,
            MessageTag::Request => 6,
            MessageTag::Piece => 7,
            MessageTag::Cancel => 8,
        }
    }
}

/// One message of the peer protocol: a tag and the payload that it carries.
#[derive(Debug, Clone)]
pub struct Message {
    pub tag: MessageTag,
    pub payload: Vec<u8>,
}

/// Why a frame was refused.
#[derive(Debug, Clone, Copy, PartialEq, Eq, Structural)]
pub enum FrameError {
    /// The frame's length, which counts its tag and payload, exceeds `MAX_FRAME_LEN`.
    FrameTooLarge(usize),
    /// The tag byte is none of the known message tags.
    UnknownMessageTag(u8),
}

/// What the decoder makes of the front of a byte stream.
pub enum FrameStep {
    /// No whole frame yet; `skipped` bytes of keep-alives may be dropped.
    Incomplete { skipped: nat },
    /// A whole frame, which with the keep-alives before it spans `consumed` bytes.
    Complete { tag: MessageTag, payload: Seq<u8>, consumed: nat },
    /// The stream is refused.
    Failed { error: FrameError },
}

/// Adds `k` bytes of keep-alives in front of a step.
pub open spec fn shift_step(k: nat, f: FrameStep) -> FrameStep {
    match f {
        FrameStep::Incomplete { skipped } => FrameStep::Incomplete { skipped: skipped + k },
        FrameStep::Complete { tag, payload, consumed } => FrameStep::Complete {
            tag,
            payload,
            consumed: consumed + k,
        },
        FrameStep::Failed { error } => FrameStep::Failed { error },
    }
}

/// The decoding of the front of the stream `s`.
pub open spec fn frame_step(s: Seq<u8>) -> FrameStep
    decreases s.len(),
{
    if s.len() < 4 {
        FrameStep::Incomplete { skipped: 0 }
    } else {
        let n = be32_at(s, 0);
        if n == 0 {
            shift_step(4, frame_step(s.skip(4)))
        } else if n > MAX_FRAME_LEN {
            FrameStep::Failed { error: FrameError::FrameTooLarge(n as usize) }
        } else if s.len() < 4 + n {
            FrameStep::Incomplete { skipped: 0 }
        } else {
            match tag_of_byte(s[4]) {
                Some(tag) => FrameStep::Complete {
                    tag,
                    payload: s.subrange(5, 4 + n as int),
                    consumed: 4 + n,
                },
                None => FrameStep::Failed { error: FrameError::UnknownMessageTag(s[4]) },
            }
        }
    }
}

/// The bytes of one frame that carries `tag` and `payload`.
pub open spec fn frame_bytes(tag: MessageTag, payload: Seq<u8>) -> Seq<u8> {
    be32_bytes((payload.len() + 1) as u32) + seq![tag_byte(tag)] + payload
}

/// The frame length that a refused encoding reports for a payload of `n` bytes.
pub open spec fn saturating_frame_len(n: nat) -> usize {
    if n < usize::MAX {
        (n + 1) as usize
    } else {
        usize::MAX
    }
}

/// What one call of the decoder hands back: how many bytes of the buffer it
/// used up, and the message, if a whole frame was there.
#[derive(Debug)]
pub struct Decoded {
    pub consumed: usize,
    pub message: Option<Message>,
}

/// Whether `r` is what the decoder owes for the step `f`.
pub open spec fn decoded_as(r: Result<Decoded, FrameError>, f: FrameStep) -> bool {
    match (r, f) {
        (Ok(d), FrameStep::Incomplete { skipped }) => d.consumed == skipped && d.message is None,
        (Ok(d), FrameStep::Complete { tag, payload, consumed }) => {
            &&& d.consumed == consumed
            &&& d.message is Some
            &&& d.message->0.tag == tag
            &&& d.message->0.payload@ == payload
        },
        (Err(e), FrameStep::Failed { error }) => e == error,
        _ => false,
    }
}

/// The 19-byte protocol label "BitTorrent protocol".
pub open spec fn protocol_label() -> Seq<u8> {
    seq![66u8, 105, 116, 84, 111, 114, 114, 101, 110, 116, 32, 112, 114, 111, 116, 111, 99, 111, 108]
}

/// Eight zero bytes: the reserved field of the handshake.
pub open spec fn zero_reserved() -> Seq<u8> {
    seq![0u8, 0, 0, 0, 0, 0, 0, 0]
}

/// The 68 bytes of a handshake for the torrent `info_hash` from the client `peer_id`.
pub open spec fn handshake_wire(info_hash: Seq<u8>, peer_id: Seq<u8>) -> Seq<u8> {
    seq![19u8] + protocol_label() + zero_reserved() + info_hash + peer_id
}

/// Whether the bytes `s` open with the length byte 19 and the protocol label.
pub open spec fn handshake_accepts(s: Seq<u8>) -> bool {
    s.len() >= 68 && s[0] == 19 && s.subrange(1, 20) == protocol_label()
}

/// The handshake record, sent once by each side before any message.
#[derive(Debug, Clone, Copy)]
pub struct Handshake {
    /// Length of the protocol label, which is 19.
    pub length: u8,
    /// The protocol label.
    pub bittorrent: [u8; 19],
    /// Eight reserved bytes, all zero in what this client sends.
    pub reserved: [u8; 8],
    /// The fingerprint of the torrent.
    pub info_hash: [u8; 20],
    /// The identity of the side that sends the handshake.
    pub peer_id: [u8; 20],
}

/// Why a handshake was refused.
#[derive(Debug, Clone, Copy, PartialEq, Eq, Structural)]
pub enum HandshakeError {
    /// The length byte is not 19 or the protocol label differs.
    ProtocolMismatch,
}

fn label_array() -> (r: [u8; 19])
    ensures
        r@ == protocol_label(),
{
    let r = [66u8, 105, 116, 84, 111, 114, 114, 101, 110, 116, 32, 112, 114, 111, 116, 111, 99, 111, 108];
    assert(r@ =~= protocol_label());
    r
}

impl Handshake {
    /// The bytes of this record on the wire, its fields in order.
    pub open spec fn wire(self) -> Seq<u8> {
        seq![self.length] + self.bittorrent@ + self.reserved@ + self.info_hash@ + self.peer_id@
    }

    /// The handshake that this client sends for the torrent `info_hash`.
    pub fn new(info_hash: [u8; 20], peer_id: [u8; 20]) -> (r: Self)
        ensures
            r.length == 19,
            r.bittorrent@ == protocol_label(),
            r.reserved@ == zero_reserved(),
            r.info_hash == info_hash,
            r.peer_id == peer_id,
            r.wire() == handshake_wire(info_hash@, peer_id@),
    {
        let r = Handshake {
            length: 19,
            bittorrent: label_array(),
            reserved: [0u8; 8],
            info_hash,
            peer_id,
        };
        assert(r.reserved@ =~= zero_reserved());
        r
    }

    /// The 68 bytes of this record.
    pub fn to_bytes(&self) -> (r: Vec<u8>)
        ensures
            r@ == self.wire(),
            r@.len() == 68,
    {
        let mut r: Vec<u8> = Vec::new();
        r.push(self.length);
        append_bytes(&mut r, self.bittorrent.as_slice());
        append_bytes(&mut r, self.reserved.as_slice());
        append_bytes(&mut r, self.info_hash.as_slice());
        append_bytes(&mut r, self.peer_id.as_slice());
        assert(r@ =~= self.wire());
        r
    }

    /// Reads a handshake from the first 68 bytes of `b`. It is refused unless
    /// the length byte is 19 and the protocol label follows it.
    pub fn from_bytes(b: &[u8]) -> (r: Result<Handshake, HandshakeError>)
        requires
            b@.len() >= 68,
        ensures
            r is Ok <==> handshake_accepts(b@),
            r matches Ok(h) ==> h.wire() == b@.subrange(0, 68),
            r is Err ==> r == Err::<Handshake, HandshakeError>(HandshakeError::ProtocolMismatch),
    {
        let bittorrent = array19(b, 1);
        let label = label_array();
        let mut i: usize = 0;
        while i < 19
            invariant
                i <= 19,
                bittorrent@ == b@.subrange(1, 20),
                label@ == protocol_label(),
                forall|j: int| 0 <= j < i ==> bittorrent@[j] == label@[j],
            decreases 19 - i,
        {
            if bittorrent[i] != label[i] {
                return Err(HandshakeError::ProtocolMismatch);
            }
            i = i + 1;
        }
        assert(bittorrent@ =~= label@);
        if b[0] != 19 {
            return Err(HandshakeError::ProtocolMismatch);
        }
        let h = Handshake {
            length: b[0],
            bittorrent,
            reserved: array8(b, 20),
            info_hash: array20(b, 28),
            peer_id: array20(b, 48),
        };
        assert(h.wire() =~= b@.subrange(0, 68));
        Ok(h)
    }
}

/// Decoding the handshake that this client sends accepts it and recovers the
/// fingerprint and the identity unchanged, with the length byte 19 and the
/// protocol label: `decoded` stands for any record whose bytes are those sent.
pub proof fn lemma_handshake_round_trip(info_hash: [u8; 20], peer_id: [u8; 20], decoded: Handshake)
    requires
        decoded.wire() == handshake_wire(info_hash@, peer_id@),
    ensures
        handshake_accepts(handshake_wire(info_hash@, peer_id@)),
        decoded.length == 19,
        decoded.bittorrent@ == protocol_label(),
        decoded.reserved@ == zero_reserved(),
        decoded.info_hash == info_hash,
        decoded.peer_id == peer_id,
{
    let w = handshake_wire(info_hash@, peer_id@);
    assert(w.subrange(1, 20) =~= protocol_label());
    assert(w[0] == 19);
    assert(decoded.wire()[0] == decoded.length);
    assert(decoded.wire()[0] == w[0]);
    assert(decoded.bittorrent@ =~= decoded.wire().subrange(1, 20));
    assert(decoded.reserved@ =~= decoded.wire().subrange(20, 28));
    assert(decoded.info_hash@ =~= decoded.wire().subrange(28, 48));
    assert(decoded.peer_id@ =~= decoded.wire().subrange(48, 68));
    assert(w.subrange(20, 28) =~= zero_reserved());
    assert(w.subrange(28, 48) =~= info_hash@);
    assert(w.subrange(48, 68) =~= peer_id@);
    assert(decoded.info_hash@ =~= info_hash@);
    assert(decoded.peer_id@ =~= peer_id@);
}

/// The payload of a Request message: which block of which piece is wanted.
#[derive(Debug, Clone, Copy)]
pub struct Request {
    pub index: [u8; 4],
    pub begin: [u8; 4],
    pub length: [u8; 4],
}

/// The twelve bytes of a request for `length` bytes at `begin` in piece `index`.
pub open spec fn request_wire(index: u32, begin: u32, length: u32) -> Seq<u8> {
    be32_bytes(index) + be32_bytes(begin) + be32_bytes(length)
}

impl Request {
    /// The bytes of this request on the wire.
    pub open spec fn wire(self) -> Seq<u8> {
        self.index@ + self.begin@ + self.length@
    }

    /// A request for `length` bytes at offset `begin` of piece `index`.
    pub fn new(index: u32, begin: u32, length: u32) -> (r: Self)
        ensures
            r.index@ == be32_bytes(index),
            r.begin@ == be32_bytes(begin),
            r.length@ == be32_bytes(length),
            r.wire() == request_wire(index, begin, length),
    {
        Request { index: be32_array(index), begin: be32_array(begin), length: be32_array(length) }
    }

    /// The 12 bytes of this request: index, offset and length, each big-endian.
    pub fn to_bytes(&self) -> (r: Vec<u8>)
        ensures
            r@ == self.wire(),
    {
        let mut r: Vec<u8> = Vec::new();
        append_bytes(&mut r, self.index.as_slice());
        append_bytes(&mut r, self.begin.as_slice());
        append_bytes(&mut r, self.length.as_slice());
        assert(r@ =~= self.wire());
        r
    }
}

/// The payload of a Piece message: a block of data at an offset of a piece.
#[derive(Debug, Clone)]
pub struct PieceResponse {
    pub index: [u8; 4],
    pub begin: [u8; 4],
    pub block: Vec<u8>,
}

impl PieceResponse {
    /// Splits a Piece payload into its index, its offset and the block data.
    pub fn from_bytes(b: &[u8]) -> (r: Self)
        requires
            b@.len() >= 8,
        ensures
            r.index@ == b@.subrange(0, 4),
            r.begin@ == b@.subrange(4, 8),
            r.block@ == b@.subrange(8, b@.len() as int),
    {
        let index = [b[0], b[1], b[2], b[3]];
        let begin = [b[4], b[5], b[6], b[7]];
        assert(index@ =~= b@.subrange(0, 4));
        assert(begin@ =~= b@.subrange(4, 8));
        PieceResponse { index, begin, block: copy_range(b, 8, b.len()) }
    }
}

/// The codec that splits a byte stream into messages and writes messages out.
#[derive(Debug, Clone, Copy)]
pub struct MessageFramer;

impl MessageFramer {
    /// Decodes the next message at the front of `src`. Keep-alive frames are
    /// dropped; an incomplete frame leaves them used up and no message.
    pub fn decode(&self, src: &[u8]) -> (r: Result<Decoded, FrameError>)
        ensures
            decoded_as(r, frame_step(src@)),
    {
        let mut pos: usize = 0;
        assert(src@.skip(0) =~= src@);
        loop
            invariant
                pos <= src@.len(),
                frame_step(src@) == shift_step(pos as nat, frame_step(src@.skip(pos as int))),
            decreases src@.len() - pos,
        {
            let ghost rest = src@.skip(pos as int);
            if src.len() - pos < 4 {
                return Ok(Decoded { consumed: pos, message: None });
            }
            let length = read_be32(src, pos);
            assert(be32_at(rest, 0) == be32_at(src@, pos as int));
            if length == 0 {
                assert(rest.skip(4) =~= src@.skip(pos + 4));
                pos = pos + 4;
            } else if length as usize > MAX_FRAME_LEN {
                return Err(FrameError::FrameTooLarge(length as usize));
            } else if src.len() - pos - 4 < length as usize {
                return Ok(Decoded { consumed: pos, message: None });
            } else {
                let end = pos + 4 + length as usize;
                let tag = src[pos + 4];
                assert(rest[4] == tag);
                match MessageTag::from_u8(tag) {
                    None => {
                        return Err(FrameError::UnknownMessageTag(tag));
                    },
                    Some(t) => {
                        let payload = copy_range(src, pos + 5, end);
                        assert(payload@ =~= rest.subrange(5, 4 + length as int));
                        return Ok(Decoded { consumed: end, message: Some(Message { tag: t, payload }) });
                    },
                }
            }
        }
    }

    /// Appends the frame of `item` to `dst`: the length of the tag and payload
    /// as four big-endian bytes, the tag byte, then the payload. A message
    /// whose frame would exceed `MAX_FRAME_LEN` is refused and `dst` is left
    /// as it was.
    pub fn encode(&self, item: Message, dst: &mut Vec<u8>) -> (r: Result<(), FrameError>)
        ensures
            item.payload@.len() + 1 <= MAX_FRAME_LEN ==> r is Ok && final(dst)@ == old(dst)@
                + frame_bytes(item.tag, item.payload@),
            item.payload@.len() + 1 > MAX_FRAME_LEN ==> r == Err::<(), FrameError>(
                FrameError::FrameTooLarge(saturating_frame_len(item.payload@.len())),
            ) && final(dst)@ == old(dst)@,
    {
        let n = item.payload.len();
        if n >= MAX_FRAME_LEN {
            return Err(FrameError::FrameTooLarge(n.saturating_add(1)));
        }
        push_be32(dst, (n + 1) as u32);
        dst.push(item.tag.to_u8());
        append_bytes(dst, item.payload.as_slice());
        assert(final(dst)@ =~= old(dst)@ + frame_bytes(item.tag, item.payload@));
        Ok(())
    }
}

} // verus!
