//! The acquisition of one piece from one peer, as a state machine that is
//! handed each message the peer sends and says what to send back.
use vstd::prelude::*;

use crate::checksum::checksum;
use crate::checksum::sha1_of;
use crate::peer::request_wire;
use crate::peer::Message;
use crate::peer::MessageTag;
use crate::peer::PieceResponse;
use crate::peer::Request;
use crate::wire::be32_bytes;
use crate::wire::be32_array;
use crate::wire::lemma_be32_round_trip;

verus! {

/// The largest block requested at once.
pub const BLOCK_MAX: u32 = 16384;

/// Where the exchange with the peer stands.
#[derive(Debug, Clone, Copy, PartialEq, Eq, Structural)]
pub enum Phase {
    /// The first message, a Bitfield, is awaited.
    AwaitBitfield,
    /// Interested was sent; Unchoke is awaited.
    AwaitUnchoke,
    /// A block was requested; its Piece message is awaited.
    Requesting,
    /// The piece was checked and handed out.
    Done,
    /// The exchange was given up.
    Failed,
}

/// Why a piece could not be had.
#[derive(Debug, Clone, Copy, PartialEq, Eq, Structural)]
pub enum DownloadError {
    /// The connection ended before the exchange did.
    ConnectionClosed,
    /// The peer's handshake has the wrong length byte or protocol label.
    ProtocolMismatch,
    /// A message came that the exchange does not expect in this phase.
    UnexpectedMessage { phase: Phase, got: MessageTag },
    /// A Piece message does not answer the outstanding request.
    ResponseMismatch { index: u32, begin: u32 },
    /// The assembled piece does not have the expected digest.
    ChecksumMismatch,
}

/// What the caller is to do after a message was handled.
#[derive(Debug)]
pub enum Step {
    /// Send this message to the peer, then hand over the next one received.
    Send(Message),
    /// The piece is complete and checked: these are its bytes.
    Finished(Vec<u8>),
}

/// The state of one piece's acquisition.
pub struct DownloadState {
    pub index: u32,
    pub length: u32,
    pub expected: Seq<u8>,
    pub phase: Phase,
    /// The offset of the block that is requested next, or is outstanding.
    pub offset: u32,
    /// The blocks received so far, in order.
    pub received: Seq<u8>,
}

/// What handling one message leads to.
pub enum Outcome {
    Send(MessageTag, Seq<u8>),
    Finished(Seq<u8>),
    Fail(DownloadError),
}

/// The length of the block of a piece of `length` bytes that starts at `offset`.
pub open spec fn block_len(length: u32, offset: u32) -> u32 {
    if length - offset >= BLOCK_MAX {
        BLOCK_MAX
    } else {
        (length - offset) as u32
    }
}

/// The states that the machine passes through.
pub open spec fn well_formed(s: DownloadState) -> bool {
    &&& s.offset <= s.length
    &&& s.expected.len() == 20
    &&& (s.phase is AwaitBitfield || s.phase is AwaitUnchoke) ==> s.offset == 0 && s.received.len() == 0
    &&& s.phase is Requesting ==> s.offset < s.length && s.received.len() == s.offset
}

/// The request for the block at `offset`.
pub open spec fn request_at(s: DownloadState, offset: u32) -> Outcome {
    Outcome::Send(MessageTag::Request, request_wire(s.index, offset, block_len(s.length, offset)))
}

/// Whether a Piece payload answers the outstanding request exactly.
pub open spec fn answers_request(s: DownloadState, payload: Seq<u8>) -> bool {
    &&& payload.len() >= 8
    &&& payload.subrange(0, 4) == be32_bytes(s.index)
    &&& payload.subrange(4, 8) == be32_bytes(s.offset)
    &&& payload.len() - 8 == block_len(s.length, s.offset)
}

/// The piece is handed out if its digest is the expected one.
pub open spec fn verdict(expected: Seq<u8>, data: Seq<u8>) -> Outcome {
    if sha1_of(data) == expected {
        Outcome::Finished(data)
    } else {
        Outcome::Fail(DownloadError::ChecksumMismatch)
    }
}

/// What handling the message (`tag`, `payload`) in the state `s` leads to.
pub open spec fn outcome(s: DownloadState, tag: MessageTag, payload: Seq<u8>) -> Outcome {
    let unexpected = Outcome::Fail(DownloadError::UnexpectedMessage { phase: s.phase, got: tag });
    match s.phase {
        Phase::AwaitBitfield => if tag == MessageTag::Bitfield {
            Outcome::Send(MessageTag::Interested, Seq::empty())
        } else {
            unexpected
        },
        Phase::AwaitUnchoke => if tag != MessageTag::Unchoke {
            unexpected
        } else if s.length == 0 {
            verdict(s.expected, Seq::empty())
        } else {
            request_at(s, 0)
        },
        Phase::Requesting => if tag != MessageTag::Piece {
            unexpected
        } else if !answers_request(s, payload) {
            Outcome::Fail(DownloadError::ResponseMismatch { index: s.index, begin: s.offset })
        } else {
            let next = s.offset + block_len(s.length, s.offset);
            if next < s.length {
                request_at(s, next as u32)
            } else {
                verdict(s.expected, s.received + payload.skip(8))
            }
        },
        _ => unexpected,
    }
}

/// The state after handling the message (`tag`, `payload`) in the state `s`.
pub open spec fn next_state(s: DownloadState, tag: MessageTag, payload: Seq<u8>) -> DownloadState {
    match outcome(s, tag, payload) {
        Outcome::Fail(_) => DownloadState { phase: Phase::Failed, received: Seq::empty(), ..s },
        Outcome::Finished(_) => DownloadState {
            phase: Phase::Done,
            offset: s.length,
            received: Seq::empty(),
            ..s
        },
        Outcome::Send(_, _) => match s.phase {
            Phase::AwaitBitfield => DownloadState { phase: Phase::AwaitUnchoke, ..s },
            Phase::AwaitUnchoke => DownloadState { phase: Phase::Requesting, ..s },
            _ => DownloadState {
                offset: (s.offset + block_len(s.length, s.offset)) as u32,
                received: s.received + payload.skip(8),
                ..s
            },
        },
    }
}

/// Whether `r` is what the machine owes for the outcome `o`.
pub open spec fn step_as(r: Result<Step, DownloadError>, o: Outcome) -> bool {
    match (r, o) {
        (Ok(Step::Send(m)), Outcome::Send(tag, payload)) => m.tag == tag && m.payload@ == payload,
        (Ok(Step::Finished(v)), Outcome::Finished(data)) => v@ == data,
        (Err(e), Outcome::Fail(f)) => e == f,
        _ => false,
    }
}

/// The payload of the Piece message that answers the outstanding request of
/// `s` exactly, from the piece's bytes `data`.
pub open spec fn exact_answer(s: DownloadState, data: Seq<u8>) -> Seq<u8> {
    be32_bytes(s.index) + be32_bytes(s.offset) + data.subrange(
        s.offset as int,
        s.offset + block_len(s.length, s.offset),
    )
}

/// Where a peer that answers every request exactly from `data` brings the
/// machine from the state `s`, in which a request is outstanding.
pub open spec fn served(s: DownloadState, data: Seq<u8>) -> Outcome
    decreases s.length - s.offset,
{
    if s.phase == Phase::Requesting && s.offset < s.length {
        let answer = exact_answer(s, data);
        match outcome(s, MessageTag::Piece, answer) {
            Outcome::Send(tag, payload) => {
                let next = next_state(s, MessageTag::Piece, answer);
                if next.length - next.offset < s.length - s.offset {
                    served(next, data)
                } else {
                    Outcome::Send(tag, payload)
                }
            },
            o => o,
        }
    } else {
        Outcome::Fail(DownloadError::UnexpectedMessage { phase: s.phase, got: MessageTag::Piece })
    }
}

proof fn lemma_served(s: DownloadState, data: Seq<u8>)
    requires
        well_formed(s),
        s.phase == Phase::Requesting,
        data.len() == s.length,
        s.received == data.subrange(0, s.offset as int),
    ensures
        served(s, data) == verdict(s.expected, data),
    decreases s.length - s.offset,
{
    let answer = exact_answer(s, data);
    let bl = block_len(s.length, s.offset);
    lemma_be32_round_trip(s.index);
    lemma_be32_round_trip(s.offset);
    assert(answer.subrange(0, 4) =~= be32_bytes(s.index));
    assert(answer.subrange(4, 8) =~= be32_bytes(s.offset));
    assert(answers_request(s, answer));
    let next_offset = s.offset + bl;
    assert(answer.skip(8) =~= data.subrange(s.offset as int, next_offset));
    assert(s.received + answer.skip(8) =~= data.subrange(0, next_offset));
    if next_offset < s.length {
        let next = next_state(s, MessageTag::Piece, answer);
        assert(next.offset == next_offset);
        lemma_served(next, data);
    } else {
        assert(data.subrange(0, next_offset) =~= data);
    }
}

/// A peer that sends a Bitfield, then an Unchoke, then answers each request
/// exactly with the bytes of the piece gets Interested back, then the first
/// request, and the piece comes out unchanged if its digest is the expected
/// one; a checksum mismatch otherwise.
pub proof fn lemma_exact_peer_delivers_piece(
    index: u32,
    expected: Seq<u8>,
    data: Seq<u8>,
    bitfield: Seq<u8>,
    unchoke: Seq<u8>,
)
    requires
        expected.len() == 20,
        0 < data.len() <= u32::MAX,
    ensures
        ({
            let s0 = DownloadState {
                index,
                length: data.len() as u32,
                expected,
                phase: Phase::AwaitBitfield,
                offset: 0,
                received: Seq::empty(),
            };
            let s1 = next_state(s0, MessageTag::Bitfield, bitfield);
            let s2 = next_state(s1, MessageTag::Unchoke, unchoke);
            &&& outcome(s0, MessageTag::Bitfield, bitfield) == Outcome::Send(
                MessageTag::Interested,
                Seq::empty(),
            )
            &&& outcome(s1, MessageTag::Unchoke, unchoke) == request_at(s1, 0)
            &&& served(s2, data) == verdict(expected, data)
        }),
{
    let s0 = DownloadState {
        index,
        length: data.len() as u32,
        expected,
        phase: Phase::AwaitBitfield,
        offset: 0,
        received: Seq::empty(),
    };
    let s1 = next_state(s0, MessageTag::Bitfield, bitfield);
    let s2 = next_state(s1, MessageTag::Unchoke, unchoke);
    assert(s2.received =~= data.subrange(0, 0));
    lemma_served(s2, data);
}

/// Hands out `piece` if `digest`, its SHA-1 digest, equals `expected`; the
/// piece is dropped otherwise.
pub fn verify_piece(piece: Vec<u8>, digest: &[u8; 20], expected: &[u8; 20]) -> (r: Result<
    Vec<u8>,
    DownloadError,
>)
    ensures
        digest@ == expected@ ==> (r matches Ok(v) && v@ == piece@),
        digest@ != expected@ ==> r == Err::<Vec<u8>, DownloadError>(DownloadError::ChecksumMismatch),
{
    let mut i: usize = 0;
    while i < 20
        invariant
            i <= 20,
            forall|j: int| 0 <= j < i ==> digest@[j] == expected@[j],
        decreases 20 - i,
    {
        if digest[i] != expected[i] {
            return Err(DownloadError::ChecksumMismatch);
        }
        i = i + 1;
    }
    assert(digest@ =~= expected@);
    Ok(piece)
}

/// Whether the first four bytes of `a` and `b` agree.
fn same4(a: &[u8; 4], b: &[u8; 4]) -> (r: bool)
    ensures
        r == (a@ == b@),
{
    let r = a[0] == b[0] && a[1] == b[1] && a[2] == b[2] && a[3] == b[3];
    if r {
        assert(a@ =~= b@);
    }
    r
}

/// The acquisition of one piece from a peer that has completed the handshake.
pub struct PieceDownload {
    index: u32,
    length: u32,
    expected: [u8; 20],
    phase: Phase,
    offset: u32,
    buffer: Vec<u8>,
}

impl View for PieceDownload {
    type V = DownloadState;

    closed spec fn view(&self) -> DownloadState {
        DownloadState {
            index: self.index,
            length: self.length,
            expected: self.expected@,
            phase: self.phase,
            offset: self.offset,
            received: self.buffer@,
        }
    }
}

impl PieceDownload {
    /// Starts the acquisition of piece `index`, of `length` bytes, whose
    /// digest must be `expected`.
    pub fn new(index: u32, length: u32, expected: [u8; 20]) -> (r: Self)
        ensures
            r@ == (DownloadState {
                index,
                length,
                expected: expected@,
                phase: Phase::AwaitBitfield,
                offset: 0,
                received: Seq::empty(),
            }),
            well_formed(r@),
    {
        PieceDownload { index, length, expected, phase: Phase::AwaitBitfield, offset: 0, buffer: Vec::new() }
    }

    /// Where the exchange stands.
    pub fn phase(&self) -> (r: Phase)
        ensures
            r == self@.phase,
    {
        self.phase
    }

    fn request(&self, offset: u32) -> (r: Message)
        requires
            offset < self.length,
        ensures
            request_at(self@, offset) == Outcome::Send(r.tag, r.payload@),
    {
        let len = if self.length - offset >= BLOCK_MAX {
            BLOCK_MAX
        } else {
            self.length - offset
        };
        let req = Request::new(self.index, offset, len);
        Message { tag: MessageTag::Request, payload: req.to_bytes() }
    }

    fn fail(&mut self, e: DownloadError) -> (r: Result<Step, DownloadError>)
        ensures
            r == Err::<Step, DownloadError>(e),
            final(self)@ == (DownloadState { phase: Phase::Failed, received: Seq::empty(), ..old(self)@ }),
    {
        self.phase = Phase::Failed;
        self.buffer = Vec::new();
        Err(e)
    }

    fn finish(&mut self) -> (r: Result<Step, DownloadError>)
        ensures
            step_as(r, verdict(old(self)@.expected, old(self)@.received)),
            final(self)@ == match verdict(old(self)@.expected, old(self)@.received) {
                Outcome::Finished(_) => DownloadState {
                    phase: Phase::Done,
                    offset: old(self)@.length,
                    received: Seq::empty(),
                    ..old(self)@
                },
                _ => DownloadState { phase: Phase::Failed, received: Seq::empty(), ..old(self)@ },
            },
    {
        let digest = checksum(self.buffer.as_slice());
        let mut piece: Vec<u8> = Vec::new();
        std::mem::swap(&mut piece, &mut self.buffer);
        match verify_piece(piece, &digest, &self.expected) {
            Ok(v) => {
                self.phase = Phase::Done;
                self.offset = self.length;
                Ok(Step::Finished(v))
            },
            Err(e) => {
                self.phase = Phase::Failed;
                Err(e)
            },
        }
    }

    fn on_piece(&mut self, msg: Message) -> (r: Result<Step, DownloadError>)
        requires
            well_formed(old(self)@),
            old(self)@.phase == Phase::Requesting,
        ensures
            final(self)@ == next_state(old(self)@, msg.tag, msg.payload@),
            step_as(r, outcome(old(self)@, msg.tag, msg.payload@)),
    {
        let ghost s = self@;
        if msg.tag != MessageTag::Piece {
            return self.fail(DownloadError::UnexpectedMessage { phase: Phase::Requesting, got: msg.tag });
        }
        let mismatch = DownloadError::ResponseMismatch { index: self.index, begin: self.offset };
        if msg.payload.len() < 8 {
            return self.fail(mismatch);
        }
        let resp = PieceResponse::from_bytes(msg.payload.as_slice());
        let len = if self.length - self.offset >= BLOCK_MAX {
            BLOCK_MAX
        } else {
            self.length - self.offset
        };
        let want_index = be32_array(self.index);
        let want_begin = be32_array(self.offset);
        if !same4(&resp.index, &want_index) || !same4(&resp.begin, &want_begin) || resp.block.len()
            != len as usize {
            return self.fail(mismatch);
        }
        assert(answers_request(s, msg.payload@));
        assert(resp.block@ =~= msg.payload@.skip(8));
        let mut block = resp.block;
        self.buffer.append(&mut block);
        let next = self.offset + len;
        if next < self.length {
            self.offset = next;
            let r = self.request(next);
            assert(self@ == next_state(s, msg.tag, msg.payload@));
            assert(request_at(s, next) == request_at(self@, next));
            Ok(Step::Send(r))
        } else {
            assert(self@.received == s.received + msg.payload@.skip(8));
            assert(outcome(s, msg.tag, msg.payload@) == verdict(s.expected, self@.received));
            self.finish()
        }
    }

    /// Handles the next message from the peer: a Bitfield first, then an
    /// Unchoke, then for each requested block the Piece that answers it
    /// exactly. Blocks of at most `BLOCK_MAX` bytes are requested one at a
    /// time in ascending order; the last one checks the piece's digest.
    pub fn on_message(&mut self, msg: Message) -> (r: Result<Step, DownloadError>)
        requires
            well_formed(old(self)@),
        ensures
            well_formed(final(self)@),
            final(self)@ == next_state(old(self)@, msg.tag, msg.payload@),
            step_as(r, outcome(old(self)@, msg.tag, msg.payload@)),
    {
        let unexpected = DownloadError::UnexpectedMessage { phase: self.phase, got: msg.tag };
        match self.phase {
            Phase::AwaitBitfield => {
                if msg.tag != MessageTag::Bitfield {
                    return self.fail(unexpected);
                }
                self.phase = Phase::AwaitUnchoke;
                let r = Message { tag: MessageTag::Interested, payload: Vec::new() };
                assert(r.payload@ =~= Seq::<u8>::empty());
                Ok(Step::Send(r))
            },
            Phase::AwaitUnchoke => {
                if msg.tag != MessageTag::Unchoke {
                    return self.fail(unexpected);
                }
                if self.length == 0 {
                    assert(self@.received =~= Seq::<u8>::empty());
                    return self.finish();
                }
                self.phase = Phase::Requesting;
                Ok(Step::Send(self.request(0)))
            },
            Phase::Requesting => self.on_piece(msg),
            _ => self.fail(unexpected),
        }
    }
}

} // verus!
