//! The peer wire protocol: the 68-byte handshake and length-prefixed messages.
use vstd::prelude::*;
use crate::sha1::{be_word, be32_bytes};
use crate::text::{push_all, decimal_chars, with_decimal};
use vstd::string::StringExecFns;

verus! {

/// Why bytes from a peer are refused.
#[derive(Debug, Clone, Copy, PartialEq, Eq)]
pub enum PeerError {
    HandshakeLength { len: usize },
    WrongProtocol,
    MissingLengthPrefix,
    LengthExceedsFrame,
    TrailingBytes,
    NonEmptyPayload { name: &'static str },
    PayloadNot4Bytes { name: &'static str },
    PayloadNot12Bytes { name: &'static str },
    PieceHeaderMissing,
    PortPayloadSize,
    UnknownMessageId { id: u8 },
    PieceIndexOutOfRange { index: u32 },
    BitfieldTooShort,
    EmptyPiece,
}

#[derive(Debug, Clone, Copy, PartialEq, Eq)]
pub struct PeerHandshake {
    pub reserved: [u8; 8],
    pub info_hash: [u8; 20],
    pub peer_id: [u8; 20],
}

#[derive(Debug, Clone, PartialEq, Eq)]
pub enum PeerMessage {
    KeepAlive,
    Choke,
    Unchoke,
    Interested,
    NotInterested,
    Have(u32),
    Bitfield(Vec<u8>),
    Request { index: u32, begin: u32, length: u32 },
    Piece { index: u32, begin: u32, block: Vec<u8> },
    Cancel { index: u32, begin: u32, length: u32 },
    Port(u16),
}

/// A peer message in the abstract.
pub enum PeerMessageView {
    KeepAlive,
    Choke,
    Unchoke,
    Interested,
    NotInterested,
    Have(u32),
    Bitfield(Seq<u8>),
    Request { index: u32, begin: u32, length: u32 },
    Piece { index: u32, begin: u32, block: Seq<u8> },
    Cancel { index: u32, begin: u32, length: u32 },
    Port(u16),
}

impl View for PeerMessage {
    type V = PeerMessageView;

    open spec fn view(&self) -> PeerMessageView {
        match self {
            PeerMessage::KeepAlive => PeerMessageView::KeepAlive,
            PeerMessage::Choke => PeerMessageView::Choke,
            PeerMessage::Unchoke => PeerMessageView::Unchoke,
            PeerMessage::Interested => PeerMessageView::Interested,
            PeerMessage::NotInterested => PeerMessageView::NotInterested,
            PeerMessage::Have(i) => PeerMessageView::Have(*i),
            PeerMessage::Bitfield(b) => PeerMessageView::Bitfield(b@),
            PeerMessage::Request { index, begin, length } => PeerMessageView::Request {
                index: *index,
                begin: *begin,
                length: *length,
            },
            PeerMessage::Piece { index, begin, block } => PeerMessageView::Piece {
                index: *index,
                begin: *begin,
                block: block@,
            },
            PeerMessage::Cancel { index, begin, length } => PeerMessageView::Cancel {
                index: *index,
                begin: *begin,
                length: *length,
            },
            PeerMessage::Port(p) => PeerMessageView::Port(*p),
        }
    }
}

// ---------------------------------------------------------------------------
// Handshake
// ---------------------------------------------------------------------------

/// `BitTorrent protocol`
pub open spec fn protocol_name() -> Seq<u8> {
    seq![66u8, 105, 116, 84, 111, 114, 114, 101, 110, 116, 32, 112, 114, 111, 116, 111, 99, 111, 108]
}

/// The handshake bytes: `19`, the protocol name, eight reserved zero bytes, the info hash and the peer id.
pub open spec fn spec_handshake(info_hash: Seq<u8>, peer_id: Seq<u8>) -> Seq<u8> {
    seq![19u8] + protocol_name() + Seq::new(8, |i: int| 0u8) + info_hash + peer_id
}

pub fn build_peer_handshake(info_hash: &[u8; 20], peer_id: &[u8; 20]) -> (h: [u8; 68])
    ensures
        h@ == spec_handshake(info_hash@, peer_id@),
{
    let mut handshake = [0u8; 68];
    let protocol: [u8; 19] = [66, 105, 116, 84, 111, 114, 114, 101, 110, 116, 32, 112, 114, 111, 116, 111, 99, 111, 108];
    handshake[0] = 19u8;
    let mut i: usize = 0;
    while i < 19
        invariant
            i <= 19,
            protocol@ == protocol_name(),
            handshake@[0] == 19u8,
            forall|j: int| 1 <= j < 1 + i ==> handshake@[j] == protocol@[j - 1],
            forall|j: int| 1 + i <= j < 68 ==> handshake@[j] == 0u8,
        decreases 19 - i,
    {
        handshake[1 + i] = protocol[i];
        i = i + 1;
    }
    let mut k: usize = 0;
    while k < 20
        invariant
            k <= 20,
            protocol@ == protocol_name(),
            handshake@[0] == 19u8,
            forall|j: int| 1 <= j < 20 ==> handshake@[j] == protocol@[j - 1],
            forall|j: int| 20 <= j < 28 ==> handshake@[j] == 0u8,
            forall|j: int| 28 <= j < 28 + k ==> handshake@[j] == info_hash@[j - 28],
            forall|j: int| 48 <= j < 48 + k ==> handshake@[j] == peer_id@[j - 48],
            forall|j: int| 28 + k <= j < 48 ==> handshake@[j] == 0u8,
            forall|j: int| 48 + k <= j < 68 ==> handshake@[j] == 0u8,
        decreases 20 - k,
    {
        handshake[28 + k] = info_hash[k];
        handshake[48 + k] = peer_id[k];
        k = k + 1;
    }
    assert(handshake@ =~= spec_handshake(info_hash@, peer_id@));
    handshake
}

/// What a 68-byte handshake carries, or why it is refused.
pub open spec fn spec_parse_handshake(bytes: Seq<u8>) -> Result<(Seq<u8>, Seq<u8>, Seq<u8>), PeerError> {
    if bytes.len() != 68 {
        Err(PeerError::HandshakeLength { len: bytes.len() as usize })
    } else if bytes[0] != 19 || bytes.subrange(1, 20) != protocol_name() {
        Err(PeerError::WrongProtocol)
    } else {
        Ok((bytes.subrange(20, 28), bytes.subrange(28, 48), bytes.subrange(48, 68)))
    }
}

pub fn parse_peer_handshake(bytes: &[u8]) -> (r: Result<PeerHandshake, PeerError>)
    ensures
        match (r, spec_parse_handshake(bytes@)) {
            (Ok(h), Ok((reserved, info_hash, peer_id))) => h.reserved@ == reserved && h.info_hash@ == info_hash
                && h.peer_id@ == peer_id,
            (Err(e1), Err(e2)) => e1 == e2,
            _ => false,
        },
{
    if bytes.len() != 68 {
        return Err(PeerError::HandshakeLength { len: bytes.len() });
    }
    let protocol: [u8; 19] = [66, 105, 116, 84, 111, 114, 114, 101, 110, 116, 32, 112, 114, 111, 116, 111, 99, 111, 108];
    assert(protocol@ == protocol_name());
    if bytes[0] != 19u8 || !crate::text::bytes_equal(&bytes[1..20], protocol.as_slice()) {
        return Err(PeerError::WrongProtocol);
    }
    let mut reserved = [0u8; 8];
    let mut info_hash = [0u8; 20];
    let mut peer_id = [0u8; 20];
    let mut i: usize = 0;
    while i < 8
        invariant
            i <= 8,
            bytes@.len() == 68,
            forall|j: int| 0 <= j < i ==> reserved@[j] == bytes@[20 + j],
        decreases 8 - i,
    {
        reserved[i] = bytes[20 + i];
        i = i + 1;
    }
    let mut k: usize = 0;
    while k < 20
        invariant
            k <= 20,
            bytes@.len() == 68,
            forall|j: int| 0 <= j < k ==> info_hash@[j] == bytes@[28 + j],
            forall|j: int| 0 <= j < k ==> peer_id@[j] == bytes@[48 + j],
        decreases 20 - k,
    {
        info_hash[k] = bytes[28 + k];
        peer_id[k] = bytes[48 + k];
        k = k + 1;
    }
    assert(reserved@ =~= bytes@.subrange(20, 28));
    assert(info_hash@ =~= bytes@.subrange(28, 48));
    assert(peer_id@ =~= bytes@.subrange(48, 68));
    Ok(PeerHandshake { reserved, info_hash, peer_id })
}

impl PeerHandshake {
    /// Whether the peer answered for the torrent we asked about.
    pub fn matches_info_hash(&self, info_hash: &[u8; 20]) -> (r: bool)
        ensures
            r == (self.info_hash@ == info_hash@),
    {
        crate::text::bytes_equal(self.info_hash.as_slice(), info_hash.as_slice())
    }
}

/// Parsing a handshake gives back what was put into it, with zero reserved bytes.
pub proof fn law_handshake_roundtrip(info_hash: Seq<u8>, peer_id: Seq<u8>)
    requires
        info_hash.len() == 20,
        peer_id.len() == 20,
    ensures
        spec_parse_handshake(spec_handshake(info_hash, peer_id)) == Ok::<(Seq<u8>, Seq<u8>, Seq<u8>), PeerError>(
            (Seq::new(8, |i: int| 0u8), info_hash, peer_id),
        ),
{
    let h = spec_handshake(info_hash, peer_id);
    assert(h.subrange(1, 20) =~= protocol_name());
    assert(h.subrange(20, 28) =~= Seq::new(8, |i: int| 0u8));
    assert(h.subrange(28, 48) =~= info_hash);
    assert(h.subrange(48, 68) =~= peer_id);
}


// ---------------------------------------------------------------------------
// Message frames
// ---------------------------------------------------------------------------

pub open spec fn be16_bytes(v: u16) -> Seq<u8> {
    seq![(v >> 8u16) as u8, v as u8]
}

pub open spec fn be16_at(b: Seq<u8>, i: int) -> u16 {
    ((b[i] as u16) << 8u16) | (b[i + 1] as u16)
}

/// The four-byte big-endian length prefix for a body of `n` bytes (kept to 32 bits).
pub open spec fn length_prefix(n: nat) -> Seq<u8> {
    be32_bytes((n % 0x1_0000_0000) as u32)
}

/// A frame: the length prefix, the message id and the payload.
pub open spec fn spec_frame(id: u8, payload: Seq<u8>) -> Seq<u8> {
    length_prefix(1 + payload.len()) + seq![id] + payload
}

/// The big-endian bytes of each value, one after another.
pub open spec fn be32_concat(vs: Seq<u32>) -> Seq<u8>
    decreases vs.len(),
{
    if vs.len() == 0 {
        Seq::empty()
    } else {
        be32_concat(vs.drop_last()) + be32_bytes(vs.last())
    }
}

pub open spec fn three_words(a: u32, b: u32, c: u32) -> Seq<u8> {
    be32_bytes(a) + be32_bytes(b) + be32_bytes(c)
}

/// The bytes a message is sent as.
pub open spec fn spec_encode(m: PeerMessageView) -> Seq<u8> {
    match m {
        PeerMessageView::KeepAlive => be32_bytes(0),
        PeerMessageView::Choke => spec_frame(0, Seq::empty()),
        PeerMessageView::Unchoke => spec_frame(1, Seq::empty()),
        PeerMessageView::Interested => spec_frame(2, Seq::empty()),
        PeerMessageView::NotInterested => spec_frame(3, Seq::empty()),
        PeerMessageView::Have(i) => spec_frame(4, be32_bytes(i)),
        PeerMessageView::Bitfield(b) => spec_frame(5, b),
        PeerMessageView::Request { index, begin, length } => spec_frame(6, three_words(index, begin, length)),
        PeerMessageView::Piece { index, begin, block } => spec_frame(7, be32_bytes(index) + be32_bytes(begin) + block),
        PeerMessageView::Cancel { index, begin, length } => spec_frame(8, three_words(index, begin, length)),
        PeerMessageView::Port(p) => spec_frame(9, be16_bytes(p)),
    }
}

/// The payload length a message is sent with (after its id byte).
pub open spec fn payload_len(m: PeerMessageView) -> nat {
    match m {
        PeerMessageView::Have(_) => 4,
        PeerMessageView::Bitfield(b) => b.len(),
        PeerMessageView::Request { .. } => 12,
        PeerMessageView::Piece { block, .. } => 8 + block.len(),
        PeerMessageView::Cancel { .. } => 12,
        PeerMessageView::Port(_) => 2,
        _ => 0,
    }
}

/// Whether the message's length fits the 32-bit length prefix.
pub open spec fn fits_frame(m: PeerMessageView) -> bool {
    1 + payload_len(m) <= u32::MAX
}

/// The message a frame holds, or why it is refused.
pub open spec fn spec_decode(frame: Seq<u8>) -> Result<PeerMessageView, PeerError> {
    if frame.len() < 4 {
        Err(PeerError::MissingLengthPrefix)
    } else {
        let length = be_word(frame, 0) as int;
        if 4 + length > frame.len() {
            Err(PeerError::LengthExceedsFrame)
        } else if frame.len() != 4 + length {
            Err(PeerError::TrailingBytes)
        } else if length == 0 {
            Ok(PeerMessageView::KeepAlive)
        } else {
            let id = frame[4];
            let p = frame.subrange(5, frame.len() as int);
            if id == 0 {
                if p.len() == 0 { Ok(PeerMessageView::Choke) } else { Err(PeerError::NonEmptyPayload { name: "choke" }) }
            } else if id == 1 {
                if p.len() == 0 { Ok(PeerMessageView::Unchoke) } else { Err(PeerError::NonEmptyPayload { name: "unchoke" }) }
            } else if id == 2 {
                if p.len() == 0 {
                    Ok(PeerMessageView::Interested)
                } else {
                    Err(PeerError::NonEmptyPayload { name: "interested" })
                }
            } else if id == 3 {
                if p.len() == 0 {
                    Ok(PeerMessageView::NotInterested)
                } else {
                    Err(PeerError::NonEmptyPayload { name: "not interested" })
                }
            } else if id == 4 {
                if p.len() == 4 { Ok(PeerMessageView::Have(be_word(p, 0))) } else { Err(PeerError::PayloadNot4Bytes { name: "have" }) }
            } else if id == 5 {
                Ok(PeerMessageView::Bitfield(p))
            } else if id == 6 {
                if p.len() == 12 {
                    Ok(PeerMessageView::Request { index: be_word(p, 0), begin: be_word(p, 4), length: be_word(p, 8) })
                } else {
                    Err(PeerError::PayloadNot12Bytes { name: "request" })
                }
            } else if id == 7 {
                if p.len() < 8 {
                    Err(PeerError::PieceHeaderMissing)
                } else {
                    Ok(PeerMessageView::Piece { index: be_word(p, 0), begin: be_word(p, 4), block: p.subrange(8, p.len() as int) })
                }
            } else if id == 8 {
                if p.len() == 12 {
                    Ok(PeerMessageView::Cancel { index: be_word(p, 0), begin: be_word(p, 4), length: be_word(p, 8) })
                } else {
                    Err(PeerError::PayloadNot12Bytes { name: "cancel" })
                }
            } else if id == 9 {
                if p.len() == 2 { Ok(PeerMessageView::Port(be16_at(p, 0))) } else { Err(PeerError::PortPayloadSize) }
            } else {
                Err(PeerError::UnknownMessageId { id })
            }
        }
    }
}

pub proof fn lemma_be32_roundtrip(v: u32)
    ensures
        be_word(be32_bytes(v), 0) == v,
{
    let b0 = (v >> 24u32) as u8;
    let b1 = (v >> 16u32) as u8;
    let b2 = (v >> 8u32) as u8;
    let b3 = v as u8;
    assert((((b0 as u32) << 24u32) | ((b1 as u32) << 16u32) | ((b2 as u32) << 8u32) | (b3 as u32)) == v) by (bit_vector)
        requires b0 == (v >> 24u32) as u8, b1 == (v >> 16u32) as u8, b2 == (v >> 8u32) as u8, b3 == v as u8;
}

pub proof fn lemma_be16_roundtrip(v: u16)
    ensures
        be16_at(be16_bytes(v), 0) == v,
{
    let b0 = (v >> 8u16) as u8;
    let b1 = v as u8;
    assert((((b0 as u16) << 8u16) | (b1 as u16)) == v) by (bit_vector)
        requires b0 == (v >> 8u16) as u8, b1 == v as u8;
}

proof fn lemma_be_word_shift(prefix: Seq<u8>, rest: Seq<u8>, i: int)
    requires
        0 <= i,
        i + 4 <= rest.len(),
    ensures
        be_word(prefix + rest, prefix.len() + i) == be_word(rest, i),
{
    let s = prefix + rest;
    assert(s[prefix.len() + i] == rest[i]);
    assert(s[prefix.len() + i + 1] == rest[i + 1]);
    assert(s[prefix.len() + i + 2] == rest[i + 2]);
    assert(s[prefix.len() + i + 3] == rest[i + 3]);
}

/// Decoding the bytes a message is sent as gives back the message, whenever
/// its length fits the 32-bit length prefix.
proof fn lemma_decode_encode(m: PeerMessageView)
    requires
        fits_frame(m),
    ensures
        spec_decode(spec_encode(m)) == Ok::<PeerMessageView, PeerError>(m),
{
    let f = spec_encode(m);
    match m {
        PeerMessageView::KeepAlive => {
            lemma_be32_roundtrip(0);
        },
        _ => {
            let n = (1 + payload_len(m)) as nat;
            assert(n % 0x1_0000_0000 == n);
            lemma_be32_roundtrip(n as u32);
            let payload: Seq<u8> = f.subrange(5, f.len() as int);
            assert(f.subrange(0, 4) == length_prefix(n));
            assert(be_word(f, 0) == be_word(length_prefix(n), 0));
            match m {
                PeerMessageView::Have(i) => {
                    assert(payload =~= be32_bytes(i));
                    lemma_be32_roundtrip(i);
                },
                PeerMessageView::Bitfield(b) => {
                    assert(payload =~= b);
                },
                PeerMessageView::Request { index, begin, length } => {
                    assert(payload =~= three_words(index, begin, length));
                    lemma_be32_roundtrip(index);
                    lemma_be32_roundtrip(begin);
                    lemma_be32_roundtrip(length);
                    lemma_be_word_shift(be32_bytes(index), be32_bytes(begin) + be32_bytes(length), 0);
                    lemma_be_word_shift(be32_bytes(index) + be32_bytes(begin), be32_bytes(length), 0);
                    assert(be32_bytes(index) + be32_bytes(begin) + be32_bytes(length) =~= be32_bytes(index) + (
                    be32_bytes(begin) + be32_bytes(length)));
                },
                PeerMessageView::Piece { index, begin, block } => {
                    assert(payload =~= be32_bytes(index) + be32_bytes(begin) + block);
                    lemma_be32_roundtrip(index);
                    lemma_be32_roundtrip(begin);
                    lemma_be_word_shift(be32_bytes(index), be32_bytes(begin) + block, 0);
                    assert(be32_bytes(index) + be32_bytes(begin) + block =~= be32_bytes(index) + (be32_bytes(begin)
                        + block));
                    assert(payload.subrange(8, payload.len() as int) =~= block);
                },
                PeerMessageView::Cancel { index, begin, length } => {
                    assert(payload =~= three_words(index, begin, length));
                    lemma_be32_roundtrip(index);
                    lemma_be32_roundtrip(begin);
                    lemma_be32_roundtrip(length);
                    lemma_be_word_shift(be32_bytes(index), be32_bytes(begin) + be32_bytes(length), 0);
                    lemma_be_word_shift(be32_bytes(index) + be32_bytes(begin), be32_bytes(length), 0);
                    assert(be32_bytes(index) + be32_bytes(begin) + be32_bytes(length) =~= be32_bytes(index) + (
                    be32_bytes(begin) + be32_bytes(length)));
                },
                PeerMessageView::Port(p) => {
                    assert(payload =~= be16_bytes(p));
                    lemma_be16_roundtrip(p);
                },
                _ => {
                    assert(payload =~= Seq::<u8>::empty());
                },
            }
        },
    }
}


// ---------------------------------------------------------------------------
// Encoding and decoding
// ---------------------------------------------------------------------------

fn push_be32(out: &mut Vec<u8>, v: u32)
    ensures
        final(out)@ == old(out)@ + be32_bytes(v),
{
    out.push((v >> 24u32) as u8);
    out.push((v >> 16u32) as u8);
    out.push((v >> 8u32) as u8);
    out.push(v as u8);
    assert(final(out)@ =~= old(out)@ + be32_bytes(v));
}

/// A frame with the given id and payload.
pub fn encode_message(message_id: u8, payload: &[u8]) -> (frame: Vec<u8>)
    requires
        payload@.len() + 5 <= usize::MAX,
    ensures
        frame@ == spec_frame(message_id, payload@),
{
    let length = 1 + payload.len();
    let mut frame: Vec<u8> = Vec::new();
    let prefix: u32 = (length as u64 % 0x1_0000_0000u64) as u32;
    push_be32(&mut frame, prefix);
    frame.push(message_id);
    push_all(&mut frame, payload);
    assert(frame@ =~= spec_frame(message_id, payload@));
    frame
}

/// The big-endian bytes of each value, one after another.
pub fn concat_u32s(values: &[u32]) -> (bytes: Vec<u8>)
    ensures
        bytes@ == be32_concat(values@),
{
    let mut bytes: Vec<u8> = Vec::new();
    let mut i: usize = 0;
    while i < values.len()
        invariant
            i <= values.len(),
            bytes@ == be32_concat(values@.take(i as int)),
        decreases values.len() - i,
    {
        push_be32(&mut bytes, values[i]);
        assert(values@.take(i + 1).drop_last() =~= values@.take(i as int));
        i = i + 1;
    }
    assert(values@.take(i as int) =~= values@);
    bytes
}

proof fn lemma_three_words(a: u32, b: u32, c: u32)
    ensures
        be32_concat(seq![a, b, c]) == three_words(a, b, c),
{
    let s = seq![a, b, c];
    let s2 = seq![a, b];
    let s1 = seq![a];
    assert(s.drop_last() =~= s2);
    assert(s2.drop_last() =~= s1);
    assert(s1.drop_last() =~= Seq::<u32>::empty());
    assert(be32_concat(Seq::<u32>::empty()) == Seq::<u8>::empty());
    assert(be32_concat(s1) == be32_concat(s1.drop_last()) + be32_bytes(a));
    assert(be32_concat(s1) =~= be32_bytes(a));
    assert(be32_concat(s2) == be32_concat(s1) + be32_bytes(b));
    assert(be32_concat(s) == be32_concat(s2) + be32_bytes(c));
}

/// The big-endian word at the start of `bytes`.
pub fn read_u32(bytes: &[u8]) -> (v: u32)
    requires
        bytes@.len() >= 4,
    ensures
        v == be_word(bytes@, 0),
{
    ((bytes[0] as u32) << 24u32) | ((bytes[1] as u32) << 16u32) | ((bytes[2] as u32) << 8u32) | (bytes[3] as u32)
}

pub fn expect_empty_payload(payload: &[u8], name: &'static str) -> (r: Result<(), PeerError>)
    ensures
        payload@.len() == 0 ==> r is Ok,
        payload@.len() != 0 ==> r == Err::<(), PeerError>(PeerError::NonEmptyPayload { name }),
{
    if payload.len() != 0 {
        return Err(PeerError::NonEmptyPayload { name });
    }
    Ok(())
}

pub fn read_u32_payload(payload: &[u8], name: &'static str) -> (r: Result<u32, PeerError>)
    ensures
        payload@.len() == 4 ==> r == Ok::<u32, PeerError>(be_word(payload@, 0)),
        payload@.len() != 4 ==> r == Err::<u32, PeerError>(PeerError::PayloadNot4Bytes { name }),
{
    if payload.len() != 4 {
        return Err(PeerError::PayloadNot4Bytes { name });
    }
    Ok(read_u32(payload))
}

pub fn read_three_u32_payload(payload: &[u8], name: &'static str) -> (r: Result<[u32; 3], PeerError>)
    ensures
        payload@.len() == 12 ==> r is Ok && r.unwrap()@ == seq![be_word(payload@, 0), be_word(payload@, 4), be_word(payload@, 8)],
        payload@.len() != 12 ==> r == Err::<[u32; 3], PeerError>(PeerError::PayloadNot12Bytes { name }),
{
    if payload.len() != 12 {
        return Err(PeerError::PayloadNot12Bytes { name });
    }
    let a = read_u32(&payload[0..4]);
    let b = read_u32(&payload[4..8]);
    let c = read_u32(&payload[8..12]);
    let r: [u32; 3] = [a, b, c];
    assert(r@ =~= seq![be_word(payload@, 0), be_word(payload@, 4), be_word(payload@, 8)]);
    Ok(r)
}

impl PeerMessage {
    /// Whether the message can be held in memory as a frame.
    pub open spec fn encodable(&self) -> bool {
        payload_len(self@) + 5 <= usize::MAX
    }

    pub fn encode(&self) -> (frame: Vec<u8>)
        requires
            self.encodable(),
        ensures
            frame@ == spec_encode(self@),
    {
        match self {
            PeerMessage::KeepAlive => {
                let mut frame: Vec<u8> = Vec::new();
                push_be32(&mut frame, 0);
                frame
            },
            PeerMessage::Choke => encode_message(0, &[]),
            PeerMessage::Unchoke => encode_message(1, &[]),
            PeerMessage::Interested => encode_message(2, &[]),
            PeerMessage::NotInterested => encode_message(3, &[]),
            PeerMessage::Have(index) => {
                let mut payload: Vec<u8> = Vec::new();
                push_be32(&mut payload, *index);
                encode_message(4, payload.as_slice())
            },
            PeerMessage::Bitfield(bitfield) => encode_message(5, bitfield.as_slice()),
            PeerMessage::Request { index, begin, length } => {
                let values: [u32; 3] = [*index, *begin, *length];
                proof {
                    lemma_three_words(*index, *begin, *length);
                }
                assert(values@ =~= seq![*index, *begin, *length]);
                let payload = concat_u32s(values.as_slice());
                encode_message(6, payload.as_slice())
            },
            PeerMessage::Piece { index, begin, block } => {
                let mut payload: Vec<u8> = Vec::new();
                push_be32(&mut payload, *index);
                push_be32(&mut payload, *begin);
                push_all(&mut payload, block.as_slice());
                encode_message(7, payload.as_slice())
            },
            PeerMessage::Cancel { index, begin, length } => {
                let values: [u32; 3] = [*index, *begin, *length];
                proof {
                    lemma_three_words(*index, *begin, *length);
                }
                assert(values@ =~= seq![*index, *begin, *length]);
                let payload = concat_u32s(values.as_slice());
                encode_message(8, payload.as_slice())
            },
            PeerMessage::Port(port) => {
                let payload: [u8; 2] = [(*port >> 8u16) as u8, *port as u8];
                assert(payload@ =~= be16_bytes(*port));
                encode_message(9, payload.as_slice())
            },
        }
    }

    /// The message a frame holds.
    pub fn decode(frame: &[u8]) -> (r: Result<PeerMessage, PeerError>)
        requires
            frame@.len() >= 4 ==> 4 + be_word(frame@, 0) <= usize::MAX,
        ensures
            match (r, spec_decode(frame@)) {
                (Ok(m), Ok(v)) => m@ == v,
                (Err(e1), Err(e2)) => e1 == e2,
                _ => false,
            },
    {
        if frame.len() < 4 {
            return Err(PeerError::MissingLengthPrefix);
        }
        let length = read_u32(frame) as usize;
        if 4 + length > frame.len() {
            return Err(PeerError::LengthExceedsFrame);
        }
        if frame.len() != 4 + length {
            return Err(PeerError::TrailingBytes);
        }
        if length == 0 {
            return Ok(PeerMessage::KeepAlive);
        }
        let message_id = frame[4];
        let payload: &[u8] = &frame[5..frame.len()];
        if message_id == 0 {
            match expect_empty_payload(payload, "choke") {
                Ok(()) => Ok(PeerMessage::Choke),
                Err(e) => Err(e),
            }
        } else if message_id == 1 {
            match expect_empty_payload(payload, "unchoke") {
                Ok(()) => Ok(PeerMessage::Unchoke),
                Err(e) => Err(e),
            }
        } else if message_id == 2 {
            match expect_empty_payload(payload, "interested") {
                Ok(()) => Ok(PeerMessage::Interested),
                Err(e) => Err(e),
            }
        } else if message_id == 3 {
            match expect_empty_payload(payload, "not interested") {
                Ok(()) => Ok(PeerMessage::NotInterested),
                Err(e) => Err(e),
            }
        } else if message_id == 4 {
            match read_u32_payload(payload, "have") {
                Ok(v) => Ok(PeerMessage::Have(v)),
                Err(e) => Err(e),
            }
        } else if message_id == 5 {
            Ok(PeerMessage::Bitfield(vstd::slice::slice_to_vec(payload)))
        } else if message_id == 6 {
            match read_three_u32_payload(payload, "request") {
                Ok(v) => Ok(PeerMessage::Request { index: v[0], begin: v[1], length: v[2] }),
                Err(e) => Err(e),
            }
        } else if message_id == 7 {
            if payload.len() < 8 {
                return Err(PeerError::PieceHeaderMissing);
            }
            let index = read_u32(&payload[0..4]);
            let begin = read_u32(&payload[4..8]);
            let block = vstd::slice::slice_to_vec(&payload[8..payload.len()]);
            Ok(PeerMessage::Piece { index, begin, block })
        } else if message_id == 8 {
            match read_three_u32_payload(payload, "cancel") {
                Ok(v) => Ok(PeerMessage::Cancel { index: v[0], begin: v[1], length: v[2] }),
                Err(e) => Err(e),
            }
        } else if message_id == 9 {
            if payload.len() != 2 {
                return Err(PeerError::PortPayloadSize);
            }
            Ok(PeerMessage::Port(((payload[0] as u16) << 8u16) | (payload[1] as u16)))
        } else {
            Err(PeerError::UnknownMessageId { id: message_id })
        }
    }
}

/// Decoding what `encode` produced gives back the same message, whenever its
/// length fits the 32-bit length prefix.
pub proof fn law_decode_inverts_encode(m: PeerMessageView)
    requires
        fits_frame(m),
    ensures
        spec_decode(spec_encode(m)) == Ok::<PeerMessageView, PeerError>(m),
{
    lemma_decode_encode(m);
}


/// The four bytes at `i` are the big-endian bytes of the word read there.
proof fn lemma_bytes_of_be_word(b: Seq<u8>, i: int)
    requires
        0 <= i,
        i + 4 <= b.len(),
    ensures
        be32_bytes(be_word(b, i)) == b.subrange(i, i + 4),
{
    let (x0, x1, x2, x3) = (b[i], b[i + 1], b[i + 2], b[i + 3]);
    let w = be_word(b, i);
    assert(w == ((x0 as u32) << 24u32) | ((x1 as u32) << 16u32) | ((x2 as u32) << 8u32) | (x3 as u32));
    assert((w >> 24u32) as u8 == x0 && (w >> 16u32) as u8 == x1 && (w >> 8u32) as u8 == x2 && w as u8 == x3)
        by (bit_vector)
        requires
            w == ((x0 as u32) << 24u32) | ((x1 as u32) << 16u32) | ((x2 as u32) << 8u32) | (x3 as u32);
    assert(be32_bytes(w) =~= b.subrange(i, i + 4));
}

/// The two bytes at the start are the big-endian bytes of the port read there.
proof fn lemma_bytes_of_be16(b: Seq<u8>)
    requires
        b.len() == 2,
    ensures
        be16_bytes(be16_at(b, 0)) == b,
{
    let (x0, x1) = (b[0], b[1]);
    let w = be16_at(b, 0);
    assert(w == ((x0 as u16) << 8u16) | (x1 as u16));
    assert((w >> 8u16) as u8 == x0 && w as u8 == x1) by (bit_vector)
        requires
            w == ((x0 as u16) << 8u16) | (x1 as u16);
    assert(be16_bytes(w) =~= b);
}

/// Encoding what a frame decodes to gives back the frame.
proof fn lemma_encode_decode(f: Seq<u8>)
    requires
        spec_decode(f) is Ok,
    ensures
        spec_encode(spec_decode(f)->Ok_0) == f,
        fits_frame(spec_decode(f)->Ok_0),
{
    let m = spec_decode(f)->Ok_0;
    let len = be_word(f, 0);
    lemma_bytes_of_be_word(f, 0);
    if len == 0 {
        assert(f =~= f.subrange(0, 4));
    } else {
        let p = f.subrange(5, f.len() as int);
        assert(payload_len(m) == p.len()) by {
            match m {
                PeerMessageView::Piece { block, .. } => {
                    assert(block == p.subrange(8, p.len() as int));
                },
                _ => {},
            }
        }
        assert(length_prefix((1 + payload_len(m)) as nat) == f.subrange(0, 4));
        let payload: Seq<u8> = match m {
            PeerMessageView::Have(i) => {
                lemma_bytes_of_be_word(p, 0);
                assert(p =~= p.subrange(0, 4));
                be32_bytes(i)
            },
            PeerMessageView::Bitfield(b) => b,
            PeerMessageView::Request { index, begin, length } => {
                lemma_bytes_of_be_word(p, 0);
                lemma_bytes_of_be_word(p, 4);
                lemma_bytes_of_be_word(p, 8);
                assert(p =~= p.subrange(0, 4) + p.subrange(4, 8) + p.subrange(8, 12));
                three_words(index, begin, length)
            },
            PeerMessageView::Piece { index, begin, block } => {
                lemma_bytes_of_be_word(p, 0);
                lemma_bytes_of_be_word(p, 4);
                assert(p =~= p.subrange(0, 4) + p.subrange(4, 8) + p.subrange(8, p.len() as int));
                be32_bytes(index) + be32_bytes(begin) + block
            },
            PeerMessageView::Cancel { index, begin, length } => {
                lemma_bytes_of_be_word(p, 0);
                lemma_bytes_of_be_word(p, 4);
                lemma_bytes_of_be_word(p, 8);
                assert(p =~= p.subrange(0, 4) + p.subrange(4, 8) + p.subrange(8, 12));
                three_words(index, begin, length)
            },
            PeerMessageView::Port(q) => {
                lemma_bytes_of_be16(p);
                be16_bytes(q)
            },
            _ => Seq::empty(),
        };
        assert(payload =~= p);
        assert(f =~= f.subrange(0, 4) + seq![f[4]] + p);
    }
}

/// A frame decodes to a message exactly when it is that message's encoding
/// (for every message whose length fits the 32-bit length prefix, and only
/// such messages are ever decoded).
pub proof fn law_decode_exactly_encodings(f: Seq<u8>, m: PeerMessageView)
    ensures
        spec_decode(f) matches Ok(d) ==> fits_frame(d),
        fits_frame(m) ==> (spec_decode(f) == Ok::<PeerMessageView, PeerError>(m) <==> spec_encode(m) == f),
{
    if spec_decode(f) is Ok {
        lemma_encode_decode(f);
    }
    if fits_frame(m) {
        lemma_decode_encode(m);
    }
}

/// The big-endian word written at position `a.len()` reads back.
proof fn lemma_word_at(a: Seq<u8>, v: u32, b: Seq<u8>)
    ensures
        be_word(a + be32_bytes(v) + b, a.len() as int) == v,
{
    let x = a + be32_bytes(v) + b;
    let k = a.len() as int;
    assert(x[k] == be32_bytes(v)[0] && x[k + 1] == be32_bytes(v)[1]);
    assert(x[k + 2] == be32_bytes(v)[2] && x[k + 3] == be32_bytes(v)[3]);
    lemma_be32_roundtrip(v);
}

/// Where each field of a message stands in the bytes it is sent as: a 4-byte
/// big-endian length counting the id and payload (zero for keep-alive), the
/// id byte, then the payload — a `have` index; the bitfield bytes; a request's
/// or cancel's index, begin and length in that order; a piece's index, begin,
/// then its block; a port in two big-endian bytes.
pub proof fn law_wire_layout(m: PeerMessageView)
    requires
        fits_frame(m),
    ensures
        ({
            let f = spec_encode(m);
            match m {
                PeerMessageView::KeepAlive => f.len() == 4 && be_word(f, 0) == 0,
                PeerMessageView::Choke => f.len() == 5 && be_word(f, 0) == 1 && f[4] == 0,
                PeerMessageView::Unchoke => f.len() == 5 && be_word(f, 0) == 1 && f[4] == 1,
                PeerMessageView::Interested => f.len() == 5 && be_word(f, 0) == 1 && f[4] == 2,
                PeerMessageView::NotInterested => f.len() == 5 && be_word(f, 0) == 1 && f[4] == 3,
                PeerMessageView::Have(i) => f.len() == 9 && be_word(f, 0) == 5 && f[4] == 4 && be_word(f, 5) == i,
                PeerMessageView::Bitfield(b) => f.len() == 5 + b.len() && be_word(f, 0) == 1 + b.len() && f[4] == 5
                    && f.subrange(5, f.len() as int) == b,
                PeerMessageView::Request { index, begin, length } => f.len() == 17 && be_word(f, 0) == 13 && f[4]
                    == 6 && be_word(f, 5) == index && be_word(f, 9) == begin && be_word(f, 13) == length,
                PeerMessageView::Piece { index, begin, block } => f.len() == 13 + block.len() && be_word(f, 0) == 9
                    + block.len() && f[4] == 7 && be_word(f, 5) == index && be_word(f, 9) == begin && f.subrange(
                    13,
                    f.len() as int,
                ) == block,
                PeerMessageView::Cancel { index, begin, length } => f.len() == 17 && be_word(f, 0) == 13 && f[4]
                    == 8 && be_word(f, 5) == index && be_word(f, 9) == begin && be_word(f, 13) == length,
                PeerMessageView::Port(p) => f.len() == 7 && be_word(f, 0) == 3 && f[4] == 9 && f[5] == (p >> 8u16) as u8
                    && f[6] == p as u8,
            }
        }),
{
    let f = spec_encode(m);
    match m {
        PeerMessageView::KeepAlive => {
            lemma_word_at(Seq::empty(), 0, Seq::empty());
            assert(Seq::<u8>::empty() + be32_bytes(0) + Seq::<u8>::empty() =~= f);
        },
        _ => {
            let n = (1 + payload_len(m)) as nat;
            assert(n % 0x1_0000_0000 == n);
            let rest = f.subrange(4, f.len() as int);
            assert(f =~= Seq::<u8>::empty() + be32_bytes(n as u32) + rest);
            lemma_word_at(Seq::empty(), n as u32, rest);
            let h = length_prefix(n) + seq![f[4]];
            match m {
                PeerMessageView::Have(i) => {
                    assert(f =~= h + be32_bytes(i) + Seq::<u8>::empty());
                    lemma_word_at(h, i, Seq::empty());
                },
                PeerMessageView::Request { index, begin, length } => {
                    assert(f =~= h + be32_bytes(index) + (be32_bytes(begin) + be32_bytes(length)));
                    lemma_word_at(h, index, be32_bytes(begin) + be32_bytes(length));
                    assert(f =~= (h + be32_bytes(index)) + be32_bytes(begin) + be32_bytes(length));
                    lemma_word_at(h + be32_bytes(index), begin, be32_bytes(length));
                    assert(f =~= (h + be32_bytes(index) + be32_bytes(begin)) + be32_bytes(length) + Seq::<u8>::empty());
                    lemma_word_at(h + be32_bytes(index) + be32_bytes(begin), length, Seq::empty());
                },
                PeerMessageView::Cancel { index, begin, length } => {
                    assert(f =~= h + be32_bytes(index) + (be32_bytes(begin) + be32_bytes(length)));
                    lemma_word_at(h, index, be32_bytes(begin) + be32_bytes(length));
                    assert(f =~= (h + be32_bytes(index)) + be32_bytes(begin) + be32_bytes(length));
                    lemma_word_at(h + be32_bytes(index), begin, be32_bytes(length));
                    assert(f =~= (h + be32_bytes(index) + be32_bytes(begin)) + be32_bytes(length) + Seq::<u8>::empty());
                    lemma_word_at(h + be32_bytes(index) + be32_bytes(begin), length, Seq::empty());
                },
                PeerMessageView::Piece { index, begin, block } => {
                    assert(f =~= h + be32_bytes(index) + (be32_bytes(begin) + block));
                    lemma_word_at(h, index, be32_bytes(begin) + block);
                    assert(f =~= (h + be32_bytes(index)) + be32_bytes(begin) + block);
                    lemma_word_at(h + be32_bytes(index), begin, block);
                    assert(f.subrange(13, f.len() as int) =~= block);
                },
                PeerMessageView::Bitfield(b) => {
                    assert(f.subrange(5, f.len() as int) =~= b);
                },
                _ => {},
            }
        },
    }
}

// ---------------------------------------------------------------------------
// Human-readable text
// ---------------------------------------------------------------------------

/// The one-line description `summary` gives of a message.
pub open spec fn message_summary(m: PeerMessageView) -> Seq<char> {
    match m {
        PeerMessageView::KeepAlive => "keep-alive"@,
        PeerMessageView::Choke => "choke"@,
        PeerMessageView::Unchoke => "unchoke"@,
        PeerMessageView::Interested => "interested"@,
        PeerMessageView::NotInterested => "not interested"@,
        PeerMessageView::Have(index) => "have piece "@ + decimal_chars(index as nat),
        PeerMessageView::Bitfield(b) => "bitfield ("@ + decimal_chars(b.len()) + " bytes)"@,
        PeerMessageView::Request { index, begin, length } => "request piece "@ + decimal_chars(index as nat)
            + ", begin "@ + decimal_chars(begin as nat) + ", length "@ + decimal_chars(length as nat),
        PeerMessageView::Piece { index, begin, block } => "piece data for piece "@ + decimal_chars(index as nat)
            + ", begin "@ + decimal_chars(begin as nat) + ", block "@ + decimal_chars(block.len()) + " bytes"@,
        PeerMessageView::Cancel { index, begin, length } => "cancel piece "@ + decimal_chars(index as nat)
            + ", begin "@ + decimal_chars(begin as nat) + ", length "@ + decimal_chars(length as nat),
        PeerMessageView::Port(port) => "port "@ + decimal_chars(port as nat),
    }
}

fn append_decimal(s: &mut String, text: &str, n: u64)
    ensures
        final(s)@ == old(s)@ + text@ + decimal_chars(n as nat),
{
    let t = with_decimal(text, n);
    s.append(t.as_str());
}

impl PeerMessage {
    pub fn summary(&self) -> (s: String)
        ensures
            s@ == message_summary(self@),
    {
        match self {
            PeerMessage::KeepAlive => String::from_str("keep-alive"),
            PeerMessage::Choke => String::from_str("choke"),
            PeerMessage::Unchoke => String::from_str("unchoke"),
            PeerMessage::Interested => String::from_str("interested"),
            PeerMessage::NotInterested => String::from_str("not interested"),
            PeerMessage::Have(index) => with_decimal("have piece ", *index as u64),
            PeerMessage::Bitfield(bytes) => {
                let mut s = with_decimal("bitfield (", bytes.len() as u64);
                s.append(" bytes)");
                s
            },
            PeerMessage::Request { index, begin, length } => {
                let mut s = with_decimal("request piece ", *index as u64);
                append_decimal(&mut s, ", begin ", *begin as u64);
                append_decimal(&mut s, ", length ", *length as u64);
                s
            },
            PeerMessage::Piece { index, begin, block } => {
                let mut s = with_decimal("piece data for piece ", *index as u64);
                append_decimal(&mut s, ", begin ", *begin as u64);
                append_decimal(&mut s, ", block ", block.len() as u64);
                s.append(" bytes");
                s
            },
            PeerMessage::Cancel { index, begin, length } => {
                let mut s = with_decimal("cancel piece ", *index as u64);
                append_decimal(&mut s, ", begin ", *begin as u64);
                append_decimal(&mut s, ", length ", *length as u64);
                s
            },
            PeerMessage::Port(port) => with_decimal("port ", *port as u64),
        }
    }
}

/// The text an error is reported with.
pub open spec fn peer_error_message(e: PeerError) -> Seq<char> {
    match e {
        PeerError::HandshakeLength { len } => "peer handshake must be 68 bytes, found "@ + decimal_chars(len as nat),
        PeerError::WrongProtocol => "peer did not speak the BitTorrent protocol"@,
        PeerError::MissingLengthPrefix => "peer message frame must include a 4-byte length prefix"@,
        PeerError::LengthExceedsFrame => "peer message length exceeds frame"@,
        PeerError::TrailingBytes => "peer message frame has trailing bytes"@,
        PeerError::NonEmptyPayload { name } => name@ + " message payload must be empty"@,
        PeerError::PayloadNot4Bytes { name } => name@ + " message payload must be 4 bytes"@,
        PeerError::PayloadNot12Bytes { name } => name@ + " message payload must be 12 bytes"@,
        PeerError::PieceHeaderMissing => "piece message payload must contain index and begin"@,
        PeerError::PortPayloadSize => "port message payload must be 2 bytes"@,
        PeerError::UnknownMessageId { id } => "unknown peer message id "@ + decimal_chars(id as nat),
        PeerError::PieceIndexOutOfRange { index } => "piece index "@ + decimal_chars(index as nat)
            + " is outside torrent piece count"@,
        PeerError::BitfieldTooShort => "bitfield is too short for torrent piece count"@,
        PeerError::EmptyPiece => "piece length must be greater than zero"@,
    }
}

impl PeerError {
    pub fn message(&self) -> (s: String)
        ensures
            s@ == peer_error_message(*self),
    {
        match self {
            PeerError::HandshakeLength { len } => with_decimal("peer handshake must be 68 bytes, found ", *len as u64),
            PeerError::WrongProtocol => String::from_str("peer did not speak the BitTorrent protocol"),
            PeerError::MissingLengthPrefix => String::from_str("peer message frame must include a 4-byte length prefix"),
            PeerError::LengthExceedsFrame => String::from_str("peer message length exceeds frame"),
            PeerError::TrailingBytes => String::from_str("peer message frame has trailing bytes"),
            PeerError::NonEmptyPayload { name } => {
                let mut s = String::from_str(name);
                s.append(" message payload must be empty");
                s
            },
            PeerError::PayloadNot4Bytes { name } => {
                let mut s = String::from_str(name);
                s.append(" message payload must be 4 bytes");
                s
            },
            PeerError::PayloadNot12Bytes { name } => {
                let mut s = String::from_str(name);
                s.append(" message payload must be 12 bytes");
                s
            },
            PeerError::PieceHeaderMissing => String::from_str("piece message payload must contain index and begin"),
            PeerError::PortPayloadSize => String::from_str("port message payload must be 2 bytes"),
            PeerError::UnknownMessageId { id } => with_decimal("unknown peer message id ", *id as u64),
            PeerError::PieceIndexOutOfRange { index } => {
                let mut s = with_decimal("piece index ", *index as u64);
                s.append(" is outside torrent piece count");
                s
            },
            PeerError::BitfieldTooShort => String::from_str("bitfield is too short for torrent piece count"),
            PeerError::EmptyPiece => String::from_str("piece length must be greater than zero"),
        }
    }
}

} // verus!
