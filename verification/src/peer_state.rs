//! What one side of a peer connection knows: choking, interest, which pieces
//! the peer has, and which blocks have been asked for or exchanged.
use vstd::prelude::*;
use vstd::string::StringExecFns;
use crate::wire::{PeerError, PeerMessage, PeerMessageView};
use crate::text::decimal_chars;

verus! {

pub const MAX_BLOCK_LENGTH: u32 = 16384;

#[derive(Debug, Clone, Copy, PartialEq, Eq, Structural)]
pub struct BlockRequest {
    pub index: u32,
    pub begin: u32,
    pub length: u32,
}

#[derive(Debug, Clone, PartialEq, Eq)]
pub struct PieceBlock {
    pub index: u32,
    pub begin: u32,
    pub block: Vec<u8>,
}

pub struct PieceBlockView {
    pub index: u32,
    pub begin: u32,
    pub block: Seq<u8>,
}

impl View for PieceBlock {
    type V = PieceBlockView;

    open spec fn view(&self) -> PieceBlockView {
        PieceBlockView { index: self.index, begin: self.begin, block: self.block@ }
    }
}

#[derive(Debug, Clone, PartialEq, Eq)]
pub struct PeerState {
    pub peer_choking: bool,
    pub peer_interested: bool,
    pub client_choking: bool,
    pub client_interested: bool,
    pub available_pieces: Vec<bool>,
    pub requested_blocks: Vec<BlockRequest>,
    pub peer_requested_blocks: Vec<BlockRequest>,
    pub received_blocks: Vec<PieceBlock>,
    pub sent_blocks: Vec<PieceBlock>,
}

/// The connection state in the abstract.
pub struct PeerStateView {
    pub peer_choking: bool,
    pub peer_interested: bool,
    pub client_choking: bool,
    pub client_interested: bool,
    pub available_pieces: Seq<bool>,
    pub requested_blocks: Seq<BlockRequest>,
    pub peer_requested_blocks: Seq<BlockRequest>,
    pub received_blocks: Seq<PieceBlockView>,
    pub sent_blocks: Seq<PieceBlockView>,
}

impl View for PeerState {
    type V = PeerStateView;

    open spec fn view(&self) -> PeerStateView {
        PeerStateView {
            peer_choking: self.peer_choking,
            peer_interested: self.peer_interested,
            client_choking: self.client_choking,
            client_interested: self.client_interested,
            available_pieces: self.available_pieces@,
            requested_blocks: self.requested_blocks@,
            peer_requested_blocks: self.peer_requested_blocks@,
            received_blocks: self.received_blocks@.map_values(|b: PieceBlock| b@),
            sent_blocks: self.sent_blocks@.map_values(|b: PieceBlock| b@),
        }
    }
}

/// Whether bit `i` of a bitfield is set, counting from the high bit of the first byte.
pub open spec fn bitfield_bit(bitfield: Seq<u8>, i: int) -> bool {
    (bitfield[i / 8] & (1u8 << ((7 - i % 8) as u8))) != 0
}

/// The requests that do not match `(index, begin, length)`.
pub open spec fn without_request(requests: Seq<BlockRequest>, index: u32, begin: u32, length: u32) -> Seq<BlockRequest> {
    requests.filter(|r: BlockRequest| r.index != index || r.begin != begin || r.length != length)
}

/// How a message received from the peer changes the state, or why it is refused
/// (in which case nothing changes).
pub open spec fn spec_apply_inbound(s: PeerStateView, m: PeerMessageView) -> Result<PeerStateView, PeerError> {
    match m {
        PeerMessageView::KeepAlive => Ok(s),
        PeerMessageView::Choke => Ok(PeerStateView { peer_choking: true, ..s }),
        PeerMessageView::Unchoke => Ok(PeerStateView { peer_choking: false, ..s }),
        PeerMessageView::Interested => Ok(PeerStateView { peer_interested: true, ..s }),
        PeerMessageView::NotInterested => Ok(PeerStateView { peer_interested: false, ..s }),
        PeerMessageView::Have(index) => if (index as int) < s.available_pieces.len() {
            Ok(PeerStateView { available_pieces: s.available_pieces.update(index as int, true), ..s })
        } else {
            Err(PeerError::PieceIndexOutOfRange { index })
        },
        PeerMessageView::Bitfield(b) => if b.len() * 8 < s.available_pieces.len() {
            Err(PeerError::BitfieldTooShort)
        } else {
            Ok(PeerStateView {
                available_pieces: Seq::new(s.available_pieces.len(), |i: int| bitfield_bit(b, i)),
                ..s
            })
        },
        PeerMessageView::Request { index, begin, length } => Ok(PeerStateView {
            peer_requested_blocks: s.peer_requested_blocks.push(BlockRequest { index, begin, length }),
            ..s
        }),
        PeerMessageView::Piece { index, begin, block } => Ok(PeerStateView {
            received_blocks: s.received_blocks.push(PieceBlockView { index, begin, block }),
            ..s
        }),
        PeerMessageView::Cancel { index, begin, length } => Ok(PeerStateView {
            peer_requested_blocks: without_request(s.peer_requested_blocks, index, begin, length),
            ..s
        }),
        PeerMessageView::Port(_) => Ok(s),
    }
}

/// How a message sent to the peer changes the state.
pub open spec fn spec_apply_outbound(s: PeerStateView, m: PeerMessageView) -> PeerStateView {
    match m {
        PeerMessageView::Choke => PeerStateView { client_choking: true, ..s },
        PeerMessageView::Unchoke => PeerStateView { client_choking: false, ..s },
        PeerMessageView::Interested => PeerStateView { client_interested: true, ..s },
        PeerMessageView::NotInterested => PeerStateView { client_interested: false, ..s },
        PeerMessageView::Request { index, begin, length } => PeerStateView {
            requested_blocks: s.requested_blocks.push(BlockRequest { index, begin, length }),
            ..s
        },
        PeerMessageView::Piece { index, begin, block } => PeerStateView {
            sent_blocks: s.sent_blocks.push(PieceBlockView { index, begin, block }),
            ..s
        },
        PeerMessageView::Cancel { index, begin, length } => PeerStateView {
            requested_blocks: without_request(s.requested_blocks, index, begin, length),
            ..s
        },
        _ => s,
    }
}

/// The number of `true` entries.
pub open spec fn count_true(s: Seq<bool>) -> nat
    decreases s.len(),
{
    if s.len() == 0 {
        0
    } else {
        count_true(s.drop_last()) + if s.last() { 1nat } else { 0nat }
    }
}

proof fn lemma_count_true_bound(s: Seq<bool>)
    ensures
        count_true(s) <= s.len(),
    decreases s.len(),
{
    if s.len() > 0 {
        lemma_count_true_bound(s.drop_last());
    }
}

fn retain_other_requests(requests: &mut Vec<BlockRequest>, index: u32, begin: u32, length: u32)
    ensures
        final(requests)@ == without_request(old(requests)@, index, begin, length),
{
    let ghost pred = |r: BlockRequest| r.index != index || r.begin != begin || r.length != length;
    let mut kept: Vec<BlockRequest> = Vec::new();
    let mut i: usize = 0;
    while i < requests.len()
        invariant
            i <= requests@.len(),
            requests@ == old(requests)@,
            pred == (|r: BlockRequest| r.index != index || r.begin != begin || r.length != length),
            kept@ == requests@.take(i as int).filter(pred),
        decreases requests.len() - i,
    {
        let r = requests[i];
        proof {
            reveal(Seq::filter);
            assert(requests@.take(i + 1).drop_last() =~= requests@.take(i as int));
            assert(requests@.take(i + 1).last() == r);
        }
        if r.index != index || r.begin != begin || r.length != length {
            kept.push(r);
        }
        i = i + 1;
    }
    assert(requests@.take(i as int) =~= requests@);
    *requests = kept;
}

pub open spec fn bool_chars(b: bool) -> Seq<char> {
    if b { "true"@ } else { "false"@ }
}

/// The one-line description `summary` gives of a state.
pub open spec fn summary_chars(s: PeerStateView) -> Seq<char> {
    "peer_choking="@ + bool_chars(s.peer_choking) + ", peer_interested="@ + bool_chars(s.peer_interested)
        + ", client_choking="@ + bool_chars(s.client_choking) + ", client_interested="@ + bool_chars(
        s.client_interested,
    ) + ", available_pieces="@ + decimal_chars(count_true(s.available_pieces)) + "/"@ + decimal_chars(
        s.available_pieces.len(),
    ) + ", requested_blocks="@ + decimal_chars(s.requested_blocks.len()) + ", received_blocks="@
        + decimal_chars(s.received_blocks.len())
}

fn append_bool(s: &mut String, b: bool)
    ensures
        final(s)@ == old(s)@ + bool_chars(b),
{
    if b {
        s.append("true");
    } else {
        s.append("false");
    }
}

fn append_decimal(s: &mut String, n: usize)
    ensures
        final(s)@ == old(s)@ + decimal_chars(n as nat),
{
    let d = crate::text::decimal_string(n as u64);
    s.append(d.as_str());
}

impl PeerState {
    /// A fresh connection: both sides choking and not interested, no pieces known, nothing requested.
    pub open spec fn new_view(piece_count: usize) -> PeerStateView {
        PeerStateView {
            peer_choking: true,
            peer_interested: false,
            client_choking: true,
            client_interested: false,
            available_pieces: Seq::new(piece_count as nat, |i: int| false),
            requested_blocks: Seq::empty(),
            peer_requested_blocks: Seq::empty(),
            received_blocks: Seq::empty(),
            sent_blocks: Seq::empty(),
        }
    }

    pub fn new(piece_count: usize) -> (s: PeerState)
        ensures
            s@ == PeerState::new_view(piece_count),
    {
        let mut available_pieces: Vec<bool> = Vec::new();
        let mut i: usize = 0;
        while i < piece_count
            invariant
                i <= piece_count,
                available_pieces@ == Seq::new(i as nat, |j: int| false),
            decreases piece_count - i,
        {
            available_pieces.push(false);
            i = i + 1;
            assert(available_pieces@ =~= Seq::new(i as nat, |j: int| false));
        }
        let s = PeerState {
            peer_choking: true,
            peer_interested: false,
            client_choking: true,
            client_interested: false,
            available_pieces,
            requested_blocks: Vec::new(),
            peer_requested_blocks: Vec::new(),
            received_blocks: Vec::new(),
            sent_blocks: Vec::new(),
        };
        assert(s@.received_blocks =~= Seq::<PieceBlockView>::empty());
        assert(s@.sent_blocks =~= Seq::<PieceBlockView>::empty());
        s
    }

    pub fn has_piece(&self, index: usize) -> (r: bool)
        ensures
            r == (index < self@.available_pieces.len() && self@.available_pieces[index as int]),
    {
        if index < self.available_pieces.len() {
            self.available_pieces[index]
        } else {
            false
        }
    }

    pub fn available_piece_count(&self) -> (n: usize)
        ensures
            n == count_true(self@.available_pieces),
    {
        let mut n: usize = 0;
        let mut i: usize = 0;
        while i < self.available_pieces.len()
            invariant
                i <= self.available_pieces@.len(),
                n == count_true(self.available_pieces@.take(i as int)),
                n <= i,
            decreases self.available_pieces.len() - i,
        {
            assert(self.available_pieces@.take(i + 1).drop_last() =~= self.available_pieces@.take(i as int));
            if self.available_pieces[i] {
                n = n + 1;
            }
            i = i + 1;
        }
        assert(self.available_pieces@.take(i as int) =~= self.available_pieces@);
        n
    }

    pub fn mark_piece_available(&mut self, index: u32) -> (r: Result<(), PeerError>)
        ensures
            (index as int) < old(self)@.available_pieces.len() ==> r is Ok && final(self)@ == (PeerStateView {
                available_pieces: old(self)@.available_pieces.update(index as int, true),
                ..old(self)@
            }),
            (index as int) >= old(self)@.available_pieces.len() ==> r == Err::<(), PeerError>(
                PeerError::PieceIndexOutOfRange { index },
            ) && final(self)@ == old(self)@,
    {
        if (index as usize) < self.available_pieces.len() {
            self.available_pieces.set(index as usize, true);
            Ok(())
        } else {
            Err(PeerError::PieceIndexOutOfRange { index })
        }
    }

    pub fn apply_bitfield(&mut self, bitfield: &[u8]) -> (r: Result<(), PeerError>)
        ensures
            bitfield@.len() * 8 < old(self)@.available_pieces.len() ==> r == Err::<(), PeerError>(
                PeerError::BitfieldTooShort,
            ) && final(self)@ == old(self)@,
            bitfield@.len() * 8 >= old(self)@.available_pieces.len() ==> r is Ok && final(self)@ == (PeerStateView {
                available_pieces: Seq::new(old(self)@.available_pieces.len(), |i: int| bitfield_bit(bitfield@, i)),
                ..old(self)@
            }),
    {
        if bitfield.len() < self.available_pieces.len() / 8 + (if self.available_pieces.len() % 8 == 0 { 0 } else { 1 }) {
            return Err(PeerError::BitfieldTooShort);
        }
        let n = self.available_pieces.len();
        let mut piece_index: usize = 0;
        while piece_index < n
            invariant
                n == old(self)@.available_pieces.len(),
                self.available_pieces@.len() == n,
                piece_index <= n,
                bitfield@.len() * 8 >= n,
                forall|j: int| 0 <= j < piece_index ==> self.available_pieces@[j] == bitfield_bit(bitfield@, j),
                self@ == (PeerStateView { available_pieces: self.available_pieces@, ..old(self)@ }),
            decreases n - piece_index,
        {
            let byte = bitfield[piece_index / 8];
            let mask: u8 = 1u8 << ((7 - (piece_index % 8)) as u8);
            self.available_pieces.set(piece_index, byte & mask != 0);
            piece_index = piece_index + 1;
        }
        assert(self.available_pieces@ =~= Seq::new(n as nat, |i: int| bitfield_bit(bitfield@, i)));
        Ok(())
    }

    pub fn remove_request(&mut self, index: u32, begin: u32, length: u32)
        ensures
            final(self)@ == (PeerStateView {
                requested_blocks: without_request(old(self)@.requested_blocks, index, begin, length),
                ..old(self)@
            }),
    {
        retain_other_requests(&mut self.requested_blocks, index, begin, length);
    }

    pub fn remove_peer_request(&mut self, index: u32, begin: u32, length: u32)
        ensures
            final(self)@ == (PeerStateView {
                peer_requested_blocks: without_request(old(self)@.peer_requested_blocks, index, begin, length),
                ..old(self)@
            }),
    {
        retain_other_requests(&mut self.peer_requested_blocks, index, begin, length);
    }

    pub fn apply_inbound(&mut self, message: &PeerMessage) -> (r: Result<(), PeerError>)
        ensures
            match spec_apply_inbound(old(self)@, message@) {
                Ok(s) => r is Ok && final(self)@ == s,
                Err(e) => r == Err::<(), PeerError>(e) && final(self)@ == old(self)@,
            },
    {
        match message {
            PeerMessage::KeepAlive => {},
            PeerMessage::Choke => self.peer_choking = true,
            PeerMessage::Unchoke => self.peer_choking = false,
            PeerMessage::Interested => self.peer_interested = true,
            PeerMessage::NotInterested => self.peer_interested = false,
            PeerMessage::Have(index) => {
                match self.mark_piece_available(*index) {
                    Ok(()) => {},
                    Err(e) => return Err(e),
                }
            },
            PeerMessage::Bitfield(bitfield) => {
                match self.apply_bitfield(bitfield.as_slice()) {
                    Ok(()) => {},
                    Err(e) => return Err(e),
                }
            },
            PeerMessage::Request { index, begin, length } => {
                self.peer_requested_blocks.push(BlockRequest { index: *index, begin: *begin, length: *length });
            },
            PeerMessage::Piece { index, begin, block } => {
                let ghost old_received = self.received_blocks@;
                let b = PieceBlock { index: *index, begin: *begin, block: block.clone() };
                assert(b.block@ == block@);
                self.received_blocks.push(b);
                assert(self.received_blocks@.map_values(|x: PieceBlock| x@) =~= old_received.map_values(
                    |x: PieceBlock| x@,
                ).push(b@));
            },
            PeerMessage::Cancel { index, begin, length } => self.remove_peer_request(*index, *begin, *length),
            PeerMessage::Port(_) => {},
        }
        Ok(())
    }

    pub fn apply_outbound(&mut self, message: &PeerMessage) -> (r: Result<(), PeerError>)
        ensures
            r is Ok,
            final(self)@ == spec_apply_outbound(old(self)@, message@),
    {
        match message {
            PeerMessage::Choke => self.client_choking = true,
            PeerMessage::Unchoke => self.client_choking = false,
            PeerMessage::Interested => self.client_interested = true,
            PeerMessage::NotInterested => self.client_interested = false,
            PeerMessage::Request { index, begin, length } => {
                self.requested_blocks.push(BlockRequest { index: *index, begin: *begin, length: *length });
            },
            PeerMessage::Piece { index, begin, block } => {
                let ghost old_sent = self.sent_blocks@;
                let b = PieceBlock { index: *index, begin: *begin, block: block.clone() };
                assert(b.block@ == block@);
                self.sent_blocks.push(b);
                assert(self.sent_blocks@.map_values(|x: PieceBlock| x@) =~= old_sent.map_values(|x: PieceBlock| x@).push(
                    b@,
                ));
            },
            PeerMessage::Cancel { index, begin, length } => self.remove_request(*index, *begin, *length),
            _ => {},
        }
        Ok(())
    }

    pub fn summary(&self) -> (s: String)
        ensures
            s@ == summary_chars(self@),
    {
        let mut s = String::from_str("peer_choking=");
        append_bool(&mut s, self.peer_choking);
        s.append(", peer_interested=");
        append_bool(&mut s, self.peer_interested);
        s.append(", client_choking=");
        append_bool(&mut s, self.client_choking);
        s.append(", client_interested=");
        append_bool(&mut s, self.client_interested);
        s.append(", available_pieces=");
        let available = self.available_piece_count();
        append_decimal(&mut s, available);
        s.append("/");
        append_decimal(&mut s, self.available_pieces.len());
        s.append(", requested_blocks=");
        append_decimal(&mut s, self.requested_blocks.len());
        s.append(", received_blocks=");
        append_decimal(&mut s, self.received_blocks.len());
        proof {
            assert(self@.received_blocks.len() == self.received_blocks@.len());
        }
        s
    }
}


// ---------------------------------------------------------------------------
// Splitting a piece into block requests
// ---------------------------------------------------------------------------

/// How many blocks of at most `MAX_BLOCK_LENGTH` bytes cover `piece_length` bytes.
pub open spec fn block_count(piece_length: nat) -> nat {
    (piece_length + 16383) / 16384
}

/// Block `k` of a piece: it starts at `k * MAX_BLOCK_LENGTH` and is a full block
/// except possibly the last.
pub open spec fn spec_block(piece_index: u32, piece_length: nat, k: int) -> BlockRequest {
    let begin = 16384 * k;
    let rest = piece_length - begin;
    BlockRequest {
        index: piece_index,
        begin: begin as u32,
        length: (if rest < 16384 { rest } else { 16384 }) as u32,
    }
}

pub open spec fn spec_piece_requests(piece_index: u32, piece_length: nat) -> Seq<BlockRequest> {
    Seq::new(block_count(piece_length), |k: int| spec_block(piece_index, piece_length, k))
}

pub fn build_piece_requests(piece_index: u32, piece_length: usize) -> (r: Result<Vec<BlockRequest>, PeerError>)
    ensures
        piece_length == 0 ==> r == Err::<Vec<BlockRequest>, PeerError>(PeerError::EmptyPiece),
        piece_length > 0 ==> r is Ok && r.unwrap()@ == spec_piece_requests(piece_index, piece_length as nat),
{
    if piece_length == 0 {
        return Err(PeerError::EmptyPiece);
    }
    let mut requests: Vec<BlockRequest> = Vec::new();
    let mut offset: usize = 0;
    let mut k: usize = 0;
    while offset < piece_length
        invariant
            offset == 16384 * k,
            offset < piece_length,
            k <= block_count(piece_length as nat),
            requests@ == Seq::new(k as nat, |j: int| spec_block(piece_index, piece_length as nat, j)),
        decreases piece_length - offset,
    {
        let rest = piece_length - offset;
        let length = if rest < 16384 { rest } else { 16384 };
        requests.push(BlockRequest { index: piece_index, begin: offset as u32, length: length as u32 });
        assert(requests@ =~= Seq::new((k + 1) as nat, |j: int| spec_block(piece_index, piece_length as nat, j)));
        assert(k + 1 <= block_count(piece_length as nat)) by (nonlinear_arith)
            requires 16384 * k < piece_length;
        if rest <= 16384 {
            offset = piece_length;
            k = k + 1;
            assert(k == block_count(piece_length as nat)) by (nonlinear_arith)
                requires 16384 * (k - 1) < piece_length, piece_length <= 16384 * k;
            assert(requests@ =~= spec_piece_requests(piece_index, piece_length as nat));
            return Ok(requests);
        }
        offset = offset + length;
        k = k + 1;
    }
    Ok(requests)
}

/// The blocks of a piece follow one another from offset zero, none is empty
/// or longer than `MAX_BLOCK_LENGTH`, and together they end where the piece
/// ends (for pieces whose offsets fit in 32 bits).
pub proof fn law_piece_requests_tile_the_piece(piece_index: u32, piece_length: nat)
    requires
        0 < piece_length <= u32::MAX,
    ensures
        ({
            let rs = spec_piece_requests(piece_index, piece_length);
            &&& rs.len() > 0
            &&& rs[0].begin == 0
            &&& forall|k: int| 0 <= k < rs.len() ==> #[trigger] rs[k].index == piece_index && 0 < rs[k].length <= 16384
            &&& forall|k: int| 0 <= k < rs.len() - 1 ==> #[trigger] rs[k + 1].begin == rs[k].begin + rs[k].length
            &&& rs[rs.len() - 1].begin + rs[rs.len() - 1].length == piece_length
        }),
{
    let n = block_count(piece_length);
    assert(n >= 1) by (nonlinear_arith)
        requires n == (piece_length + 16383) / 16384, piece_length > 0;
    assert(16384 * (n - 1) < piece_length <= 16384 * n) by (nonlinear_arith)
        requires n == (piece_length + 16383) / 16384, piece_length > 0;
    let rs = spec_piece_requests(piece_index, piece_length);
    assert forall|k: int| 0 <= k < rs.len() implies #[trigger] rs[k].index == piece_index && 0 < rs[k].length <= 16384 by {
        assert(16384 * k <= 16384 * (n - 1)) by (nonlinear_arith)
            requires k <= n - 1;
    }
    assert forall|k: int| 0 <= k < rs.len() - 1 implies #[trigger] rs[k + 1].begin == rs[k].begin + rs[k].length by {
        assert(16384 * k + 16384 <= 16384 * (n - 1)) by (nonlinear_arith)
            requires k < n - 1;
    }
}

} // verus!
