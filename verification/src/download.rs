//! Downloading one piece from one peer, as a state machine: the caller
//! performs each action it returns (sending a message, or reading the next
//! one) and hands back what it read.
use vstd::prelude::*;
use crate::peer_state::{
    BlockRequest, PeerState, PeerStateView, build_piece_requests, spec_apply_inbound, spec_apply_outbound,
    spec_piece_requests, without_request,
};
use crate::wire::{PeerError, PeerMessage, PeerMessageView, peer_error_message};
use vstd::string::StringExecFns;

verus! {

#[derive(Debug, Clone, Copy, PartialEq, Eq, Structural)]
pub enum DownloadPhase {
    /// Interest has not been announced yet.
    Start,
    /// Waiting to be unchoked by a peer that has the piece.
    Waiting,
    /// Requesting blocks and collecting them.
    Downloading,
    /// The piece was handed out, or the download gave up.
    Done,
}

#[derive(Debug, Clone, Copy, PartialEq, Eq)]
pub enum DownloadError {
    Peer(PeerError),
    BlockBeyondPiece,
    Choked,
    AlreadyDone,
}

/// What the caller is to do next.
#[derive(Debug)]
pub enum DownloadAction {
    Send(PeerMessage),
    Receive,
    Finished(Vec<u8>),
    Failed(DownloadError),
}

pub enum DownloadActionView {
    Send(PeerMessageView),
    Receive,
    Finished(Seq<u8>),
    Failed(DownloadError),
}

impl View for DownloadAction {
    type V = DownloadActionView;

    open spec fn view(&self) -> DownloadActionView {
        match self {
            DownloadAction::Send(m) => DownloadActionView::Send(m@),
            DownloadAction::Receive => DownloadActionView::Receive,
            DownloadAction::Finished(p) => DownloadActionView::Finished(p@),
            DownloadAction::Failed(e) => DownloadActionView::Failed(*e),
        }
    }
}

pub struct PieceDownload {
    pub state: PeerState,
    pub piece_index: u32,
    pub piece_length: usize,
    pub pipeline: usize,
    pub phase: DownloadPhase,
    pub requests: Vec<BlockRequest>,
    pub piece: Vec<u8>,
    pub next_request: usize,
    pub completed_blocks: usize,
}

pub struct DownloadView {
    pub state: PeerStateView,
    pub piece_index: u32,
    pub piece_length: nat,
    pub pipeline: nat,
    pub phase: DownloadPhase,
    pub requests: Seq<BlockRequest>,
    pub piece: Seq<u8>,
    pub next_request: nat,
    pub completed_blocks: nat,
}

impl View for PieceDownload {
    type V = DownloadView;

    open spec fn view(&self) -> DownloadView {
        DownloadView {
            state: self.state@,
            piece_index: self.piece_index,
            piece_length: self.piece_length as nat,
            pipeline: self.pipeline as nat,
            phase: self.phase,
            requests: self.requests@,
            piece: self.piece@,
            next_request: self.next_request as nat,
            completed_blocks: self.completed_blocks as nat,
        }
    }
}

/// What always holds of a download: no more blocks are in flight than the
/// pipeline allows, and while downloading the counters stay within the
/// request list and the buffer has the piece's length.
pub open spec fn download_wf(d: DownloadView) -> bool {
    &&& d.state.requested_blocks.len() <= d.pipeline
    &&& d.phase == DownloadPhase::Downloading ==> {
        &&& d.next_request <= d.requests.len()
        &&& d.completed_blocks <= d.requests.len()
        &&& d.piece.len() == d.piece_length
        &&& d.requests == spec_piece_requests(d.piece_index, d.piece_length)
    }
}

pub open spec fn has_piece_spec(s: PeerStateView, index: u32) -> bool {
    (index as int) < s.available_pieces.len() && s.available_pieces[index as int]
}

/// The next step while downloading: hand out the finished piece, send the next
/// request if the pipeline has room, or read a message.
pub open spec fn downloading_poll(d: DownloadView) -> (DownloadView, DownloadActionView) {
    if d.completed_blocks >= d.requests.len() {
        (DownloadView { phase: DownloadPhase::Done, piece: Seq::empty(), ..d }, DownloadActionView::Finished(d.piece))
    } else if d.state.requested_blocks.len() < d.pipeline && d.next_request < d.requests.len() {
        let r = d.requests[d.next_request as int];
        let m = PeerMessageView::Request { index: r.index, begin: r.begin, length: r.length };
        (
            DownloadView { state: spec_apply_outbound(d.state, m), next_request: d.next_request + 1, ..d },
            DownloadActionView::Send(m),
        )
    } else {
        (d, DownloadActionView::Receive)
    }
}

/// What `poll` does: the next state and the action for the caller.
pub open spec fn spec_poll(d: DownloadView) -> (DownloadView, DownloadActionView) {
    match d.phase {
        DownloadPhase::Start => (
            DownloadView {
                phase: DownloadPhase::Waiting,
                state: spec_apply_outbound(d.state, PeerMessageView::Interested),
                ..d
            },
            DownloadActionView::Send(PeerMessageView::Interested),
        ),
        DownloadPhase::Waiting => if !d.state.peer_choking && has_piece_spec(d.state, d.piece_index) {
            if d.piece_length == 0 {
                (DownloadView { phase: DownloadPhase::Done, ..d }, DownloadActionView::Failed(DownloadError::Peer(PeerError::EmptyPiece)))
            } else {
                downloading_poll(
                    DownloadView {
                        phase: DownloadPhase::Downloading,
                        requests: spec_piece_requests(d.piece_index, d.piece_length),
                        piece: Seq::new(d.piece_length, |i: int| 0u8),
                        next_request: 0,
                        completed_blocks: 0,
                        ..d
                    },
                )
            }
        } else {
            (d, DownloadActionView::Receive)
        },
        DownloadPhase::Downloading => downloading_poll(d),
        DownloadPhase::Done => (d, DownloadActionView::Failed(DownloadError::AlreadyDone)),
    }
}

/// What `on_message` does with a message read from the peer.
pub open spec fn spec_on_message(d: DownloadView, m: PeerMessageView) -> (DownloadView, Result<(), DownloadError>) {
    if d.phase == DownloadPhase::Downloading {
        match m {
            PeerMessageView::Piece { index, begin, block } => if index == d.piece_index {
                if begin + block.len() > d.piece.len() {
                    (d, Err(DownloadError::BlockBeyondPiece))
                } else {
                    (
                        DownloadView {
                            piece: d.piece.subrange(0, begin as int) + block + d.piece.subrange(
                                begin + block.len(),
                                d.piece.len() as int,
                            ),
                            state: PeerStateView {
                                requested_blocks: without_request(
                                    d.state.requested_blocks,
                                    index,
                                    begin,
                                    (block.len() % 0x1_0000_0000) as u32,
                                ),
                                ..d.state
                            },
                            completed_blocks: d.completed_blocks + 1,
                            ..d
                        },
                        Ok(()),
                    )
                }
            } else {
                inbound_step(d, m)
            },
            PeerMessageView::Choke => match spec_apply_inbound(d.state, m) {
                Ok(s) => (DownloadView { state: s, ..d }, Err(DownloadError::Choked)),
                Err(e) => (d, Err(DownloadError::Peer(e))),
            },
            _ => inbound_step(d, m),
        }
    } else {
        inbound_step(d, m)
    }
}

pub open spec fn inbound_step(d: DownloadView, m: PeerMessageView) -> (DownloadView, Result<(), DownloadError>) {
    match spec_apply_inbound(d.state, m) {
        Ok(s) => (DownloadView { state: s, ..d }, Ok(())),
        Err(e) => (d, Err(DownloadError::Peer(e))),
    }
}

proof fn lemma_filter_len<T>(s: Seq<T>, pred: spec_fn(T) -> bool)
    ensures
        s.filter(pred).len() <= s.len(),
{
    s.lemma_filter_len(pred);
}

/// Downloads keep within the pipeline: whatever the peer sends and however
/// often the caller polls, no more requests are outstanding than allowed.
pub proof fn law_download_stays_well_formed(d: DownloadView, m: PeerMessageView)
    requires
        download_wf(d),
        d.phase == DownloadPhase::Downloading ==> d.completed_blocks < d.requests.len(),
    ensures
        download_wf(spec_poll(d).0),
        download_wf(spec_on_message(d, m).0),
        spec_poll(d).0.state.requested_blocks.len() <= d.pipeline,
        spec_on_message(d, m).0.state.requested_blocks.len() <= d.pipeline,
{
    match m {
        PeerMessageView::Piece { index, begin, block } => {
            lemma_filter_len(
                d.state.requested_blocks,
                |r: BlockRequest| r.index != index || r.begin != begin || r.length != (block.len() % 0x1_0000_0000) as u32,
            );
        },
        PeerMessageView::Cancel { index, begin, length } => {
            lemma_filter_len(
                d.state.peer_requested_blocks,
                |r: BlockRequest| r.index != index || r.begin != begin || r.length != length,
            );
        },
        _ => {},
    }
}

impl PieceDownload {
    /// A download of piece `piece_index` (of `piece_length` bytes, out of
    /// `piece_count` pieces) keeping at most `pipeline` requests in flight.
    pub fn new(piece_count: usize, piece_index: u32, piece_length: usize, pipeline: usize) -> (d: PieceDownload)
        ensures
            d@.phase == DownloadPhase::Start,
            d@.state == PeerState::new_view(piece_count),
            d@.piece_index == piece_index,
            d@.piece_length == piece_length,
            d@.pipeline == pipeline,
            d@.requests.len() == 0,
            d@.piece.len() == 0,
            d@.next_request == 0,
            d@.completed_blocks == 0,
            download_wf(d@),
    {
        PieceDownload {
            state: PeerState::new(piece_count),
            piece_index,
            piece_length,
            pipeline,
            phase: DownloadPhase::Start,
            requests: Vec::new(),
            piece: Vec::new(),
            next_request: 0,
            completed_blocks: 0,
        }
    }

    fn downloading_poll(&mut self) -> (a: DownloadAction)
        requires
            old(self).phase == DownloadPhase::Downloading,
            download_wf(old(self)@),
        ensures
            (final(self)@, a@) == downloading_poll(old(self)@),
    {
        if self.completed_blocks >= self.requests.len() {
            self.phase = DownloadPhase::Done;
            let mut piece: Vec<u8> = Vec::new();
            std::mem::swap(&mut piece, &mut self.piece);
            return DownloadAction::Finished(piece);
        }
        if self.state.requested_blocks.len() < self.pipeline && self.next_request < self.requests.len() {
            let request = self.requests[self.next_request];
            let message = PeerMessage::Request { index: request.index, begin: request.begin, length: request.length };
            let _ = self.state.apply_outbound(&message);
            self.next_request = self.next_request + 1;
            return DownloadAction::Send(message);
        }
        DownloadAction::Receive
    }

    /// Decides the next action.
    pub fn poll(&mut self) -> (a: DownloadAction)
        requires
            download_wf(old(self)@),
        ensures
            (final(self)@, a@) == spec_poll(old(self)@),
            download_wf(final(self)@),
    {
        match self.phase {
            DownloadPhase::Start => {
                self.phase = DownloadPhase::Waiting;
                let message = PeerMessage::Interested;
                let _ = self.state.apply_outbound(&message);
                DownloadAction::Send(message)
            },
            DownloadPhase::Waiting => {
                if !self.state.peer_choking && self.state.has_piece(self.piece_index as usize) {
                    match build_piece_requests(self.piece_index, self.piece_length) {
                        Err(e) => {
                            self.phase = DownloadPhase::Done;
                            DownloadAction::Failed(DownloadError::Peer(e))
                        },
                        Ok(requests) => {
                            let mut piece: Vec<u8> = Vec::new();
                            let mut i: usize = 0;
                            while i < self.piece_length
                                invariant
                                    i <= self.piece_length,
                                    piece@ == Seq::new(i as nat, |j: int| 0u8),
                                decreases self.piece_length - i,
                            {
                                piece.push(0u8);
                                i = i + 1;
                                assert(piece@ =~= Seq::new(i as nat, |j: int| 0u8));
                            }
                            self.phase = DownloadPhase::Downloading;
                            self.requests = requests;
                            self.piece = piece;
                            self.next_request = 0;
                            self.completed_blocks = 0;
                            self.downloading_poll()
                        },
                    }
                } else {
                    DownloadAction::Receive
                }
            },
            DownloadPhase::Downloading => self.downloading_poll(),
            DownloadPhase::Done => DownloadAction::Failed(DownloadError::AlreadyDone),
        }
    }

    /// Takes in a message read from the peer.
    pub fn on_message(&mut self, message: &PeerMessage) -> (r: Result<(), DownloadError>)
        requires
            download_wf(old(self)@),
            old(self).phase == DownloadPhase::Downloading ==> old(self).completed_blocks < old(self).requests.len(),
        ensures
            (final(self)@, r) == spec_on_message(old(self)@, message@),
            download_wf(final(self)@),
    {
        proof {
            law_download_stays_well_formed(self@, message@);
        }
        if self.phase == DownloadPhase::Downloading {
            match message {
                PeerMessage::Piece { index, begin, block } => {
                    if *index == self.piece_index {
                        let begin_offset = *begin as usize;
                        if block.len() > self.piece.len() || begin_offset > self.piece.len() - block.len() {
                            return Err(DownloadError::BlockBeyondPiece);
                        }
                        let ghost old_piece = self.piece@;
                        let mut piece: Vec<u8> = Vec::new();
                        std::mem::swap(&mut piece, &mut self.piece);
                        let mut i: usize = 0;
                        while i < block.len()
                            invariant
                                i <= block@.len(),
                                begin_offset + block@.len() <= piece.len(),
                                piece@.len() == old_piece.len(),
                                forall|j: int| 0 <= j < begin_offset ==> piece@[j] == old_piece[j],
                                forall|j: int| begin_offset + block@.len() <= j < old_piece.len() ==> piece@[j] == old_piece[j],
                                forall|j: int| begin_offset <= j < begin_offset + i ==> piece@[j] == block@[j - begin_offset],
                                forall|j: int| begin_offset + i <= j < begin_offset + block@.len() ==> piece@[j] == old_piece[j],
                            decreases block.len() - i,
                        {
                            piece.set(begin_offset + i, block[i]);
                            i = i + 1;
                        }
                        self.piece = piece;
                        assert(self.piece@ =~= old_piece.subrange(0, begin_offset as int) + block@ + old_piece.subrange(
                            begin_offset + block@.len(),
                            old_piece.len() as int,
                        ));
                        let length = (block.len() as u64 % 0x1_0000_0000u64) as u32;
                        self.state.remove_request(*index, *begin, length);
                        self.completed_blocks = self.completed_blocks + 1;
                        return Ok(());
                    }
                },
                PeerMessage::Choke => {
                    return match self.state.apply_inbound(message) {
                        Ok(()) => Err(DownloadError::Choked),
                        Err(e) => Err(DownloadError::Peer(e)),
                    };
                },
                _ => {},
            }
        }
        match self.state.apply_inbound(message) {
            Ok(()) => Ok(()),
            Err(e) => Err(DownloadError::Peer(e)),
        }
    }
}


/// The text an error is reported with.
pub open spec fn download_error_message(e: DownloadError) -> Seq<char> {
    match e {
        DownloadError::Peer(p) => peer_error_message(p),
        DownloadError::BlockBeyondPiece => "peer sent piece block beyond requested piece length"@,
        DownloadError::Choked => "peer choked us while downloading"@,
        DownloadError::AlreadyDone => "piece download already finished"@,
    }
}

impl DownloadError {
    pub fn message(&self) -> (s: String)
        ensures
            s@ == download_error_message(*self),
    {
        match self {
            DownloadError::Peer(p) => p.message(),
            DownloadError::BlockBeyondPiece => String::from_str("peer sent piece block beyond requested piece length"),
            DownloadError::Choked => String::from_str("peer choked us while downloading"),
            DownloadError::AlreadyDone => String::from_str("piece download already finished"),
        }
    }
}

} // verus!
