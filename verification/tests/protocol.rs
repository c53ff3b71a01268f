use systems_lab::bencode::{BencodeError, BencodeParser};
use systems_lab::download::{DownloadAction, DownloadError, PieceDownload};
use systems_lab::peer_state::BlockRequest;
use systems_lab::torrent::{bytes_to_string, TorrentError, TorrentMeta};
use systems_lab::text::is_white_space;
use systems_lab::wal::{wal_fits, wal_frames, wal_header, wal_tail, WalTail};
use systems_lab::wire::{PeerError, PeerMessage};

fn expect_send(d: &mut PieceDownload) -> PeerMessage {
    match d.poll() {
        DownloadAction::Send(m) => m,
        other => panic!("expected a message to send, got {other:?}"),
    }
}

fn expect_request(d: &mut PieceDownload) -> BlockRequest {
    match expect_send(d) {
        PeerMessage::Request { index, begin, length } => BlockRequest { index, begin, length },
        other => panic!("expected request, got {other:?}"),
    }
}

fn expect_receive(d: &mut PieceDownload) {
    match d.poll() {
        DownloadAction::Receive => {}
        other => panic!("expected to read a message, got {other:?}"),
    }
}

#[test]
fn downloads_piece_blocks_with_bounded_pipeline() {
    let piece_length = 40_000usize;
    let pipeline = 2usize;
    let mut d = PieceDownload::new(1, 0, piece_length, pipeline);

    assert_eq!(expect_send(&mut d), PeerMessage::Interested);
    expect_receive(&mut d);
    d.on_message(&PeerMessage::Bitfield(vec![0b1000_0000])).expect("bitfield applies");
    expect_receive(&mut d);
    d.on_message(&PeerMessage::Unchoke).expect("unchoke applies");

    let first = expect_request(&mut d);
    let second = expect_request(&mut d);
    assert_eq!(first.begin, 0);
    assert_eq!(second.begin, 16_384);
    expect_receive(&mut d);

    d.on_message(&PeerMessage::Piece { index: first.index, begin: first.begin, block: vec![1; first.length as usize] })
        .expect("first block applies");
    let third = expect_request(&mut d);
    assert_eq!(third.begin, 32_768);
    expect_receive(&mut d);

    for request in [second, third] {
        d.on_message(&PeerMessage::Piece {
            index: request.index,
            begin: request.begin,
            block: vec![(request.begin / 16_384 + 1) as u8; request.length as usize],
        })
        .expect("block applies");
        if request.begin == 16_384 {
            expect_receive(&mut d);
        }
    }

    let piece = match d.poll() {
        DownloadAction::Finished(piece) => piece,
        other => panic!("expected the piece, got {other:?}"),
    };
    assert_eq!(piece.len(), piece_length);
    assert_eq!(&piece[0..16_384], vec![1; 16_384].as_slice());
    assert_eq!(&piece[16_384..32_768], vec![2; 16_384].as_slice());
    assert_eq!(&piece[32_768..40_000], vec![3; 7_232].as_slice());
    match d.poll() {
        DownloadAction::Failed(DownloadError::AlreadyDone) => {}
        other => panic!("expected the download to be over, got {other:?}"),
    }
}

#[test]
fn download_stops_when_choked_or_overrun() {
    let mut d = PieceDownload::new(1, 0, 10, 4);
    expect_send(&mut d);
    d.on_message(&PeerMessage::Have(0)).expect("have applies");
    d.on_message(&PeerMessage::Unchoke).expect("unchoke applies");
    assert_eq!(expect_request(&mut d), BlockRequest { index: 0, begin: 0, length: 10 });
    assert_eq!(
        d.on_message(&PeerMessage::Piece { index: 0, begin: 5, block: vec![0; 6] }),
        Err(DownloadError::BlockBeyondPiece)
    );
    assert_eq!(d.on_message(&PeerMessage::Choke), Err(DownloadError::Choked));
    assert_eq!(DownloadError::Choked.message(), "peer choked us while downloading");
    assert_eq!(
        DownloadError::BlockBeyondPiece.message(),
        "peer sent piece block beyond requested piece length"
    );

    let mut empty = PieceDownload::new(1, 0, 0, 1);
    expect_send(&mut empty);
    empty.on_message(&PeerMessage::Have(0)).expect("have applies");
    empty.on_message(&PeerMessage::Unchoke).expect("unchoke applies");
    match empty.poll() {
        DownloadAction::Failed(DownloadError::Peer(PeerError::EmptyPiece)) => {}
        other => panic!("expected an empty-piece failure, got {other:?}"),
    }
}

fn framed(records: &[&[u8]]) -> Vec<u8> {
    let mut out = Vec::new();
    for r in records {
        out.extend_from_slice(&wal_header(r.len() as u64));
        out.extend_from_slice(r);
    }
    out
}

#[test]
fn wal_replay_returns_written_records_and_ignores_torn_tail() {
    assert_eq!(wal_header(258), [2, 1, 0, 0, 0, 0, 0, 0]);
    let mut log = framed(&[b"first", b"", b"third record"]);
    let whole = log.len();
    log.extend_from_slice(&wal_header(100));
    log.extend_from_slice(b"short");
    assert!(wal_fits(&log));
    let frames = wal_frames(&log);
    let records: Vec<&[u8]> = frames.iter().map(|f| &log[f.start..f.start + f.len]).collect();
    assert_eq!(records, vec![&b"first"[..], &b""[..], &b"third record"[..]]);

    let mut torn_header = framed(&[b"x"]);
    torn_header.extend_from_slice(&[1, 2, 3]);
    assert_eq!(wal_frames(&torn_header).len(), 1);
    assert_eq!(wal_frames(&log[..whole]).len(), 3);

    assert_eq!(wal_tail(&log), WalTail::TornRecord);
    assert_eq!(wal_tail(&torn_header), WalTail::TornHeader);
    assert_eq!(wal_tail(&log[..whole]), WalTail::Complete);
    assert_eq!(wal_tail(&[]), WalTail::Complete);

    let mut huge = Vec::new();
    huge.extend_from_slice(&wal_header(u64::MAX));
    assert!(!wal_fits(&huge));
}

#[test]
fn bencode_errors_name_the_position() {
    let err = BencodeParser::new(b"i12").parse().unwrap_err();
    assert_eq!(err, BencodeError::UnterminatedInteger);
    assert_eq!(err.message(), "unterminated integer");
    let err = BencodeParser::new(b"x").parse().unwrap_err();
    assert_eq!(err.message(), "invalid bencode token 'x' at byte 0");
    let err = BencodeParser::new(b"i1ei2e").parse().unwrap_err();
    assert_eq!(err, BencodeError::TrailingData { pos: 3 });
    assert_eq!(err.message(), "unexpected trailing data at byte 3");
    let err = BencodeParser::new(b"5:ab").parse().unwrap_err();
    assert_eq!(err, BencodeError::LengthExceedsInput);
    let err = BencodeParser::new(b"ie").parse().unwrap_err();
    assert_eq!(err, BencodeError::InvalidInteger);
    assert_eq!(PeerError::UnknownMessageId { id: 42 }.message(), "unknown peer message id 42");
}

#[test]
fn verifies_downloaded_piece_against_metadata() {
    let digest: [u8; 20] = [
        67, 12, 227, 77, 2, 7, 36, 237, 117, 161, 150, 223, 194, 173, 103, 199, 119, 114, 209, 105,
    ];
    let mut torrent = b"d8:announce9:http://t/4:infod6:lengthi12e4:name1:f12:piece lengthi16384e6:pieces20:".to_vec();
    torrent.extend_from_slice(&digest);
    torrent.extend_from_slice(b"ee");
    let meta = TorrentMeta::from_bytes(&torrent).expect("torrent should parse");
    assert_eq!(meta.piece_hashes, digest.to_vec());
    assert_eq!(meta.verify_piece_hash(0, b"hello world!"), Ok(()));
    assert_eq!(meta.verify_piece_hash(0, b"hello world?"), Err(TorrentError::PieceHashMismatch { index: 0 }));
    assert_eq!(meta.verify_piece_hash(1, b"hello world!"), Err(TorrentError::PieceIndexOutOfRange { index: 1 }));
    assert_eq!(
        TorrentError::PieceHashMismatch { index: 0 }.message(),
        "piece 0 does not match its SHA-1 hash in the torrent"
    );
}

#[test]
fn torrent_fields_must_be_text_and_present() {
    assert_eq!(bytes_to_string(b"caf\xc3\xa9"), Ok("café".to_string()));
    assert_eq!(bytes_to_string(&[0x66, 0xff]), Err(TorrentError::NotUtf8));
    assert_eq!(TorrentMeta::from_bytes(b"le").unwrap_err(), TorrentError::RootNotDict);
    assert_eq!(TorrentMeta::from_bytes(b"de").unwrap_err(), TorrentError::MissingInfo);
    assert_eq!(TorrentMeta::from_bytes(b"d4:infoi1ee").unwrap_err(), TorrentError::InfoNotDict);
    assert_eq!(TorrentMeta::from_bytes(b"d4:infodee").unwrap_err(), TorrentError::MissingName);
    let bad_name = TorrentMeta::from_bytes(b"d4:infod4:name1:\xffee").unwrap_err();
    assert_eq!(bad_name, TorrentError::NotUtf8);
    assert_eq!(bad_name.message(), "field was not valid UTF-8");
    let short = TorrentMeta::from_bytes(b"d4:infod4:name1:f12:piece lengthi1e6:pieces3:abcee").unwrap_err();
    assert_eq!(short, TorrentError::PiecesNotMultipleOf20 { len: 3 });
    assert_eq!(short.message(), "'info.pieces' must be a multiple of 20 bytes, found 3");
}

#[test]
fn white_space_is_exactly_char_is_whitespace() {
    for u in 0..=0x10FFFFu32 {
        if let Some(c) = char::from_u32(u) {
            assert_eq!(is_white_space(c), c.is_whitespace(), "U+{u:04X}");
        }
    }
}

#[test]
fn decoded_frames_encode_back_to_themselves() {
    let frames: Vec<Vec<u8>> = vec![
        vec![0, 0, 0, 0],
        vec![0, 0, 0, 1, 2],
        vec![0, 0, 0, 5, 4, 0, 0, 1, 2],
        vec![0, 0, 0, 3, 5, 0xff, 0x80],
        vec![0, 0, 0, 13, 6, 0, 0, 0, 1, 0, 0, 0x40, 0, 0, 0, 0x40, 0],
        vec![0, 0, 0, 11, 7, 0, 0, 0, 2, 0, 0, 0, 4, 9, 8],
        vec![0, 0, 0, 3, 9, 0x1a, 0xe1],
        vec![0, 0, 0, 1, 10],
        vec![0, 0, 0, 2, 2, 0],
    ];
    for frame in frames {
        if let Ok(message) = PeerMessage::decode(&frame) {
            assert_eq!(message.encode(), frame);
        }
    }
}

#[test]
fn raw_spans_reparse_to_the_same_value() {
    let input = b"d4:listli1ei-20e3:abce3:subd1:ki0eee";
    let mut parser = BencodeParser::new(input);
    let value = parser.parse_value().expect("dictionary parses");
    assert_eq!(value.raw, &input[..]);
    let dict = value.as_dict().expect("a dictionary");
    for (_, v) in dict {
        let again = BencodeParser::new(v.raw).parse().expect("the span parses alone");
        assert_eq!(format!("{:?}", again.kind), format!("{:?}", v.kind));
        assert_eq!(again.raw, v.raw);
    }
    let mut bad = BencodeParser::new(b"x");
    assert_eq!(bad.expect_byte(b'd'), Err(BencodeError::UnexpectedByte { expected: b'd', found: b'x', pos: 0 }));
    assert_eq!(bad.pos, 0);
}
