//! Torrent metadata: the fields of a `.torrent` file and its info hash.
use vstd::prelude::*;
use vstd::utf8::*;
use crate::bencode::{
    BencodeError, BencodeParser, bencode_error_message, SpecValue, Value, spec_parse, spec_as_dict, spec_find, spec_find_bytes,
    spec_find_integer, spec_find_list, find_value, find_bytes, find_integer, find_list, values_view,
    lemma_values_view_len,
};
use crate::sha1::{spec_sha1, sha1_digest};
use crate::text::{string_from_utf8, hex_chars, hex_bytes, decimal_chars, with_decimal};
use vstd::string::StringExecFns;

verus! {

/// Why a torrent file, or a question asked of its metadata, is refused.
#[derive(Debug, Clone, Copy, PartialEq, Eq)]
pub enum TorrentError {
    Bencode(BencodeError),
    RootNotDict,
    MissingInfo,
    InfoNotDict,
    NotUtf8,
    MissingName,
    MissingPieceLength,
    MissingPieces,
    PiecesNotMultipleOf20 { len: usize },
    PieceIndexOutOfRange { index: u32 },
    NonPositivePieceLength,
    MultiFileUnsupported { command: &'static str },
    NegativeLength,
    MissingAnnounce,
    PieceHashMismatch { index: u32 },
}

#[derive(Debug)]
pub struct TorrentMeta {
    pub announce: Option<String>,
    pub name: String,
    pub piece_length: i64,
    pub total_length: Option<i64>,
    pub file_count: Option<usize>,
    pub piece_count: usize,
    pub info_hash: [u8; 20],
    pub info_hash_hex: String,
    /// The SHA-1 digests of the pieces, 20 bytes each, in piece order.
    pub piece_hashes: Vec<u8>,
}

/// The metadata in the abstract.
pub struct TorrentMetaView {
    pub announce: Option<Seq<char>>,
    pub name: Seq<char>,
    pub piece_length: int,
    pub total_length: Option<int>,
    pub file_count: Option<nat>,
    pub piece_count: nat,
    pub info_hash: Seq<u8>,
    pub info_hash_hex: Seq<char>,
    pub piece_hashes: Seq<u8>,
}

impl View for TorrentMeta {
    type V = TorrentMetaView;

    open spec fn view(&self) -> TorrentMetaView {
        TorrentMetaView {
            announce: match self.announce {
                Some(s) => Some(s@),
                None => None,
            },
            name: self.name@,
            piece_length: self.piece_length as int,
            total_length: match self.total_length {
                Some(t) => Some(t as int),
                None => None,
            },
            file_count: match self.file_count {
                Some(n) => Some(n as nat),
                None => None,
            },
            piece_count: self.piece_count as nat,
            info_hash: self.info_hash@,
            info_hash_hex: self.info_hash_hex@,
            piece_hashes: self.piece_hashes@,
        }
    }
}

pub open spec fn key_announce() -> Seq<u8> {
    seq![97u8, 110, 110, 111, 117, 110, 99, 101]
}

pub open spec fn key_info() -> Seq<u8> {
    seq![105u8, 110, 102, 111]
}

pub open spec fn key_name() -> Seq<u8> {
    seq![110u8, 97, 109, 101]
}

pub open spec fn key_piece_length() -> Seq<u8> {
    seq![112u8, 105, 101, 99, 101, 32, 108, 101, 110, 103, 116, 104]
}

pub open spec fn key_pieces() -> Seq<u8> {
    seq![112u8, 105, 101, 99, 101, 115]
}

pub open spec fn key_length() -> Seq<u8> {
    seq![108u8, 101, 110, 103, 116, 104]
}

pub open spec fn key_files() -> Seq<u8> {
    seq![102u8, 105, 108, 101, 115]
}

/// Bytes as text, refused unless they are valid UTF-8.
pub open spec fn spec_bytes_to_string(bytes: Seq<u8>) -> Result<Seq<char>, TorrentError> {
    if valid_utf8(bytes) {
        Ok(decode_utf8(bytes))
    } else {
        Err(TorrentError::NotUtf8)
    }
}

/// What a torrent file says, or why it is refused, checked in the order the fields are read.
pub open spec fn spec_torrent_meta(bytes: Seq<u8>) -> Result<TorrentMetaView, TorrentError> {
    match spec_parse(bytes) {
        Err(e) => Err(TorrentError::Bencode(e)),
        Ok(root) => match spec_as_dict(root) {
            None => Err(TorrentError::RootNotDict),
            Some(root_dict) => {
                let announce: Result<Option<Seq<char>>, TorrentError> =
                    match spec_find_bytes(root_dict, key_announce()) {
                        None => Ok(None),
                        Some(b) => match spec_bytes_to_string(b) {
                            Ok(s) => Ok(Some(s)),
                            Err(e) => Err(e),
                        },
                    };
                match announce {
                    Err(e) => Err(e),
                    Ok(announce) => match spec_find(root_dict, key_info()) {
                        None => Err(TorrentError::MissingInfo),
                        Some(info) => match spec_as_dict(info) {
                            None => Err(TorrentError::InfoNotDict),
                            Some(info_dict) => match spec_find_bytes(info_dict, key_name()) {
                                None => Err(TorrentError::MissingName),
                                Some(name_bytes) => match spec_bytes_to_string(name_bytes) {
                                    Err(e) => Err(e),
                                    Ok(name) => match spec_find_integer(info_dict, key_piece_length()) {
                                        None => Err(TorrentError::MissingPieceLength),
                                        Some(piece_length) => match spec_find_bytes(info_dict, key_pieces()) {
                                            None => Err(TorrentError::MissingPieces),
                                            Some(pieces) => if pieces.len() % 20 != 0 {
                                                Err(TorrentError::PiecesNotMultipleOf20 { len: pieces.len() as usize })
                                            } else {
                                                let hash = spec_sha1(info.raw);
                                                Ok(TorrentMetaView {
                                                    announce,
                                                    name,
                                                    piece_length,
                                                    total_length: spec_find_integer(info_dict, key_length()),
                                                    file_count: match spec_find_list(info_dict, key_files()) {
                                                        Some(files) => Some(files.len()),
                                                        None => None,
                                                    },
                                                    piece_count: pieces.len() / 20,
                                                    info_hash: hash,
                                                    info_hash_hex: hex_chars(hash),
                                                    piece_hashes: pieces,
                                                })
                                            },
                                        },
                                    },
                                },
                            },
                        },
                    },
                }
            },
        },
    }
}

/// The info value of a torrent file: the `info` entry of its root dictionary.
pub open spec fn info_value(bytes: Seq<u8>) -> SpecValue {
    spec_find(spec_as_dict(spec_parse(bytes)->Ok_0)->Some_0, key_info())->Some_0
}

/// The info hash of parsed metadata is the SHA-1 digest of exactly the bytes
/// the `info` dictionary was written with, and its hexadecimal form spells
/// that same digest; the rest of the file has no part in it.
pub proof fn law_info_hash_is_digest_of_info_bytes(bytes: Seq<u8>)
    ensures
        spec_torrent_meta(bytes) matches Ok(m) ==> {
            &&& spec_as_dict(info_value(bytes)) is Some
            &&& m.info_hash == spec_sha1(info_value(bytes).raw)
            &&& m.info_hash.len() == 20
            &&& m.info_hash_hex == hex_chars(m.info_hash)
        },
{
}

pub fn bytes_to_string(bytes: &[u8]) -> (r: Result<String, TorrentError>)
    ensures
        match (r, spec_bytes_to_string(bytes@)) {
            (Ok(s), Ok(t)) => s@ == t,
            (Err(e1), Err(e2)) => e1 == e2,
            _ => false,
        },
{
    match string_from_utf8(vstd::slice::slice_to_vec(bytes)) {
        Some(s) => Ok(s),
        None => Err(TorrentError::NotUtf8),
    }
}

/// The SHA-1 digest of `bytes` in lowercase hexadecimal.
pub fn sha1_hex(bytes: &[u8]) -> (s: String)
    ensures
        s@ == hex_chars(spec_sha1(bytes@)),
{
    let digest = sha1_digest(bytes);
    hex_bytes(&digest)
}

impl TorrentMeta {
    pub fn from_bytes(bytes: &[u8]) -> (r: Result<TorrentMeta, TorrentError>)
        ensures
            match (r, spec_torrent_meta(bytes@)) {
                (Ok(m), Ok(v)) => m@ == v,
                (Err(e1), Err(e2)) => e1 == e2,
                _ => false,
            },
    {
        let root = match BencodeParser::new(bytes).parse() {
            Ok(v) => v,
            Err(e) => return Err(TorrentError::Bencode(e)),
        };
        let root_dict = match root.as_dict() {
            Some(d) => d,
            None => return Err(TorrentError::RootNotDict),
        };
        let k_announce: [u8; 8] = [97, 110, 110, 111, 117, 110, 99, 101];
        assert(k_announce@ == key_announce());
        let announce = match find_bytes(root_dict.as_slice(), &k_announce) {
            None => None,
            Some(b) => match bytes_to_string(b) {
                Ok(s) => Some(s),
                Err(e) => return Err(e),
            },
        };
        let k_info: [u8; 4] = [105, 110, 102, 111];
        assert(k_info@ == key_info());
        let info = match find_value(root_dict.as_slice(), &k_info) {
            Some(v) => v,
            None => return Err(TorrentError::MissingInfo),
        };
        let info_dict = match info.as_dict() {
            Some(d) => d,
            None => return Err(TorrentError::InfoNotDict),
        };
        let k_name: [u8; 4] = [110, 97, 109, 101];
        assert(k_name@ == key_name());
        let name = match find_bytes(info_dict.as_slice(), &k_name) {
            Some(b) => match bytes_to_string(b) {
                Ok(s) => s,
                Err(e) => return Err(e),
            },
            None => return Err(TorrentError::MissingName),
        };
        let k_piece_length: [u8; 12] = [112, 105, 101, 99, 101, 32, 108, 101, 110, 103, 116, 104];
        assert(k_piece_length@ == key_piece_length());
        let piece_length = match find_integer(info_dict.as_slice(), &k_piece_length) {
            Some(n) => n,
            None => return Err(TorrentError::MissingPieceLength),
        };
        let k_pieces: [u8; 6] = [112, 105, 101, 99, 101, 115];
        assert(k_pieces@ == key_pieces());
        let pieces = match find_bytes(info_dict.as_slice(), &k_pieces) {
            Some(b) => b,
            None => return Err(TorrentError::MissingPieces),
        };
        if pieces.len() % 20 != 0 {
            return Err(TorrentError::PiecesNotMultipleOf20 { len: pieces.len() });
        }
        let k_length: [u8; 6] = [108, 101, 110, 103, 116, 104];
        assert(k_length@ == key_length());
        let total_length = find_integer(info_dict.as_slice(), &k_length);
        let k_files: [u8; 5] = [102, 105, 108, 101, 115];
        assert(k_files@ == key_files());
        let file_count = match find_list(info_dict.as_slice(), &k_files) {
            Some(files) => {
                proof {
                    lemma_values_view_len(files@);
                }
                Some(files.len())
            },
            None => None,
        };
        let info_hash = sha1_digest(info.raw);
        let info_hash_hex = hex_bytes(&info_hash);
        Ok(TorrentMeta {
            announce,
            name,
            piece_length,
            total_length,
            file_count,
            piece_count: pieces.len() / 20,
            info_hash,
            info_hash_hex,
            piece_hashes: vstd::slice::slice_to_vec(pieces),
        })
    }

    /// Checks a downloaded piece against its SHA-1 digest in the metadata.
    pub fn verify_piece_hash(&self, index: u32, piece: &[u8]) -> (r: Result<(), TorrentError>)
        requires
            self.piece_hashes@.len() == 20 * self.piece_count,
        ensures
            (index as int) >= self.piece_count ==> r == Err::<(), TorrentError>(TorrentError::PieceIndexOutOfRange { index }),
            (index as int) < self.piece_count ==> (r is Ok <==> spec_sha1(piece@) == self.piece_hashes@.subrange(
                20 * index as int,
                20 * index as int + 20,
            )),
            (index as int) < self.piece_count && r is Err ==> r == Err::<(), TorrentError>(TorrentError::PieceHashMismatch { index }),
    {
        if index as usize >= self.piece_count {
            return Err(TorrentError::PieceIndexOutOfRange { index });
        }
        let total = self.piece_hashes.len();
        assert(20 * (index as int) + 20 <= total);
        let start = 20 * (index as usize);
        let digest = sha1_digest(piece);
        if crate::text::bytes_equal(&digest, &self.piece_hashes.as_slice()[start..start + 20]) {
            Ok(())
        } else {
            Err(TorrentError::PieceHashMismatch { index })
        }
    }

    /// Whether `piece_length_at(index)` gets as far as computing the piece's start offset.
    pub open spec fn piece_offset_reached(self, index: u32) -> bool {
        &&& (index as int) < self.piece_count
        &&& self.piece_length > 0
        &&& self.total_length is Some
        &&& self.total_length.unwrap() >= 0
    }

    /// The length of piece `index`: the piece length, or what is left of the
    /// file for the last piece.
    pub fn piece_length_at(&self, index: u32) -> (r: Result<usize, TorrentError>)
        requires
            self.piece_offset_reached(index) ==> index as int * (self.piece_length as usize) as int <= usize::MAX,
        ensures
            (index as int) >= self.piece_count ==> r == Err::<usize, TorrentError>(
                TorrentError::PieceIndexOutOfRange { index },
            ),
            (index as int) < self.piece_count && self.piece_length <= 0 ==> r == Err::<usize, TorrentError>(
                TorrentError::NonPositivePieceLength,
            ),
            (index as int) < self.piece_count && self.piece_length > 0 && self.total_length is None ==> r
                == Err::<usize, TorrentError>(TorrentError::MultiFileUnsupported { command: "piece" }),
            ((index as int) < self.piece_count && self.piece_length > 0 && self.total_length is Some
                && self.total_length.unwrap() < 0) ==> r == Err::<usize, TorrentError>(TorrentError::NegativeLength),
            self.piece_offset_reached(index) ==> ({
                let piece = (self.piece_length as usize) as int;
                let total = (self.total_length.unwrap() as usize) as int;
                let start = index as int * piece;
                let remaining = if total > start { total - start } else { 0 };
                r == Ok::<usize, TorrentError>((if remaining < piece { remaining } else { piece }) as usize)
            }),
    {
        if index as usize >= self.piece_count {
            return Err(TorrentError::PieceIndexOutOfRange { index });
        }
        if self.piece_length <= 0 {
            return Err(TorrentError::NonPositivePieceLength);
        }
        let total_length = match self.total_length {
            Some(t) => t,
            None => return Err(TorrentError::MultiFileUnsupported { command: "piece" }),
        };
        if total_length < 0 {
            return Err(TorrentError::NegativeLength);
        }
        let piece_length = self.piece_length as usize;
        let total_length = total_length as usize;
        let start = index as usize * piece_length;
        let remaining = total_length.saturating_sub(start);
        Ok(if remaining < piece_length { remaining } else { piece_length })
    }

    pub fn mode_label(&self) -> (s: &'static str)
        ensures
            self.file_count is Some ==> s@ == "multi-file"@,
            self.file_count is None ==> s@ == "single-file"@,
    {
        if self.file_count.is_some() {
            "multi-file"
        } else {
            "single-file"
        }
    }
}


/// The text an error is reported with.
pub open spec fn torrent_error_message(e: TorrentError) -> Seq<char> {
    match e {
        TorrentError::Bencode(b) => bencode_error_message(b),
        TorrentError::RootNotDict => "torrent root must be a dictionary"@,
        TorrentError::MissingInfo => "torrent is missing required 'info' dictionary"@,
        TorrentError::InfoNotDict => "'info' must be a dictionary"@,
        TorrentError::NotUtf8 => "field was not valid UTF-8"@,
        TorrentError::MissingName => "'info.name' must be present and be a byte string"@,
        TorrentError::MissingPieceLength => "'info.piece length' must be present and be an integer"@,
        TorrentError::MissingPieces => "'info.pieces' must be present and be a byte string"@,
        TorrentError::PiecesNotMultipleOf20 { len } => "'info.pieces' must be a multiple of 20 bytes, found "@
            + decimal_chars(len as nat),
        TorrentError::PieceIndexOutOfRange { index } => "piece index "@ + decimal_chars(index as nat)
            + " is outside torrent piece count"@,
        TorrentError::NonPositivePieceLength => "piece length must be positive"@,
        TorrentError::MultiFileUnsupported { command } => command@
            + " command currently supports single-file torrents only"@,
        TorrentError::NegativeLength => "torrent length cannot be negative"@,
        TorrentError::MissingAnnounce => "torrent has no announce URL"@,
        TorrentError::PieceHashMismatch { index } => "piece "@ + decimal_chars(index as nat)
            + " does not match its SHA-1 hash in the torrent"@,
    }
}

impl TorrentError {
    pub fn message(&self) -> (s: String)
        ensures
            s@ == torrent_error_message(*self),
    {
        match self {
            TorrentError::Bencode(b) => b.message(),
            TorrentError::RootNotDict => String::from_str("torrent root must be a dictionary"),
            TorrentError::MissingInfo => String::from_str("torrent is missing required 'info' dictionary"),
            TorrentError::InfoNotDict => String::from_str("'info' must be a dictionary"),
            TorrentError::NotUtf8 => String::from_str("field was not valid UTF-8"),
            TorrentError::MissingName => String::from_str("'info.name' must be present and be a byte string"),
            TorrentError::MissingPieceLength => String::from_str("'info.piece length' must be present and be an integer"),
            TorrentError::MissingPieces => String::from_str("'info.pieces' must be present and be a byte string"),
            TorrentError::PiecesNotMultipleOf20 { len } => with_decimal(
                "'info.pieces' must be a multiple of 20 bytes, found ",
                *len as u64,
            ),
            TorrentError::PieceIndexOutOfRange { index } => {
                let mut s = with_decimal("piece index ", *index as u64);
                s.append(" is outside torrent piece count");
                s
            },
            TorrentError::NonPositivePieceLength => String::from_str("piece length must be positive"),
            TorrentError::MultiFileUnsupported { command } => {
                let mut s = String::from_str(command);
                s.append(" command currently supports single-file torrents only");
                s
            },
            TorrentError::NegativeLength => String::from_str("torrent length cannot be negative"),
            TorrentError::MissingAnnounce => String::from_str("torrent has no announce URL"),
            TorrentError::PieceHashMismatch { index } => {
                let mut s = with_decimal("piece ", *index as u64);
                s.append(" does not match its SHA-1 hash in the torrent");
                s
            },
        }
    }
}

} // verus!
