//! HTTP tracker announces: the request URL and the compact peer list in the reply.
use vstd::prelude::*;
use vstd::string::StringExecFns;
use crate::bencode::{
    BencodeError, BencodeParser, bencode_error_message, spec_parse, spec_as_dict, spec_find_bytes, spec_find_integer, find_bytes,
    find_integer,
};
use crate::text::{string_from_utf8_lossy, utf8_lossy, with_decimal, ascii_chars, ascii_to_string, decimal_chars, decimal_string, is_ascii_bytes, str_contains_ascii};
use crate::torrent::{TorrentError, TorrentMeta};

verus! {

/// An IPv4 peer address: four octets and a port.
#[derive(Debug, Clone, Copy, PartialEq, Eq)]
pub struct PeerAddr {
    pub octets: [u8; 4],
    pub port: u16,
}

#[derive(Debug)]
pub struct TrackerResponse {
    pub interval: Option<i64>,
    pub peers: Vec<PeerAddr>,
}

/// Why a tracker reply is refused.
#[derive(Debug, Clone, PartialEq, Eq)]
pub enum TrackerError {
    Bencode(BencodeError),
    RootNotDict,
    Failure { reason: Vec<u8> },
    MissingPeers,
    PeersNotMultipleOf6 { len: usize },
}

/// A tracker error in the abstract, with the failure reason as a byte sequence.
pub enum TrackerErrorView {
    Bencode(BencodeError),
    RootNotDict,
    Failure { reason: Seq<u8> },
    MissingPeers,
    PeersNotMultipleOf6 { len: usize },
}

impl View for TrackerError {
    type V = TrackerErrorView;

    open spec fn view(&self) -> TrackerErrorView {
        match self {
            TrackerError::Bencode(e) => TrackerErrorView::Bencode(*e),
            TrackerError::RootNotDict => TrackerErrorView::RootNotDict,
            TrackerError::Failure { reason } => TrackerErrorView::Failure { reason: reason@ },
            TrackerError::MissingPeers => TrackerErrorView::MissingPeers,
            TrackerError::PeersNotMultipleOf6 { len } => TrackerErrorView::PeersNotMultipleOf6 { len: *len },
        }
    }
}

// ---------------------------------------------------------------------------
// Percent-encoding
// ---------------------------------------------------------------------------

/// Bytes that stand for themselves in a query string.
pub open spec fn is_unreserved(b: u8) -> bool {
    (65 <= b <= 90) || (97 <= b <= 122) || (48 <= b <= 57) || b == 46 || b == 45 || b == 95 || b == 126
}

pub open spec fn upper_hex_byte(n: int) -> u8 {
    if n < 10 { (48 + n) as u8 } else { (55 + n) as u8 }
}

pub open spec fn percent_byte(b: u8) -> Seq<u8> {
    if is_unreserved(b) {
        seq![b]
    } else {
        seq![37u8, upper_hex_byte((b / 16) as int), upper_hex_byte((b % 16) as int)]
    }
}

/// `bytes` percent-encoded: unreserved bytes as they are, every other byte as `%XY`.
pub open spec fn percent_encoded(bytes: Seq<u8>) -> Seq<u8>
    decreases bytes.len(),
{
    if bytes.len() == 0 {
        Seq::empty()
    } else {
        percent_encoded(bytes.drop_last()) + percent_byte(bytes.last())
    }
}

pub proof fn lemma_percent_encoded_ascii(bytes: Seq<u8>)
    ensures
        is_ascii_bytes(percent_encoded(bytes)),
    decreases bytes.len(),
{
    if bytes.len() > 0 {
        lemma_percent_encoded_ascii(bytes.drop_last());
        let b = bytes.last();
        assert(b / 16 < 16 && b % 16 < 16);
        let p = percent_encoded(bytes);
        let q = percent_encoded(bytes.drop_last());
        assert forall|i: int| 0 <= i < p.len() implies #[trigger] p[i] < 128 by {
            if i < q.len() {
                assert(p[i] == q[i]);
            }
        }
    }
}

fn upper_hex(nibble: u8) -> (b: u8)
    requires
        nibble < 16,
    ensures
        b == upper_hex_byte(nibble as int),
{
    let c = crate::text::nibble_to_hex(nibble) as u8;
    if c >= 97u8 {
        c - 32
    } else {
        c
    }
}

pub fn percent_encode_bytes(bytes: &[u8]) -> (s: String)
    ensures
        s@ == ascii_chars(percent_encoded(bytes@)),
{
    let mut out: Vec<u8> = Vec::new();
    let mut i: usize = 0;
    while i < bytes.len()
        invariant
            i <= bytes.len(),
            out@ == percent_encoded(bytes@.take(i as int)),
        decreases bytes.len() - i,
    {
        let byte = bytes[i];
        if (65u8 <= byte && byte <= 90u8) || (97u8 <= byte && byte <= 122u8) || (48u8 <= byte && byte <= 57u8)
            || byte == 46u8 || byte == 45u8 || byte == 95u8 || byte == 126u8 {
            out.push(byte);
        } else {
            let hi = byte >> 4u8;
            let lo = byte & 0x0fu8;
            assert(hi == byte / 16 && lo == byte % 16) by (bit_vector)
                requires hi == byte >> 4u8, lo == byte & 0x0fu8;
            out.push(37u8);
            out.push(upper_hex(hi));
            out.push(upper_hex(lo));
        }
        assert(bytes@.take(i + 1).drop_last() =~= bytes@.take(i as int));
        i = i + 1;
        assert(out@ =~= percent_encoded(bytes@.take(i as int)));
    }
    assert(bytes@.take(i as int) =~= bytes@);
    proof {
        lemma_percent_encoded_ascii(bytes@);
    }
    ascii_to_string(out)
}

// ---------------------------------------------------------------------------
// Reading a query parameter back
// ---------------------------------------------------------------------------

/// The value of a hexadecimal digit character, if it is one.
pub open spec fn hex_value(c: char) -> Option<int> {
    if '0' <= c <= '9' {
        Some(c as int - 48)
    } else if 'A' <= c <= 'F' {
        Some(c as int - 55)
    } else if 'a' <= c <= 'f' {
        Some(c as int - 87)
    } else {
        None
    }
}

/// The bytes a percent-encoded query value stands for: `%XY` is the byte with
/// hexadecimal value `XY`, and any other ASCII character is its own byte.
pub open spec fn percent_decode(t: Seq<char>) -> Option<Seq<u8>>
    decreases t.len(),
{
    if t.len() == 0 {
        Some(Seq::empty())
    } else if t[0] == '%' {
        if t.len() >= 3 && hex_value(t[1]) is Some && hex_value(t[2]) is Some {
            match percent_decode(t.skip(3)) {
                Some(rest) => Some(seq![(16 * hex_value(t[1])->Some_0 + hex_value(t[2])->Some_0) as u8] + rest),
                None => None,
            }
        } else {
            None
        }
    } else if (t[0] as u32) < 128 {
        match percent_decode(t.drop_first()) {
            Some(rest) => Some(seq![t[0] as u8] + rest),
            None => None,
        }
    } else {
        None
    }
}

proof fn lemma_percent_encoded_add(a: Seq<u8>, b: Seq<u8>)
    ensures
        percent_encoded(a + b) == percent_encoded(a) + percent_encoded(b),
    decreases b.len(),
{
    if b.len() == 0 {
        assert(a + b =~= a);
        assert(percent_encoded(b) =~= Seq::<u8>::empty());
        assert(percent_encoded(a) + percent_encoded(b) =~= percent_encoded(a));
    } else {
        assert((a + b).drop_last() =~= a + b.drop_last());
        lemma_percent_encoded_add(a, b.drop_last());
        assert(percent_encoded(a + b) =~= percent_encoded(a) + percent_encoded(b));
    }
}

proof fn lemma_upper_hex_value(n: int)
    requires
        0 <= n < 16,
    ensures
        hex_value(upper_hex_byte(n) as char) == Some(n),
{
}

/// Decoding what one byte encodes to, followed by more text.
proof fn lemma_decode_percent_byte(x: u8, rest: Seq<char>)
    ensures
        percent_decode(ascii_chars(percent_byte(x)) + rest) == match percent_decode(rest) {
            Some(r) => Some(seq![x] + r),
            None => None::<Seq<u8>>,
        },
{
    let t = ascii_chars(percent_byte(x)) + rest;
    if is_unreserved(x) {
        assert(t[0] == x as char);
        assert(t.drop_first() =~= rest);
        assert((x as char) as u8 == x);
    } else {
        let hi = (x / 16) as int;
        let lo = (x % 16) as int;
        lemma_upper_hex_value(hi);
        lemma_upper_hex_value(lo);
        assert(t[0] == '%');
        assert(t[1] == upper_hex_byte(hi) as char);
        assert(t[2] == upper_hex_byte(lo) as char);
        assert(t.skip(3) =~= rest);
        assert((16 * hi + lo) as u8 == x);
    }
}

/// Percent-encoded bytes decode back to exactly those bytes, and never hold
/// the `&` that separates query parameters.
pub proof fn law_percent_encoding_roundtrip(bytes: Seq<u8>)
    ensures
        percent_decode(ascii_chars(percent_encoded(bytes))) == Some(bytes),
        !ascii_chars(percent_encoded(bytes)).contains('&'),
    decreases bytes.len(),
{
    if bytes.len() == 0 {
        assert(ascii_chars(percent_encoded(bytes)) =~= Seq::<char>::empty());
    } else {
        let x = bytes[0];
        let tail = bytes.drop_first();
        assert(bytes =~= seq![x] + tail);
        lemma_percent_encoded_add(seq![x], tail);
        assert(seq![x].drop_last() =~= Seq::<u8>::empty());
        assert(seq![x].last() == x);
        assert(percent_encoded(Seq::<u8>::empty()) == Seq::<u8>::empty());
        assert(percent_encoded(seq![x]) == percent_encoded(Seq::<u8>::empty()) + percent_byte(x));
        assert(percent_encoded(seq![x]) =~= percent_byte(x));
        law_percent_encoding_roundtrip(tail);
        let e = ascii_chars(percent_encoded(bytes));
        assert(e =~= ascii_chars(percent_byte(x)) + ascii_chars(percent_encoded(tail)));
        lemma_decode_percent_byte(x, ascii_chars(percent_encoded(tail)));
        assert(seq![x] + tail =~= bytes);
        let pb = ascii_chars(percent_byte(x));
        let rest = ascii_chars(percent_encoded(tail));
        assert forall|i: int| 0 <= i < e.len() implies e[i] != '&' by {
            if i < pb.len() {
                assert(e[i] == pb[i]);
                if is_unreserved(x) {
                } else {
                    lemma_percent_encoded_ascii(seq![x]);
                    assert(i == 0 || i == 1 || i == 2);
                }
            } else {
                assert(e[i] == rest[i - pb.len()]);
                assert(rest.contains(rest[i - pb.len()]));
            }
        }
    }
}

/// The announce URL carries the torrent's info hash and the peer id as query
/// parameters: after the announce address and its separator come
/// `info_hash=`, text that percent-decodes to exactly the 20-byte info hash,
/// then `&peer_id=` and text that percent-decodes to exactly the peer id,
/// neither holding an `&`.
#[verifier::rlimit(40)]
pub proof fn law_tracker_url_carries_hash_and_peer_id(
    announce: Option<Seq<char>>,
    total_length: Option<int>,
    info_hash: Seq<u8>,
    peer_id: Seq<u8>,
    port: nat,
)
    ensures
        spec_tracker_url(announce, total_length, info_hash, peer_id, port) matches Ok(url) ==> exists|
            sep: Seq<char>,
            h: Seq<char>,
            id: Seq<char>,
            rest: Seq<char>,
        |
            {
                &&& (sep == "?"@ || sep == "&"@)
                &&& url == announce->Some_0 + sep + "info_hash="@ + h + "&peer_id="@ + id + "&port="@ + rest
                &&& percent_decode(h) == Some(info_hash)
                &&& percent_decode(id) == Some(peer_id)
                &&& !h.contains('&')
                &&& !id.contains('&')
            },
{
    if spec_tracker_url(announce, total_length, info_hash, peer_id, port) is Ok {
        let a = announce->Some_0;
        let left = total_length->Some_0 as nat;
        let sep = if a.contains('?') { "&"@ } else { "?"@ };
        let h = ascii_chars(percent_encoded(info_hash));
        let id = ascii_chars(percent_encoded(peer_id));
        let rest = decimal_chars(port) + "&uploaded=0&downloaded=0&left="@ + decimal_chars(left) + "&compact=1&event=started"@;
        law_percent_encoding_roundtrip(info_hash);
        law_percent_encoding_roundtrip(peer_id);
        let url = spec_tracker_url(announce, total_length, info_hash, peer_id, port)->Ok_0;
        let q = tracker_query(info_hash, peer_id, port, left);
        assert(q =~= "info_hash="@ + h + "&peer_id="@ + id + "&port="@ + rest);
        assert(url == a + sep + q);
        assert(url =~= a + sep + "info_hash="@ + h + "&peer_id="@ + id + "&port="@ + rest);
        assert(sep == "?"@ || sep == "&"@);
        assert(percent_decode(h) == Some(info_hash) && percent_decode(id) == Some(peer_id));
    }
}

// ---------------------------------------------------------------------------
// The announce URL
// ---------------------------------------------------------------------------

/// The query that follows the announce URL and its separator.
pub open spec fn tracker_query(info_hash: Seq<u8>, peer_id: Seq<u8>, port: nat, left: nat) -> Seq<char> {
    "info_hash="@ + ascii_chars(percent_encoded(info_hash)) + "&peer_id="@ + ascii_chars(percent_encoded(peer_id))
        + "&port="@ + decimal_chars(port) + "&uploaded=0&downloaded=0&left="@ + decimal_chars(left)
        + "&compact=1&event=started"@
}

/// The announce URL for a torrent, or why none can be built.
pub open spec fn spec_tracker_url(
    announce: Option<Seq<char>>,
    total_length: Option<int>,
    info_hash: Seq<u8>,
    peer_id: Seq<u8>,
    port: nat,
) -> Result<Seq<char>, TorrentError> {
    match announce {
        None => Err(TorrentError::MissingAnnounce),
        Some(a) => match total_length {
            None => Err(TorrentError::MultiFileUnsupported { command: "tracker" }),
            Some(left) => if left < 0 {
                Err(TorrentError::NegativeLength)
            } else {
                let sep = if a.contains('?') { "&"@ } else { "?"@ };
                Ok(a + sep + tracker_query(info_hash, peer_id, port, left as nat))
            },
        },
    }
}

pub fn build_tracker_url(meta: &TorrentMeta, peer_id: &[u8; 20], port: u16) -> (r: Result<String, TorrentError>)
    ensures
        match (r, spec_tracker_url(meta@.announce, meta@.total_length, meta@.info_hash, peer_id@, port as nat)) {
            (Ok(s), Ok(t)) => s@ == t,
            (Err(e1), Err(e2)) => e1 == e2,
            _ => false,
        },
{
    let announce = match &meta.announce {
        Some(a) => a,
        None => return Err(TorrentError::MissingAnnounce),
    };
    let left = match meta.total_length {
        Some(t) => t,
        None => return Err(TorrentError::MultiFileUnsupported { command: "tracker" }),
    };
    if left < 0 {
        return Err(TorrentError::NegativeLength);
    }
    let has_query = str_contains_ascii(announce.as_str(), 63u8);
    let mut url = announce.clone();
    if has_query {
        url.append("&");
    } else {
        url.append("?");
    }
    url.append("info_hash=");
    let hash = percent_encode_bytes(&meta.info_hash);
    url.append(hash.as_str());
    url.append("&peer_id=");
    let id = percent_encode_bytes(peer_id);
    url.append(id.as_str());
    url.append("&port=");
    let port_text = decimal_string(port as u64);
    url.append(port_text.as_str());
    url.append("&uploaded=0&downloaded=0&left=");
    let left_text = decimal_string(left as u64);
    url.append(left_text.as_str());
    url.append("&compact=1&event=started");
    assert((63u8 as char) == '?');
    Ok(url)
}

/// The peer id this client announces itself with.
pub fn default_peer_id() -> (id: [u8; 20])
    ensures
        id@ == default_peer_id_bytes(),
{
    [45, 82, 83, 48, 48, 48, 49, 45, 48, 48, 48, 48, 48, 48, 48, 48, 48, 48, 48, 49]
}

/// `-RS0001-000000000001`
pub open spec fn default_peer_id_bytes() -> Seq<u8> {
    seq![45u8, 82, 83, 48, 48, 48, 49, 45, 48, 48, 48, 48, 48, 48, 48, 48, 48, 48, 48, 49]
}


// ---------------------------------------------------------------------------
// The tracker's reply
// ---------------------------------------------------------------------------

/// The peer whose six bytes start at `6 * i`: four octets, then a big-endian port.
pub open spec fn compact_peer_matches(bytes: Seq<u8>, i: int, p: PeerAddr) -> bool {
    &&& p.octets@ == bytes.subrange(6 * i, 6 * i + 4)
    &&& p.port as int == bytes[6 * i + 4] as int * 256 + bytes[6 * i + 5] as int
}

/// Whether `peers` is exactly the compact peer list `bytes`.
pub open spec fn is_compact_peer_list(bytes: Seq<u8>, peers: Seq<PeerAddr>) -> bool {
    &&& bytes.len() % 6 == 0
    &&& peers.len() == bytes.len() / 6
    &&& forall|i: int| 0 <= i < peers.len() ==> compact_peer_matches(bytes, i, #[trigger] peers[i])
}

pub fn parse_compact_peers(bytes: &[u8]) -> (r: Result<Vec<PeerAddr>, TrackerError>)
    ensures
        match r {
            Ok(peers) => is_compact_peer_list(bytes@, peers@),
            Err(e) => bytes@.len() % 6 != 0 && e@ == TrackerErrorView::PeersNotMultipleOf6 { len: bytes.len() },
        },
{
    if bytes.len() % 6 != 0 {
        return Err(TrackerError::PeersNotMultipleOf6 { len: bytes.len() });
    }
    let count = bytes.len() / 6;
    let mut peers: Vec<PeerAddr> = Vec::new();
    let mut i: usize = 0;
    while i < count
        invariant
            i <= count,
            count == bytes@.len() / 6,
            bytes@.len() % 6 == 0,
            bytes@.len() == bytes.len(),
            peers@.len() == i,
            forall|j: int| 0 <= j < i ==> compact_peer_matches(bytes@, j, #[trigger] peers@[j]),
        decreases count - i,
    {
        let o = 6 * i;
        let octets: [u8; 4] = [bytes[o], bytes[o + 1], bytes[o + 2], bytes[o + 3]];
        let port: u16 = (bytes[o + 4] as u16) * 256 + bytes[o + 5] as u16;
        let peer = PeerAddr { octets, port };
        assert(peer.octets@ =~= bytes@.subrange(6 * i as int, 6 * i + 4));
        peers.push(peer);
        i = i + 1;
    }
    Ok(peers)
}

pub open spec fn key_failure_reason() -> Seq<u8> {
    seq![102u8, 97, 105, 108, 117, 114, 101, 32, 114, 101, 97, 115, 111, 110]
}

pub open spec fn key_interval() -> Seq<u8> {
    seq![105u8, 110, 116, 101, 114, 118, 97, 108]
}

pub open spec fn key_peers() -> Seq<u8> {
    seq![112u8, 101, 101, 114, 115]
}

/// What a tracker reply says: `Ok` with its interval and the compact peer
/// bytes, or the error it is refused with.
pub open spec fn spec_tracker_reply(bytes: Seq<u8>) -> Result<(Option<int>, Seq<u8>), TrackerErrorView> {
    match spec_parse(bytes) {
        Err(e) => Err(TrackerErrorView::Bencode(e)),
        Ok(root) => match spec_as_dict(root) {
            None => Err(TrackerErrorView::RootNotDict),
            Some(d) => match spec_find_bytes(d, key_failure_reason()) {
                Some(reason) => Err(TrackerErrorView::Failure { reason }),
                None => match spec_find_bytes(d, key_peers()) {
                    None => Err(TrackerErrorView::MissingPeers),
                    Some(peers) => if peers.len() % 6 != 0 {
                        Err(TrackerErrorView::PeersNotMultipleOf6 { len: peers.len() as usize })
                    } else {
                        Ok((spec_find_integer(d, key_interval()), peers))
                    },
                },
            },
        },
    }
}

impl TrackerResponse {
    pub fn from_bytes(bytes: &[u8]) -> (r: Result<TrackerResponse, TrackerError>)
        ensures
            match r {
                Ok(resp) => match spec_tracker_reply(bytes@) {
                    Ok((interval, peers)) => {
                        &&& resp.interval matches Some(i) ==> interval == Some(i as int)
                        &&& resp.interval is None ==> interval is None
                        &&& is_compact_peer_list(peers, resp.peers@)
                    },
                    Err(_) => false,
                },
                Err(e) => spec_tracker_reply(bytes@) == Err::<(Option<int>, Seq<u8>), TrackerErrorView>(e@),
            },
    {
        let root = match BencodeParser::new(bytes).parse() {
            Ok(v) => v,
            Err(e) => return Err(TrackerError::Bencode(e)),
        };
        let root_dict = match root.as_dict() {
            Some(d) => d,
            None => return Err(TrackerError::RootNotDict),
        };
        let k_failure: [u8; 14] = [102, 97, 105, 108, 117, 114, 101, 32, 114, 101, 97, 115, 111, 110];
        assert(k_failure@ == key_failure_reason());
        match find_bytes(root_dict.as_slice(), &k_failure) {
            Some(reason) => {
                return Err(TrackerError::Failure { reason: vstd::slice::slice_to_vec(reason) });
            },
            None => {},
        }
        let k_interval: [u8; 8] = [105, 110, 116, 101, 114, 118, 97, 108];
        assert(k_interval@ == key_interval());
        let interval = find_integer(root_dict.as_slice(), &k_interval);
        let k_peers: [u8; 5] = [112, 101, 101, 114, 115];
        assert(k_peers@ == key_peers());
        let peer_bytes = match find_bytes(root_dict.as_slice(), &k_peers) {
            Some(b) => b,
            None => return Err(TrackerError::MissingPeers),
        };
        let peers = match parse_compact_peers(peer_bytes) {
            Ok(p) => p,
            Err(e) => return Err(e),
        };
        Ok(TrackerResponse { interval, peers })
    }
}


/// The text an error is reported with.
pub open spec fn tracker_error_message(e: TrackerErrorView) -> Seq<char> {
    match e {
        TrackerErrorView::Bencode(b) => bencode_error_message(b),
        TrackerErrorView::RootNotDict => "tracker response must be a dictionary"@,
        TrackerErrorView::Failure { reason } => "tracker failure: "@ + utf8_lossy(reason),
        TrackerErrorView::MissingPeers => "tracker response missing compact 'peers' field"@,
        TrackerErrorView::PeersNotMultipleOf6 { len } => "compact peer list must be a multiple of 6 bytes, found "@
            + decimal_chars(len as nat),
    }
}

impl TrackerError {
    pub fn message(&self) -> (s: String)
        ensures
            s@ == tracker_error_message(self@),
    {
        match self {
            TrackerError::Bencode(b) => b.message(),
            TrackerError::RootNotDict => String::from_str("tracker response must be a dictionary"),
            TrackerError::Failure { reason } => {
                let mut s = String::from_str("tracker failure: ");
                let text = string_from_utf8_lossy(reason.as_slice());
                s.append(text.as_str());
                s
            },
            TrackerError::MissingPeers => String::from_str("tracker response missing compact 'peers' field"),
            TrackerError::PeersNotMultipleOf6 { len } => with_decimal(
                "compact peer list must be a multiple of 6 bytes, found ",
                *len as u64,
            ),
        }
    }
}

} // verus!
