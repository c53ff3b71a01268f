//! Write-ahead log framing: each record is an 8-byte little-endian length
//! followed by that many bytes. Replay walks the records from the start and
//! stops quietly at a torn tail (a short header or a short record).
use vstd::prelude::*;

verus! {

/// One record of a log: where its bytes start and how many there are.
#[derive(Debug, Clone, Copy, PartialEq, Eq, Structural)]
pub struct WalFrame {
    pub start: usize,
    pub len: usize,
}

/// The little-endian 64-bit number at `i`.
pub open spec fn le64_at(b: Seq<u8>, i: int) -> u64 {
    (b[i] as u64) | ((b[i + 1] as u64) << 8u64) | ((b[i + 2] as u64) << 16u64) | ((b[i + 3] as u64) << 24u64)
        | ((b[i + 4] as u64) << 32u64) | ((b[i + 5] as u64) << 40u64) | ((b[i + 6] as u64) << 48u64) | ((
    b[i + 7] as u64) << 56u64)
}

pub open spec fn le64_bytes(v: u64) -> Seq<u8> {
    seq![
        v as u8, (v >> 8u64) as u8, (v >> 16u64) as u8, (v >> 24u64) as u8,
        (v >> 32u64) as u8, (v >> 40u64) as u8, (v >> 48u64) as u8, (v >> 56u64) as u8,
    ]
}

/// The records found from `cursor` on, as (start, length) pairs.
pub open spec fn wal_walk(buf: Seq<u8>, cursor: int) -> Seq<(int, int)>
    decreases buf.len() - cursor,
{
    if cursor < 0 || cursor >= buf.len() || cursor + 8 > buf.len() {
        Seq::empty()
    } else {
        let len = (le64_at(buf, cursor) as usize) as int;
        let start = cursor + 8;
        if start + len > buf.len() {
            Seq::empty()
        } else {
            seq![(start, len)] + wal_walk(buf, start + len)
        }
    }
}

/// Whether walking the log from `cursor` never adds past the largest `usize`.
pub open spec fn wal_walk_fits(buf: Seq<u8>, cursor: int) -> bool
    decreases buf.len() - cursor,
{
    if cursor < 0 || cursor >= buf.len() || cursor + 8 > buf.len() {
        true
    } else {
        let len = (le64_at(buf, cursor) as usize) as int;
        let start = cursor + 8;
        &&& start + len <= usize::MAX
        &&& (start + len > buf.len() || wal_walk_fits(buf, start + len))
    }
}

fn read_le64(b: &[u8], i: usize) -> (v: u64)
    requires
        i + 8 <= b@.len(),
    ensures
        v == le64_at(b@, i as int),
{
    (b[i] as u64) | ((b[i + 1] as u64) << 8u64) | ((b[i + 2] as u64) << 16u64) | ((b[i + 3] as u64) << 24u64)
        | ((b[i + 4] as u64) << 32u64) | ((b[i + 5] as u64) << 40u64) | ((b[i + 6] as u64) << 48u64) | ((
    b[i + 7] as u64) << 56u64)
}

/// Whether `wal_frames` may walk this log: no record claims a length that
/// would carry the position past the largest `usize`.
pub fn wal_fits(buffer: &[u8]) -> (r: bool)
    ensures
        r == wal_walk_fits(buffer@, 0),
{
    let mut cursor: usize = 0;
    while cursor < buffer.len()
        invariant
            cursor <= buffer@.len(),
            wal_walk_fits(buffer@, 0) == wal_walk_fits(buffer@, cursor as int),
        decreases buffer.len() - cursor,
    {
        if buffer.len() - cursor < 8 {
            return true;
        }
        let len = read_le64(buffer, cursor) as usize;
        let start = cursor + 8;
        if len > usize::MAX - start {
            return false;
        }
        if len > buffer.len() - start {
            return true;
        }
        cursor = start + len;
    }
    true
}

/// The records of a log, in order, up to the first torn one.
pub fn wal_frames(buffer: &[u8]) -> (frames: Vec<WalFrame>)
    requires
        wal_walk_fits(buffer@, 0),
    ensures
        frames@.len() == wal_walk(buffer@, 0).len(),
        forall|k: int| 0 <= k < frames@.len() ==> (#[trigger] frames@[k]).start as int == wal_walk(buffer@, 0)[k].0
            && frames@[k].len as int == wal_walk(buffer@, 0)[k].1,
        forall|k: int| 0 <= k < frames@.len() ==> (#[trigger] frames@[k]).start + frames@[k].len <= buffer@.len(),
{
    let mut frames: Vec<WalFrame> = Vec::new();
    let mut cursor: usize = 0;
    let ghost w = wal_walk(buffer@, 0);
    while cursor < buffer.len()
        invariant
            cursor <= buffer@.len(),
            w == wal_walk(buffer@, 0),
            wal_walk_fits(buffer@, cursor as int),
            w == frames@.map_values(|f: WalFrame| (f.start as int, f.len as int)) + wal_walk(buffer@, cursor as int),
            forall|k: int| 0 <= k < frames@.len() ==> (#[trigger] frames@[k]).start + frames@[k].len <= buffer@.len(),
        ensures
            w == frames@.map_values(|f: WalFrame| (f.start as int, f.len as int)) + wal_walk(buffer@, cursor as int),
            wal_walk(buffer@, cursor as int) =~= Seq::<(int, int)>::empty(),
            forall|k: int| 0 <= k < frames@.len() ==> (#[trigger] frames@[k]).start + frames@[k].len <= buffer@.len(),
        decreases buffer.len() - cursor,
    {
        if buffer.len() - cursor < 8 {
            assert(wal_walk(buffer@, cursor as int) =~= Seq::<(int, int)>::empty());
            break;
        }
        let len = read_le64(buffer, cursor) as usize;
        let start = cursor + 8;
        if len > buffer.len() - start {
            assert(wal_walk(buffer@, cursor as int) =~= Seq::<(int, int)>::empty());
            break;
        }
        let ghost before = frames@;
        frames.push(WalFrame { start, len });
        proof {
            let f = |f: WalFrame| (f.start as int, f.len as int);
            assert(frames@.map_values(f) =~= before.map_values(f).push((start as int, len as int)));
            assert(before.map_values(f) + wal_walk(buffer@, cursor as int) =~= before.map_values(f).push(
                (start as int, len as int),
            ) + wal_walk(buffer@, (start + len) as int));
        }
        cursor = start + len;
    }
    proof {
        let f = |f: WalFrame| (f.start as int, f.len as int);
        assert(w =~= frames@.map_values(f));
        assert forall|k: int| 0 <= k < frames@.len() implies (#[trigger] frames@[k]).start as int == w[k].0 && frames@[k].len as int == w[k].1 by {
            assert(w[k] == frames@.map_values(f)[k]);
        }
    }
    frames
}

/// How a log ends: after its last whole record, inside a record's 8-byte
/// header, or inside a record's bytes.
#[derive(Debug, Clone, Copy, PartialEq, Eq, Structural)]
pub enum WalTail {
    Complete,
    TornHeader,
    TornRecord,
}

/// How the log ends, walking its records from `cursor`.
pub open spec fn wal_tail_at(buf: Seq<u8>, cursor: int) -> WalTail
    decreases buf.len() - cursor,
{
    if cursor < 0 || cursor >= buf.len() {
        WalTail::Complete
    } else if cursor + 8 > buf.len() {
        WalTail::TornHeader
    } else {
        let len = (le64_at(buf, cursor) as usize) as int;
        let start = cursor + 8;
        if start + len > buf.len() {
            WalTail::TornRecord
        } else {
            wal_tail_at(buf, start + len)
        }
    }
}

/// How the log ends: whether replay stops at a torn header or a torn record.
pub fn wal_tail(buffer: &[u8]) -> (t: WalTail)
    requires
        wal_walk_fits(buffer@, 0),
    ensures
        t == wal_tail_at(buffer@, 0),
{
    let mut cursor: usize = 0;
    while cursor < buffer.len()
        invariant
            cursor <= buffer@.len(),
            wal_walk_fits(buffer@, cursor as int),
            wal_tail_at(buffer@, 0) == wal_tail_at(buffer@, cursor as int),
        decreases buffer.len() - cursor,
    {
        if buffer.len() - cursor < 8 {
            return WalTail::TornHeader;
        }
        let len = read_le64(buffer, cursor) as usize;
        let start = cursor + 8;
        if len > buffer.len() - start {
            return WalTail::TornRecord;
        }
        cursor = start + len;
    }
    WalTail::Complete
}

/// The 8-byte header written before a record of `len` bytes.
pub fn wal_header(len: u64) -> (h: [u8; 8])
    ensures
        h@ == le64_bytes(len),
{
    let h: [u8; 8] = [
        len as u8,
        (len >> 8u64) as u8,
        (len >> 16u64) as u8,
        (len >> 24u64) as u8,
        (len >> 32u64) as u8,
        (len >> 40u64) as u8,
        (len >> 48u64) as u8,
        (len >> 56u64) as u8,
    ];
    assert(h@ =~= le64_bytes(len));
    h
}

// ---------------------------------------------------------------------------
// What replay gives back of what was written
// ---------------------------------------------------------------------------

/// The log bytes for a list of records: each record's header, then its bytes.
pub open spec fn wal_encode(records: Seq<Seq<u8>>) -> Seq<u8>
    decreases records.len(),
{
    if records.len() == 0 {
        Seq::empty()
    } else {
        le64_bytes(records[0].len() as u64) + records[0] + wal_encode(records.drop_first())
    }
}

/// The bytes of the records a walk finds.
pub open spec fn frame_bytes(buf: Seq<u8>, frames: Seq<(int, int)>) -> Seq<Seq<u8>> {
    frames.map_values(|f: (int, int)| buf.subrange(f.0, f.0 + f.1))
}

pub proof fn lemma_le64_roundtrip(v: u64)
    ensures
        le64_at(le64_bytes(v), 0) == v,
{
    let b = le64_bytes(v);
    let (b0, b1, b2, b3, b4, b5, b6, b7) = (b[0], b[1], b[2], b[3], b[4], b[5], b[6], b[7]);
    assert((b0 as u64) | ((b1 as u64) << 8u64) | ((b2 as u64) << 16u64) | ((b3 as u64) << 24u64) | ((b4 as u64)
        << 32u64) | ((b5 as u64) << 40u64) | ((b6 as u64) << 48u64) | ((b7 as u64) << 56u64) == v) by (bit_vector)
        requires
            b0 == v as u8, b1 == (v >> 8u64) as u8, b2 == (v >> 16u64) as u8, b3 == (v >> 24u64) as u8,
            b4 == (v >> 32u64) as u8, b5 == (v >> 40u64) as u8, b6 == (v >> 48u64) as u8, b7 == (v >> 56u64) as u8;
}

proof fn lemma_le64_shift(prefix: Seq<u8>, rest: Seq<u8>)
    requires
        rest.len() >= 8,
    ensures
        le64_at(prefix + rest, prefix.len() as int) == le64_at(rest, 0),
{
    let s = prefix + rest;
    let p = prefix.len() as int;
    assert(s[p] == rest[0] && s[p + 1] == rest[1] && s[p + 2] == rest[2] && s[p + 3] == rest[3]);
    assert(s[p + 4] == rest[4] && s[p + 5] == rest[5] && s[p + 6] == rest[6] && s[p + 7] == rest[7]);
}

proof fn lemma_le64_same_prefix(x: Seq<u8>, y: Seq<u8>)
    requires
        x.len() >= 8,
        y.len() >= 8,
        forall|i: int| 0 <= i < 8 ==> x[i] == y[i],
    ensures
        le64_at(x, 0) == le64_at(y, 0),
{
    assert(x[0] == y[0] && x[1] == y[1] && x[2] == y[2] && x[3] == y[3]);
    assert(x[4] == y[4] && x[5] == y[5] && x[6] == y[6] && x[7] == y[7]);
}

/// One step of the walk over an encoded record: a header at `p` announcing
/// `r0.len()` bytes that are all there.
proof fn lemma_walk_step(buf: Seq<u8>, p: int, r0: Seq<u8>)
    requires
        0 <= p,
        r0.len() <= usize::MAX,
        p + 8 + r0.len() <= buf.len(),
        buf.subrange(p, p + 8) == le64_bytes(r0.len() as u64),
        buf.subrange(p + 8, p + 8 + r0.len()) == r0,
    ensures
        wal_walk(buf, p) == seq![(p + 8, r0.len() as int)] + wal_walk(buf, p + 8 + r0.len()),
{
    let h = le64_bytes(r0.len() as u64);
    lemma_le64_shift(buf.subrange(0, p), buf.subrange(p, buf.len() as int));
    assert(buf.subrange(0, p) + buf.subrange(p, buf.len() as int) =~= buf);
    assert forall|i: int| 0 <= i < 8 implies buf.subrange(p, buf.len() as int)[i] == h[i] by {
        assert(buf.subrange(p, buf.len() as int)[i] == buf[p + i]);
        assert(buf.subrange(p, p + 8)[i] == buf[p + i]);
    }
    lemma_le64_same_prefix(buf.subrange(p, buf.len() as int), h);
    lemma_le64_roundtrip(r0.len() as u64);
    assert(le64_at(buf, p) == r0.len() as u64);
    assert((r0.len() as u64) as usize == r0.len());
}

/// Walking the log from position `p` of `prefix + wal_encode(records) + tail`
/// finds the records, then whatever the tail holds.
#[verifier::rlimit(50)]
proof fn lemma_walk_encoded(prefix: Seq<u8>, records: Seq<Seq<u8>>, tail: Seq<u8>)
    requires
        forall|k: int| 0 <= k < records.len() ==> (#[trigger] records[k]).len() <= usize::MAX,
    ensures
        ({
            let buf = prefix + wal_encode(records) + tail;
            let w = wal_walk(buf, prefix.len() as int);
            let n = records.len();
            &&& w.len() >= n
            &&& frame_bytes(buf, w.take(n as int)) == records
            &&& w.skip(n as int) == wal_walk(buf, (prefix.len() + wal_encode(records).len()) as int)
        }),
    decreases records.len(),
{
    let buf = prefix + wal_encode(records) + tail;
    let p = prefix.len() as int;
    if records.len() == 0 {
        assert(wal_encode(records) =~= Seq::<u8>::empty());
        let w = wal_walk(buf, p);
        assert(w.take(0) =~= Seq::<(int, int)>::empty());
        assert(frame_bytes(buf, w.take(0)) =~= records);
        assert(w.skip(0) =~= w);
    } else {
        let r0 = records[0];
        let rest = records.drop_first();
        let h = le64_bytes(r0.len() as u64);
        assert(wal_encode(records) == h + r0 + wal_encode(rest));
        let prefix2 = prefix + h + r0;
        assert(buf =~= prefix2 + wal_encode(rest) + tail);
        assert(buf.subrange(p, p + 8) =~= h);
        assert(buf.subrange(p + 8, p + 8 + r0.len()) =~= r0);
        lemma_walk_step(buf, p, r0);
        assert forall|k: int| 0 <= k < rest.len() implies (#[trigger] rest[k]).len() <= usize::MAX by {
            assert(rest[k] == records[k + 1]);
        }
        lemma_walk_encoded(prefix2, rest, tail);
        let w = wal_walk(buf, p);
        let w2 = wal_walk(buf, prefix2.len() as int);
        assert(prefix2.len() == p + 8 + r0.len());
        let n = records.len() as int;
        assert(w.take(n) =~= seq![(p + 8, r0.len() as int)] + w2.take(n - 1));
        assert(frame_bytes(buf, w.take(n)) =~= seq![r0] + frame_bytes(buf, w2.take(n - 1)));
        assert(records =~= seq![r0] + rest);
        assert(w.skip(n) =~= w2.skip(n - 1));
    }
}

/// Replaying a log gives back exactly the records written to it, in order,
/// whatever torn, partly written record follows them.
pub proof fn law_replay_returns_written_records(records: Seq<Seq<u8>>, torn: Seq<u8>)
    requires
        forall|k: int| 0 <= k < records.len() ==> (#[trigger] records[k]).len() <= usize::MAX,
        torn.len() < 8 || 8 + (le64_at(torn, 0) as usize) as int > torn.len(),
    ensures
        ({
            let buf = wal_encode(records) + torn;
            frame_bytes(buf, wal_walk(buf, 0)) == records
        }),
{
    let prefix = Seq::<u8>::empty();
    lemma_walk_encoded(prefix, records, torn);
    let buf = wal_encode(records) + torn;
    assert(prefix + wal_encode(records) + torn =~= buf);
    let e = wal_encode(records).len() as int;
    let w = wal_walk(buf, 0);
    let n = records.len() as int;
    if torn.len() >= 8 {
        lemma_le64_shift(wal_encode(records), torn);
    }
    assert(wal_walk(buf, e) =~= Seq::<(int, int)>::empty());
    assert(w =~= w.take(n));
}

} // verus!
