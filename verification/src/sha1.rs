//! SHA-1 (FIPS 180-4), used for torrent info hashes and piece checks.
use vstd::prelude::*;

verus! {

/// The five working words of the hash.
pub struct Sha1State {
    pub h0: u32,
    pub h1: u32,
    pub h2: u32,
    pub h3: u32,
    pub h4: u32,
}

pub open spec fn rotl(x: u32, n: u32) -> u32 {
    (x << n) | (x >> ((32 - n) as u32))
}

/// Big-endian word made of the four bytes at `i`.
pub open spec fn be_word(b: Seq<u8>, i: int) -> u32 {
    ((b[i] as u32) << 24u32) | ((b[i + 1] as u32) << 16u32) | ((b[i + 2] as u32) << 8u32) | (b[i + 3] as u32)
}

/// The message schedule: word `t` of the 80 derived from one 64-byte block.
pub open spec fn schedule(block: Seq<u8>, t: int) -> u32
    decreases t,
{
    if t < 16 {
        be_word(block, 4 * t)
    } else {
        rotl(
            schedule(block, t - 3) ^ schedule(block, t - 8) ^ schedule(block, t - 14) ^ schedule(block, t - 16),
            1,
        )
    }
}

pub open spec fn round_f(i: int, b: u32, c: u32, d: u32) -> u32 {
    if i < 20 {
        (b & c) | ((!b) & d)
    } else if i < 40 {
        b ^ c ^ d
    } else if i < 60 {
        (b & c) | (b & d) | (c & d)
    } else {
        b ^ c ^ d
    }
}

pub open spec fn round_k(i: int) -> u32 {
    if i < 20 {
        0x5a82_7999u32
    } else if i < 40 {
        0x6ed9_eba1u32
    } else if i < 60 {
        0x8f1b_bcdcu32
    } else {
        0xca62_c1d6u32
    }
}

/// One of the eighty rounds, with round index `i` and schedule word `w`.
pub open spec fn round(s: Sha1State, i: int, w: u32) -> Sha1State {
    let temp = rotl(s.h0, 5).wrapping_add(round_f(i, s.h1, s.h2, s.h3)).wrapping_add(s.h4).wrapping_add(
        round_k(i),
    ).wrapping_add(w);
    Sha1State { h0: temp, h1: s.h0, h2: rotl(s.h1, 30), h3: s.h2, h4: s.h3 }
}

/// The working state after the first `n` rounds over `block`, starting from `h`.
pub open spec fn rounds(block: Seq<u8>, h: Sha1State, n: int) -> Sha1State
    decreases n,
{
    if n <= 0 {
        h
    } else {
        round(rounds(block, h, n - 1), n - 1, schedule(block, n - 1))
    }
}

/// The chaining value after one 64-byte block.
pub open spec fn compress(block: Seq<u8>, h: Sha1State) -> Sha1State {
    let s = rounds(block, h, 80);
    Sha1State {
        h0: h.h0.wrapping_add(s.h0),
        h1: h.h1.wrapping_add(s.h1),
        h2: h.h2.wrapping_add(s.h2),
        h3: h.h3.wrapping_add(s.h3),
        h4: h.h4.wrapping_add(s.h4),
    }
}

pub open spec fn initial_state() -> Sha1State {
    Sha1State { h0: 0x6745_2301, h1: 0xefcd_ab89, h2: 0x98ba_dcfe, h3: 0x1032_5476, h4: 0xc3d2_e1f0 }
}

/// The chaining value after the first `n` blocks of the padded message.
pub open spec fn hash_blocks(padded: Seq<u8>, n: int) -> Sha1State
    decreases n,
{
    if n <= 0 {
        initial_state()
    } else {
        compress(padded.subrange(64 * (n - 1), 64 * n), hash_blocks(padded, n - 1))
    }
}

/// Number of zero bytes between the `0x80` marker and the length field.
pub open spec fn pad_zero_count(len: nat) -> nat {
    ((119 - (len % 64) as int) % 64) as nat
}

pub open spec fn be64_bytes(v: u64) -> Seq<u8> {
    seq![
        (v >> 56u64) as u8, (v >> 48u64) as u8, (v >> 40u64) as u8, (v >> 32u64) as u8,
        (v >> 24u64) as u8, (v >> 16u64) as u8, (v >> 8u64) as u8, v as u8,
    ]
}

pub open spec fn be32_bytes(v: u32) -> Seq<u8> {
    seq![(v >> 24u32) as u8, (v >> 16u32) as u8, (v >> 8u32) as u8, v as u8]
}

/// The message followed by the `0x80` marker, zero bytes and its bit length.
pub open spec fn sha1_padded(msg: Seq<u8>) -> Seq<u8> {
    msg + seq![0x80u8] + Seq::new(pad_zero_count(msg.len()), |i: int| 0u8) + be64_bytes(((msg.len() * 8) % 0x1_0000_0000_0000_0000) as u64)
}

pub open spec fn state_bytes(h: Sha1State) -> Seq<u8> {
    be32_bytes(h.h0) + be32_bytes(h.h1) + be32_bytes(h.h2) + be32_bytes(h.h3) + be32_bytes(h.h4)
}

/// The SHA-1 digest of `msg`.
pub open spec fn spec_sha1(msg: Seq<u8>) -> Seq<u8> {
    let p = sha1_padded(msg);
    state_bytes(hash_blocks(p, (p.len() / 64) as int))
}

proof fn lemma_padded_len(len: nat)
    ensures
        (len + 1 + pad_zero_count(len) + 8) % 64 == 0,
        len + 1 + pad_zero_count(len) + 8 >= 64,
{
    let r = len % 64;
    assert(len == 64 * (len / 64) + r) by (nonlinear_arith)
        requires r == len % 64;
    if r <= 55 {
        assert(pad_zero_count(len) == 55 - r);
        assert(len + 1 + pad_zero_count(len) + 8 == 64 * (len / 64) + 64);
    } else {
        assert(pad_zero_count(len) == 119 - r);
        assert(len + 1 + pad_zero_count(len) + 8 == 64 * (len / 64) + 128);
    }
}

fn rotl_exec(x: u32, n: u32) -> (r: u32)
    requires
        0 < n < 32,
    ensures
        r == rotl(x, n),
{
    (x << n) | (x >> (32 - n))
}

/// The padded message, exactly as `sha1_padded` lays it out.
fn pad_message(input: &[u8]) -> (m: Vec<u8>)
    ensures
        m@ == sha1_padded(input@),
        m@.len() % 64 == 0,
        m@.len() >= 64,
{
    let mut message: Vec<u8> = vstd::slice::slice_to_vec(input);
    let len = input.len();
    message.push(0x80u8);
    let zeros: usize = (119 - len % 64) % 64;
    assert(zeros == pad_zero_count(len as nat));
    let mut i: usize = 0;
    while i < zeros
        invariant
            i <= zeros,
            zeros == pad_zero_count(len as nat),
            len == input@.len(),
            message@ == input@ + seq![0x80u8] + Seq::new(i as nat, |j: int| 0u8),
        decreases zeros - i,
    {
        message.push(0u8);
        i = i + 1;
        assert(message@ =~= input@ + seq![0x80u8] + Seq::new(i as nat, |j: int| 0u8));
    }
    let bit_len: u64 = (len as u64).wrapping_mul(8);
    message.push((bit_len >> 56u64) as u8);
    message.push((bit_len >> 48u64) as u8);
    message.push((bit_len >> 40u64) as u8);
    message.push((bit_len >> 32u64) as u8);
    message.push((bit_len >> 24u64) as u8);
    message.push((bit_len >> 16u64) as u8);
    message.push((bit_len >> 8u64) as u8);
    message.push(bit_len as u8);
    assert(message@ =~= sha1_padded(input@));
    proof {
        lemma_padded_len(len as nat);
    }
    message
}

/// The eighty schedule words of the block at `offset`.
fn expand_block(message: &Vec<u8>, offset: usize) -> (words: Vec<u32>)
    requires
        offset + 64 <= message@.len(),
    ensures
        words@.len() == 80,
        forall|t: int| 0 <= t < 80 ==> #[trigger] words@[t] == schedule(message@.subrange(offset as int, offset + 64), t),
{
    let ghost block = message@.subrange(offset as int, offset + 64);
    let mut words: Vec<u32> = Vec::new();
    let mut t: usize = 0;
    while t < 16
        invariant
            t <= 16,
            offset + 64 <= message.len(),
            block == message@.subrange(offset as int, offset + 64),
            words@.len() == t,
            forall|j: int| 0 <= j < t ==> #[trigger] words@[j] == schedule(block, j),
        decreases 16 - t,
    {
        let o = offset + 4 * t;
        let w = ((message[o] as u32) << 24u32) | ((message[o + 1] as u32) << 16u32) | ((message[o + 2] as u32) << 8u32)
            | (message[o + 3] as u32);
        assert(w == schedule(block, t as int));
        words.push(w);
        t = t + 1;
    }
    while t < 80
        invariant
            16 <= t <= 80,
            words@.len() == t,
            forall|j: int| 0 <= j < t ==> #[trigger] words@[j] == schedule(block, j),
        decreases 80 - t,
    {
        let x = words[t - 3] ^ words[t - 8] ^ words[t - 14] ^ words[t - 16];
        let w = rotl_exec(x, 1);
        assert(w == schedule(block, t as int));
        words.push(w);
        t = t + 1;
    }
    words
}

/// The chaining value after one block, computed round by round.
fn compress_block(message: &Vec<u8>, offset: usize, h: Sha1State) -> (r: Sha1State)
    requires
        offset + 64 <= message@.len(),
    ensures
        r == compress(message@.subrange(offset as int, offset + 64), h),
{
    let ghost block = message@.subrange(offset as int, offset + 64);
    let words = expand_block(message, offset);
    let mut a = h.h0;
    let mut b = h.h1;
    let mut c = h.h2;
    let mut d = h.h3;
    let mut e = h.h4;
    let mut i: usize = 0;
    while i < 80
        invariant
            i <= 80,
            words@.len() == 80,
            forall|t: int| 0 <= t < 80 ==> #[trigger] words@[t] == schedule(block, t),
            (Sha1State { h0: a, h1: b, h2: c, h3: d, h4: e }) == rounds(block, h, i as int),
        decreases 80 - i,
    {
        let f: u32;
        let k: u32;
        if i < 20 {
            f = (b & c) | ((!b) & d);
            k = 0x5a82_7999u32;
        } else if i < 40 {
            f = b ^ c ^ d;
            k = 0x6ed9_eba1u32;
        } else if i < 60 {
            f = (b & c) | (b & d) | (c & d);
            k = 0x8f1b_bcdcu32;
        } else {
            f = b ^ c ^ d;
            k = 0xca62_c1d6u32;
        }
        let temp = rotl_exec(a, 5).wrapping_add(f).wrapping_add(e).wrapping_add(k).wrapping_add(words[i]);
        e = d;
        d = c;
        c = rotl_exec(b, 30);
        b = a;
        a = temp;
        i = i + 1;
    }
    Sha1State {
        h0: h.h0.wrapping_add(a),
        h1: h.h1.wrapping_add(b),
        h2: h.h2.wrapping_add(c),
        h3: h.h3.wrapping_add(d),
        h4: h.h4.wrapping_add(e),
    }
}

/// The SHA-1 digest of `input`.
pub fn sha1_digest(input: &[u8]) -> (out: [u8; 20])
    ensures
        out@ == spec_sha1(input@),
{
    let message = pad_message(input);
    let blocks = message.len() / 64;
    let mut h = Sha1State { h0: 0x6745_2301, h1: 0xefcd_ab89, h2: 0x98ba_dcfe, h3: 0x1032_5476, h4: 0xc3d2_e1f0 };
    let mut n: usize = 0;
    while n < blocks
        invariant
            n <= blocks,
            blocks == message@.len() / 64,
            message@.len() % 64 == 0,
            h == hash_blocks(message@, n as int),
        decreases blocks - n,
    {
        assert(message@.len() == message.len());
        assert(64 * n + 64 <= message@.len()) by (nonlinear_arith)
            requires n < blocks, blocks == message@.len() / 64;
        h = compress_block(&message, 64 * n, h);
        n = n + 1;
    }
    let out: [u8; 20] = [
        (h.h0 >> 24u32) as u8, (h.h0 >> 16u32) as u8, (h.h0 >> 8u32) as u8, h.h0 as u8,
        (h.h1 >> 24u32) as u8, (h.h1 >> 16u32) as u8, (h.h1 >> 8u32) as u8, h.h1 as u8,
        (h.h2 >> 24u32) as u8, (h.h2 >> 16u32) as u8, (h.h2 >> 8u32) as u8, h.h2 as u8,
        (h.h3 >> 24u32) as u8, (h.h3 >> 16u32) as u8, (h.h3 >> 8u32) as u8, h.h3 as u8,
        (h.h4 >> 24u32) as u8, (h.h4 >> 16u32) as u8, (h.h4 >> 8u32) as u8, h.h4 as u8,
    ];
    assert(out@ =~= state_bytes(h));
    out
}

} // verus!
