//! Recursive-length-prefix coding of the fork identifier and of raw byte
//! strings, as carried in node-record key/value entries.
//!
//! A fork identifier is a pair of a four-byte chain checksum and the block
//! number of the next scheduled fork. On the wire it is a two-element list:
//! the checksum as a four-byte string, the block number as a minimal
//! big-endian integer.

use vstd::prelude::*;

use crate::bytes_util::extend_bytes;

verus! {

/// Chain-fork identifier: four checksum bytes and the next fork block.
#[derive(Clone, Copy, Debug, PartialEq, Eq, Structural)]
pub struct ForkId {
    /// First checksum byte.
    pub h0: u8,
    /// Second checksum byte.
    pub h1: u8,
    /// Third checksum byte.
    pub h2: u8,
    /// Fourth checksum byte.
    pub h3: u8,
    /// Block number at which the next fork activates.
    pub next: u64,
}

/// Minimal big-endian byte string of `v`; empty for zero.
pub open spec fn be_of(v: u64) -> Seq<u8>
    decreases v,
{
    if v == 0 {
        Seq::empty()
    } else {
        be_of(v / 256) + seq![(v % 256) as u8]
    }
}

/// Value of a big-endian byte string.
pub open spec fn be_val(s: Seq<u8>) -> int
    decreases s.len(),
{
    if s.len() == 0 {
        0
    } else {
        be_val(s.drop_last()) * 256 + s.last()
    }
}

/// 256 to the power `n`.
pub open spec fn pow256(n: nat) -> int
    decreases n,
{
    if n == 0 {
        1
    } else {
        256 * pow256((n - 1) as nat)
    }
}

/// The coding of an unsigned integer: itself if a single non-zero byte
/// below 0x80, else a length prefix and the minimal big-endian bytes.
pub open spec fn enc_u64(v: u64) -> Seq<u8> {
    if 0 < v < 0x80 {
        seq![v as u8]
    } else {
        seq![(0x80 + be_of(v).len()) as u8] + be_of(v)
    }
}

/// The coding of a fork identifier: a list header, the four checksum bytes
/// as a string, then the next-fork block number.
pub open spec fn enc_forkid(f: ForkId) -> Seq<u8> {
    let payload = seq![0x84u8, f.h0, f.h1, f.h2, f.h3] + enc_u64(f.next);
    seq![(0xc0 + payload.len()) as u8] + payload
}

/// Decodes the integer part, accepting exactly the canonical form.
pub open spec fn dec_u64(s: Seq<u8>) -> Option<u64> {
    if s.len() == 1 && s[0] < 0x80 {
        if s[0] == 0 {
            None
        } else {
            Some(s[0] as u64)
        }
    } else if s.len() == 1 && s[0] == 0x80 {
        Some(0)
    } else if 2 <= s.len() <= 9 && s[0] == (0x80 + (s.len() - 1)) as u8 && s[1] != 0 && (s.len()
        > 2 || s[1] >= 0x80) {
        Some(be_val(s.subrange(1, s.len() as int)) as u64)
    } else {
        None
    }
}

/// Decodes a fork identifier, accepting exactly the canonical form.
pub open spec fn dec_forkid(b: Seq<u8>) -> Option<ForkId> {
    if b.len() < 7 || b.len() > 15 {
        None
    } else if b[0] != (0xc0 + (b.len() - 1)) as u8 || b[1] != 0x84 {
        None
    } else {
        match dec_u64(b.subrange(6, b.len() as int)) {
            Option::Some(v) => Option::Some(
                ForkId { h0: b[2], h1: b[3], h2: b[4], h3: b[5], next: v },
            ),
            Option::None => Option::None,
        }
    }
}

/// The minimal big-endian form of a `u64` has at most eight bytes.
pub proof fn lemma_be_bound(v: u64, n: nat)
    requires
        v < pow256(n),
    ensures
        be_of(v).len() <= n,
    decreases n,
{
    if v > 0 {
        assert(n > 0);
        assert(v / 256 < pow256((n - 1) as nat)) by {
            assert(pow256(n) == 256 * pow256((n - 1) as nat));
        };
        lemma_be_bound(v / 256, (n - 1) as nat);
    }
}

/// The eighth power of 256, spelled out.
pub proof fn lemma_pow256_8()
    ensures
        pow256(8) == 0x1_0000_0000_0000_0000,
{
    reveal_with_fuel(pow256, 9);
}

/// Every `u64` is below 256^8.
pub proof fn lemma_pow256_u64(v: u64)
    ensures
        v < pow256(8),
        be_of(v).len() <= 8,
{
    lemma_pow256_8();
    lemma_be_bound(v, 8);
}

/// A big-endian string stays below 256 to its length.
pub proof fn lemma_be_val_bound(s: Seq<u8>)
    ensures
        0 <= be_val(s) < pow256(s.len()),
    decreases s.len(),
{
    if s.len() == 0 {
    } else {
        lemma_be_val_bound(s.drop_last());
        assert(be_val(s.drop_last()) * 256 + s.last() < pow256(s.len())) by {
            assert(pow256(s.len()) == 256 * pow256((s.len() - 1) as nat));
            assert(be_val(s.drop_last()) <= pow256((s.len() - 1) as nat) - 1);
            assert(be_val(s.drop_last()) * 256 <= (pow256((s.len() - 1) as nat) - 1) * 256)
                by (nonlinear_arith)
                requires
                    be_val(s.drop_last()) <= pow256((s.len() - 1) as nat) - 1,
            ;
        };
    }
}

/// Reading back the minimal big-endian form gives the value.
pub proof fn lemma_be_round_trip(v: u64)
    ensures
        be_val(be_of(v)) == v,
    decreases v,
{
    if v == 0 {
    } else {
        lemma_be_round_trip(v / 256);
        assert(be_of(v).drop_last() =~= be_of(v / 256));
    }
}

/// A non-zero value's minimal form starts with a non-zero byte.
pub proof fn lemma_be_no_leading_zero(v: u64)
    requires
        v > 0,
    ensures
        be_of(v).len() > 0,
        be_of(v)[0] != 0,
    decreases v,
{
    if v < 256 {
        reveal_with_fuel(be_of, 2);
        assert(be_of(v) =~= seq![(v % 256) as u8]);
    } else {
        lemma_be_no_leading_zero(v / 256);
        assert(be_of(v)[0] == be_of(v / 256)[0]);
    }
}

/// Decoding inverts encoding for the integer coding.
pub proof fn lemma_u64_round_trip(v: u64)
    ensures
        dec_u64(enc_u64(v)) == Some(v),
{
    if 0 < v < 0x80 {
    } else if v == 0 {
        assert(enc_u64(0) =~= seq![0x80u8]);
    } else {
        lemma_pow256_u64(v);
        lemma_be_no_leading_zero(v);
        lemma_be_round_trip(v);
        let s = enc_u64(v);
        assert(s.subrange(1, s.len() as int) =~= be_of(v));
        if be_of(v).len() == 1 {
            reveal_with_fuel(be_val, 2);
            assert(be_of(v).drop_last() =~= Seq::<u8>::empty());
            assert(v == be_val(be_of(v)));
            assert(v >= 0x80);
            assert(s[1] >= 0x80);
        }
    }
}

/// Decoding inverts encoding for the fork identifier.
pub proof fn lemma_forkid_round_trip(f: ForkId)
    ensures
        dec_forkid(enc_forkid(f)) == Some(f),
{
    lemma_pow256_u64(f.next);
    lemma_u64_round_trip(f.next);
    let b = enc_forkid(f);
    assert(b.subrange(6, b.len() as int) =~= enc_u64(f.next));
}

/// Encodes `v` as its minimal big-endian byte string.
pub fn be_bytes(v: u64) -> (r: Vec<u8>)
    ensures
        r@ == be_of(v),
    decreases v,
{
    if v == 0 {
        Vec::new()
    } else {
        let mut r = be_bytes(v / 256);
        r.push((v % 256) as u8);
        assert(r@ =~= be_of(v));
        r
    }
}

/// Encodes an unsigned integer in its canonical coding.
pub fn encode_u64(v: u64) -> (r: Vec<u8>)
    ensures
        r@ == enc_u64(v),
{
    if 0 < v && v < 0x80 {
        let mut r: Vec<u8> = Vec::new();
        r.push(v as u8);
        assert(r@ =~= enc_u64(v));
        r
    } else {
        let be = be_bytes(v);
        proof {
            lemma_pow256_u64(v);
        }
        let mut r: Vec<u8> = Vec::new();
        r.push(0x80 + be.len() as u8);
        extend_bytes(&mut r, be.as_slice());
        assert(r@ =~= enc_u64(v));
        r
    }
}

/// Encodes a fork identifier in its canonical coding.
pub fn encode_forkid(f: &ForkId) -> (r: Vec<u8>)
    ensures
        r@ == enc_forkid(*f),
{
    let num = encode_u64(f.next);
    proof {
        lemma_pow256_u64(f.next);
    }
    let mut r: Vec<u8> = Vec::new();
    r.push(0xc0 + (5 + num.len()) as u8);
    r.push(0x84);
    r.push(f.h0);
    r.push(f.h1);
    r.push(f.h2);
    r.push(f.h3);
    extend_bytes(&mut r, num.as_slice());
    assert(r@ =~= enc_forkid(*f));
    r
}

/// Decodes the integer coding, accepting only the canonical form.
pub fn decode_u64(s: &[u8]) -> (r: Option<u64>)
    ensures
        r == dec_u64(s@),
{
    if s.len() == 1 && s[0] < 0x80 {
        if s[0] == 0 {
            None
        } else {
            Some(s[0] as u64)
        }
    } else if s.len() == 1 && s[0] == 0x80 {
        Some(0)
    } else if 2 <= s.len() && s.len() <= 9 && s[0] as usize == 0x80 + (s.len() - 1) && s[1] != 0
        && (s.len() > 2 || s[1] >= 0x80) {
        let mut acc: u64 = 0;
        let n = s.len();
        let mut i: usize = 1;
        proof {
            assert(be_val(s@.subrange(1, 1)) == 0);
        }
        while i < n
            invariant
                1 <= i <= n,
                n == s@.len(),
                2 <= n <= 9,
                acc == be_val(s@.subrange(1, i as int)),
                0 <= be_val(s@.subrange(1, i as int)) < pow256((i - 1) as nat),
            decreases n - i,
        {
            proof {
                lemma_be_val_bound(s@.subrange(1, i + 1));
                assert(s@.subrange(1, i + 1).drop_last() =~= s@.subrange(1, i as int));
                lemma_pow256_mono((i - 1) as nat, 7);
                lemma_pow256_8();
                assert(acc * 256 + s@[i as int] < pow256(8)) by (nonlinear_arith)
                    requires
                        acc <= pow256(7) - 1,
                        s@[i as int] < 256,
                        256 * pow256(7) == pow256(8),
                ;
            }
            acc = acc * 256 + s[i] as u64;
            i += 1;
        }
        proof {
            assert(s@.subrange(1, n as int) =~= s@.subrange(1, s@.len() as int));
        }
        Some(acc)
    } else {
        None
    }
}

/// `pow256` grows with its argument.
pub proof fn lemma_pow256_mono(a: nat, b: nat)
    requires
        a <= b,
    ensures
        pow256(a) <= pow256(b),
    decreases b,
{
    if a < b {
        lemma_pow256_mono(a, (b - 1) as nat);
        assert(pow256(b) == 256 * pow256((b - 1) as nat));
        assert(pow256((b - 1) as nat) >= 1) by {
            lemma_pow256_pos((b - 1) as nat);
        };
    }
}

/// `pow256` is positive.
pub proof fn lemma_pow256_pos(n: nat)
    ensures
        pow256(n) >= 1,
    decreases n,
{
    if n > 0 {
        lemma_pow256_pos((n - 1) as nat);
    }
}

/// Decodes a fork identifier, accepting only the canonical form.
pub fn decode_forkid(b: &[u8]) -> (r: Option<ForkId>)
    ensures
        r == dec_forkid(b@),
{
    if b.len() < 7 || b.len() > 15 {
        return None;
    }
    if b[0] as usize != 0xc0 + (b.len() - 1) || b[1] != 0x84 {
        return None;
    }
    let tail = vstd::slice::slice_subrange(b, 6, b.len());
    match decode_u64(tail) {
        Some(v) => Some(ForkId { h0: b[2], h1: b[3], h2: b[4], h3: b[5], next: v }),
        None => None,
    }
}

/// The coding of a raw byte string: itself if a single byte below 0x80,
/// else a length prefix (long form beyond 55 bytes) and the bytes.
pub open spec fn enc_bytes(s: Seq<u8>) -> Seq<u8> {
    if s.len() == 1 && s[0] < 0x80 {
        s
    } else if s.len() <= 55 {
        seq![(0x80 + s.len()) as u8] + s
    } else {
        seq![(0xb7 + be_of(s.len() as u64).len()) as u8] + be_of(s.len() as u64) + s
    }
}

/// Encodes a raw byte string in its canonical coding.
pub fn encode_bytes(s: &[u8]) -> (r: Vec<u8>)
    requires
        s@.len() <= u64::MAX,
    ensures
        r@ == enc_bytes(s@),
{
    let mut r: Vec<u8> = Vec::new();
    if s.len() == 1 && s[0] < 0x80 {
        r.push(s[0]);
        assert(r@ =~= enc_bytes(s@));
    } else if s.len() <= 55 {
        r.push(0x80 + s.len() as u8);
        extend_bytes(&mut r, s);
        assert(r@ =~= enc_bytes(s@));
    } else {
        let be = be_bytes(s.len() as u64);
        proof {
            lemma_pow256_u64(s@.len() as u64);
        }
        r.push(0xb7 + be.len() as u8);
        extend_bytes(&mut r, be.as_slice());
        extend_bytes(&mut r, s);
        assert(r@ =~= enc_bytes(s@));
    }
    r
}

} // verus!
