//! Hybrid run-length / bit-packed encoding of presence flags, behind a
//! 4-byte little-endian length prefix.
use vstd::prelude::*;

use crate::error::Error;

verus! {

/// Number of bytes that hold `n` bits.
pub open spec fn ceil8(n: nat) -> nat {
    (n + 7) / 8
}

/// Unsigned LEB128 encoding of `v`: seven bits per byte, low bits first, the
/// high bit set on every byte but the last.
pub open spec fn uleb128(v: nat) -> Seq<u8>
    decreases v,
{
    if v < 128 {
        seq![v as u8]
    } else {
        seq![((v % 128) + 128) as u8] + uleb128(v / 128)
    }
}

/// Reads an unsigned LEB128 integer at the start of `s`: its value and the
/// number of bytes it took.
pub open spec fn read_uleb128(s: Seq<u8>) -> Option<(nat, nat)>
    decreases s.len(),
{
    if s.len() == 0 {
        None
    } else if s[0] < 128 {
        Some((s[0] as nat, 1))
    } else {
        match read_uleb128(s.drop_first()) {
            None => None,
            Some((v, l)) => Some((((s[0] - 128) + 128 * v) as nat, l + 1)),
        }
    }
}

/// Bit `k` (0 is the least significant) of `b`.
pub open spec fn bit_of(b: u8, k: int) -> bool {
    ((b >> (k as u8)) & 1u8) == 1u8
}

/// `bytes` holds `bits` packed eight to a byte, least significant bit first,
/// with the unused high bits of the last byte cleared.
pub open spec fn packs(bytes: Seq<u8>, bits: Seq<bool>) -> bool {
    &&& bytes.len() == ceil8(bits.len())
    &&& forall|j: int, k: int|
        0 <= j < bytes.len() && 0 <= k < 8 ==> #[trigger] bit_of(bytes[j], k) == (8 * j + k
            < bits.len() && bits[8 * j + k])
}

/// Flag `i` of `bits`, false past the end.
pub open spec fn bit_at(bits: Seq<bool>, i: int) -> bool {
    0 <= i < bits.len() && bits[i]
}

/// Byte `j` of the packing of `bits`: flags `8 * j` to `8 * j + 7`, the
/// first in the least significant bit.
pub open spec fn packed_byte(bits: Seq<bool>, j: int) -> u8 {
    (if bit_at(bits, 8 * j) { 1u8 } else { 0u8 })
        | (if bit_at(bits, 8 * j + 1) { 2u8 } else { 0u8 })
        | (if bit_at(bits, 8 * j + 2) { 4u8 } else { 0u8 })
        | (if bit_at(bits, 8 * j + 3) { 8u8 } else { 0u8 })
        | (if bit_at(bits, 8 * j + 4) { 16u8 } else { 0u8 })
        | (if bit_at(bits, 8 * j + 5) { 32u8 } else { 0u8 })
        | (if bit_at(bits, 8 * j + 6) { 64u8 } else { 0u8 })
        | (if bit_at(bits, 8 * j + 7) { 128u8 } else { 0u8 })
}

/// `bits` packed eight to a byte, the last byte padded with cleared bits.
pub open spec fn packed(bits: Seq<bool>) -> Seq<u8> {
    Seq::new(ceil8(bits.len()), |j: int| packed_byte(bits, j))
}

/// Runs of at least this many equal flags are run-length encoded.
pub const MIN_RUN: usize = 8;

/// Longest run that one run-length header carries.
pub const MAX_RUN: usize = 0x3fff_ffff;

/// Length of the run of flags equal to `bits[i]` that starts at `i`.
pub open spec fn run_len(bits: Seq<bool>, i: int) -> nat
    decreases bits.len() - i,
{
    if 0 <= i && i + 1 < bits.len() && bits[i + 1] == bits[i] {
        1 + run_len(bits, i + 1)
    } else {
        1
    }
}

/// Where a bit-packed run that starts at `i` ends: it takes groups of eight
/// flags until a run-length run can start, or the flags run out.
pub open spec fn packed_end(bits: Seq<bool>, i: int) -> int
    decreases bits.len() - i,
{
    if bits.len() <= i + 8 {
        bits.len() as int
    } else if run_len(bits, i + 8) >= MIN_RUN {
        i + 8
    } else {
        packed_end(bits, i + 8)
    }
}

/// The hybrid stream of the flags of `bits` from `i` on. A run of at least
/// `MIN_RUN` equal flags becomes a run-length run: its length shifted left
/// once, then one byte that holds the flag. Other flags go into bit-packed
/// runs: a count of 8-flag groups shifted left once with the low bit set,
/// then the packed groups. (The empty results past the end of a run cannot
/// occur: runs never reach past the flags.)
pub open spec fn hybrid_from(bits: Seq<bool>, i: int) -> Seq<u8>
    decreases bits.len() - i,
{
    if i < 0 || i >= bits.len() {
        seq![]
    } else if run_len(bits, i) >= MIN_RUN {
        let r = if run_len(bits, i) < MAX_RUN { run_len(bits, i) } else { MAX_RUN as nat };
        if i + r > bits.len() {
            seq![]
        } else {
            uleb128(2 * r) + seq![if bits[i] { 1u8 } else { 0u8 }] + hybrid_from(bits, i + r)
        }
    } else {
        let e = packed_end(bits, i);
        if e <= i || e > bits.len() {
            seq![]
        } else {
            uleb128(2 * ceil8((e - i) as nat) + 1) + packed(bits.subrange(i, e)) + hybrid_from(
                bits,
                e,
            )
        }
    }
}

/// The hybrid stream of `bits`.
pub open spec fn hybrid(bits: Seq<bool>) -> Seq<u8> {
    hybrid_from(bits, 0)
}

/// Little-endian bytes of a 32-bit value.
pub open spec fn le_u32_bytes(v: u32) -> Seq<u8> {
    seq![
        (v & 0xff) as u8,
        ((v >> 8u32) & 0xff) as u8,
        ((v >> 16u32) & 0xff) as u8,
        ((v >> 24u32) & 0xff) as u8,
    ]
}

/// The value of the first four bytes of `b`, read little-endian.
pub open spec fn le_u32_value(b: Seq<u8>) -> nat {
    (b[0] + 256 * b[1] + 65536 * b[2] + 16777216 * b[3]) as nat
}

/// The encoded bitmap buffer of `bits`: the length of its hybrid stream as
/// 4 little-endian bytes, then the stream.
pub open spec fn bitmap_buffer(bits: Seq<bool>) -> Seq<u8> {
    le_u32_bytes(hybrid(bits).len() as u32) + hybrid(bits)
}

/// Decodes a whole hybrid stream, run after run, padding included.
pub open spec fn decode_runs(s: Seq<u8>) -> Option<Seq<bool>>
    decreases s.len(),
{
    if s.len() == 0 {
        Some(seq![])
    } else {
        match read_uleb128(s) {
            None => None,
            Some((h, hl)) => {
                if hl < 1 || s.len() < hl {
                    None
                } else if h % 2 == 0 {
                    if s.len() < hl + 1 || s[hl as int] > 1 {
                        None
                    } else {
                        match decode_runs(s.subrange(hl + 1 as int, s.len() as int)) {
                            None => None,
                            Some(rest) => Some(
                                Seq::new(h / 2, |_k: int| s[hl as int] == 1) + rest,
                            ),
                        }
                    }
                } else {
                    let g = h / 2;
                    if s.len() < hl + g {
                        None
                    } else {
                        match decode_runs(s.subrange((hl + g) as int, s.len() as int)) {
                            None => None,
                            Some(rest) => Some(
                                Seq::new(8 * g, |k: int| bit_of(s[hl + k / 8], k % 8)) + rest,
                            ),
                        }
                    }
                }
            },
        }
    }
}

/// Reads `n` presence flags back out of an encoded bitmap buffer, checking
/// the length prefix on the way.
pub open spec fn decode_bitmap(buf: Seq<u8>, n: nat) -> Option<Seq<bool>> {
    if buf.len() < 4 || le_u32_value(buf) + 4 != buf.len() {
        None
    } else {
        match decode_runs(buf.subrange(4, buf.len() as int)) {
            Some(d) => if d.len() >= n {
                Some(d.take(n as int))
            } else {
                None
            },
            None => None,
        }
    }
}

proof fn lemma_read_uleb128(v: nat, rest: Seq<u8>)
    ensures
        read_uleb128(uleb128(v) + rest) == Some((v, uleb128(v).len())),
    decreases v,
{
    let s = uleb128(v) + rest;
    if v < 128 {
        assert(s[0] == v as u8);
    } else {
        lemma_read_uleb128(v / 128, rest);
        assert(s.drop_first() =~= uleb128(v / 128) + rest);
        assert(s[0] == ((v % 128) + 128) as u8);
        vstd::arithmetic::div_mod::lemma_fundamental_div_mod(v as int, 128);
    }
}

proof fn lemma_le_u32(v: u32)
    ensures
        le_u32_value(le_u32_bytes(v)) == v,
{
    let b0 = v & 0xff;
    let b1 = (v >> 8u32) & 0xff;
    let b2 = (v >> 16u32) & 0xff;
    let b3 = (v >> 24u32) & 0xff;
    assert(b0 < 256 && b1 < 256 && b2 < 256 && b3 < 256) by (bit_vector)
        requires
            b0 == v & 0xff,
            b1 == (v >> 8u32) & 0xff,
            b2 == (v >> 16u32) & 0xff,
            b3 == (v >> 24u32) & 0xff,
    ;
    assert(v == b0 + 256 * b1 + 65536 * b2 + 16777216 * b3) by (bit_vector)
        requires
            b0 == v & 0xff,
            b1 == (v >> 8u32) & 0xff,
            b2 == (v >> 16u32) & 0xff,
            b3 == (v >> 24u32) & 0xff,
    ;
}

proof fn lemma_byte_from_bits(x: u8, y: u8)
    requires
        forall|k: int| 0 <= k < 8 ==> #[trigger] bit_of(x, k) == bit_of(y, k),
    ensures
        x == y,
{
    assert(bit_of(x, 0) == bit_of(y, 0));
    assert(bit_of(x, 1) == bit_of(y, 1));
    assert(bit_of(x, 2) == bit_of(y, 2));
    assert(bit_of(x, 3) == bit_of(y, 3));
    assert(bit_of(x, 4) == bit_of(y, 4));
    assert(bit_of(x, 5) == bit_of(y, 5));
    assert(bit_of(x, 6) == bit_of(y, 6));
    assert(bit_of(x, 7) == bit_of(y, 7));
    assert(x == y) by (bit_vector)
        requires
            ((x >> 0u8) & 1u8 == 1u8) == ((y >> 0u8) & 1u8 == 1u8),
            ((x >> 1u8) & 1u8 == 1u8) == ((y >> 1u8) & 1u8 == 1u8),
            ((x >> 2u8) & 1u8 == 1u8) == ((y >> 2u8) & 1u8 == 1u8),
            ((x >> 3u8) & 1u8 == 1u8) == ((y >> 3u8) & 1u8 == 1u8),
            ((x >> 4u8) & 1u8 == 1u8) == ((y >> 4u8) & 1u8 == 1u8),
            ((x >> 5u8) & 1u8 == 1u8) == ((y >> 5u8) & 1u8 == 1u8),
            ((x >> 6u8) & 1u8 == 1u8) == ((y >> 6u8) & 1u8 == 1u8),
            ((x >> 7u8) & 1u8 == 1u8) == ((y >> 7u8) & 1u8 == 1u8),
    ;
}

/// Flags have a single packing: two byte sequences that both pack `bits`
/// are equal.
pub proof fn lemma_packs_unique(p: Seq<u8>, q: Seq<u8>, bits: Seq<bool>)
    requires
        packs(p, bits),
        packs(q, bits),
    ensures
        p == q,
{
    assert forall|j: int| 0 <= j < p.len() implies p[j] == q[j] by {
        assert forall|k: int| 0 <= k < 8 implies #[trigger] bit_of(p[j], k) == bit_of(q[j], k) by {
            assert(bit_of(p[j], k) == (8 * j + k < bits.len() && bits[8 * j + k]));
            assert(bit_of(q[j], k) == (8 * j + k < bits.len() && bits[8 * j + k]));
        }
        lemma_byte_from_bits(p[j], q[j]);
    }
    assert(p =~= q);
}

proof fn lemma_set_bit(b: u8, k: u8, j: u8)
    requires
        k < 8,
        j < 8,
    ensures
        (((b | (1u8 << k)) >> j) & 1u8 == 1u8) == (j == k || ((b >> j) & 1u8) == 1u8),
{
    assert((((b | (1u8 << k)) >> j) & 1u8 == 1u8) == (j == k || ((b >> j) & 1u8) == 1u8))
        by (bit_vector)
        requires
            k < 8,
            j < 8,
    ;
}

proof fn lemma_zero_bits(j: u8)
    ensures
        ((0u8 >> j) & 1u8) != 1u8,
{
    assert(((0u8 >> j) & 1u8) != 1u8) by (bit_vector);
}

/// Appends the unsigned LEB128 encoding of `v`.
pub fn write_uleb128(out: &mut Vec<u8>, v: u64)
    ensures
        final(out)@ == old(out)@ + uleb128(v as nat),
{
    let mut x: u64 = v;
    while x >= 128
        invariant
            out@ + uleb128(x as nat) == old(out)@ + uleb128(v as nat),
        decreases x,
    {
        let b: u8 = ((x % 128) + 128) as u8;
        assert(uleb128(x as nat) == seq![b] + uleb128((x / 128) as nat));
        assert(out@.push(b) + uleb128((x / 128) as nat) =~= out@ + (seq![b] + uleb128(
            (x / 128) as nat,
        )));
        out.push(b);
        x = x / 128;
    }
    assert(uleb128(x as nat) == seq![x as u8]);
    assert(out@.push(x as u8) =~= out@ + uleb128(x as nat));
    out.push(x as u8);
}

proof fn lemma_uleb128_len(v: nat)
    ensures
        1 <= uleb128(v).len() <= 1 + v / 128,
    decreases v,
{
    if v >= 128 {
        let q = v / 128;
        lemma_uleb128_len(q);
        assert(q / 128 + 1 <= q) by (nonlinear_arith)
            requires
                q >= 1,
        ;
    }
}

proof fn lemma_or_bits(x0: u8, x1: u8, x2: u8, x3: u8, x4: u8, x5: u8, x6: u8, x7: u8)
    by (bit_vector)
    requires
        x0 == 0 || x0 == 1,
        x1 == 0 || x1 == 2,
        x2 == 0 || x2 == 4,
        x3 == 0 || x3 == 8,
        x4 == 0 || x4 == 16,
        x5 == 0 || x5 == 32,
        x6 == 0 || x6 == 64,
        x7 == 0 || x7 == 128,
    ensures
        ((((x0 | x1 | x2 | x3 | x4 | x5 | x6 | x7) >> 0u8) & 1u8) == 1u8) == (x0 != 0),
        ((((x0 | x1 | x2 | x3 | x4 | x5 | x6 | x7) >> 1u8) & 1u8) == 1u8) == (x1 != 0),
        ((((x0 | x1 | x2 | x3 | x4 | x5 | x6 | x7) >> 2u8) & 1u8) == 1u8) == (x2 != 0),
        ((((x0 | x1 | x2 | x3 | x4 | x5 | x6 | x7) >> 3u8) & 1u8) == 1u8) == (x3 != 0),
        ((((x0 | x1 | x2 | x3 | x4 | x5 | x6 | x7) >> 4u8) & 1u8) == 1u8) == (x4 != 0),
        ((((x0 | x1 | x2 | x3 | x4 | x5 | x6 | x7) >> 5u8) & 1u8) == 1u8) == (x5 != 0),
        ((((x0 | x1 | x2 | x3 | x4 | x5 | x6 | x7) >> 6u8) & 1u8) == 1u8) == (x6 != 0),
        ((((x0 | x1 | x2 | x3 | x4 | x5 | x6 | x7) >> 7u8) & 1u8) == 1u8) == (x7 != 0),
{
}

/// `packed(bits)` is a packing of `bits`.
pub proof fn lemma_packed_packs(bits: Seq<bool>)
    ensures
        packs(packed(bits), bits),
{
    let p = packed(bits);
    assert forall|j: int, k: int| 0 <= j < p.len() && 0 <= k < 8 implies #[trigger] bit_of(p[j], k)
        == (8 * j + k < bits.len() && bits[8 * j + k]) by {
        let x0 = if bit_at(bits, 8 * j) { 1u8 } else { 0u8 };
        let x1 = if bit_at(bits, 8 * j + 1) { 2u8 } else { 0u8 };
        let x2 = if bit_at(bits, 8 * j + 2) { 4u8 } else { 0u8 };
        let x3 = if bit_at(bits, 8 * j + 3) { 8u8 } else { 0u8 };
        let x4 = if bit_at(bits, 8 * j + 4) { 16u8 } else { 0u8 };
        let x5 = if bit_at(bits, 8 * j + 5) { 32u8 } else { 0u8 };
        let x6 = if bit_at(bits, 8 * j + 6) { 64u8 } else { 0u8 };
        let x7 = if bit_at(bits, 8 * j + 7) { 128u8 } else { 0u8 };
        lemma_or_bits(x0, x1, x2, x3, x4, x5, x6, x7);
        assert(p[j] == x0 | x1 | x2 | x3 | x4 | x5 | x6 | x7);
        assert(bit_of(p[j], k) == (((p[j] >> (k as u8)) & 1u8) == 1u8));
    }
}

proof fn lemma_run(bits: Seq<bool>, i: int)
    requires
        0 <= i < bits.len(),
    ensures
        1 <= run_len(bits, i) <= bits.len() - i,
        forall|k: int| 0 <= k < run_len(bits, i) ==> #[trigger] bits[i + k] == bits[i],
    decreases bits.len() - i,
{
    if i + 1 < bits.len() && bits[i + 1] == bits[i] {
        lemma_run(bits, i + 1);
        assert forall|k: int| 0 <= k < run_len(bits, i) implies #[trigger] bits[i + k] == bits[i] by {
            if k > 0 {
                assert(bits[(i + 1) + (k - 1)] == bits[i + 1]);
            }
        }
    }
}

proof fn lemma_packed_end(bits: Seq<bool>, i: int)
    requires
        0 <= i < bits.len(),
    ensures
        i < packed_end(bits, i) <= bits.len(),
        packed_end(bits, i) < bits.len() ==> (packed_end(bits, i) - i) % 8 == 0,
    decreases bits.len() - i,
{
    if bits.len() > i + 8 && run_len(bits, i + 8) < MIN_RUN {
        lemma_packed_end(bits, i + 8);
    }
}

proof fn lemma_decode_rle(s: Seq<u8>, r: nat, b: u8, rest: Seq<u8>)
    requires
        b <= 1,
        s == uleb128(2 * r) + (seq![b] + rest),
    ensures
        decode_runs(s) == match decode_runs(rest) {
            None => None,
            Some(d) => Some(Seq::new(r, |_k: int| b == 1) + d),
        },
{
    lemma_uleb128_len(2 * r);
    lemma_read_uleb128(2 * r, seq![b] + rest);
    let hl = uleb128(2 * r).len();
    assert(s[hl as int] == b);
    assert(s.subrange(hl + 1 as int, s.len() as int) =~= rest);
    assert((2 * r) / 2 == r);
    assert(Seq::new(r, |_k: int| s[hl as int] == 1) =~= Seq::new(r, |_k: int| b == 1));
}

proof fn lemma_decode_packed(s: Seq<u8>, g: nat, p: Seq<u8>, rest: Seq<u8>)
    requires
        p.len() == g,
        s == uleb128(2 * g + 1) + (p + rest),
    ensures
        decode_runs(s) == match decode_runs(rest) {
            None => None,
            Some(d) => Some(Seq::new(8 * g, |k: int| bit_of(p[k / 8], k % 8)) + d),
        },
{
    lemma_uleb128_len(2 * g + 1);
    lemma_read_uleb128(2 * g + 1, p + rest);
    let hl = uleb128(2 * g + 1).len();
    assert((2 * g + 1) / 2 == g);
    assert((2 * g + 1) % 2 == 1);
    assert(s.subrange((hl + g) as int, s.len() as int) =~= rest);
    assert forall|k: int| 0 <= k < 8 * g implies #[trigger] s[hl + k / 8] == p[k / 8] by {
        assert(0 <= k / 8 < g);
    }
    assert(Seq::new(8 * g, |k: int| bit_of(s[hl + k / 8], k % 8)) =~= Seq::new(
        8 * g,
        |k: int| bit_of(p[k / 8], k % 8),
    ));
}

/// Decoding the hybrid stream of `bits` from `i` on gives at least the
/// flags from `i` on, and those first.
spec fn decodes_from(bits: Seq<bool>, i: int) -> bool {
    let d = decode_runs(hybrid_from(bits, i));
    &&& d is Some
    &&& d->0.len() >= bits.len() - i
    &&& forall|k: int| 0 <= k < bits.len() - i ==> #[trigger] d->0[k] == bits[i + k]
}

proof fn lemma_decodes_rle(bits: Seq<bool>, i: int)
    requires
        0 <= i < bits.len(),
        run_len(bits, i) >= MIN_RUN,
        decodes_from(
            bits,
            i + if run_len(bits, i) < MAX_RUN { run_len(bits, i) } else { MAX_RUN as nat },
        ),
    ensures
        decodes_from(bits, i),
{
    lemma_run(bits, i);
    let s = hybrid_from(bits, i);
    let r = if run_len(bits, i) < MAX_RUN { run_len(bits, i) } else { MAX_RUN as nat };
    let b: u8 = if bits[i] { 1u8 } else { 0u8 };
    let rest = hybrid_from(bits, i + r);
    assert(s =~= uleb128(2 * r) + (seq![b] + rest));
    lemma_decode_rle(s, r, b, rest);
    let d2 = decode_runs(rest)->0;
    let d = decode_runs(s)->0;
    assert forall|k: int| 0 <= k < bits.len() - i implies #[trigger] d[k] == bits[i + k] by {
        if k < r {
            assert(bits[i + k] == bits[i]);
        } else {
            assert(d2[k - r] == bits[i + r + (k - r)]);
        }
    }
}

proof fn lemma_decodes_packed(bits: Seq<bool>, i: int)
    requires
        0 <= i < bits.len(),
        run_len(bits, i) < MIN_RUN,
        decodes_from(bits, packed_end(bits, i)),
    ensures
        decodes_from(bits, i),
{
    lemma_run(bits, i);
    lemma_packed_end(bits, i);
    let s = hybrid_from(bits, i);
    let e = packed_end(bits, i);
    let m = (e - i) as nat;
    let g = ceil8(m);
    let sub = bits.subrange(i, e);
    let p = packed(sub);
    let rest = hybrid_from(bits, e);
    lemma_packed_packs(sub);
    assert(s =~= uleb128(2 * g + 1) + (p + rest));
    lemma_decode_packed(s, g, p, rest);
    let d2 = decode_runs(rest)->0;
    let d = decode_runs(s)->0;
    assert forall|k: int| 0 <= k < bits.len() - i implies #[trigger] d[k] == bits[i + k] by {
        if k < m {
            let j = k / 8;
            let t = k % 8;
            assert(bit_of(p[j], t) == (8 * j + t < sub.len() && sub[8 * j + t]));
            assert(8 * j + t == k);
        } else {
            assert(e < bits.len());
            assert(8 * g == m);
            assert(d2[k - m] == bits[e + (k - m)]);
        }
    }
}

proof fn lemma_hybrid_decodes(bits: Seq<bool>, i: int)
    requires
        0 <= i <= bits.len(),
    ensures
        decodes_from(bits, i),
    decreases bits.len() - i,
{
    if i < bits.len() {
        lemma_run(bits, i);
        if run_len(bits, i) >= MIN_RUN {
            let r = if run_len(bits, i) < MAX_RUN { run_len(bits, i) } else { MAX_RUN as nat };
            lemma_hybrid_decodes(bits, i + r);
            lemma_decodes_rle(bits, i);
        } else {
            lemma_packed_end(bits, i);
            lemma_hybrid_decodes(bits, packed_end(bits, i));
            lemma_decodes_packed(bits, i);
        }
    } else {
        assert(hybrid_from(bits, i) == Seq::<u8>::empty());
    }
}

/// The hybrid stream takes at most two bytes per flag.
pub proof fn lemma_hybrid_len(bits: Seq<bool>, i: int)
    requires
        0 <= i <= bits.len(),
    ensures
        hybrid_from(bits, i).len() <= 2 * (bits.len() - i),
    decreases bits.len() - i,
{
    if i < bits.len() {
        lemma_run(bits, i);
        if run_len(bits, i) >= MIN_RUN {
            let r = if run_len(bits, i) < MAX_RUN { run_len(bits, i) } else { MAX_RUN as nat };
            lemma_hybrid_len(bits, i + r);
            lemma_uleb128_len(2 * r);
        } else {
            lemma_packed_end(bits, i);
            let e = packed_end(bits, i);
            let m = (e - i) as nat;
            let g = ceil8(m);
            lemma_hybrid_len(bits, e);
            lemma_uleb128_len(2 * g + 1);
            assert(uleb128(2 * g + 1).len() + g <= 2 * m) by (nonlinear_arith)
                requires
                    m >= 1,
                    g == (m + 7) / 8,
                    uleb128(2 * g + 1).len() <= 1 + (2 * g + 1) / 128,
            ;
        }
    }
}

/// Decoding the encoded bitmap buffer of `bits` gives back exactly `bits`,
/// and its length prefix is the length of the stream after it.
pub proof fn lemma_bitmap_round_trip(bits: Seq<bool>)
    requires
        hybrid(bits).len() <= u32::MAX,
    ensures
        decode_bitmap(bitmap_buffer(bits), bits.len()) == Some(bits),
        le_u32_value(bitmap_buffer(bits)) == bitmap_buffer(bits).len() - 4,
{
    let buf = bitmap_buffer(bits);
    let h = hybrid(bits);
    lemma_le_u32(h.len() as u32);
    assert(buf.subrange(4, buf.len() as int) =~= h);
    lemma_hybrid_decodes(bits, 0);
    let d = decode_runs(h)->0;
    assert(d.take(bits.len() as int) =~= bits);
}

/// Packs the (up to) eight flags of `bits[start..end]` into one byte, the
/// first in the least significant bit.
fn pack_byte(bits: &Vec<bool>, start: usize, end: usize) -> (b: u8)
    requires
        start <= end <= bits.len(),
    ensures
        forall|k: int|
            0 <= k < 8 ==> #[trigger] bit_of(b, k) == (start + k < end && bits@[start + k]),
{
    let mut b: u8 = 0;
    let mut k: u8 = 0;
    assert forall|j: int| 0 <= j < 8 implies !#[trigger] bit_of(b, j) by {
        lemma_zero_bits(j as u8);
    }
    while k < 8
        invariant
            start <= end <= bits.len(),
            k <= 8,
            forall|j: int|
                0 <= j < k ==> #[trigger] bit_of(b, j) == (start + j < end && bits@[start + j]),
            forall|j: int| k <= j < 8 ==> !#[trigger] bit_of(b, j),
        decreases 8 - k,
    {
        let set = (k as usize) < end - start && bits[start + k as usize];
        let ghost old_b = b;
        if set {
            b = b | (1u8 << k);
        }
        assert forall|j: int| 0 <= j < 8 implies #[trigger] bit_of(b, j) == (j == k || bit_of(
            old_b,
            j,
        )) && set || bit_of(b, j) == (j != k && bit_of(old_b, j)) && !set by {
            if set {
                lemma_set_bit(old_b, k, j as u8);
            }
        }
        k = k + 1;
    }
    b
}

/// Packs `bits[start..end]` eight to a byte, least significant bit first.
pub fn pack_range(bits: &Vec<bool>, start: usize, end: usize) -> (r: Vec<u8>)
    requires
        start <= end <= bits.len(),
    ensures
        r@ == packed(bits@.subrange(start as int, end as int)),
{
    let ghost sub = bits@.subrange(start as int, end as int);
    let m = end - start;
    let groups: usize = m / 8 + if m % 8 == 0 { 0 } else { 1 };
    let mut r: Vec<u8> = Vec::new();
    let mut j: usize = 0;
    while j < groups
        invariant
            start <= end <= bits.len(),
            m == end - start,
            sub == bits@.subrange(start as int, end as int),
            groups == ceil8(m as nat),
            j <= groups,
            r@.len() == j,
            forall|jj: int, k: int|
                0 <= jj < j && 0 <= k < 8 ==> #[trigger] bit_of(r@[jj], k) == (8 * jj + k < m
                    && sub[8 * jj + k]),
        decreases groups - j,
    {
        let b = pack_byte(bits, start + 8 * j, end);
        r.push(b);
        j = j + 1;
    }
    proof {
        lemma_packed_packs(sub);
        lemma_packs_unique(r@, packed(sub), sub);
    }
    r
}

/// Length of the run of flags equal to `bits[i]` that starts at `i`.
fn run_length(bits: &Vec<bool>, i: usize) -> (r: usize)
    requires
        i < bits.len(),
    ensures
        r == run_len(bits@, i as int),
{
    let mut j: usize = i + 1;
    while j < bits.len() && bits[j] == bits[i]
        invariant
            i < j <= bits.len(),
            forall|k: int| i <= k < j ==> bits@[k] == bits@[i as int],
            run_len(bits@, i as int) == (j - 1 - i) + run_len(bits@, j - 1),
        decreases bits.len() - j,
    {
        j = j + 1;
    }
    j - i
}

/// Where the bit-packed run that starts at `i` ends.
fn packed_run_end(bits: &Vec<bool>, i: usize) -> (e: usize)
    requires
        i < bits.len(),
    ensures
        e == packed_end(bits@, i as int),
{
    let mut j: usize = i;
    loop
        invariant
            j < bits.len(),
            packed_end(bits@, i as int) == packed_end(bits@, j as int),
        decreases bits.len() - j,
    {
        if bits.len() - j <= 8 {
            return bits.len();
        }
        if run_length(bits, j + 8) >= MIN_RUN {
            return j + 8;
        }
        j = j + 8;
    }
}

/// Encodes `bits` as a hybrid stream of run-length and bit-packed runs.
pub fn encode_hybrid(bits: &Vec<bool>) -> (r: Vec<u8>)
    ensures
        r@ == hybrid(bits@),
{
    let mut out: Vec<u8> = Vec::new();
    let mut i: usize = 0;
    while i < bits.len()
        invariant
            i <= bits.len(),
            out@ + hybrid_from(bits@, i as int) == hybrid(bits@),
        decreases bits.len() - i,
    {
        proof {
            lemma_run(bits@, i as int);
        }
        let run = run_length(bits, i);
        if run >= MIN_RUN {
            let r: usize = if run < MAX_RUN { run } else { MAX_RUN };
            let b: u8 = if bits[i] { 1u8 } else { 0u8 };
            let ghost before = out@;
            write_uleb128(&mut out, 2 * (r as u64));
            out.push(b);
            assert(before + hybrid_from(bits@, i as int) =~= out@ + hybrid_from(bits@, i + r));
            i = i + r;
        } else {
            proof {
                lemma_packed_end(bits@, i as int);
            }
            let e = packed_run_end(bits, i);
            let m = e - i;
            let groups: usize = m / 8 + if m % 8 == 0 { 0 } else { 1 };
            let ghost before = out@;
            write_uleb128(&mut out, 2 * (groups as u64) + 1);
            let mut p = pack_range(bits, i, e);
            out.append(&mut p);
            assert(before + hybrid_from(bits@, i as int) =~= out@ + hybrid_from(bits@, e as int));
            i = e;
        }
    }
    assert(out@ =~= hybrid(bits@));
    out
}

/// Encodes presence flags as an encoded bitmap buffer: reserves the 4-byte
/// length prefix, appends the hybrid stream, then writes the stream's length
/// into the prefix. Fails with `Encoding` when the stream is longer than the
/// prefix can say.
pub fn encode_bool(bits: &Vec<bool>) -> (r: Result<Vec<u8>, Error>)
    ensures
        r is Ok <==> hybrid(bits@).len() <= u32::MAX,
        r matches Ok(buf) ==> buf@ == bitmap_buffer(bits@),
        r matches Err(e) ==> e == Error::Encoding,
{
    let mut buf: Vec<u8> = vec![0u8, 0u8, 0u8, 0u8];
    let mut stream = encode_hybrid(bits);
    buf.append(&mut stream);
    let len = buf.len() - 4;
    if len > 0xffff_ffff {
        return Err(Error::Encoding);
    }
    let l = len as u32;
    buf.set(0, (l & 0xff) as u8);
    buf.set(1, ((l >> 8u32) & 0xff) as u8);
    buf.set(2, ((l >> 16u32) & 0xff) as u8);
    buf.set(3, ((l >> 24u32) & 0xff) as u8);
    assert(buf@ =~= bitmap_buffer(bits@));
    Ok(buf)
}

} // verus!
