use vstd::prelude::*;

use crate::keypair::{PublicKey, SecretKey};
use crate::lbvrf::Proof;
use crate::param::{Param, BETA, Q};
use crate::poly256::{reduced, Poly256};

verus! {

/// Why a byte string could not be decoded.
#[derive(Clone, Copy, Debug, PartialEq, Eq, Structural)]
pub enum CodecError {
    /// Fewer bytes than the value's fixed size.
    Truncated,
    /// A field decodes to a coefficient outside its range.
    OutOfRange,
}

/// Byte `j` of the `n`-byte big-endian form of `v`.
pub open spec fn be_byte(v: u128, n: int, j: int) -> u8 {
    ((v >> ((8 * (n - 1 - j)) as u128)) & 0xff) as u8
}

/// The `n`-byte big-endian form of `v`.
pub open spec fn be_bytes(v: u128, n: int) -> Seq<u8> {
    Seq::new(n as nat, |j: int| be_byte(v, n, j))
}

/// The big-endian value of the `n` bytes of `b` from `s` on.
pub open spec fn be_value(b: Seq<u8>, s: int, n: int) -> u128
    decreases n,
{
    if n <= 0 {
        0
    } else {
        (be_value(b, s, n - 1) << 8) | (b[s + n - 1] as u128)
    }
}

/// Four `w`-bit digits, most significant first.
pub open spec fn pack4(d0: u128, d1: u128, d2: u128, d3: u128, w: u128) -> u128 {
    (d0 << ((3 * w) as u128)) | (d1 << ((2 * w) as u128)) | (d2 << w) | d3
}

/// Digit `j` of a block of four `w`-bit digits; the first takes all the
/// bits above the other three.
pub open spec fn unpack4(v: u128, j: int, w: u128) -> u128 {
    if j == 0 {
        v >> ((3 * w) as u128)
    } else {
        (v >> (((3 - j) * w) as u128)) & (((1u128 << w) - 1) as u128)
    }
}

/// The digit that coefficient `c` is stored as: `c + off`.
pub open spec fn digit(c: i64, off: int) -> u128 {
    (c + off) as u128
}

/// Block `i` of `c`: coefficients `4i .. 4i + 4` as `w`-bit digits.
pub open spec fn block_value(c: Seq<i64>, i: int, w: u128, off: int) -> u128 {
    pack4(
        digit(c[4 * i], off),
        digit(c[4 * i + 1], off),
        digit(c[4 * i + 2], off),
        digit(c[4 * i + 3], off),
        w,
    )
}

/// 256 coefficients as 64 blocks of `n` bytes, each holding four `w`-bit
/// digits `c + off`, most significant first.
pub open spec fn encode_blocks(c: Seq<i64>, w: u128, n: int, off: int) -> Seq<u8> {
    Seq::new((64 * n) as nat, |k: int| be_byte(block_value(c, k / n, w, off), n, k % n))
}

/// The 256 coefficients that 64 blocks of `n` bytes from `s` on hold.
pub open spec fn decode_blocks(b: Seq<u8>, s: int, w: u128, n: int, off: int) -> Seq<i64> {
    Seq::new(256, |k: int| (unpack4(be_value(b, s + (k / 4) * n, n), k % 4, w) - off) as i64)
}

/// Appends the `n`-byte big-endian form of `v`.
pub(crate) fn push_be(out: &mut Vec<u8>, v: u128, n: usize)
    requires
        n <= 16,
    ensures
        final(out)@ == old(out)@ + be_bytes(v, n as int),
{
    for j in 0..n
        invariant
            n <= 16,
            out@ == old(out)@ + be_bytes(v, n as int).take(j as int),
    {
        out.push(((v >> (8 * (n - 1 - j)) as u128) & 0xff) as u8);
        assert(be_bytes(v, n as int).take(j + 1) =~= be_bytes(v, n as int).take(j as int).push(
            be_byte(v, n as int, j as int),
        ));
    }
    assert(be_bytes(v, n as int).take(n as int) =~= be_bytes(v, n as int));
}

/// Reads the `n`-byte big-endian value of `b` from `s` on.
pub(crate) fn read_be(b: &[u8], s: usize, n: usize) -> (r: u128)
    requires
        n <= 16,
        s + n <= b@.len(),
    ensures
        r == be_value(b@, s as int, n as int),
{
    let _len = b.len();
    let mut v: u128 = 0;
    let mut j: usize = 0;
    while j < n
        invariant
            n <= 16,
            j <= n,
            s + n <= b@.len(),
            b@.len() <= usize::MAX,
            v == be_value(b@, s as int, j as int),
        decreases n - j,
    {
        v = (v << 8) | (b[s + j] as u128);
        j += 1;
    }
    v
}

proof fn lemma_shift_step(v: u128, t: u128)
    requires
        t + 8 <= 128,
    ensures
        ((v >> (t + 8) as u128) << 8u128) | ((v >> t) & 0xff) == v >> t,
{
    assert(((v >> (t + 8) as u128) << 8u128) | ((v >> t) & 0xff) == v >> t) by (bit_vector)
        requires
            t + 8 <= 128,
    ;
}

/// Reading back the first `m` of the `n` big-endian bytes of `v` gives its top
/// `8 m` bits.
proof fn lemma_be_prefix(b: Seq<u8>, s: int, v: u128, n: int, m: int)
    requires
        0 <= m <= n <= 16,
        v >> ((8 * n) as u128) == 0 || n == 16,
        forall|j: int| 0 <= j < n ==> #[trigger] b[s + j] == be_byte(v, n, j),
    ensures
        be_value(b, s, m) == if n - m == 16 { 0 } else { v >> ((8 * (n - m)) as u128) },
    decreases m,
{
    if m > 0 {
        lemma_be_prefix(b, s, v, n, m - 1);
        let t = (8 * (n - m)) as u128;
        lemma_shift_step(v, t);
        assert(b[s + (m - 1)] == be_byte(v, n, m - 1));
        if n - (m - 1) == 16 {
            assert(v >> (t + 8) as u128 == 0) by (bit_vector)
                requires
                    t == 120,
            ;
        }
        let x = b[s + m - 1];
        assert((x as u128) == (v >> t) & 0xff) by (bit_vector)
            requires
                x == (((v >> t) & 0xff) as u8),
        ;
    }
}

/// A value of `n` bytes reads back from its big-endian form.
pub proof fn lemma_be_round_trip(b: Seq<u8>, s: int, v: u128, n: int)
    requires
        0 <= n <= 16,
        v >> ((8 * n) as u128) == 0 || n == 16,
        forall|j: int| 0 <= j < n ==> #[trigger] b[s + j] == be_byte(v, n, j),
    ensures
        be_value(b, s, n) == v,
{
    lemma_be_prefix(b, s, v, n, n);
    assert(v >> 0u128 == v) by (bit_vector);
}

/// `2^w` as an integer.
pub open spec fn pow2(w: u128) -> int {
    (1u128 << w) as int
}

/// Every coefficient of `c` is stored as a digit `c + off` in [0, 2^w).
pub open spec fn digits_fit(c: Seq<i64>, w: u128, off: int) -> bool {
    forall|k: int| 0 <= k < 256 ==> 0 <= #[trigger] c[k] + off < pow2(w)
}

/// The block layouts in use: four `w`-bit digits in `n` bytes.
pub open spec fn layout_ok(w: u128, n: int) -> bool {
    1 <= w <= 27 && 1 <= n <= 15 && 4 * w <= 8 * n <= 4 * w + 4
}

pub(crate) proof fn lemma_be_value_bound(b: Seq<u8>, s: int, n: int)
    requires
        0 <= n <= 15,
    ensures
        be_value(b, s, n) >> ((8 * n) as u128) == 0,
    decreases n,
{
    if n == 0 {
        assert(0u128 >> 0u128 == 0) by (bit_vector);
    } else {
        lemma_be_value_bound(b, s, n - 1);
        let x = be_value(b, s, n - 1);
        let y = b[s + n - 1] as u128;
        let t = (8 * (n - 1)) as u128;
        assert(((x << 8u128) | y) >> (t + 8) as u128 == 0) by (bit_vector)
            requires
                x >> t == 0,
                y < 256,
                t <= 112,
        ;
        assert((t + 8) as u128 == (8 * n) as u128);
    }
}

pub(crate) proof fn lemma_digit_bounds(v: u128, w: u128, n: u128)
    requires
        1 <= w <= 27,
        1 <= n <= 15,
        8 * n <= 4 * w + 4,
        v >> ((8 * n) as u128) == 0,
    ensures
        v >> ((3 * w) as u128) < 0x8000_0000,
        (v >> ((2 * w) as u128)) & (((1u128 << w) - 1) as u128) < 0x800_0000,
        (v >> w) & (((1u128 << w) - 1) as u128) < 0x800_0000,
        v & (((1u128 << w) - 1) as u128) < 0x800_0000,
{
    assert(v >> ((3 * w) as u128) < 0x8000_0000) by (bit_vector)
        requires
            1 <= w <= 27,
            1 <= n <= 15,
            8 * n <= 4 * w + 4,
            v >> ((8 * n) as u128) == 0,
    ;
    assert(forall|x: u128| #![trigger x & (((1u128 << w) - 1) as u128)] x & (((1u128 << w) - 1) as u128) < 0x800_0000) by (bit_vector)
        requires
            1 <= w <= 27,
    ;
}

pub(crate) proof fn lemma_pack4(d0: u128, d1: u128, d2: u128, d3: u128, w: u128, n: u128)
    requires
        1 <= w <= 27,
        4 * w <= 8 * n,
        n <= 16,
        d0 < (1u128 << w),
        d1 < (1u128 << w),
        d2 < (1u128 << w),
        d3 < (1u128 << w),
    ensures
        unpack4(pack4(d0, d1, d2, d3, w), 0, w) == d0,
        unpack4(pack4(d0, d1, d2, d3, w), 1, w) == d1,
        unpack4(pack4(d0, d1, d2, d3, w), 2, w) == d2,
        unpack4(pack4(d0, d1, d2, d3, w), 3, w) == d3,
        pack4(d0, d1, d2, d3, w) >> ((8 * n) as u128) == 0 || n == 16,
{
    let v = pack4(d0, d1, d2, d3, w);
    assert(v >> ((3 * w) as u128) == d0) by (bit_vector)
        requires
            1 <= w <= 27,
            d0 < (1u128 << w),
            d1 < (1u128 << w),
            d2 < (1u128 << w),
            d3 < (1u128 << w),
            v == (d0 << ((3 * w) as u128)) | (d1 << ((2 * w) as u128)) | (d2 << w) | d3,
    ;
    assert((v >> ((2 * w) as u128)) & (((1u128 << w) - 1) as u128) == d1) by (bit_vector)
        requires
            1 <= w <= 27,
            d0 < (1u128 << w),
            d1 < (1u128 << w),
            d2 < (1u128 << w),
            d3 < (1u128 << w),
            v == (d0 << ((3 * w) as u128)) | (d1 << ((2 * w) as u128)) | (d2 << w) | d3,
    ;
    assert((v >> w) & (((1u128 << w) - 1) as u128) == d2) by (bit_vector)
        requires
            1 <= w <= 27,
            d0 < (1u128 << w),
            d1 < (1u128 << w),
            d2 < (1u128 << w),
            d3 < (1u128 << w),
            v == (d0 << ((3 * w) as u128)) | (d1 << ((2 * w) as u128)) | (d2 << w) | d3,
    ;
    assert((v >> 0u128) & (((1u128 << w) - 1) as u128) == d3) by (bit_vector)
        requires
            1 <= w <= 27,
            d0 < (1u128 << w),
            d1 < (1u128 << w),
            d2 < (1u128 << w),
            d3 < (1u128 << w),
            v == (d0 << ((3 * w) as u128)) | (d1 << ((2 * w) as u128)) | (d2 << w) | d3,
    ;
    assert(v >> ((8 * n) as u128) == 0 || n == 16) by (bit_vector)
        requires
            1 <= w <= 27,
            4 * w <= 8 * n,
            n <= 16,
            d0 < (1u128 << w),
            d1 < (1u128 << w),
            d2 < (1u128 << w),
            d3 < (1u128 << w),
            v == (d0 << ((3 * w) as u128)) | (d1 << ((2 * w) as u128)) | (d2 << w) | d3,
    ;
}

pub(crate) proof fn lemma_block_index(k: int, i: int, n: int)
    requires
        1 <= n,
        i * n <= k < i * n + n,
    ensures
        k / n == i,
        k % n == k - i * n,
{
    vstd::arithmetic::div_mod::lemma_fundamental_div_mod_converse(k, n, i, k - i * n);
}

/// Appends 256 coefficients as 64 blocks of four `w`-bit digits `c + off`,
/// `n` bytes each.
fn pack_blocks(p: &Poly256, out: &mut Vec<u8>, w: u128, n: usize, off: i64)
    requires
        layout_ok(w, n as int),
        0 <= off <= BETA,
        p.wf(),
        digits_fit(p.coeff@, w, off as int),
    ensures
        final(out)@ == old(out)@ + encode_blocks(p.coeff@, w, n as int, off as int),
{
    let ghost c = p.coeff@;
    let ghost enc = encode_blocks(c, w, n as int, off as int);
    assert(old(out)@ + enc.take(0) =~= old(out)@);
    assert(out@ == old(out)@ + enc.take(0 * n));
    for i in 0usize..64
        invariant
            layout_ok(w, n as int),
            0 <= off <= BETA,
            c == p.coeff@,
            p.wf(),
            enc == encode_blocks(c, w, n as int, off as int),
            out@ == old(out)@ + enc.take(i * n),
    {
        let d0 = (p.coeff[4 * i] + off) as u128;
        let d1 = (p.coeff[4 * i + 1] + off) as u128;
        let d2 = (p.coeff[4 * i + 2] + off) as u128;
        let d3 = (p.coeff[4 * i + 3] + off) as u128;
        let v = (d0 << (3 * w)) | (d1 << (2 * w)) | (d2 << w) | d3;
        assert(v == block_value(c, i as int, w, off as int));
        push_be(out, v, n);
        proof {
            assert((i + 1) * n == i * n + n) by (nonlinear_arith);
            assert(i * n + n <= 64 * n) by (nonlinear_arith)
                requires
                    i < 64,
            ;
            assert(enc.take((i + 1) * n) =~= enc.take(i * n) + be_bytes(v, n as int)) by {
                assert forall|k: int| i * n <= k < i * n + n implies #[trigger] enc[k] == be_bytes(
                    v,
                    n as int,
                )[k - i * n] by {
                    lemma_block_index(k, i as int, n as int);
                }
            }
        }
    }
    assert(enc.take(64 * n) =~= enc);
}

/// Reads 64 blocks of `n` bytes from `s` on back into 256 coefficients.
fn unpack_blocks(b: &[u8], s: usize, w: u128, n: usize, off: i64) -> (r: Poly256)
    requires
        layout_ok(w, n as int),
        0 <= off <= BETA,
        s + 64 * n <= b@.len(),
    ensures
        r.coeff@ == decode_blocks(b@, s as int, w, n as int, off as int),
        8 * n == 4 * w ==> digits_fit(r.coeff@, w, off as int),
{
    let _len = b.len();
    let mut coeff = [0i64; 256];
    for i in 0usize..64
        invariant
            layout_ok(w, n as int),
            0 <= off <= BETA,
            s + 64 * n <= b@.len(),
            b@.len() <= usize::MAX,
            forall|k: int| 0 <= k < 4 * i ==> coeff@[k] == decode_blocks(b@, s as int, w, n as int, off as int)[k],
            8 * n == 4 * w ==> forall|k: int| 0 <= k < 4 * i ==> 0 <= #[trigger] coeff@[k] + off < pow2(w),
    {
        proof {
            assert(i * n + n <= 64 * n) by (nonlinear_arith)
                requires
                    i < 64,
            ;
        }
        let v = read_be(b, s + i * n, n);
        proof {
            lemma_be_value_bound(b@, (s + i * n) as int, n as int);
            lemma_digit_bounds(v, w, n as u128);
        }
        let ghost lim = 1u128 << w;
        assert(1u128 << w >= 1) by (bit_vector)
            requires
                w <= 27,
        ;
        let mask: u128 = (1u128 << w) - 1;
        coeff[4 * i] = (v >> (3 * w)) as i64 - off;
        coeff[4 * i + 1] = ((v >> (2 * w)) & mask) as i64 - off;
        coeff[4 * i + 2] = ((v >> w) & mask) as i64 - off;
        coeff[4 * i + 3] = (v & mask) as i64 - off;
        proof {
            let ghost dec = decode_blocks(b@, s as int, w, n as int, off as int);
            assert(v >> 0u128 == v) by (bit_vector);
            assert(((3 - 3) * w) as u128 == 0u128);
            assert(v == be_value(b@, s + ((4 * i) / 4) * n, n as int));
            assert(((4 * i + 1) / 4) == i && (4 * i + 1) % 4 == 1);
            assert(((4 * i + 2) / 4) == i && (4 * i + 2) % 4 == 2);
            assert(((4 * i + 3) / 4) == i && (4 * i + 3) % 4 == 3);
            assert(coeff@[4 * i] == dec[4 * i]);
            assert(coeff@[4 * i + 1] == dec[4 * i + 1]);
            assert(coeff@[4 * i + 2] == dec[4 * i + 2]);
            assert(coeff@[4 * i + 3] == dec[4 * i + 3]);
            if 8 * n == 4 * w {
                let m = ((1u128 << w) - 1) as u128;
                assert(v >> ((3 * w) as u128) < lim) by (bit_vector)
                    requires
                        v >> ((8 * n) as u128) == 0,
                        8 * n == 4 * w,
                        1 <= w <= 27,
                        lim == 1u128 << w,
                ;
                assert(forall|x: u128| #![trigger x & m] x & m < lim) by (bit_vector)
                    requires
                        1 <= w <= 27,
                        lim == 1u128 << w,
                        m == ((1u128 << w) - 1) as u128,
                ;
                assert(m == mask);
                assert(v & m < lim);
                assert((v >> w) & m < lim);
                assert((v >> ((2 * w) as u128)) & m < lim);
            }
        }
    }
    let r = Poly256 { coeff };
    assert(r.coeff@ =~= decode_blocks(b@, s as int, w, n as int, off as int));
    r
}

/// Decoding the blocks of `c` gives `c` back.
proof fn lemma_blocks_round_trip(c: Seq<i64>, w: u128, n: int, off: int, b: Seq<u8>, s: int)
    requires
        layout_ok(w, n),
        c.len() == 256,
        digits_fit(c, w, off),
        0 <= s,
        s + 64 * n <= b.len(),
        forall|k: int| 0 <= k < 64 * n ==> #[trigger] b[s + k] == encode_blocks(c, w, n, off)[k],
    ensures
        decode_blocks(b, s, w, n, off) == c,
{
    let enc = encode_blocks(c, w, n, off);
    assert forall|k: int| 0 <= k < 256 implies #[trigger] decode_blocks(b, s, w, n, off)[k] == c[k] by {
        let i = k / 4;
        let j = k % 4;
        let v = block_value(c, i, w, off);
        assert(c[4 * i] + off < pow2(w) && c[4 * i + 1] + off < pow2(w));
        assert(c[4 * i + 2] + off < pow2(w) && c[4 * i + 3] + off < pow2(w));
        lemma_pack4(
            digit(c[4 * i], off),
            digit(c[4 * i + 1], off),
            digit(c[4 * i + 2], off),
            digit(c[4 * i + 3], off),
            w,
            n as u128,
        );
        assert(i * n + n <= 64 * n) by (nonlinear_arith)
            requires
                0 <= i < 64,
                1 <= n,
        ;
        assert forall|jj: int| 0 <= jj < n implies #[trigger] b[(s + i * n) + jj] == be_byte(v, n, jj) by {
            lemma_block_index(i * n + jj, i, n);
            assert(b[s + (i * n + jj)] == enc[i * n + jj]);
        }
        lemma_be_round_trip(b, s + i * n, v, n);
    }
    assert(decode_blocks(b, s, w, n, off) =~= c);
}

/// 256 coefficients in [0, Q) as 27-bit digits, four to a 14-byte block.
pub open spec fn mod_q_bytes(c: Seq<i64>) -> Seq<u8> {
    encode_blocks(c, 27, 14, 0)
}

/// The coefficients that the 896 bytes from `s` on hold as 27-bit digits.
pub open spec fn mod_q_coeffs(b: Seq<u8>, s: int) -> Seq<i64> {
    decode_blocks(b, s, 27, 14, 0)
}

/// 256 coefficients in [-BETA, BETA] as 18-bit digits `c + BETA`, four to a 9-byte block.
pub open spec fn mod_beta_bytes(c: Seq<i64>) -> Seq<u8> {
    encode_blocks(c, 18, 9, BETA as int)
}

/// The coefficients that the 576 bytes from `s` on hold as 18-bit digits `c + BETA`.
pub open spec fn mod_beta_coeffs(b: Seq<u8>, s: int) -> Seq<i64> {
    decode_blocks(b, s, 18, 9, BETA as int)
}

/// 256 coefficients in {-1, 0, 1} as 2-bit digits `c + 1`, four to a byte.
pub open spec fn trinary_bytes(c: Seq<i64>) -> Seq<u8> {
    encode_blocks(c, 2, 1, 1)
}

/// The coefficients that the 64 bytes from `s` on hold as 2-bit digits `c + 1`.
pub open spec fn trinary_coeffs(b: Seq<u8>, s: int) -> Seq<i64> {
    decode_blocks(b, s, 2, 1, 1)
}

/// The 32-bit two's complement form of `c`.
pub open spec fn twos32(c: i64) -> u128 {
    if c < 0 {
        (c + 0x1_0000_0000) as u128
    } else {
        c as u128
    }
}

/// The value of a 32-bit two's complement word.
pub open spec fn from_twos32(v: u128) -> i64 {
    if v >= 0x8000_0000 {
        (v - 0x1_0000_0000) as i64
    } else {
        v as i64
    }
}

/// Every coefficient fits a 32-bit signed word.
pub open spec fn word_storable(c: Seq<i64>) -> bool {
    c.len() == 256 && forall|k: int| 0 <= k < 256 ==> -0x8000_0000 <= #[trigger] c[k] < 0x8000_0000
}

/// 256 coefficients as 32-bit big-endian two's complement words.
pub open spec fn word_bytes(c: Seq<i64>) -> Seq<u8> {
    Seq::new(1024, |k: int| be_byte(twos32(c[k / 4]), 4, k % 4))
}

/// The 256 32-bit big-endian two's complement words of the 1024 bytes from `s` on.
pub open spec fn word_coeffs(b: Seq<u8>, s: int) -> Seq<i64> {
    Seq::new(256, |k: int| from_twos32(be_value(b, s + 4 * k, 4)))
}

/// Every coefficient fits an 18-bit digit `c + BETA`: it lies in [-BETA, 2^18 - 1 - BETA].
pub open spec fn beta_storable(c: Seq<i64>) -> bool {
    c.len() == 256 && forall|k: int| 0 <= k < 256 ==> -BETA <= #[trigger] c[k] <= 172_287
}

/// Every coefficient fits a 2-bit digit `c + 1`: it lies in [-1, 2].
pub open spec fn trinary_storable(c: Seq<i64>) -> bool {
    c.len() == 256 && forall|k: int| 0 <= k < 256 ==> -1 <= #[trigger] c[k] <= 2
}

/// Appends an element with coefficients in [0, Q): 896 bytes.
pub fn pack_mod_q_poly(p: &Poly256, out: &mut Vec<u8>)
    requires
        p.is_normalized(),
    ensures
        final(out)@ == old(out)@ + mod_q_bytes(p.coeff@),
{
    assert(1u128 << 27u128 == 0x800_0000) by (bit_vector);
    pack_blocks(p, out, 27, 14, 0);
}

/// Reads an element with coefficients in [0, Q) from the 896 bytes at `s`.
/// Fewer than 896 bytes from `s` on give `Truncated`.
pub fn unpack_mod_q_poly(b: &[u8], s: usize) -> (r: Result<Poly256, CodecError>)
    ensures
        b@.len() < s + 896 ==> r == Err::<Poly256, CodecError>(CodecError::Truncated),
        b@.len() >= s + 896 ==> (r is Ok <==> reduced(mod_q_coeffs(b@, s as int))),
        b@.len() >= s + 896 && r is Err ==> r == Err::<Poly256, CodecError>(CodecError::OutOfRange),
        r matches Ok(p) ==> p.coeff@ == mod_q_coeffs(b@, s as int),
{
    if s > b.len() || b.len() - s < 896 {
        return Err(CodecError::Truncated);
    }
    let p = unpack_blocks(b, s, 27, 14, 0);
    let mut i: usize = 0;
    while i < 256
        invariant
            0 <= i <= 256,
            p.coeff@ == mod_q_coeffs(b@, s as int),
            b@.len() >= s + 896,
            forall|k: int| 0 <= k < i ==> 0 <= #[trigger] p.coeff@[k] < Q,
        decreases 256 - i,
    {
        if p.coeff[i] < 0 || p.coeff[i] >= Q {
            return Err(CodecError::OutOfRange);
        }
        i += 1;
    }
    Ok(p)
}

/// Appends an element with coefficients in [-BETA, 2^18 - 1 - BETA]: 576 bytes.
pub fn pack_mod_beta_poly(p: &Poly256, out: &mut Vec<u8>)
    requires
        beta_storable(p.coeff@),
    ensures
        final(out)@ == old(out)@ + mod_beta_bytes(p.coeff@),
{
    assert(1u128 << 18u128 == 0x4_0000) by (bit_vector);
    pack_blocks(p, out, 18, 9, BETA);
}

/// Reads an element of 18-bit digits `c + BETA` from the 576 bytes at `s`;
/// fewer than 576 bytes give `Truncated`.
pub fn unpack_mod_beta_poly(b: &[u8], s: usize) -> (r: Result<Poly256, CodecError>)
    ensures
        b@.len() < s + 576 <==> r is Err,
        r is Err ==> r == Err::<Poly256, CodecError>(CodecError::Truncated),
        r matches Ok(p) ==> p.coeff@ == mod_beta_coeffs(b@, s as int) && beta_storable(p.coeff@),
{
    if s > b.len() || b.len() - s < 576 {
        return Err(CodecError::Truncated);
    }
    Ok(read_mod_beta_poly(b, s))
}

fn read_mod_beta_poly(b: &[u8], s: usize) -> (r: Poly256)
    requires
        s + 576 <= b@.len(),
    ensures
        r.coeff@ == mod_beta_coeffs(b@, s as int),
        beta_storable(r.coeff@),
{
    let r = unpack_blocks(b, s, 18, 9, BETA);
    assert(1u128 << 18u128 == 0x4_0000) by (bit_vector);
    r
}

/// Appends an element with coefficients in [-1, 2], such as one in {-1, 0, 1}: 64 bytes.
pub fn pack_trinary(p: &Poly256, out: &mut Vec<u8>)
    requires
        trinary_storable(p.coeff@),
    ensures
        final(out)@ == old(out)@ + trinary_bytes(p.coeff@),
{
    assert(1u128 << 2u128 == 4) by (bit_vector);
    pack_blocks(p, out, 2, 1, 1);
}

/// Reads an element of 2-bit digits `c + 1` from the 64 bytes at `s`;
/// fewer than 64 bytes give `Truncated`.
pub fn unpack_trinary(b: &[u8], s: usize) -> (r: Result<Poly256, CodecError>)
    ensures
        b@.len() < s + 64 <==> r is Err,
        r is Err ==> r == Err::<Poly256, CodecError>(CodecError::Truncated),
        r matches Ok(p) ==> p.coeff@ == trinary_coeffs(b@, s as int) && trinary_storable(p.coeff@),
{
    if s > b.len() || b.len() - s < 64 {
        return Err(CodecError::Truncated);
    }
    Ok(read_trinary(b, s))
}

fn read_trinary(b: &[u8], s: usize) -> (r: Poly256)
    requires
        s + 64 <= b@.len(),
    ensures
        r.coeff@ == trinary_coeffs(b@, s as int),
        trinary_storable(r.coeff@),
{
    let r = unpack_blocks(b, s, 2, 1, 1);
    assert(1u128 << 2u128 == 4) by (bit_vector);
    r
}

/// Appends an element with coefficients in the 32-bit signed range as
/// big-endian two's complement words: 1024 bytes.
pub fn pack_words(p: &Poly256, out: &mut Vec<u8>)
    requires
        word_storable(p.coeff@),
    ensures
        final(out)@ == old(out)@ + word_bytes(p.coeff@),
{
    let ghost enc = word_bytes(p.coeff@);
    assert(old(out)@ + enc.take(0) =~= old(out)@);
    for i in 0usize..256
        invariant
            word_storable(p.coeff@),
            enc == word_bytes(p.coeff@),
            out@ == old(out)@ + enc.take(4 * i),
    {
        let c = p.coeff[i];
        let u: u128 = if c < 0 {
            (c + 0x1_0000_0000) as u128
        } else {
            c as u128
        };
        push_be(out, u, 4);
        assert(enc.take(4 * i + 4) =~= enc.take(4 * i) + be_bytes(twos32(p.coeff[i as int]), 4));
    }
    assert(enc.take(1024) =~= enc);
}

/// Reads an element of 32-bit big-endian two's complement words from the
/// 1024 bytes at `s`; fewer than 1024 bytes give `Truncated`.
pub fn unpack_words(b: &[u8], s: usize) -> (r: Result<Poly256, CodecError>)
    ensures
        b@.len() < s + 1024 <==> r is Err,
        r is Err ==> r == Err::<Poly256, CodecError>(CodecError::Truncated),
        r matches Ok(p) ==> p.coeff@ == word_coeffs(b@, s as int) && word_storable(p.coeff@),
{
    if s > b.len() || b.len() - s < 1024 {
        return Err(CodecError::Truncated);
    }
    Ok(read_words(b, s))
}

fn read_words(b: &[u8], s: usize) -> (r: Poly256)
    requires
        s + 1024 <= b@.len(),
    ensures
        r.coeff@ == word_coeffs(b@, s as int),
        word_storable(r.coeff@),
{
    let _len = b.len();
    let mut coeff = [0i64; 256];
    for i in 0usize..256
        invariant
            s + 1024 <= b@.len(),
            b@.len() <= usize::MAX,
            forall|k: int| 0 <= k < i ==> coeff@[k] == word_coeffs(b@, s as int)[k],
            forall|k: int| 0 <= k < i ==> -0x8000_0000 <= #[trigger] coeff@[k] < 0x8000_0000,
    {
        let v = read_be(b, s + 4 * i, 4);
        proof {
            lemma_be_value_bound(b@, s + 4 * i, 4);
            assert(v < 0x1_0000_0000) by (bit_vector)
                requires
                    v >> 32u128 == 0,
            ;
        }
        coeff[i] = if v >= 0x8000_0000 {
            v as i64 - 0x1_0000_0000
        } else {
            v as i64
        };
    }
    let p = Poly256 { coeff };
    assert(p.coeff@ =~= word_coeffs(b@, s as int));
    p
}

/// Whether every coefficient of `p` lies in [0, Q).
fn is_reduced(p: &Poly256) -> (r: bool)
    ensures
        r == reduced(p.coeff@),
{
    let mut i: usize = 0;
    while i < 256
        invariant
            0 <= i <= 256,
            forall|k: int| 0 <= k < i ==> 0 <= #[trigger] p.coeff@[k] < Q,
        decreases 256 - i,
    {
        if p.coeff[i] < 0 || p.coeff[i] >= Q {
            return false;
        }
        i += 1;
    }
    true
}

/// The concatenation `s[0] + s[1] + ...`.
pub open spec fn concat(s: Seq<Seq<u8>>) -> Seq<u8>
    decreases s.len(),
{
    if s.len() == 0 {
        Seq::empty()
    } else {
        concat(s.drop_last()) + s.last()
    }
}

proof fn lemma_concat_index(s: Seq<Seq<u8>>, l: int, i: int, k: int)
    requires
        0 <= l,
        forall|j: int| 0 <= j < s.len() ==> (#[trigger] s[j]).len() == l,
        0 <= i < s.len(),
        0 <= k < l,
    ensures
        concat(s).len() == s.len() * l,
        concat(s)[i * l + k] == s[i][k],
    decreases s.len(),
{
    lemma_concat_len(s.drop_last(), l);
    if i < s.len() - 1 {
        lemma_concat_index(s.drop_last(), l, i, k);
    }
    assert((s.len() - 1) * l + l == s.len() * l) by (nonlinear_arith);
    assert(i * l + k < s.len() * l) by (nonlinear_arith)
        requires
            0 <= i < s.len(),
            0 <= k < l,
    ;
    if i < s.len() - 1 {
        assert(i * l + k < (s.len() - 1) * l) by (nonlinear_arith)
            requires
                0 <= i < s.len() - 1,
                0 <= k < l,
        ;
    }
}

proof fn lemma_concat_len(s: Seq<Seq<u8>>, l: int)
    requires
        0 <= l,
        forall|j: int| 0 <= j < s.len() ==> (#[trigger] s[j]).len() == l,
    ensures
        concat(s).len() == s.len() * l,
    decreases s.len(),
{
    if s.len() > 0 {
        lemma_concat_len(s.drop_last(), l);
        assert((s.len() - 1) * l + l == s.len() * l) by (nonlinear_arith);
    }
}

proof fn lemma_concat_step(s: Seq<Seq<u8>>, i: int)
    requires
        0 <= i < s.len(),
    ensures
        concat(s.take(i + 1)) == concat(s.take(i)) + s[i],
{
    assert(s.take(i + 1).drop_last() =~= s.take(i));
}

/// A value with a fixed-size byte encoding.
pub trait Serdes: Sized {
    /// The number of bytes of every encoding.
    spec fn byte_len() -> nat;

    /// The coefficient sequences of the value's elements.
    spec fn model(&self) -> Seq<Seq<i64>>;

    /// The values that have an encoding.
    spec fn encodable(&self) -> bool;

    /// The encoding of the value.
    spec fn encoding(&self) -> Seq<u8>;

    /// Whether the first `byte_len()` bytes of `b` are a valid encoding.
    spec fn decodable(b: Seq<u8>) -> bool;

    /// The coefficient sequences that the first `byte_len()` bytes of `b` hold.
    spec fn decoding(b: Seq<u8>) -> Seq<Seq<i64>>;

    /// Appends the encoding of `self`.
    fn serialize(&self, out: &mut Vec<u8>)
        requires
            self.encodable(),
        ensures
            final(out)@ == old(out)@ + self.encoding(),
            self.encoding().len() == Self::byte_len(),
    ;

    /// Decodes a value from the first `byte_len()` bytes of `b`.
    fn deserialize(b: &[u8]) -> (r: Result<Self, CodecError>)
        ensures
            b@.len() < Self::byte_len() ==> r == Err::<Self, CodecError>(CodecError::Truncated),
            b@.len() >= Self::byte_len() ==> (r is Ok <==> Self::decodable(b@)),
            b@.len() >= Self::byte_len() && !Self::decodable(b@) ==> r == Err::<Self, CodecError>(
                CodecError::OutOfRange,
            ),
            r matches Ok(x) ==> x.model() == Self::decoding(b@) && x.encodable(),
    ;
}

impl Serdes for PublicKey {
    open spec fn byte_len() -> nat {
        3584
    }

    open spec fn model(&self) -> Seq<Seq<i64>> {
        Seq::new(4, |i: int| self.t[i].coeff@)
    }

    open spec fn encodable(&self) -> bool {
        forall|i: int| 0 <= i < 4 ==> (#[trigger] self.t[i]).is_normalized()
    }

    open spec fn encoding(&self) -> Seq<u8> {
        concat(Seq::new(4, |i: int| mod_q_bytes(self.t[i].coeff@)))
    }

    open spec fn decodable(b: Seq<u8>) -> bool {
        forall|i: int| 0 <= i < 4 ==> reduced(#[trigger] mod_q_coeffs(b, 896 * i))
    }

    open spec fn decoding(b: Seq<u8>) -> Seq<Seq<i64>> {
        Seq::new(4, |i: int| mod_q_coeffs(b, 896 * i))
    }

    fn serialize(&self, out: &mut Vec<u8>) {
        let ghost blocks = Seq::new(4, |i: int| mod_q_bytes(self.t[i].coeff@));
        assert(old(out)@ + concat(blocks.take(0)) =~= old(out)@);
        for i in 0usize..4
            invariant
                self.encodable(),
                blocks == Seq::new(4, |i: int| mod_q_bytes(self.t[i].coeff@)),
                out@ == old(out)@ + concat(blocks.take(i as int)),
        {
            pack_mod_q_poly(&self.t[i], out);
            proof {
                lemma_concat_step(blocks, i as int);
            }
            assert(out@ =~= old(out)@ + concat(blocks.take(i + 1)));
        }
        assert(blocks.take(4) =~= blocks);
        proof {
            lemma_concat_len(blocks, 896);
        }
    }

    fn deserialize(b: &[u8]) -> (r: Result<Self, CodecError>) {
        if b.len() < 3584 {
            return Err(CodecError::Truncated);
        }
        let mut t = [Poly256::zero(); 4];
        for i in 0usize..4
            invariant
                b@.len() >= 3584,
                forall|j: int| 0 <= j < i ==> reduced(#[trigger] mod_q_coeffs(b@, 896 * j)),
                forall|j: int| 0 <= j < i ==> (#[trigger] t[j]).coeff@ == mod_q_coeffs(b@, 896 * j),
        {
            match unpack_mod_q_poly(b, 896 * i) {
                Ok(p) => {
                    t[i] = p;
                },
                Err(e) => {
                    return Err(e);
                },
            }
        }
        let pk = PublicKey { t };
        assert(pk.model() =~= Self::decoding(b@));
        Ok(pk)
    }
}

impl Serdes for SecretKey {
    open spec fn byte_len() -> nat {
        576
    }

    open spec fn model(&self) -> Seq<Seq<i64>> {
        Seq::new(9, |i: int| self.s[i].coeff@)
    }

    open spec fn encodable(&self) -> bool {
        forall|i: int| 0 <= i < 9 ==> trinary_storable(#[trigger] self.s[i].coeff@)
    }

    open spec fn encoding(&self) -> Seq<u8> {
        concat(Seq::new(9, |i: int| trinary_bytes(self.s[i].coeff@)))
    }

    open spec fn decodable(b: Seq<u8>) -> bool {
        true
    }

    open spec fn decoding(b: Seq<u8>) -> Seq<Seq<i64>> {
        Seq::new(9, |i: int| trinary_coeffs(b, 64 * i))
    }

    fn serialize(&self, out: &mut Vec<u8>) {
        let ghost blocks = Seq::new(9, |i: int| trinary_bytes(self.s[i].coeff@));
        assert(old(out)@ + concat(blocks.take(0)) =~= old(out)@);
        for i in 0usize..9
            invariant
                self.encodable(),
                blocks == Seq::new(9, |i: int| trinary_bytes(self.s[i].coeff@)),
                out@ == old(out)@ + concat(blocks.take(i as int)),
        {
            pack_trinary(&self.s[i], out);
            proof {
                lemma_concat_step(blocks, i as int);
            }
            assert(out@ =~= old(out)@ + concat(blocks.take(i + 1)));
        }
        assert(blocks.take(9) =~= blocks);
        proof {
            lemma_concat_len(blocks, 64);
        }
    }

    fn deserialize(b: &[u8]) -> (r: Result<Self, CodecError>) {
        if b.len() < 576 {
            return Err(CodecError::Truncated);
        }
        let mut s = [Poly256::zero(); 9];
        for i in 0usize..9
            invariant
                b@.len() >= 576,
                forall|j: int| 0 <= j < i ==> (#[trigger] s[j]).coeff@ == trinary_coeffs(b@, 64 * j),
                forall|j: int| 0 <= j < i ==> trinary_storable(#[trigger] s[j].coeff@),
        {
            s[i] = read_trinary(b, 64 * i);
        }
        let sk = SecretKey { s };
        assert(sk.model() =~= Self::decoding(b@));
        Ok(sk)
    }
}

impl Serdes for Param {
    open spec fn byte_len() -> nat {
        32256
    }

    open spec fn model(&self) -> Seq<Seq<i64>> {
        Seq::new(36, |i: int| self.matrix[i / 9][i % 9].coeff@)
    }

    open spec fn encodable(&self) -> bool {
        forall|i: int, j: int| 0 <= i < 4 && 0 <= j < 9 ==> (#[trigger] self.matrix[i][j]).is_normalized()
    }

    open spec fn encoding(&self) -> Seq<u8> {
        concat(Seq::new(36, |i: int| mod_q_bytes(self.matrix[i / 9][i % 9].coeff@)))
    }

    open spec fn decodable(b: Seq<u8>) -> bool {
        forall|i: int| 0 <= i < 36 ==> reduced(#[trigger] mod_q_coeffs(b, 896 * i))
    }

    open spec fn decoding(b: Seq<u8>) -> Seq<Seq<i64>> {
        Seq::new(36, |i: int| mod_q_coeffs(b, 896 * i))
    }

    fn serialize(&self, out: &mut Vec<u8>) {
        let ghost blocks = Seq::new(36, |i: int| mod_q_bytes(self.matrix[i / 9][i % 9].coeff@));
        assert(old(out)@ + concat(blocks.take(0)) =~= old(out)@);
        for i in 0usize..36
            invariant
                self.encodable(),
                blocks == Seq::new(36, |i: int| mod_q_bytes(self.matrix[i / 9][i % 9].coeff@)),
                out@ == old(out)@ + concat(blocks.take(i as int)),
        {
            assert(self.matrix[(i / 9) as int][(i % 9) as int].is_normalized());
            pack_mod_q_poly(&self.matrix[i / 9][i % 9], out);
            proof {
                lemma_concat_step(blocks, i as int);
            }
            assert(out@ =~= old(out)@ + concat(blocks.take(i + 1)));
        }
        assert(blocks.take(36) =~= blocks);
        proof {
            lemma_concat_len(blocks, 896);
        }
    }

    fn deserialize(b: &[u8]) -> (r: Result<Self, CodecError>) {
        if b.len() < 32256 {
            return Err(CodecError::Truncated);
        }
        let z = Poly256::zero();
        let mut matrix = [[z; 9]; 4];
        for r in 0usize..4
            invariant
                b@.len() >= 32256,
                forall|j: int| 0 <= j < 9 * r ==> reduced(#[trigger] mod_q_coeffs(b@, 896 * j)),
                forall|i: int, j: int|
                    0 <= i < r && 0 <= j < 9 ==> (#[trigger] matrix[i][j]).coeff@ == mod_q_coeffs(
                        b@,
                        896 * (9 * i + j),
                    ),
        {
            let mut row = [z; 9];
            for c in 0usize..9
                invariant
                    b@.len() >= 32256,
                    r < 4,
                    forall|j: int| 0 <= j < 9 * r + c ==> reduced(#[trigger] mod_q_coeffs(b@, 896 * j)),
                    forall|j: int| 0 <= j < c ==> (#[trigger] row[j]).coeff@ == mod_q_coeffs(b@, 896 * (9 * r + j)),
            {
                match unpack_mod_q_poly(b, 896 * (9 * r + c)) {
                    Ok(p) => {
                        row[c] = p;
                    },
                    Err(e) => {
                        return Err(e);
                    },
                }
            }
            matrix[r] = row;
        }
        let pp = Param { matrix };
        assert forall|i: int| 0 <= i < 36 implies #[trigger] pp.model()[i] == Self::decoding(b@)[i] by {
            assert(pp.matrix[i / 9][i % 9].coeff@ == mod_q_coeffs(b@, 896 * (9 * (i / 9) + i % 9)));
        }
        assert(pp.model() =~= Self::decoding(b@));
        Ok(pp)
    }
}

impl Serdes for Proof {
    open spec fn byte_len() -> nat {
        6272
    }

    open spec fn model(&self) -> Seq<Seq<i64>> {
        Seq::new(
            11,
            |i: int|
                if i < 9 {
                    self.z[i].coeff@
                } else if i == 9 {
                    self.c.coeff@
                } else {
                    self.v.coeff@
                },
        )
    }

    open spec fn encodable(&self) -> bool {
        &&& forall|i: int| 0 <= i < 9 ==> beta_storable(#[trigger] self.z[i].coeff@)
        &&& trinary_storable(self.c.coeff@)
        &&& self.v.is_normalized()
    }

    open spec fn encoding(&self) -> Seq<u8> {
        concat(Seq::new(9, |i: int| mod_beta_bytes(self.z[i].coeff@))) + trinary_bytes(self.c.coeff@)
            + word_bytes(self.v.coeff@)
    }

    open spec fn decodable(b: Seq<u8>) -> bool {
        reduced(word_coeffs(b, 5248))
    }

    open spec fn decoding(b: Seq<u8>) -> Seq<Seq<i64>> {
        Seq::new(
            11,
            |i: int|
                if i < 9 {
                    mod_beta_coeffs(b, 576 * i)
                } else if i == 9 {
                    trinary_coeffs(b, 5184)
                } else {
                    word_coeffs(b, 5248)
                },
        )
    }

    fn serialize(&self, out: &mut Vec<u8>) {
        let ghost blocks = Seq::new(9, |i: int| mod_beta_bytes(self.z[i].coeff@));
        assert(old(out)@ + concat(blocks.take(0)) =~= old(out)@);
        for i in 0usize..9
            invariant
                self.encodable(),
                blocks == Seq::new(9, |i: int| mod_beta_bytes(self.z[i].coeff@)),
                out@ == old(out)@ + concat(blocks.take(i as int)),
        {
            pack_mod_beta_poly(&self.z[i], out);
            proof {
                lemma_concat_step(blocks, i as int);
            }
            assert(out@ =~= old(out)@ + concat(blocks.take(i + 1)));
        }
        assert(blocks.take(9) =~= blocks);
        proof {
            lemma_concat_len(blocks, 576);
        }
        pack_trinary(&self.c, out);
        pack_words(&self.v, out);
        assert(out@ =~= old(out)@ + self.encoding());
    }

    fn deserialize(b: &[u8]) -> (r: Result<Self, CodecError>) {
        if b.len() < 6272 {
            return Err(CodecError::Truncated);
        }
        let mut z = [Poly256::zero(); 9];
        for i in 0usize..9
            invariant
                b@.len() >= 6272,
                forall|j: int| 0 <= j < i ==> (#[trigger] z[j]).coeff@ == mod_beta_coeffs(b@, 576 * j),
                forall|j: int| 0 <= j < i ==> beta_storable(#[trigger] z[j].coeff@),
        {
            z[i] = read_mod_beta_poly(b, 576 * i);
        }
        let c = read_trinary(b, 5184);
        let v = read_words(b, 5248);
        if !is_reduced(&v) {
            return Err(CodecError::OutOfRange);
        }
        let proof = Proof { z, c, v };
        assert(proof.model() =~= Self::decoding(b@));
        Ok(proof)
    }
}

/// Two elements with the same coefficients are equal.
pub proof fn lemma_poly_eq(a: Poly256, b: Poly256)
    requires
        a.coeff@ == b.coeff@,
    ensures
        a == b,
{
    assert(a.coeff =~= b.coeff);
}

proof fn lemma_mod_q_block_round_trip(c: Seq<i64>, b: Seq<u8>, s: int)
    requires
        reduced(c),
        0 <= s,
        s + 896 <= b.len(),
        forall|k: int| 0 <= k < 896 ==> #[trigger] b[s + k] == mod_q_bytes(c)[k],
    ensures
        mod_q_coeffs(b, s) == c,
{
    assert(1u128 << 27u128 == 0x800_0000) by (bit_vector);
    lemma_blocks_round_trip(c, 27, 14, 0, b, s);
}

/// The encoding of a public key has 3,584 bytes and decodes to its coefficients.
pub proof fn lemma_public_key_decodes(pk: PublicKey)
    requires
        pk.encodable(),
    ensures
        pk.encoding().len() == PublicKey::byte_len(),
        PublicKey::decodable(pk.encoding()),
        PublicKey::decoding(pk.encoding()) == pk.model(),
{
    let blocks = Seq::new(4, |i: int| mod_q_bytes(pk.t[i].coeff@));
    let enc = pk.encoding();
    lemma_concat_len(blocks, 896);
    assert forall|i: int| 0 <= i < 4 implies #[trigger] mod_q_coeffs(enc, 896 * i) == pk.t[i].coeff@ by {
        assert(pk.t[i].is_normalized());
        assert forall|k: int| 0 <= k < 896 implies #[trigger] enc[896 * i + k] == mod_q_bytes(pk.t[i].coeff@)[k] by {
            lemma_concat_index(blocks, 896, i, k);
            assert(i * 896 + k == 896 * i + k);
        }
        lemma_mod_q_block_round_trip(pk.t[i].coeff@, enc, 896 * i);
    }
    assert(PublicKey::decoding(enc) =~= pk.model());
}

/// The encoding of a public key has 3,584 bytes, and decoding it gives the key back:
/// every key whose elements decode from them equals the one encoded.
pub proof fn lemma_public_key_round_trip(pk: PublicKey, decoded: PublicKey)
    requires
        pk.encodable(),
        decoded.model() == PublicKey::decoding(pk.encoding()),
    ensures
        pk.encoding().len() == PublicKey::byte_len(),
        PublicKey::decodable(pk.encoding()),
        PublicKey::decoding(pk.encoding()) == pk.model(),
        decoded == pk,
{
    lemma_public_key_decodes(pk);
    assert forall|i: int| 0 <= i < 4 implies decoded.t[i] == #[trigger] pk.t[i] by {
        assert(decoded.model()[i] == pk.model()[i]);
        lemma_poly_eq(decoded.t[i], pk.t[i]);
    }
    assert(decoded.t =~= pk.t);
}

/// The encoding of a secret key has 576 bytes and decodes to its coefficients.
pub proof fn lemma_secret_key_decodes(sk: SecretKey)
    requires
        sk.encodable(),
    ensures
        sk.encoding().len() == SecretKey::byte_len(),
        SecretKey::decodable(sk.encoding()),
        SecretKey::decoding(sk.encoding()) == sk.model(),
{
    let blocks = Seq::new(9, |i: int| trinary_bytes(sk.s[i].coeff@));
    let enc = sk.encoding();
    lemma_concat_len(blocks, 64);
    assert(1u128 << 2u128 == 4) by (bit_vector);
    assert forall|i: int| 0 <= i < 9 implies #[trigger] trinary_coeffs(enc, 64 * i) == sk.s[i].coeff@ by {
        assert(trinary_storable(sk.s[i].coeff@));
        assert forall|k: int| 0 <= k < 64 implies #[trigger] enc[64 * i + k] == trinary_bytes(sk.s[i].coeff@)[k] by {
            lemma_concat_index(blocks, 64, i, k);
            assert(i * 64 + k == 64 * i + k);
        }
        lemma_blocks_round_trip(sk.s[i].coeff@, 2, 1, 1, enc, 64 * i);
    }
    assert(SecretKey::decoding(enc) =~= sk.model());
}

/// The encoding of a secret key has 576 bytes, and decoding it gives the key back.
pub proof fn lemma_secret_key_round_trip(sk: SecretKey, decoded: SecretKey)
    requires
        sk.encodable(),
        decoded.model() == SecretKey::decoding(sk.encoding()),
    ensures
        sk.encoding().len() == SecretKey::byte_len(),
        SecretKey::decodable(sk.encoding()),
        SecretKey::decoding(sk.encoding()) == sk.model(),
        decoded == sk,
{
    lemma_secret_key_decodes(sk);
    assert forall|i: int| 0 <= i < 9 implies decoded.s[i] == #[trigger] sk.s[i] by {
        assert(decoded.model()[i] == sk.model()[i]);
        lemma_poly_eq(decoded.s[i], sk.s[i]);
    }
    assert(decoded.s =~= sk.s);
}

/// The encoding of the parameters has 32,256 bytes and decodes to their coefficients.
pub proof fn lemma_param_decodes(pp: Param)
    requires
        pp.encodable(),
    ensures
        pp.encoding().len() == Param::byte_len(),
        Param::decodable(pp.encoding()),
        Param::decoding(pp.encoding()) == pp.model(),
{
    let blocks = Seq::new(36, |i: int| mod_q_bytes(pp.matrix[i / 9][i % 9].coeff@));
    let enc = pp.encoding();
    lemma_concat_len(blocks, 896);
    assert forall|i: int| 0 <= i < 36 implies #[trigger] mod_q_coeffs(enc, 896 * i) == pp.model()[i] by {
        assert(pp.matrix[i / 9][i % 9].is_normalized());
        assert forall|k: int| 0 <= k < 896 implies #[trigger] enc[896 * i + k] == mod_q_bytes(pp.model()[i])[k] by {
            lemma_concat_index(blocks, 896, i, k);
            assert(i * 896 + k == 896 * i + k);
        }
        lemma_mod_q_block_round_trip(pp.model()[i], enc, 896 * i);
    }
    assert(Param::decoding(enc) =~= pp.model());
}

/// The encoding of the parameters has 32,256 bytes, and decoding it gives them back.
pub proof fn lemma_param_round_trip(pp: Param, decoded: Param)
    requires
        pp.encodable(),
        decoded.model() == Param::decoding(pp.encoding()),
    ensures
        pp.encoding().len() == Param::byte_len(),
        Param::decodable(pp.encoding()),
        Param::decoding(pp.encoding()) == pp.model(),
        decoded == pp,
{
    lemma_param_decodes(pp);
    assert forall|r: int| 0 <= r < 4 implies decoded.matrix[r] == #[trigger] pp.matrix[r] by {
        assert forall|c: int| 0 <= c < 9 implies decoded.matrix[r][c] == #[trigger] pp.matrix[r][c] by {
            assert(decoded.model()[9 * r + c] == pp.model()[9 * r + c]);
            assert((9 * r + c) / 9 == r && (9 * r + c) % 9 == c);
            lemma_poly_eq(decoded.matrix[r][c], pp.matrix[r][c]);
        }
        assert(decoded.matrix[r] =~= pp.matrix[r]);
    }
    assert(decoded.matrix =~= pp.matrix);
}

/// The encoding of a proof has 6,272 bytes and decodes to its coefficients.
pub proof fn lemma_proof_decodes(pf: Proof)
    requires
        pf.encodable(),
    ensures
        pf.encoding().len() == Proof::byte_len(),
        Proof::decodable(pf.encoding()),
        Proof::decoding(pf.encoding()) == pf.model(),
{
    let blocks = Seq::new(9, |i: int| mod_beta_bytes(pf.z[i].coeff@));
    let zs = concat(blocks);
    let enc = pf.encoding();
    lemma_concat_len(blocks, 576);
    assert(enc.len() == 6272);
    assert(1u128 << 18u128 == 0x4_0000) by (bit_vector);
    assert(1u128 << 2u128 == 4) by (bit_vector);
    assert forall|i: int| 0 <= i < 9 implies #[trigger] mod_beta_coeffs(enc, 576 * i) == pf.z[i].coeff@ by {
        assert(beta_storable(pf.z[i].coeff@));
        assert forall|k: int| 0 <= k < 576 implies #[trigger] enc[576 * i + k] == mod_beta_bytes(pf.z[i].coeff@)[k] by {
            lemma_concat_index(blocks, 576, i, k);
            assert(i * 576 + k == 576 * i + k);
            assert(enc[576 * i + k] == zs[576 * i + k]);
        }
        lemma_blocks_round_trip(pf.z[i].coeff@, 18, 9, BETA as int, enc, 576 * i);
    }
    assert forall|k: int| 0 <= k < 64 implies #[trigger] enc[5184 + k] == trinary_bytes(pf.c.coeff@)[k] by {}
    lemma_blocks_round_trip(pf.c.coeff@, 2, 1, 1, enc, 5184);
    let v = pf.v.coeff@;
    assert forall|k: int| 0 <= k < 256 implies #[trigger] word_coeffs(enc, 5248)[k] == v[k] by {
        assert forall|j: int| 0 <= j < 4 implies #[trigger] enc[(5248 + 4 * k) + j] == be_byte(v[k] as u128, 4, j) by {
            assert(enc[5248 + (4 * k + j)] == word_bytes(v)[4 * k + j]);
            assert((4 * k + j) / 4 == k && (4 * k + j) % 4 == j);
        }
        let x = twos32(v[k]);
        assert(x >> 32u128 == 0) by (bit_vector)
            requires
                x < 0x1_0000_0000,
        ;
        lemma_be_round_trip(enc, 5248 + 4 * k, x, 4);
    }
    assert(word_coeffs(enc, 5248) =~= v);
    assert(Proof::decoding(enc) =~= pf.model());
}

/// The encoding of a proof has 6,272 bytes, and decoding it gives the proof back.
pub proof fn lemma_proof_round_trip(pf: Proof, decoded: Proof)
    requires
        pf.encodable(),
        decoded.model() == Proof::decoding(pf.encoding()),
    ensures
        pf.encoding().len() == Proof::byte_len(),
        Proof::decodable(pf.encoding()),
        Proof::decoding(pf.encoding()) == pf.model(),
        decoded == pf,
{
    lemma_proof_decodes(pf);
    assert forall|i: int| 0 <= i < 9 implies decoded.z[i] == #[trigger] pf.z[i] by {
        assert(decoded.model()[i] == pf.model()[i]);
        lemma_poly_eq(decoded.z[i], pf.z[i]);
    }
    assert(decoded.z =~= pf.z);
    assert(decoded.model()[9] == pf.model()[9]);
    assert(decoded.model()[10] == pf.model()[10]);
    lemma_poly_eq(decoded.c, pf.c);
    lemma_poly_eq(decoded.v, pf.v);
}

impl Serdes for Poly256 {
    open spec fn byte_len() -> nat {
        1024
    }

    open spec fn model(&self) -> Seq<Seq<i64>> {
        seq![self.coeff@]
    }

    open spec fn encodable(&self) -> bool {
        word_storable(self.coeff@)
    }

    open spec fn encoding(&self) -> Seq<u8> {
        word_bytes(self.coeff@)
    }

    open spec fn decodable(b: Seq<u8>) -> bool {
        true
    }

    open spec fn decoding(b: Seq<u8>) -> Seq<Seq<i64>> {
        seq![word_coeffs(b, 0)]
    }

    fn serialize(&self, out: &mut Vec<u8>) {
        pack_words(self, out);
    }

    fn deserialize(b: &[u8]) -> (r: Result<Self, CodecError>) {
        if b.len() < 1024 {
            return Err(CodecError::Truncated);
        }
        let p = read_words(b, 0);
        assert(p.model() =~= Self::decoding(b@));
        Ok(p)
    }
}

/// Whether every coefficient of `p` lies in [lo, hi].
fn coeffs_within(p: &Poly256, lo: i64, hi: i64) -> (r: bool)
    ensures
        r == forall|k: int| 0 <= k < 256 ==> lo <= #[trigger] p.coeff@[k] <= hi,
{
    for k in 0usize..256
        invariant
            forall|j: int| 0 <= j < k ==> lo <= #[trigger] p.coeff@[j] <= hi,
    {
        if p.coeff[k] < lo || p.coeff[k] > hi {
            return false;
        }
    }
    true
}

impl Param {
    /// Whether every coefficient lies in [0, Q), as generation leaves it.
    pub fn is_encodable(&self) -> (r: bool)
        ensures
            r == self.encodable(),
    {
        for i in 0usize..4
            invariant
                forall|a: int, b: int| 0 <= a < i && 0 <= b < 9 ==> (#[trigger] self.matrix[a][b]).is_normalized(),
        {
            for j in 0usize..9
                invariant
                    i < 4,
                    forall|a: int, b: int| 0 <= a < i && 0 <= b < 9 ==> (#[trigger] self.matrix[a][b]).is_normalized(),
                    forall|b: int| 0 <= b < j ==> (#[trigger] self.matrix[i as int][b]).is_normalized(),
            {
                if !coeffs_within(&self.matrix[i][j], 0, Q - 1) {
                    return false;
                }
            }
        }
        true
    }
}

impl PublicKey {
    /// Whether every coefficient lies in [0, Q), as key generation leaves it.
    pub fn is_encodable(&self) -> (r: bool)
        ensures
            r == self.encodable(),
    {
        for i in 0usize..4
            invariant
                forall|a: int| 0 <= a < i ==> (#[trigger] self.t[a]).is_normalized(),
        {
            if !coeffs_within(&self.t[i], 0, Q - 1) {
                return false;
            }
        }
        true
    }
}

impl SecretKey {
    /// Whether every coefficient lies in [-1, 2], the range its encoding holds.
    pub fn is_encodable(&self) -> (r: bool)
        ensures
            r == self.encodable(),
            r ==> forall|i: int| 0 <= i < 9 ==> (#[trigger] self.s[i]).wf(),
    {
        for i in 0usize..9
            invariant
                forall|a: int| 0 <= a < i ==> trinary_storable(#[trigger] self.s[a].coeff@),
        {
            if !coeffs_within(&self.s[i], -1, 2) {
                return false;
            }
        }
        assert forall|i: int| 0 <= i < 9 implies (#[trigger] self.s[i]).wf() by {
            assert(trinary_storable(self.s[i].coeff@));
        }
        true
    }
}

impl Proof {
    /// Whether `c` fits its 2-bit digits and `v` lies in [0, Q), as `verify` needs.
    pub fn is_verifiable(&self) -> (r: bool)
        ensures
            r == crate::lbvrf::verifiable(*self),
    {
        coeffs_within(&self.c, -1, 2) && coeffs_within(&self.v, 0, Q - 1)
    }

    /// Whether `z` fits its 18-bit digits, `c` its 2-bit digits and `v` lies
    /// in [0, Q), as decoding leaves them.
    pub fn is_encodable(&self) -> (r: bool)
        ensures
            r == self.encodable(),
    {
        for i in 0usize..9
            invariant
                forall|a: int| 0 <= a < i ==> beta_storable(#[trigger] self.z[a].coeff@),
        {
            if !coeffs_within(&self.z[i], -BETA, 172_287) {
                return false;
            }
        }
        coeffs_within(&self.c, -1, 2) && coeffs_within(&self.v, 0, Q - 1)
    }
}

/// The encoding of an element as 32-bit words has 1,024 bytes and decodes to its coefficients.
pub proof fn lemma_poly256_decodes(p: Poly256)
    requires
        p.encodable(),
    ensures
        p.encoding().len() == Poly256::byte_len(),
        Poly256::decoding(p.encoding()) == p.model(),
{
    let v = p.coeff@;
    let enc = p.encoding();
    assert forall|k: int| 0 <= k < 256 implies #[trigger] word_coeffs(enc, 0)[k] == v[k] by {
        assert forall|j: int| 0 <= j < 4 implies #[trigger] enc[(0 + 4 * k) + j] == be_byte(twos32(v[k]), 4, j) by {
            assert((4 * k + j) / 4 == k && (4 * k + j) % 4 == j);
        }
        let x = twos32(v[k]);
        assert(x >> 32u128 == 0) by (bit_vector)
            requires
                x < 0x1_0000_0000,
        ;
        lemma_be_round_trip(enc, 0 + 4 * k, x, 4);
    }
    assert(word_coeffs(enc, 0) =~= v);
    assert(Poly256::decoding(enc) =~= p.model());
}

/// The word encoding of an element has 1,024 bytes, and decoding it gives the
/// element back.
pub proof fn lemma_poly256_round_trip(p: Poly256, decoded: Poly256)
    requires
        p.encodable(),
        decoded.model() == Poly256::decoding(p.encoding()),
    ensures
        p.encoding().len() == Poly256::byte_len(),
        Poly256::decoding(p.encoding()) == p.model(),
        decoded == p,
{
    lemma_poly256_decodes(p);
    assert(decoded.model()[0] == p.model()[0]);
    lemma_poly_eq(decoded, p);
}

} // verus!

verus! {

/// The big-endian bytes of a value read from `n` bytes are those bytes.
pub(crate) proof fn lemma_be_bytes_of_value(b: Seq<u8>, s: int, n: int)
    requires
        0 <= n <= 15,
    ensures
        forall|j: int| 0 <= j < n ==> #[trigger] be_byte(be_value(b, s, n), n, j) == b[s + j],
    decreases n,
{
    if n > 0 {
        lemma_be_bytes_of_value(b, s, n - 1);
        lemma_be_value_bound(b, s, n - 1);
        let x = be_value(b, s, n - 1);
        let y = b[s + n - 1];
        let v = be_value(b, s, n);
        assert(v == (x << 8) | (y as u128));
        assert forall|j: int| 0 <= j < n implies #[trigger] be_byte(v, n, j) == b[s + j] by {
            if j == n - 1 {
                assert(((((x << 8u128) | (y as u128)) >> 0u128) & 0xff) as u8 == y) by (bit_vector);
                assert(((8 * (n - 1 - j)) as u128) == 0u128);
            } else {
                let t = (8 * (n - 2 - j)) as u128;
                let tb = (8 * (n - 1)) as u128;
                assert(((x << 8u128) | (y as u128)) >> ((t + 8) as u128) == x >> t) by (bit_vector)
                    requires
                        x >> tb == 0,
                        tb <= 112,
                        t + 8 <= tb,
                ;
                assert(((t + 8) as u128) == ((8 * (n - 1 - j)) as u128));
                assert(be_byte(x, n - 1, j) == b[s + j]);
            }
        }
    }
}

/// Repacking the four digits of a block gives the block back.
pub(crate) proof fn lemma_repack(v: u128, w: u128, n: u128)
    requires
        1 <= w <= 27,
        1 <= n <= 15,
        8 * n <= 4 * w + 4,
        v >> ((8 * n) as u128) == 0,
    ensures
        pack4(unpack4(v, 0, w), unpack4(v, 1, w), unpack4(v, 2, w), unpack4(v, 3, w), w) == v,
{
    let m = ((1u128 << w) - 1) as u128;
    assert(((3 - 1) * w) as u128 == (2 * w) as u128);
    assert(((3 - 2) * w) as u128 == w);
    assert(((3 - 3) * w) as u128 == 0u128);
    assert(((v >> ((3 * w) as u128)) << ((3 * w) as u128)) | (((v >> ((2 * w) as u128)) & m) << ((2 * w) as u128))
        | (((v >> w) & m) << w) | ((v >> 0u128) & m) == v) by (bit_vector)
        requires
            1 <= w <= 27,
            1 <= n <= 15,
            8 * n <= 4 * w + 4,
            v >> ((8 * n) as u128) == 0,
            m == ((1u128 << w) - 1) as u128,
    ;
}

/// Re-encoding the 256 coefficients that 64 blocks of `n` bytes hold gives
/// those bytes back.
proof fn lemma_blocks_reencode(b: Seq<u8>, s: int, w: u128, n: int, off: int)
    requires
        layout_ok(w, n),
        0 <= off <= BETA,
        0 <= s,
        s + 64 * n <= b.len(),
    ensures
        forall|kk: int| 0 <= kk < 64 * n ==> #[trigger] encode_blocks(decode_blocks(b, s, w, n, off), w, n, off)[kk] == b[s + kk],
{
    let c = decode_blocks(b, s, w, n, off);
    assert forall|kk: int| 0 <= kk < 64 * n implies #[trigger] encode_blocks(c, w, n, off)[kk] == b[s + kk] by {
        let i = kk / n;
        let j = kk % n;
        vstd::arithmetic::div_mod::lemma_fundamental_div_mod(kk, n);
        vstd::arithmetic::div_mod::lemma_mod_pos_bound(kk, n);
        assert(0 <= i < 64) by (nonlinear_arith)
            requires
                kk == n * i + j,
                0 <= j < n,
                0 <= kk < 64 * n,
                1 <= n,
        ;
        assert(i * n + n <= 64 * n) by (nonlinear_arith)
            requires
                0 <= i < 64,
                1 <= n,
        ;
        let v = be_value(b, s + i * n, n);
        lemma_be_value_bound(b, s + i * n, n);
        lemma_digit_bounds(v, w, n as u128);
        lemma_repack(v, w, n as u128);
        assert forall|q: int| 0 <= q < 4 implies #[trigger] digit(c[4 * i + q], off) == unpack4(v, q, w) by {
            assert((4 * i + q) / 4 == i && (4 * i + q) % 4 == q);
            if q == 1 {
                assert(((3 - 1) * w) as u128 == (2 * w) as u128);
            } else if q == 2 {
                assert(((3 - 2) * w) as u128 == w);
            } else if q == 3 {
                assert(((3 - 3) * w) as u128 == 0u128);
                assert(v >> 0u128 == v) by (bit_vector);
            }
        }
        assert(block_value(c, i, w, off) == v) by {
            assert(digit(c[4 * i], off) == unpack4(v, 0, w));
            assert(digit(c[4 * i + 1], off) == unpack4(v, 1, w));
            assert(digit(c[4 * i + 2], off) == unpack4(v, 2, w));
            assert(digit(c[4 * i + 3], off) == unpack4(v, 3, w));
        }
        lemma_be_bytes_of_value(b, s + i * n, n);
        assert(be_byte(v, n, j) == b[s + i * n + j]);
        assert(i * n == n * i) by (nonlinear_arith);
        assert(s + i * n + j == s + kk);
    }
}

/// Re-encoding the 256 words that 1024 bytes hold gives those bytes back.
proof fn lemma_words_reencode(b: Seq<u8>, s: int)
    requires
        0 <= s,
        s + 1024 <= b.len(),
    ensures
        forall|kk: int| 0 <= kk < 1024 ==> #[trigger] word_bytes(word_coeffs(b, s))[kk] == b[s + kk],
{
    let c = word_coeffs(b, s);
    assert forall|kk: int| 0 <= kk < 1024 implies #[trigger] word_bytes(c)[kk] == b[s + kk] by {
        let k = kk / 4;
        let j = kk % 4;
        let v = be_value(b, s + 4 * k, 4);
        lemma_be_value_bound(b, s + 4 * k, 4);
        assert(v < 0x1_0000_0000) by (bit_vector)
            requires
                v >> 32u128 == 0,
        ;
        assert(twos32(c[k]) == v);
        lemma_be_bytes_of_value(b, s + 4 * k, 4);
        assert(be_byte(v, 4, j) == b[s + 4 * k + j]);
    }
}

/// Re-encoding a decoded public key reproduces the bytes it was decoded from.
pub proof fn lemma_public_key_reencode(b: Seq<u8>, pk: PublicKey)
    requires
        b.len() >= PublicKey::byte_len(),
        pk.model() == PublicKey::decoding(b),
    ensures
        pk.encoding() == b.take(PublicKey::byte_len() as int),
{
    let blocks = Seq::new(4, |i: int| mod_q_bytes(pk.t[i].coeff@));
    lemma_concat_len(blocks, 896);
    assert forall|k: int| 0 <= k < 3584 implies #[trigger] pk.encoding()[k] == b[k] by {
        let i = k / 896;
        let kk = k % 896;
        lemma_concat_index(blocks, 896, i, kk);
        assert(pk.model()[i] == PublicKey::decoding(b)[i]);
        lemma_blocks_reencode(b, 896 * i, 27, 14, 0);
        assert(encode_blocks(decode_blocks(b, 896 * i, 27, 14, 0), 27, 14, 0)[kk] == b[896 * i + kk]);
    }
    assert(pk.encoding() =~= b.take(3584));
}

/// Re-encoding a decoded secret key reproduces the bytes it was decoded from.
pub proof fn lemma_secret_key_reencode(b: Seq<u8>, sk: SecretKey)
    requires
        b.len() >= SecretKey::byte_len(),
        sk.model() == SecretKey::decoding(b),
    ensures
        sk.encoding() == b.take(SecretKey::byte_len() as int),
{
    let blocks = Seq::new(9, |i: int| trinary_bytes(sk.s[i].coeff@));
    lemma_concat_len(blocks, 64);
    assert forall|k: int| 0 <= k < 576 implies #[trigger] sk.encoding()[k] == b[k] by {
        let i = k / 64;
        let kk = k % 64;
        lemma_concat_index(blocks, 64, i, kk);
        assert(sk.model()[i] == SecretKey::decoding(b)[i]);
        lemma_blocks_reencode(b, 64 * i, 2, 1, 1);
        assert(encode_blocks(decode_blocks(b, 64 * i, 2, 1, 1), 2, 1, 1)[kk] == b[64 * i + kk]);
    }
    assert(sk.encoding() =~= b.take(576));
}

/// Re-encoding decoded parameters reproduces the bytes they were decoded from.
pub proof fn lemma_param_reencode(b: Seq<u8>, pp: Param)
    requires
        b.len() >= Param::byte_len(),
        pp.model() == Param::decoding(b),
    ensures
        pp.encoding() == b.take(Param::byte_len() as int),
{
    let blocks = Seq::new(36, |i: int| mod_q_bytes(pp.matrix[i / 9][i % 9].coeff@));
    lemma_concat_len(blocks, 896);
    assert forall|k: int| 0 <= k < 32256 implies #[trigger] pp.encoding()[k] == b[k] by {
        let i = k / 896;
        let kk = k % 896;
        lemma_concat_index(blocks, 896, i, kk);
        assert(pp.model()[i] == Param::decoding(b)[i]);
        lemma_blocks_reencode(b, 896 * i, 27, 14, 0);
        assert(encode_blocks(decode_blocks(b, 896 * i, 27, 14, 0), 27, 14, 0)[kk] == b[896 * i + kk]);
    }
    assert(pp.encoding() =~= b.take(32256));
}

/// Re-encoding a decoded proof reproduces the bytes it was decoded from.
pub proof fn lemma_proof_reencode(b: Seq<u8>, pf: Proof)
    requires
        b.len() >= Proof::byte_len(),
        pf.model() == Proof::decoding(b),
    ensures
        pf.encoding() == b.take(Proof::byte_len() as int),
{
    let blocks = Seq::new(9, |i: int| mod_beta_bytes(pf.z[i].coeff@));
    let zs = concat(blocks);
    lemma_concat_len(blocks, 576);
    let enc = pf.encoding();
    assert forall|k: int| 0 <= k < 6272 implies #[trigger] enc[k] == b[k] by {
        if k < 5184 {
            let i = k / 576;
            let kk = k % 576;
            lemma_concat_index(blocks, 576, i, kk);
            assert(enc[k] == zs[k]);
            assert(pf.model()[i] == Proof::decoding(b)[i]);
            lemma_blocks_reencode(b, 576 * i, 18, 9, BETA as int);
            assert(encode_blocks(decode_blocks(b, 576 * i, 18, 9, BETA as int), 18, 9, BETA as int)[kk] == b[576 * i + kk]);
        } else if k < 5248 {
            assert(pf.model()[9] == Proof::decoding(b)[9]);
            lemma_blocks_reencode(b, 5184, 2, 1, 1);
            assert(enc[k] == trinary_bytes(pf.c.coeff@)[k - 5184]);
            assert(encode_blocks(decode_blocks(b, 5184, 2, 1, 1), 2, 1, 1)[k - 5184] == b[5184 + (k - 5184)]);
        } else {
            assert(pf.model()[10] == Proof::decoding(b)[10]);
            lemma_words_reencode(b, 5248);
            assert(enc[k] == word_bytes(pf.v.coeff@)[k - 5248]);
            assert(word_bytes(word_coeffs(b, 5248))[k - 5248] == b[5248 + (k - 5248)]);
        }
    }
    assert(enc =~= b.take(6272));
}

/// Re-encoding a decoded element reproduces the 1,024 bytes it was decoded from.
pub proof fn lemma_poly256_reencode(b: Seq<u8>, p: Poly256)
    requires
        b.len() >= Poly256::byte_len(),
        p.model() == Poly256::decoding(b),
    ensures
        p.encoding() == b.take(Poly256::byte_len() as int),
{
    assert(p.model()[0] == Poly256::decoding(b)[0]);
    lemma_words_reencode(b, 0);
    assert forall|k: int| 0 <= k < 1024 implies #[trigger] p.encoding()[k] == b[k] by {
        assert(word_bytes(word_coeffs(b, 0))[k] == b[0 + k]);
    }
    assert(p.encoding() =~= b.take(1024));
}

} // verus!
