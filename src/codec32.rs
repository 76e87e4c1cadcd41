use vstd::prelude::*;

use crate::codec::{
    be_byte, be_bytes, be_value, block_value, digit, lemma_be_bytes_of_value, lemma_be_round_trip,
    lemma_be_value_bound, lemma_block_index, lemma_digit_bounds, lemma_pack4, lemma_repack, pack4, push_be,
    read_be, unpack4, CodecError, Serdes,
};
use crate::param::P;
use crate::poly32::Poly32;

verus! {

/// 32 coefficients in [0, P) as 22-bit digits, four to an 11-byte block: 88 bytes.
pub open spec fn mod_p_bytes(c: Seq<i64>) -> Seq<u8> {
    Seq::new(88, |k: int| be_byte(block_value(c, k / 11, 22, 0), 11, k % 11))
}

/// The 32 coefficients that the 88 bytes from `s` on hold as 22-bit digits.
pub open spec fn mod_p_coeffs(b: Seq<u8>, s: int) -> Seq<i64> {
    Seq::new(32, |k: int| unpack4(be_value(b, s + (k / 4) * 11, 11), k % 4, 22) as i64)
}

/// Every coefficient lies in [0, P).
pub open spec fn reduced_p(c: Seq<i64>) -> bool {
    c.len() == 32 && forall|k: int| 0 <= k < 32 ==> 0 <= #[trigger] c[k] < P
}

/// Appends an element of Z_P[x]/(x^32 + R) with coefficients in [0, P): 88 bytes.
pub fn pack_mod_p_poly(p: &Poly32, out: &mut Vec<u8>)
    requires
        p.is_normalized(),
    ensures
        final(out)@ == old(out)@ + mod_p_bytes(p.coeff@),
{
    let ghost c = p.coeff@;
    let ghost enc = mod_p_bytes(c);
    assert(old(out)@ + enc.take(0) =~= old(out)@);
    for i in 0usize..8
        invariant
            c == p.coeff@,
            p.is_normalized(),
            enc == mod_p_bytes(c),
            out@ == old(out)@ + enc.take(11 * i),
    {
        let d0 = p.coeff[4 * i] as u128;
        let d1 = p.coeff[4 * i + 1] as u128;
        let d2 = p.coeff[4 * i + 2] as u128;
        let d3 = p.coeff[4 * i + 3] as u128;
        let v = (d0 << 66u128) | (d1 << 44u128) | (d2 << 22u128) | d3;
        assert(v == block_value(c, i as int, 22, 0));
        push_be(out, v, 11);
        proof {
            assert(enc.take(11 * (i + 1)) =~= enc.take(11 * i) + be_bytes(v, 11)) by {
                assert forall|k: int| 11 * i <= k < 11 * i + 11 implies #[trigger] enc[k] == be_bytes(v, 11)[k - 11 * i] by {
                    lemma_block_index(k, i as int, 11);
                }
            }
        }
    }
    assert(enc.take(88) =~= enc);
}

/// Reads an element with coefficients in [0, P) from the 88 bytes at `s`.
/// Fewer than 88 bytes from `s` on give `Truncated`.
pub fn unpack_mod_p_poly(b: &[u8], s: usize) -> (r: Result<Poly32, CodecError>)
    ensures
        b@.len() < s + 88 ==> r == Err::<Poly32, CodecError>(CodecError::Truncated),
        b@.len() >= s + 88 ==> (r is Ok <==> reduced_p(mod_p_coeffs(b@, s as int))),
        b@.len() >= s + 88 && r is Err ==> r == Err::<Poly32, CodecError>(CodecError::OutOfRange),
        r matches Ok(p) ==> p.coeff@ == mod_p_coeffs(b@, s as int),
{
    let _len = b.len();
    if s > b.len() || b.len() - s < 88 {
        return Err(CodecError::Truncated);
    }
    let mut coeff = [0i64; 32];
    for i in 0usize..8
        invariant
            s + 88 <= b@.len(),
            b@.len() <= usize::MAX,
            forall|k: int| 0 <= k < 4 * i ==> coeff@[k] == mod_p_coeffs(b@, s as int)[k],
    {
        let v = read_be(b, s + 11 * i, 11);
        proof {
            lemma_be_value_bound(b@, (s + 11 * i) as int, 11);
            lemma_digit_bounds(v, 22, 11);
        }
        let mask: u128 = 0x3f_ffff;
        assert(((1u128 << 22u128) - 1) as u128 == 0x3f_ffff) by (bit_vector);
        coeff[4 * i] = (v >> 66u128) as i64;
        coeff[4 * i + 1] = ((v >> 44u128) & mask) as i64;
        coeff[4 * i + 2] = ((v >> 22u128) & mask) as i64;
        coeff[4 * i + 3] = (v & mask) as i64;
        proof {
            let ghost dec = mod_p_coeffs(b@, s as int);
            assert(v >> 0u128 == v) by (bit_vector);
            assert(v == be_value(b@, s + ((4 * i) / 4) * 11, 11));
            assert(((4 * i + 1) / 4) == i && (4 * i + 1) % 4 == 1);
            assert(((4 * i + 2) / 4) == i && (4 * i + 2) % 4 == 2);
            assert(((4 * i + 3) / 4) == i && (4 * i + 3) % 4 == 3);
            assert(coeff@[4 * i] == dec[4 * i]);
            assert(coeff@[4 * i + 1] == dec[4 * i + 1]);
            assert(coeff@[4 * i + 2] == dec[4 * i + 2]);
            assert(coeff@[4 * i + 3] == dec[4 * i + 3]);
        }
    }
    let p = Poly32 { coeff };
    assert(p.coeff@ =~= mod_p_coeffs(b@, s as int));
    let mut i: usize = 0;
    while i < 32
        invariant
            0 <= i <= 32,
            p.coeff@ == mod_p_coeffs(b@, s as int),
            b@.len() >= s + 88,
            forall|k: int| 0 <= k < i ==> 0 <= #[trigger] p.coeff@[k] < P,
        decreases 32 - i,
    {
        if p.coeff[i] < 0 || p.coeff[i] >= P {
            return Err(CodecError::OutOfRange);
        }
        i += 1;
    }
    Ok(p)
}

impl Serdes for Poly32 {
    open spec fn byte_len() -> nat {
        88
    }

    open spec fn model(&self) -> Seq<Seq<i64>> {
        seq![self.coeff@]
    }

    open spec fn encodable(&self) -> bool {
        self.is_normalized()
    }

    open spec fn encoding(&self) -> Seq<u8> {
        mod_p_bytes(self.coeff@)
    }

    open spec fn decodable(b: Seq<u8>) -> bool {
        reduced_p(mod_p_coeffs(b, 0))
    }

    open spec fn decoding(b: Seq<u8>) -> Seq<Seq<i64>> {
        seq![mod_p_coeffs(b, 0)]
    }

    fn serialize(&self, out: &mut Vec<u8>) {
        pack_mod_p_poly(self, out);
    }

    fn deserialize(b: &[u8]) -> (r: Result<Self, CodecError>) {
        if b.len() < 88 {
            return Err(CodecError::Truncated);
        }
        let r = unpack_mod_p_poly(b, 0);
        if let Ok(p) = r {
            assert(p.model() =~= Self::decoding(b@));
            assert(p.is_normalized());
        }
        r
    }
}

/// The encoding of an element of Z_P[x]/(x^32 + R) has 88 bytes and decodes to its coefficients.
pub proof fn lemma_poly32_decodes(p: Poly32)
    requires
        p.encodable(),
    ensures
        p.encoding().len() == Poly32::byte_len(),
        Poly32::decodable(p.encoding()),
        Poly32::decoding(p.encoding()) == p.model(),
{
    let c = p.coeff@;
    let enc = p.encoding();
    assert(1u128 << 22u128 == 0x40_0000) by (bit_vector);
    assert forall|k: int| 0 <= k < 32 implies #[trigger] mod_p_coeffs(enc, 0)[k] == c[k] by {
        let i = k / 4;
        let v = block_value(c, i, 22, 0);
        lemma_pack4(digit(c[4 * i], 0), digit(c[4 * i + 1], 0), digit(c[4 * i + 2], 0), digit(c[4 * i + 3], 0), 22, 11);
        assert forall|jj: int| 0 <= jj < 11 implies #[trigger] enc[(0 + i * 11) + jj] == be_byte(v, 11, jj) by {
            lemma_block_index(i * 11 + jj, i, 11);
        }
        lemma_be_round_trip(enc, 0 + i * 11, v, 11);
    }
    assert(mod_p_coeffs(enc, 0) =~= c);
    assert(Poly32::decoding(enc) =~= p.model());
}

/// The encoding of an element of Z_P[x]/(x^32 + R) has 88 bytes, and decoding
/// it gives the element back.
pub proof fn lemma_poly32_round_trip(p: Poly32, decoded: Poly32)
    requires
        p.encodable(),
        decoded.model() == Poly32::decoding(p.encoding()),
    ensures
        p.encoding().len() == Poly32::byte_len(),
        Poly32::decodable(p.encoding()),
        Poly32::decoding(p.encoding()) == p.model(),
        decoded == p,
{
    lemma_poly32_decodes(p);
    assert(decoded.model()[0] == p.model()[0]);
    assert(decoded.coeff =~= p.coeff);
}

/// Re-encoding a decoded element of Z_P[x]/(x^32 + R) reproduces the 88 bytes
/// it was decoded from.
pub proof fn lemma_poly32_reencode(b: Seq<u8>, p: Poly32)
    requires
        b.len() >= Poly32::byte_len(),
        p.model() == Poly32::decoding(b),
    ensures
        p.encoding() == b.take(Poly32::byte_len() as int),
{
    assert(p.model()[0] == Poly32::decoding(b)[0]);
    let c = p.coeff@;
    assert forall|kk: int| 0 <= kk < 88 implies #[trigger] p.encoding()[kk] == b[kk] by {
        let i = kk / 11;
        let j = kk % 11;
        let v = be_value(b, 0 + i * 11, 11);
        lemma_be_value_bound(b, 0 + i * 11, 11);
        lemma_digit_bounds(v, 22, 11);
        lemma_repack(v, 22, 11);
        assert forall|q: int| 0 <= q < 4 implies #[trigger] digit(c[4 * i + q], 0) == unpack4(v, q, 22) by {
            assert((4 * i + q) / 4 == i && (4 * i + q) % 4 == q);
            if q == 3 {
                assert(v >> 0u128 == v) by (bit_vector);
            }
        }
        assert(block_value(c, i, 22, 0) == v) by {
            assert(digit(c[4 * i], 0) == unpack4(v, 0, 22));
            assert(digit(c[4 * i + 1], 0) == unpack4(v, 1, 22));
            assert(digit(c[4 * i + 2], 0) == unpack4(v, 2, 22));
            assert(digit(c[4 * i + 3], 0) == unpack4(v, 3, 22));
        }
        lemma_be_bytes_of_value(b, 0 + i * 11, 11);
        assert(be_byte(v, 11, j) == b[0 + i * 11 + j]);
    }
    assert(p.encoding() =~= b.take(88));
}

} // verus!
