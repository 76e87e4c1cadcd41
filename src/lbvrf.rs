use vstd::prelude::*;
use vstd::string::StringSliceAdditionalSpecFns;

use crate::challenge::{challenge_label, challenge_spec, hash_to_challenge, sparse_ternary};
use crate::codec::{pack_words, word_bytes, Serdes};
use crate::VRF;
use crate::hash::{append_bytes, sha512, sha512_of};
use crate::keypair::{PublicKey, SecretKey};
use crate::param::{Param, BETA, BETA_M_KAPPA, Q};
use crate::poly256::{
    add_spec, centered_spec, coeffs, inner_product_spec, mul_spec, poly256_inner_product, sub_spec,
    Poly256,
};
use crate::rng::{draw_many, KeyStream};

verus! {

/// The VRF output: an element with coefficients in [0, Q).
pub type VRFOutput = Poly256;

/// A proof: the responses `z`, the challenge `c` and the output `v`.
#[derive(PartialEq, Clone, Copy, Debug)]
pub struct Proof {
    pub z: [Poly256; 9],
    pub c: Poly256,
    pub v: VRFOutput,
}

/// The proofs that `verify` takes: a challenge whose coefficients fit its
/// 2-bit digits and an output with coefficients in [0, Q). The responses may
/// hold anything: out of the norm bound they are rejected.
pub open spec fn verifiable(pf: Proof) -> bool {
    crate::codec::trinary_storable(pf.c.coeff@) && pf.v.is_normalized()
}

/// Why a generation, proof or verification could not be completed.
#[derive(Clone, Copy, Debug, PartialEq, Eq, Structural)]
pub enum VrfError {
    /// A keystream ran past its last 64-bit position.
    KeystreamExhausted,
    /// A digest ran out of bytes while a challenge was derived from it.
    ChallengeExhausted,
    /// An input holds a coefficient outside the range that it must lie in.
    OutOfRange,
}

/// The scheme: parameters, keys, proofs and their verification.
pub struct LBVRF;

/// The label appended to the transcript digest before it is hashed into a basis.
pub open spec fn basis_label() -> Seq<u8> {
    "domain seperator: hash to basis".spec_bytes()
}

/// The digest that binds the parameters, the public key and the message.
pub open spec fn transcript_digest(pp: Param, pk: PublicKey, m: Seq<u8>) -> Seq<u8> {
    sha512_of(pp.encoding() + pk.encoding() + m)
}

/// The nine elements uniform modulo Q that the keystream keyed by the first
/// 32 bytes of the digest of `d` and the basis label gives.
pub open spec fn basis_spec(d: Seq<u8>) -> Option<Seq<Seq<i64>>> {
    match draw_many(sha512_of(d + basis_label()).take(32), 0, 9, 0) {
        None => None,
        Some((ps, p)) => Some(ps),
    }
}

/// The rows of the parameter matrix, as coefficient sequences.
pub open spec fn matrix_rows(pp: Param) -> Seq<Seq<Seq<i64>>> {
    Seq::new(4, |i: int| coeffs(pp.matrix[i]@))
}

/// The challenge of a round: the digest of `d0` and the word encodings of
/// `w1[0..4]`, `w2` and `v`, hashed into a sparse challenge.
pub open spec fn round_challenge(d0: Seq<u8>, w1: Seq<Seq<i64>>, w2: Seq<i64>, v: Seq<i64>) -> Option<Seq<i64>> {
    let d1 = sha512_of(
        d0 + word_bytes(w1[0]) + word_bytes(w1[1]) + word_bytes(w1[2]) + word_bytes(w1[3]) + word_bytes(w2)
            + word_bytes(v),
    );
    challenge_spec(sha512_of(d1 + challenge_label()))
}

/// The commitments `w1[i] = <A[i], y>` of a round.
pub open spec fn mask_commitments(a: Seq<Seq<Seq<i64>>>, ys: Seq<Seq<i64>>) -> Seq<Seq<i64>> {
    Seq::new(4, |i: int| inner_product_spec(a[i], ys, 9))
}

/// The commitments recomputed from responses: `w1[i] = <A[i], z> - c t[i]`.
pub open spec fn response_commitments(a: Seq<Seq<Seq<i64>>>, z: Seq<Seq<i64>>, c: Seq<i64>, t: Seq<Seq<i64>>) -> Seq<Seq<i64>> {
    Seq::new(4, |i: int| sub_spec(inner_product_spec(a[i], z, 9), mul_spec(c, t[i])))
}

/// The responses `z[i] = y[i] + c s[i]`, centered.
pub open spec fn responses(ys: Seq<Seq<i64>>, c: Seq<i64>, s: Seq<Seq<i64>>) -> Seq<Seq<i64>> {
    Seq::new(9, |i: int| centered_spec(add_spec(ys[i], mul_spec(c, s[i]))))
}

/// Every coefficient of the nine responses has magnitude at most BETA_M_KAPPA.
pub open spec fn norm_ok(z: Seq<Seq<i64>>) -> bool {
    forall|i: int, k: int| 0 <= i < 9 && 0 <= k < 256 ==> -BETA_M_KAPPA <= #[trigger] z[i][k] <= BETA_M_KAPPA
}

/// The rounds of `prove` from keystream position `pos` on: draw `y`, derive
/// the challenge, and accept the first responses within the norm bound. The
/// result is the proof's model: `z[0..9]`, `c`, `v`.
pub open spec fn prove_rounds(
    a: Seq<Seq<Seq<i64>>>,
    s: Seq<Seq<i64>>,
    d0: Seq<u8>,
    b: Seq<Seq<i64>>,
    v: Seq<i64>,
    seed: Seq<u8>,
    pos: int,
) -> Result<Seq<Seq<i64>>, VrfError>
    decreases u64::MAX - pos,
{
    if pos < 0 || pos > u64::MAX {
        Err(VrfError::KeystreamExhausted)
    } else {
        match draw_many(seed, pos, 9, 1) {
            None => Err(VrfError::KeystreamExhausted),
            Some((ys, p2)) => {
                let w2 = inner_product_spec(b, ys, 9);
                match round_challenge(d0, mask_commitments(a, ys), w2, v) {
                    None => Err(VrfError::ChallengeExhausted),
                    Some(c) => {
                        let z = responses(ys, c, s);
                        if norm_ok(z) {
                            Ok(z + seq![c, v])
                        } else if pos < p2 <= u64::MAX {
                            prove_rounds(a, s, d0, b, v, seed, p2)
                        } else {
                            Err(VrfError::KeystreamExhausted)
                        }
                    },
                }
            },
        }
    }
}

/// What `prove` gives: the model of the proof, or the error.
pub open spec fn prove_spec(m: Seq<u8>, pp: Param, pk: PublicKey, s: Seq<Seq<i64>>, seed: Seq<u8>) -> Result<
    Seq<Seq<i64>>,
    VrfError,
> {
    let d0 = transcript_digest(pp, pk, m);
    match basis_spec(d0) {
        None => Err(VrfError::KeystreamExhausted),
        Some(b) => prove_rounds(matrix_rows(pp), s, d0, b, inner_product_spec(b, s, 9), seed, 0),
    }
}

/// What `verify` gives for a proof with model `pf`: the output `v` when the
/// responses are within the norm bound and the recomputed challenge equals `c`.
pub open spec fn verify_spec(m: Seq<u8>, pp: Param, pk: PublicKey, pf: Seq<Seq<i64>>) -> Result<
    Option<Seq<i64>>,
    VrfError,
> {
    let z = pf.take(9);
    let c = pf[9];
    let v = pf[10];
    if !norm_ok(z) {
        Ok(None)
    } else {
        let d0 = transcript_digest(pp, pk, m);
        match basis_spec(d0) {
            None => Err(VrfError::KeystreamExhausted),
            Some(b) => {
                let w1 = response_commitments(matrix_rows(pp), z, c, coeffs(pk.t@));
                let w2 = sub_spec(inner_product_spec(b, z, 9), mul_spec(c, v));
                match round_challenge(d0, w1, w2, v) {
                    None => Err(VrfError::ChallengeExhausted),
                    Some(c2) => if c2 == c {
                        Ok(Some(v))
                    } else {
                        Ok(None)
                    },
                }
            },
        }
    }
}

/// Draws nine elements of one kind (0: uniform modulo Q, 1: uniform in
/// [-BETA, BETA], 2: uniform in {-1, 0, 1}).
fn draw_nine(ks: &mut KeyStream, kind: u8) -> (r: Option<[Poly256; 9]>)
    requires
        kind <= 2,
    ensures
        final(ks).seed == old(ks).seed,
        match draw_many(old(ks).seed@, old(ks).pos as int, 9, kind as int) {
            None => r is None,
            Some((ps, p)) => r matches Some(a) && coeffs(a@) == ps && final(ks).pos == p,
        },
        r matches Some(a) ==> forall|i: int| 0 <= i < 9 ==> drawn_range(#[trigger] a@[i], kind as int),
{
    let ghost seed = ks.seed@;
    let ghost start = ks.pos as int;
    let mut a = [Poly256::zero(); 9];
    for i in 0usize..9
        invariant
            kind <= 2,
            ks.seed == old(ks).seed,
            seed == ks.seed@,
            start == old(ks).pos,
            draw_many(seed, start, i as nat, kind as int) == Some((coeffs(a@).take(i as int), ks.pos as int)),
            forall|j: int| 0 <= j < i ==> drawn_range(#[trigger] a@[j], kind as int),
    {
        let x = if kind == 0 {
            Poly256::uniform_random(ks)
        } else if kind == 1 {
            Poly256::rand_mod_beta(ks)
        } else {
            Poly256::rand_trinary(ks)
        };
        match x {
            None => {
                proof {
                    lemma_draw_many_none(seed, start, (i + 1) as nat, 9, kind as int);
                }
                return None;
            },
            Some(x) => {
                a[i] = x;
            },
        }
        assert(coeffs(a@).take(i + 1) =~= coeffs(a@).take(i as int).push(a@[i as int].coeff@));
    }
    assert(coeffs(a@).take(9) =~= coeffs(a@));
    Some(a)
}

/// The range that elements of each kind are drawn in.
pub open spec fn drawn_range(p: Poly256, kind: int) -> bool {
    if kind == 0 {
        p.is_normalized()
    } else if kind == 1 {
        forall|k: int| 0 <= k < 256 ==> -BETA <= #[trigger] p.coeff@[k] <= BETA
    } else {
        forall|k: int| 0 <= k < 256 ==> -1 <= #[trigger] p.coeff@[k] <= 1
    }
}

proof fn lemma_draw_many_none(seed: Seq<u8>, pos: int, m: nat, n: nat, kind: int)
    requires
        m <= n,
        draw_many(seed, pos, m, kind) is None,
    ensures
        draw_many(seed, pos, n, kind) is None,
    decreases n - m,
{
    if m < n {
        lemma_draw_many_none(seed, pos, (m + 1) as nat, n, kind);
    }
}

/// The nine elements uniform modulo Q derived from `input`: its digest with
/// the basis label keys a keystream, which is drawn from by rejection.
pub fn hash_to_new_basis(input: &[u8]) -> (r: Result<[Poly256; 9], VrfError>)
    ensures
        match basis_spec(input@) {
            None => r == Err::<[Poly256; 9], VrfError>(VrfError::KeystreamExhausted),
            Some(b) => r matches Ok(a) && coeffs(a@) == b,
        },
        r matches Ok(a) ==> forall|i: int| 0 <= i < 9 ==> (#[trigger] a@[i]).is_normalized(),
{
    let mut buf: Vec<u8> = Vec::new();
    append_bytes(&mut buf, input);
    append_bytes(&mut buf, "domain seperator: hash to basis".as_bytes());
    let h = sha512(buf.as_slice());
    let mut seed = [0u8; 32];
    for i in 0usize..32
        invariant
            forall|k: int| 0 <= k < i ==> seed@[k] == h@[k],
    {
        seed[i] = h[i];
    }
    assert(seed@ =~= h@.take(32));
    let mut ks = KeyStream::new(seed);
    match draw_nine(&mut ks, 0) {
        None => Err(VrfError::KeystreamExhausted),
        Some(a) => Ok(a),
    }
}

/// Whether every coefficient of the nine responses has magnitude at most BETA_M_KAPPA.
pub fn check_norm(z: &[Poly256; 9]) -> (r: bool)
    ensures
        r == norm_ok(coeffs(z@)),
{
    for i in 0usize..9
        invariant
            forall|j: int, k: int| 0 <= j < i && 0 <= k < 256 ==> -BETA_M_KAPPA <= #[trigger] z@[j].coeff@[k] <= BETA_M_KAPPA,
    {
        for k in 0usize..256
            invariant
                i < 9,
                forall|j: int, k: int| 0 <= j < i && 0 <= k < 256 ==> -BETA_M_KAPPA <= #[trigger] z@[j].coeff@[k] <= BETA_M_KAPPA,
                forall|kk: int| 0 <= kk < k ==> -BETA_M_KAPPA <= #[trigger] z@[i as int].coeff@[kk] <= BETA_M_KAPPA,
        {
            let f = z[i].coeff[k];
            if f > BETA_M_KAPPA || f < -BETA_M_KAPPA {
                assert(!norm_ok(coeffs(z@))) by {
                    assert(coeffs(z@)[i as int][k as int] == f);
                }
                return false;
            }
        }
    }
    assert(norm_ok(coeffs(z@))) by {
        assert forall|i: int, k: int| 0 <= i < 9 && 0 <= k < 256 implies -BETA_M_KAPPA <= #[trigger] coeffs(z@)[i][k]
            <= BETA_M_KAPPA by {
            assert(coeffs(z@)[i] == z@[i].coeff@);
        }
    }
    true
}

/// The rows of the matrix drawn one after another from `pos` on, nine
/// elements uniform modulo Q each.
pub open spec fn draw_rows(seed: Seq<u8>, pos: int, n: nat) -> Option<(Seq<Seq<Seq<i64>>>, int)>
    decreases n,
{
    if n == 0 {
        Some((Seq::empty(), pos))
    } else {
        match draw_rows(seed, pos, (n - 1) as nat) {
            None => None,
            Some((rs, p)) => match draw_many(seed, p, 9, 0) {
                None => None,
                Some((row, p2)) => Some((rs.push(row), p2)),
            },
        }
    }
}

proof fn lemma_draw_rows_none(seed: Seq<u8>, pos: int, m: nat, n: nat)
    requires
        m <= n,
        draw_rows(seed, pos, m) is None,
    ensures
        draw_rows(seed, pos, n) is None,
    decreases n - m,
{
    if m < n {
        lemma_draw_rows_none(seed, pos, (m + 1) as nat, n);
    }
}

proof fn lemma_draw_many_advance(seed: Seq<u8>, pos: int, n: nat)
    ensures
        draw_many(seed, pos, n, 1) matches Some((ps, p)) ==> pos + n <= p,
    decreases n,
{
    if n > 0 {
        lemma_draw_many_advance(seed, pos, (n - 1) as nat);
        if let Some((ps, p)) = draw_many(seed, pos, (n - 1) as nat, 1) {
            crate::rng::lemma_draw_coeffs_advance(seed, p, 256, true);
        }
    }
}

/// The digest of the encoded parameters, the encoded public key and the message.
fn transcript(pp: &Param, pk: &PublicKey, message: &[u8]) -> (r: [u8; 64])
    requires
        pp.encodable(),
        pk.encodable(),
    ensures
        r@ == transcript_digest(*pp, *pk, message@),
{
    let mut buf: Vec<u8> = Vec::new();
    pp.serialize(&mut buf);
    pk.serialize(&mut buf);
    append_bytes(&mut buf, message);
    assert(buf@ =~= pp.encoding() + pk.encoding() + message@);
    sha512(buf.as_slice())
}

/// The challenge of a round, from the transcript digest, `w1`, `w2` and the output `v`.
fn challenge_for(d0: &[u8; 64], w1: &[Poly256; 4], w2: &Poly256, v: &Poly256) -> (r: Option<Poly256>)
    requires
        forall|i: int| 0 <= i < 4 ==> (#[trigger] w1@[i]).is_normalized(),
        w2.is_normalized(),
        v.is_normalized(),
    ensures
        round_challenge(d0@, coeffs(w1@), w2.coeff@, v.coeff@) matches Some(c) ==> r matches Some(x)
            && x.coeff@ == c,
        round_challenge(d0@, coeffs(w1@), w2.coeff@, v.coeff@) is None ==> r is None,
        r matches Some(x) ==> sparse_ternary(x.coeff@),
{
    let mut buf: Vec<u8> = Vec::new();
    append_bytes(&mut buf, d0);
    pack_words(&w1[0], &mut buf);
    pack_words(&w1[1], &mut buf);
    pack_words(&w1[2], &mut buf);
    pack_words(&w1[3], &mut buf);
    pack_words(w2, &mut buf);
    pack_words(v, &mut buf);
    let ghost w = coeffs(w1@);
    assert(buf@ =~= d0@ + word_bytes(w[0]) + word_bytes(w[1]) + word_bytes(w[2]) + word_bytes(w[3])
        + word_bytes(w2.coeff@) + word_bytes(v.coeff@));
    let d1 = sha512(buf.as_slice());
    hash_to_challenge(&d1)
}

/// What `paramgen` returns for `seed`: the rows drawn from its keystream.
pub open spec fn paramgen_result(seed: Seq<u8>, r: Result<Param, VrfError>) -> bool {
    match draw_rows(seed, 0, 4) {
        None => r == Err::<Param, VrfError>(VrfError::KeystreamExhausted),
        Some((rows, p)) => r matches Ok(pp) && matrix_rows(pp) == rows,
    }
}

/// The public key of the secret elements `s`: `t[i] = <A[i], s>`.
pub open spec fn public_key_of(pp: Param, s: Seq<Seq<i64>>) -> Seq<Seq<i64>> {
    Seq::new(4, |i: int| inner_product_spec(matrix_rows(pp)[i], s, 9))
}

/// What `keygen` returns for `seed` and `pp`: the secret elements drawn from
/// the keystream of `seed`, and `t[i] = <A[i], s>`.
pub open spec fn keygen_result(seed: Seq<u8>, pp: Param, r: Result<(PublicKey, SecretKey), VrfError>) -> bool {
    match draw_many(seed, 0, 9, 2) {
        None => r == Err::<(PublicKey, SecretKey), VrfError>(VrfError::KeystreamExhausted),
        Some((s, p)) => r matches Ok((pk, sk)) && coeffs(sk.s@) == s && coeffs(pk.t@) == public_key_of(pp, s)
            && forall|i: int, k: int| 0 <= i < 9 && 0 <= k < 256 ==> -1 <= #[trigger] sk.s[i].coeff@[k] <= 1,
    }
}

/// What `prove` returns: the proof whose model `prove_spec` gives, or its error.
pub open spec fn prove_result(m: Seq<u8>, pp: Param, pk: PublicKey, sk: SecretKey, seed: Seq<u8>, r: Result<Proof, VrfError>) -> bool {
    match prove_spec(m, pp, pk, coeffs(sk.s@), seed) {
        Err(e) => r == Err::<Proof, VrfError>(e),
        Ok(mm) => r matches Ok(pf) && pf.model() == mm,
    }
}

impl LBVRF {
    /// The public parameters of `seed`: 36 elements uniform modulo Q drawn
    /// row by row from its keystream.
    pub fn paramgen(seed: [u8; 32]) -> (r: Result<Param, VrfError>)
        ensures
            paramgen_result(seed@, r),
            r matches Ok(pp) ==> pp.encodable(),
    {
        let mut ks = KeyStream::new(seed);
        let z = Poly256::zero();
        let mut matrix = [[z; 9]; 4];
        for i in 0usize..4
            invariant
                ks.seed == seed,
                draw_rows(seed@, 0, i as nat) == Some((Seq::new(i as nat, |j: int| coeffs(matrix[j]@)), ks.pos as int)),
                forall|j: int, k: int| 0 <= j < i && 0 <= k < 9 ==> (#[trigger] matrix[j][k]).is_normalized(),
        {
            match draw_nine(&mut ks, 0) {
                None => {
                    proof {
                        lemma_draw_rows_none(seed@, 0, (i + 1) as nat, 4);
                    }
                    return Err(VrfError::KeystreamExhausted);
                },
                Some(row) => {
                    let ghost before = matrix;
                    matrix[i] = row;
                    assert(Seq::new((i + 1) as nat, |j: int| coeffs(matrix[j]@)) =~= Seq::new(
                        i as nat,
                        |j: int| coeffs(before[j]@),
                    ).push(coeffs(row@)));
                },
            }
        }
        let pp = Param { matrix };
        assert(matrix_rows(pp) =~= Seq::new(4, |j: int| coeffs(matrix[j]@)));
        Ok(pp)
    }

    /// A key pair for the parameters `pp`: nine elements uniform in
    /// {-1, 0, 1} drawn from the keystream of `seed`, and `t[i] = <A[i], s>`.
    pub fn keygen(seed: [u8; 32], pp: Param) -> (r: Result<(PublicKey, SecretKey), VrfError>)
        requires
            pp.encodable(),
        ensures
            keygen_result(seed@, pp, r),
            r matches Ok((pk, sk)) ==> pk.encodable() && sk.encodable(),
    {
        let mut ks = KeyStream::new(seed);
        let s = match draw_nine(&mut ks, 2) {
            None => {
                return Err(VrfError::KeystreamExhausted);
            },
            Some(s) => s,
        };
        let z = Poly256::zero();
        let mut t = [z; 4];
        for i in 0usize..4
            invariant
                pp.encodable(),
                forall|j: int| 0 <= j < 9 ==> drawn_range(#[trigger] s@[j], 2),
                forall|j: int| 0 <= j < i ==> (#[trigger] t[j]).coeff@ == inner_product_spec(matrix_rows(pp)[j], coeffs(s@), 9),
                forall|j: int| 0 <= j < i ==> (#[trigger] t[j]).is_normalized(),
        {
            assert(forall|k: int| 0 <= k < 9 ==> (#[trigger] pp.matrix[i as int][k]).is_normalized());
            assert forall|k: int| 0 <= k < 9 implies (#[trigger] s@[k]).wf() by {
                assert(drawn_range(s@[k], 2));
            }
            t[i] = poly256_inner_product(&pp.matrix[i], &s);
        }
        let pk = PublicKey { t };
        let sk = SecretKey { s };
        assert(coeffs(pk.t@) =~= public_key_of(pp, coeffs(s@)));
        assert forall|i: int| 0 <= i < 9 implies crate::codec::trinary_storable(#[trigger] sk.s[i].coeff@) by {
            assert(drawn_range(s@[i], 2));
        }
        Ok((pk, sk))
    }
}

impl LBVRF {
    /// A proof for `message`: the basis `b` and the output `v = <b, s>` come
    /// from the transcript digest; rounds then draw `y` from the keystream of
    /// `seed` until the responses `z = y + c s` lie within the norm bound.
    pub fn prove(message: &[u8], pp: Param, pk: PublicKey, sk: SecretKey, seed: [u8; 32]) -> (r: Result<
        Proof,
        VrfError,
    >)
        requires
            pp.encodable(),
            pk.encodable(),
            forall|i: int| 0 <= i < 9 ==> (#[trigger] sk.s[i]).wf(),
        ensures
            prove_result(message@, pp, pk, sk, seed@, r),
            r matches Ok(pf) ==> norm_ok(coeffs(pf.z@)) && sparse_ternary(pf.c.coeff@) && pf.encodable(),
    {
        let d0 = transcript(&pp, &pk, message);
        let b = match hash_to_new_basis(&d0) {
            Ok(b) => b,
            Err(e) => {
                return Err(e);
            },
        };
        let v = poly256_inner_product(&b, &sk.s);
        let ghost a = matrix_rows(pp);
        let ghost s = coeffs(sk.s@);
        let ghost goal = prove_rounds(a, s, d0@, coeffs(b@), v.coeff@, seed@, 0);
        assert(prove_spec(message@, pp, pk, s, seed@) == goal);
        let mut ks = KeyStream::new(seed);
        loop
            invariant
                prove_spec(message@, pp, pk, s, seed@) == goal,
                pp.encodable(),
                forall|i: int| 0 <= i < 9 ==> (#[trigger] sk.s[i]).wf(),
                forall|i: int| 0 <= i < 9 ==> (#[trigger] b@[i]).is_normalized(),
                a == matrix_rows(pp),
                s == coeffs(sk.s@),
                v.is_normalized(),
                v.coeff@ == inner_product_spec(coeffs(b@), s, 9),
                ks.seed == seed,
                goal == prove_rounds(a, s, d0@, coeffs(b@), v.coeff@, seed@, 0),
                prove_rounds(a, s, d0@, coeffs(b@), v.coeff@, seed@, ks.pos as int) == goal,
            decreases u64::MAX - ks.pos,
        {
            let ghost pos0 = ks.pos as int;
            let y = match draw_nine(&mut ks, 1) {
                None => {
                    assert(prove_rounds(a, s, d0@, coeffs(b@), v.coeff@, seed@, pos0) == Err::<
                        Seq<Seq<i64>>,
                        VrfError,
                    >(VrfError::KeystreamExhausted));
                    return Err(VrfError::KeystreamExhausted);
                },
                Some(y) => y,
            };
            let ghost ys = coeffs(y@);
            assert forall|k: int| 0 <= k < 9 implies (#[trigger] y@[k]).wf() by {
                assert(drawn_range(y@[k], 1));
            }
            let z0 = Poly256::zero();
            let mut w1 = [z0; 4];
            for i in 0usize..4
                invariant
                    pp.encodable(),
                    a == matrix_rows(pp),
                    ys == coeffs(y@),
                    forall|k: int| 0 <= k < 9 ==> (#[trigger] y@[k]).wf(),
                    forall|j: int| 0 <= j < i ==> (#[trigger] w1[j]).coeff@ == inner_product_spec(a[j], ys, 9),
                    forall|j: int| 0 <= j < i ==> (#[trigger] w1[j]).is_normalized(),
            {
                assert(forall|k: int| 0 <= k < 9 ==> (#[trigger] pp.matrix[i as int][k]).is_normalized());
                w1[i] = poly256_inner_product(&pp.matrix[i], &y);
            }
            let w2 = poly256_inner_product(&b, &y);
            assert(coeffs(w1@) =~= mask_commitments(a, ys));
            let c = match challenge_for(&d0, &w1, &w2, &v) {
                None => {
                    assert(prove_rounds(a, s, d0@, coeffs(b@), v.coeff@, seed@, pos0) == Err::<
                        Seq<Seq<i64>>,
                        VrfError,
                    >(VrfError::ChallengeExhausted));
                    return Err(VrfError::ChallengeExhausted);
                },
                Some(c) => c,
            };
            assert(c.wf());
            let mut z = y;
            for i in 0usize..9
                invariant
                    c.wf(),
                    forall|k: int| 0 <= k < 9 ==> (#[trigger] sk.s[k]).wf(),
                    forall|k: int| 0 <= k < 9 ==> (#[trigger] y@[k]).wf(),
                    s == coeffs(sk.s@),
                    ys == coeffs(y@),
                    forall|j: int| 0 <= j < i ==> (#[trigger] z@[j]).coeff@ == responses(ys, c.coeff@, s)[j],
                    forall|j: int| 0 <= j < i ==> (#[trigger] z@[j]).wf(),
                    forall|j: int| i <= j < 9 ==> (#[trigger] z@[j]) == y@[j],
            {
                let cs = Poly256::mul(&c, &sk.s[i]);
                let mut zi = Poly256::add(&y[i], &cs);
                zi.centered();
                z[i] = zi;
            }
            if check_norm(&z) {
                assert(coeffs(z@) =~= responses(ys, c.coeff@, s));
                let pf = Proof { z, c, v };
                assert(pf.model() =~= responses(ys, c.coeff@, s) + seq![c.coeff@, v.coeff@]);
                assert forall|i: int| 0 <= i < 9 implies crate::codec::beta_storable(#[trigger] pf.z[i].coeff@) by {
                    assert(coeffs(z@)[i] == z@[i].coeff@);
                    assert forall|k: int| 0 <= k < 256 implies -BETA <= #[trigger] pf.z[i].coeff@[k] <= 172_287 by {
                        assert(-BETA_M_KAPPA <= coeffs(z@)[i][k] <= BETA_M_KAPPA);
                    }
                }
                return Ok(pf);
            }
            proof {
                lemma_draw_many_advance(seed@, pos0, 9);
                assert(coeffs(z@) =~= responses(ys, c.coeff@, s));
            }
        }
    }

    /// Verifies `proof` for `message`: `Some(v)` when the responses lie within
    /// the norm bound and the challenge recomputed from `A z - c t` and
    /// `<b, z> - c v` equals `c`; `None` otherwise.
    pub fn verify(message: &[u8], pp: Param, pk: PublicKey, proof: Proof) -> (r: Result<
        Option<VRFOutput>,
        VrfError,
    >)
        requires
            pp.encodable(),
            pk.encodable(),
            verifiable(proof),
        ensures
            match verify_spec(message@, pp, pk, proof.model()) {
                Err(e) => r == Err::<Option<VRFOutput>, VrfError>(e),
                Ok(None) => r == Ok::<Option<VRFOutput>, VrfError>(None),
                Ok(Some(v)) => r == Ok::<Option<VRFOutput>, VrfError>(Some(proof.v)),
            },
    {
        assert(proof.model().take(9) =~= coeffs(proof.z@));
        if !check_norm(&proof.z) {
            return Ok(None);
        }
        let d0 = transcript(&pp, &pk, message);
        let b = match hash_to_new_basis(&d0) {
            Ok(b) => b,
            Err(e) => {
                return Err(e);
            },
        };
        let ghost a = matrix_rows(pp);
        let ghost zs = coeffs(proof.z@);
        assert forall|k: int| 0 <= k < 9 implies (#[trigger] proof.z@[k]).wf() by {
            assert forall|j: int| 0 <= j < 256 implies -Q < #[trigger] proof.z@[k].coeff@[j] < Q by {
                assert(zs[k][j] == proof.z@[k].coeff@[j]);
                assert(-BETA_M_KAPPA <= zs[k][j] <= BETA_M_KAPPA);
            }
        }
        assert(proof.c.wf());
        let z0 = Poly256::zero();
        let mut w1 = [z0; 4];
        for i in 0usize..4
            invariant
                pp.encodable(),
                pk.encodable(),
                proof.c.wf(),
                a == matrix_rows(pp),
                zs == coeffs(proof.z@),
                forall|k: int| 0 <= k < 9 ==> (#[trigger] proof.z@[k]).wf(),
                forall|j: int| 0 <= j < i ==> (#[trigger] w1[j]).coeff@ == sub_spec(
                    inner_product_spec(a[j], zs, 9),
                    mul_spec(proof.c.coeff@, pk.t[j].coeff@),
                ),
                forall|j: int| 0 <= j < i ==> (#[trigger] w1[j]).is_normalized(),
        {
            assert(forall|k: int| 0 <= k < 9 ==> (#[trigger] pp.matrix[i as int][k]).is_normalized());
            let az = poly256_inner_product(&pp.matrix[i], &proof.z);
            assert(pk.t[i as int].is_normalized());
            let ct = Poly256::mul(&proof.c, &pk.t[i]);
            w1[i] = Poly256::sub(&az, &ct);
        }
        let bz = poly256_inner_product(&b, &proof.z);
        let cv = Poly256::mul(&proof.c, &proof.v);
        let w2 = Poly256::sub(&bz, &cv);
        assert(coeffs(w1@) =~= response_commitments(a, zs, proof.c.coeff@, coeffs(pk.t@)));
        assert(proof.model()[9] == proof.c.coeff@ && proof.model()[10] == proof.v.coeff@);
        let c = match challenge_for(&d0, &w1, &w2, &proof.v) {
            None => {
                return Err(VrfError::ChallengeExhausted);
            },
            Some(c) => c,
        };
        if c == proof.c {
            Ok(Some(proof.v))
        } else {
            Ok(None)
        }
    }
}

impl VRF for LBVRF {
    type PubParam = Param;
    type PublicKey = PublicKey;
    type SecretKey = SecretKey;
    type Proof = Proof;
    type VrfOutput = VRFOutput;

    open spec fn paramgen_post(seed: Seq<u8>, r: Result<Param, VrfError>) -> bool {
        paramgen_result(seed, r)
    }

    open spec fn keygen_post(seed: Seq<u8>, pp: Param, r: Result<(PublicKey, SecretKey), VrfError>) -> bool {
        if pp.encodable() {
            keygen_result(seed, pp, r)
        } else {
            r == Err::<(PublicKey, SecretKey), VrfError>(VrfError::OutOfRange)
        }
    }

    open spec fn prove_post(
        message: Seq<u8>,
        pp: Param,
        pk: PublicKey,
        sk: SecretKey,
        seed: Seq<u8>,
        r: Result<Proof, VrfError>,
    ) -> bool {
        if pp.encodable() && pk.encodable() && sk.encodable() {
            prove_result(message, pp, pk, sk, seed, r)
        } else {
            r == Err::<Proof, VrfError>(VrfError::OutOfRange)
        }
    }

    open spec fn verify_post(
        message: Seq<u8>,
        pp: Param,
        pk: PublicKey,
        proof: Proof,
        r: Result<Option<VRFOutput>, VrfError>,
    ) -> bool {
        if pp.encodable() && pk.encodable() && verifiable(proof) {
            match verify_spec(message, pp, pk, proof.model()) {
                Err(e) => r == Err::<Option<VRFOutput>, VrfError>(e),
                Ok(None) => r == Ok::<Option<VRFOutput>, VrfError>(None),
                Ok(Some(v)) => r == Ok::<Option<VRFOutput>, VrfError>(Some(proof.v)),
            }
        } else {
            r == Err::<Option<VRFOutput>, VrfError>(VrfError::OutOfRange)
        }
    }

    fn paramgen(seed: [u8; 32]) -> Result<Param, VrfError> {
        LBVRF::paramgen(seed)
    }

    fn keygen(seed: [u8; 32], pp: Param) -> Result<(PublicKey, SecretKey), VrfError> {
        if !pp.is_encodable() {
            return Err(VrfError::OutOfRange);
        }
        LBVRF::keygen(seed, pp)
    }

    fn prove(message: &[u8], pp: Param, pk: PublicKey, sk: SecretKey, seed: [u8; 32]) -> Result<Proof, VrfError> {
        if !pp.is_encodable() || !pk.is_encodable() || !sk.is_encodable() {
            return Err(VrfError::OutOfRange);
        }
        LBVRF::prove(message, pp, pk, sk, seed)
    }

    fn verify(message: &[u8], pp: Param, pk: PublicKey, proof: Proof) -> Result<Option<VRFOutput>, VrfError> {
        if !pp.is_encodable() || !pk.is_encodable() || !proof.is_verifiable() {
            return Err(VrfError::OutOfRange);
        }
        LBVRF::verify(message, pp, pk, proof)
    }
}

proof fn lemma_nine_eq(a: [Poly256; 9], b: [Poly256; 9])
    requires
        coeffs(a@) == coeffs(b@),
    ensures
        a == b,
{
    assert forall|i: int| 0 <= i < 9 implies a[i] == #[trigger] b[i] by {
        assert(coeffs(a@)[i] == coeffs(b@)[i]);
        crate::codec::lemma_poly_eq(a[i], b[i]);
    }
    assert(a =~= b);
}

/// Parameter generation is deterministic: any two results that `paramgen`
/// may give for one seed are equal.
pub proof fn lemma_paramgen_deterministic(seed: Seq<u8>, r1: Result<Param, VrfError>, r2: Result<Param, VrfError>)
    requires
        paramgen_result(seed, r1),
        paramgen_result(seed, r2),
    ensures
        r1 == r2,
{
    if let (Ok(p1), Ok(p2)) = (r1, r2) {
        assert forall|i: int| 0 <= i < 4 implies p1.matrix[i] == #[trigger] p2.matrix[i] by {
            assert(matrix_rows(p1)[i] == matrix_rows(p2)[i]);
            lemma_nine_eq(p1.matrix[i], p2.matrix[i]);
        }
        assert(p1.matrix =~= p2.matrix);
    }
}

/// Key generation is deterministic: any two results that `keygen` may give
/// for one seed and one set of parameters are equal.
pub proof fn lemma_keygen_deterministic(
    seed: Seq<u8>,
    pp: Param,
    r1: Result<(PublicKey, SecretKey), VrfError>,
    r2: Result<(PublicKey, SecretKey), VrfError>,
)
    requires
        keygen_result(seed, pp, r1),
        keygen_result(seed, pp, r2),
    ensures
        r1 == r2,
{
    if let (Ok((pk1, sk1)), Ok((pk2, sk2))) = (r1, r2) {
        lemma_nine_eq(sk1.s, sk2.s);
        assert forall|i: int| 0 <= i < 4 implies pk1.t[i] == #[trigger] pk2.t[i] by {
            assert(coeffs(pk1.t@)[i] == coeffs(pk2.t@)[i]);
            crate::codec::lemma_poly_eq(pk1.t[i], pk2.t[i]);
        }
        assert(pk1.t =~= pk2.t);
    }
}

/// Proving is deterministic: any two results that `prove` may give for the
/// same message, parameters, keys and seed are equal.
pub proof fn lemma_prove_deterministic(
    m: Seq<u8>,
    pp: Param,
    pk: PublicKey,
    sk: SecretKey,
    seed: Seq<u8>,
    r1: Result<Proof, VrfError>,
    r2: Result<Proof, VrfError>,
)
    requires
        prove_result(m, pp, pk, sk, seed, r1),
        prove_result(m, pp, pk, sk, seed, r2),
    ensures
        r1 == r2,
{
    if let (Ok(f1), Ok(f2)) = (r1, r2) {
        assert(coeffs(f1.z@) =~= coeffs(f2.z@)) by {
            assert forall|i: int| 0 <= i < 9 implies coeffs(f1.z@)[i] == coeffs(f2.z@)[i] by {
                assert(f1.model()[i] == f2.model()[i]);
            }
        }
        lemma_nine_eq(f1.z, f2.z);
        assert(f1.model()[9] == f2.model()[9] && f1.model()[10] == f2.model()[10]);
        crate::codec::lemma_poly_eq(f1.c, f2.c);
        crate::codec::lemma_poly_eq(f1.v, f2.v);
    }
}

/// The round that `prove_rounds` accepts, when it accepts one: its masks `y`,
/// whose challenge `c` gives responses within the norm bound.
proof fn lemma_accepted_round(
    a: Seq<Seq<Seq<i64>>>,
    s: Seq<Seq<i64>>,
    d0: Seq<u8>,
    b: Seq<Seq<i64>>,
    v: Seq<i64>,
    seed: Seq<u8>,
    pos: int,
) -> (ys: Seq<Seq<i64>>)
    requires
        prove_rounds(a, s, d0, b, v, seed, pos) is Ok,
    ensures
        round_challenge(d0, mask_commitments(a, ys), inner_product_spec(b, ys, 9), v) matches Some(c)
            && norm_ok(responses(ys, c, s)) && prove_rounds(a, s, d0, b, v, seed, pos) == Ok::<
            Seq<Seq<i64>>,
            VrfError,
        >(responses(ys, c, s) + seq![c, v]),
    decreases u64::MAX - pos,
{
    let (ys, p2) = draw_many(seed, pos, 9, 1)->Some_0;
    let c = round_challenge(d0, mask_commitments(a, ys), inner_product_spec(b, ys, 9), v)->Some_0;
    if norm_ok(responses(ys, c, s)) {
        ys
    } else {
        lemma_accepted_round(a, s, d0, b, v, seed, p2)
    }
}

/// Correctness: for parameters from `paramgen`, keys from `keygen` and a proof
/// from `prove` on any message, `verify` accepts the proof and returns its output `v`.
pub proof fn lemma_correctness(
    s1: Seq<u8>,
    s2: Seq<u8>,
    s3: Seq<u8>,
    m: Seq<u8>,
    pp: Param,
    pk: PublicKey,
    sk: SecretKey,
    pf: Proof,
)
    requires
        paramgen_result(s1, Ok(pp)),
        keygen_result(s2, pp, Ok((pk, sk))),
        prove_result(m, pp, pk, sk, s3, Ok(pf)),
    ensures
        verify_spec(m, pp, pk, pf.model()) == Ok::<Option<Seq<i64>>, VrfError>(Some(pf.v.coeff@)),
{
    let d0 = transcript_digest(pp, pk, m);
    let b = basis_spec(d0)->Some_0;
    let s = coeffs(sk.s@);
    let v = inner_product_spec(b, s, 9);
    let a = matrix_rows(pp);
    let ys = lemma_accepted_round(a, s, d0, b, v, s3, 0);
    let c = round_challenge(d0, mask_commitments(a, ys), inner_product_spec(b, ys, 9), v)->Some_0;
    let z = responses(ys, c, s);
    assert(pf.model() == z + seq![c, v]);
    assert(pf.model().take(9) =~= z);
    assert(pf.model()[9] == c && pf.model()[10] == v);
    let t = coeffs(pk.t@);
    assert forall|i: int| 0 <= i < 4 implies #[trigger] response_commitments(a, z, c, t)[i] == mask_commitments(a, ys)[i] by {
        assert(t == public_key_of(pp, s));
        assert(t[i] == inner_product_spec(a[i], s, 9));
        crate::algebra::lemma_recompute(a[i], ys, c, s, z);
    }
    assert(response_commitments(a, z, c, t) =~= mask_commitments(a, ys));
    crate::algebra::lemma_recompute(b, ys, c, s, z);
}

/// A proof with any response coefficient outside the norm bound gives no
/// output, whatever its challenge and output. (A tampered coefficient that
/// stays within the bound is rejected only where the recomputed challenge
/// differs, which rests on the digests.)
pub proof fn lemma_unbounded_response_rejected(m: Seq<u8>, pp: Param, pk: PublicKey, pf: Proof, i: int, k: int)
    requires
        0 <= i < 9,
        0 <= k < 256,
        !(-BETA_M_KAPPA <= pf.z[i].coeff@[k] <= BETA_M_KAPPA),
    ensures
        verify_spec(m, pp, pk, pf.model()) == Ok::<Option<Seq<i64>>, VrfError>(None),
{
    assert(pf.model().take(9)[i] == pf.z[i].coeff@);
    assert(!norm_ok(pf.model().take(9)));
}

} // verus!
