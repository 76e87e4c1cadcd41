use vstd::prelude::*;
use vstd::string::StringSliceAdditionalSpecFns;

use crate::hash::{append_bytes, sha512, sha512_of};
use crate::param::KAPPA;
use crate::poly256::{zero_spec, Poly256};

verus! {

/// The label appended to a transcript digest before it is hashed into a challenge.
pub open spec fn challenge_label() -> Seq<u8> {
    "domain seperator: hash to challenge".spec_bytes()
}

/// The number of non-zero entries among the first `n` of `c`.
pub open spec fn count_nonzero(c: Seq<i64>, n: int) -> int
    decreases n,
{
    if n <= 0 {
        0
    } else {
        count_nonzero(c, n - 1) + if c[n - 1] != 0 { 1int } else { 0 }
    }
}

/// Exactly 39 coefficients are non-zero, each 1 or -1.
pub open spec fn sparse_ternary(c: Seq<i64>) -> bool {
    &&& c.len() == 256
    &&& forall|k: int| 0 <= k < 256 ==> -1 <= #[trigger] c[k] <= 1
    &&& count_nonzero(c, 256) == KAPPA
}

/// The first position at or after `p` whose byte names a free slot of `res`;
/// `None` once the positions reach the sign bytes in use (`63 - sb` on).
pub open spec fn free_slot(h: Seq<u8>, res: Seq<i64>, p: int, sb: int) -> Option<int>
    decreases 64 - p,
{
    if p < 0 || sb < 0 || p + sb >= 63 {
        None
    } else if res[h[p] as int] != 0 {
        free_slot(h, res, p + 1, sb)
    } else {
        Some(p)
    }
}

/// The state of the challenge derivation: the coefficients so far, the next
/// position byte, the number of sign bytes used up, the sign bits taken from
/// the current sign byte, and what is left of it.
pub type ChallengeState = (Seq<i64>, int, int, int, u8);

/// One round: take a sign bit from the high end of `h`, then set the first free
/// slot named by a position byte from the low end to +1 or -1.
pub open spec fn challenge_round(h: Seq<u8>, st: ChallengeState) -> Option<ChallengeState> {
    let sign = st.4 & 1u8;
    let ct = if st.3 + 1 == 4 { 0 } else { st.3 + 1 };
    let sb = if st.3 + 1 == 4 { st.2 + 1 } else { st.2 };
    let tmp = if st.3 + 1 == 4 { h[63 - sb] } else { st.4 >> 1u8 };
    match free_slot(h, st.0, st.1, sb) {
        None => None,
        Some(q) => Some((st.0.update(h[q] as int, if sign == 1 { 1i64 } else { -1i64 }), q + 1, sb, ct, tmp)),
    }
}

/// The state after `n` rounds.
pub open spec fn challenge_rounds(h: Seq<u8>, n: nat) -> Option<ChallengeState>
    decreases n,
{
    if n == 0 {
        Some((zero_spec(), 0, 0, 0, h[63]))
    } else {
        match challenge_rounds(h, (n - 1) as nat) {
            None => None,
            Some(st) => challenge_round(h, st),
        }
    }
}

/// The sparse challenge that a 64-byte digest gives, or `None` where its bytes run out.
pub open spec fn challenge_spec(h: Seq<u8>) -> Option<Seq<i64>> {
    match challenge_rounds(h, 39) {
        None => None,
        Some(st) => Some(st.0),
    }
}

proof fn lemma_count_update(c: Seq<i64>, j: int, x: i64, n: int)
    requires
        0 <= j < n <= c.len(),
        c[j] == 0,
        x != 0,
    ensures
        count_nonzero(c.update(j, x), n) == count_nonzero(c, n) + 1,
    decreases n,
{
    if j < n - 1 {
        lemma_count_update(c, j, x, n - 1);
    } else {
        lemma_count_same(c, c.update(j, x), n - 1);
    }
}

proof fn lemma_count_same(a: Seq<i64>, b: Seq<i64>, n: int)
    requires
        0 <= n <= a.len(),
        n <= b.len(),
        forall|k: int| 0 <= k < n ==> a[k] == b[k],
    ensures
        count_nonzero(a, n) == count_nonzero(b, n),
    decreases n,
{
    if n > 0 {
        lemma_count_same(a, b, n - 1);
    }
}

proof fn lemma_count_zero(n: int)
    requires
        0 <= n <= 256,
    ensures
        count_nonzero(zero_spec(), n) == 0,
    decreases n,
{
    if n > 0 {
        lemma_count_zero(n - 1);
    }
}

proof fn lemma_free_slot(h: Seq<u8>, res: Seq<i64>, p: int, sb: int)
    requires
        h.len() == 64,
        res.len() == 256,
    ensures
        free_slot(h, res, p, sb) matches Some(q) ==> p <= q && q + sb < 63 && res[h[q] as int] == 0,
    decreases 64 - p,
{
    if 0 <= p && 0 <= sb && p + sb < 63 && res[h[p] as int] != 0 {
        lemma_free_slot(h, res, p + 1, sb);
    }
}

/// The sparse challenge of a 64-byte digest: 39 rounds, each taking a sign bit
/// from the high end (four from each byte, from byte 63 down) and a position
/// byte from the low end, skipping positions whose slot is already set.
/// `None` where the position bytes reach the sign bytes.
pub fn challenge_from_digest(h: &[u8; 64]) -> (r: Option<Poly256>)
    ensures
        challenge_spec(h@) matches Some(c) ==> r matches Some(x) && x.coeff@ == c,
        challenge_spec(h@) is None ==> r is None,
        r matches Some(x) ==> sparse_ternary(x.coeff@),
{
    let ghost hv = h@;
    let mut res = [0i64; 256];
    let mut p: usize = 0;
    let mut sb: usize = 0;
    let mut ct: usize = 0;
    let mut tmp: u8 = h[63];
    proof {
        lemma_count_zero(256);
        assert(res@ =~= zero_spec());
    }
    for i in 0usize..39
        invariant
            hv == h@,
            ct == i % 4,
            sb == i / 4,
            p + sb <= 63,
            challenge_rounds(hv, i as nat) == Some((res@, p as int, sb as int, ct as int, tmp)),
            forall|k: int| 0 <= k < 256 ==> -1 <= #[trigger] res@[k] <= 1,
            count_nonzero(res@, 256) == i,
    {
        let ghost st = (res@, p as int, sb as int, ct as int, tmp);
        let sign = tmp & 1u8;
        tmp = tmp >> 1u8;
        ct += 1;
        if ct == 4 {
            ct = 0;
            sb += 1;
            tmp = h[63 - sb];
        }
        let ghost before = res@;
        let ghost p0 = p as int;
        while p + sb < 63 && res[h[p] as usize] != 0
            invariant
                hv == h@,
                sb <= 9,
                p0 <= p,
                p + sb <= 64,
                res@ == before,
                free_slot(hv, before, p as int, sb as int) == free_slot(hv, before, p0, sb as int),
            decreases 64 - p,
        {
            p += 1;
        }
        proof {
            assert(challenge_rounds(hv, (i + 1) as nat) == challenge_round(hv, st));
            lemma_free_slot(hv, before, p0, sb as int);
        }
        if p + sb >= 63 {
            proof {
                lemma_rounds_none(hv, (i + 1) as nat, 39);
            }
            return None;
        }
        let x: i64 = if sign == 1 {
            1
        } else {
            -1
        };
        proof {
            lemma_count_update(res@, h@[p as int] as int, x, 256);
        }
        res[h[p] as usize] = x;
        p += 1;
    }
    Some(Poly256 { coeff: res })
}

proof fn lemma_rounds_none(h: Seq<u8>, m: nat, n: nat)
    requires
        m <= n,
        challenge_rounds(h, m) is None,
    ensures
        challenge_rounds(h, n) is None,
    decreases n - m,
{
    if m < n {
        lemma_rounds_none(h, (m + 1) as nat, n);
    }
}

/// The sparse challenge of `input`: the digest of `input` followed by the
/// challenge label, made sparse by `challenge_from_digest`.
pub fn hash_to_challenge(input: &[u8]) -> (r: Option<Poly256>)
    ensures
        challenge_spec(sha512_of(input@ + challenge_label())) matches Some(c) ==> r matches Some(x)
            && x.coeff@ == c,
        challenge_spec(sha512_of(input@ + challenge_label())) is None ==> r is None,
        r matches Some(x) ==> sparse_ternary(x.coeff@),
{
    let mut buf: Vec<u8> = Vec::new();
    append_bytes(&mut buf, input);
    append_bytes(&mut buf, "domain seperator: hash to challenge".as_bytes());
    let h = sha512(buf.as_slice());
    challenge_from_digest(&h)
}

} // verus!
