use vstd::prelude::*;

use rand_chacha::rand_core::{RngCore, SeedableRng};
use rand_chacha::ChaCha20Rng;

use crate::param::{BETA, BETA_M2_P1, BETA_RS_RANGE, Q, Q_RS_RANGE};
use crate::poly256::Poly256;

verus! {

/// Word `pos` of the ChaCha20 keystream for key `seed`, stream 0.
pub uninterp spec fn chacha20_word(seed: Seq<u8>, pos: int) -> u32;

/// Relies on rand_chacha's `ChaCha20Rng`: seeded by `from_seed`, moved to
/// word `pos` of its keystream by `set_word_pos`, `next_u32` returns that word.
/// The words depend on the seed and the position alone.
#[verifier::external_body]
fn chacha20_word_at(seed: &[u8; 32], pos: u64) -> (r: u32)
    ensures
        r == chacha20_word(seed@, pos as int),
{
    let mut rng = ChaCha20Rng::from_seed(*seed);
    rng.set_word_pos(pos as u128);
    rng.next_u32()
}

/// The 64-bit word made of keystream words `pos` (low half) and `pos + 1`.
pub open spec fn chacha20_u64(seed: Seq<u8>, pos: int) -> u64 {
    (chacha20_word(seed, pos) as u64) | ((chacha20_word(seed, pos + 1) as u64) << 32u64)
}

/// A deterministic stream of 32-bit words: the ChaCha20 keystream of `seed`,
/// read from word `pos` on.
pub struct KeyStream {
    pub seed: [u8; 32],
    pub pos: u64,
}

impl KeyStream {
    /// The stream of `seed`, at its first word.
    pub fn new(seed: [u8; 32]) -> (r: KeyStream)
        ensures
            r.seed == seed,
            r.pos == 0,
    {
        KeyStream { seed, pos: 0 }
    }

    /// The next word, or `None` once the 64-bit positions are used up.
    pub fn next_u32(&mut self) -> (r: Option<u32>)
        ensures
            final(self).seed == old(self).seed,
            old(self).pos < u64::MAX ==> r == Some(chacha20_word(old(self).seed@, old(self).pos as int))
                && final(self).pos == old(self).pos + 1,
            old(self).pos == u64::MAX ==> r is None && final(self).pos == old(self).pos,
    {
        if self.pos == u64::MAX {
            return None;
        }
        let w = chacha20_word_at(&self.seed, self.pos);
        self.pos = self.pos + 1;
        Some(w)
    }

    /// The next two words as one 64-bit word, the first in the low half.
    pub fn next_u64(&mut self) -> (r: Option<u64>)
        ensures
            final(self).seed == old(self).seed,
            old(self).pos < u64::MAX - 1 ==> r == Some(chacha20_u64(old(self).seed@, old(self).pos as int))
                && final(self).pos == old(self).pos + 2,
            old(self).pos >= u64::MAX - 1 ==> r is None,
    {
        if self.pos >= u64::MAX - 1 {
            return None;
        }
        let lo = chacha20_word_at(&self.seed, self.pos);
        let hi = chacha20_word_at(&self.seed, self.pos + 1);
        self.pos = self.pos + 2;
        Some((lo as u64) | ((hi as u64) << 32u64))
    }
}

/// The first position at or after `pos` whose word lies below `bound`; `None`
/// if none comes before position `u64::MAX`.
pub open spec fn next_below(seed: Seq<u8>, pos: int, bound: u32) -> Option<int>
    decreases u64::MAX - pos,
{
    if pos < 0 || pos >= u64::MAX {
        None
    } else if chacha20_word(seed, pos) < bound {
        Some(pos)
    } else {
        next_below(seed, pos + 1, bound)
    }
}

/// Draws words until one lies below `bound`, and returns it.
pub(crate) fn draw_below(ks: &mut KeyStream, bound: u32) -> (r: Option<u32>)
    ensures
        final(ks).seed == old(ks).seed,
        match next_below(old(ks).seed@, old(ks).pos as int, bound) {
            None => r is None,
            Some(q) => r == Some(chacha20_word(old(ks).seed@, q)) && final(ks).pos == q + 1,
        },
{
    let ghost start = ks.pos as int;
    loop
        invariant
            ks.seed == old(ks).seed,
            start == old(ks).pos,
            start <= ks.pos,
            next_below(ks.seed@, ks.pos as int, bound) == next_below(ks.seed@, start, bound),
        decreases u64::MAX - ks.pos,
    {
        let w = match ks.next_u32() {
            None => {
                return None;
            },
            Some(w) => w,
        };
        if w < bound {
            return Some(w);
        }
    }
}

/// A residue modulo Q drawn by rejection from the words at `pos` on, and the
/// position after it.
pub open spec fn draw_mod_q(seed: Seq<u8>, pos: int) -> Option<(i64, int)> {
    match next_below(seed, pos, Q_RS_RANGE) {
        None => None,
        Some(q) => Some(((chacha20_word(seed, q) % (Q as u32)) as i64, q + 1)),
    }
}

/// A value in [-BETA, BETA] drawn by rejection from the words at `pos` on,
/// and the position after it.
pub open spec fn draw_mod_beta(seed: Seq<u8>, pos: int) -> Option<(i64, int)> {
    match next_below(seed, pos, BETA_RS_RANGE) {
        None => None,
        Some(q) => Some((((chacha20_word(seed, q) % BETA_M2_P1) - BETA) as i64, q + 1)),
    }
}

/// `n` coefficients drawn one after another by `draw` (a residue modulo Q
/// when `beta` is false, a value in [-BETA, BETA] when it is true) from the
/// words at `pos` on, and the position after them.
pub open spec fn draw_coeffs(seed: Seq<u8>, pos: int, n: nat, beta: bool) -> Option<(Seq<i64>, int)>
    decreases n,
{
    if n == 0 {
        Some((Seq::empty(), pos))
    } else {
        match draw_coeffs(seed, pos, (n - 1) as nat, beta) {
            None => None,
            Some((cs, p)) => match if beta { draw_mod_beta(seed, p) } else { draw_mod_q(seed, p) } {
                None => None,
                Some((x, p2)) => Some((cs.push(x), p2)),
            },
        }
    }
}

proof fn lemma_next_below_range(seed: Seq<u8>, pos: int, bound: u32)
    ensures
        next_below(seed, pos, bound) matches Some(q) ==> pos <= q < u64::MAX && chacha20_word(seed, q) < bound,
    decreases u64::MAX - pos,
{
    if 0 <= pos < u64::MAX && chacha20_word(seed, pos) >= bound {
        lemma_next_below_range(seed, pos + 1, bound);
    }
}

pub(crate) proof fn lemma_draw_coeffs_advance(seed: Seq<u8>, pos: int, n: nat, beta: bool)
    ensures
        draw_coeffs(seed, pos, n, beta) matches Some((cs, p)) ==> cs.len() == n && pos + n <= p,
    decreases n,
{
    if n > 0 {
        lemma_draw_coeffs_advance(seed, pos, (n - 1) as nat, beta);
        if let Some((cs, p)) = draw_coeffs(seed, pos, (n - 1) as nat, beta) {
            lemma_next_below_range(seed, p, if beta { BETA_RS_RANGE } else { Q_RS_RANGE });
        }
    }
}

/// Draws an element by rejection: when `beta` is false every coefficient is
/// uniform in [0, Q), else uniform in [-BETA, BETA].
fn draw_poly(ks: &mut KeyStream, beta: bool) -> (r: Option<Poly256>)
    ensures
        final(ks).seed == old(ks).seed,
        r matches Some(x) ==> forall|k: int| 0 <= k < 256 ==> if beta {
            -BETA <= #[trigger] x.coeff@[k] <= BETA
        } else {
            0 <= x.coeff@[k] < Q
        },
        match draw_coeffs(old(ks).seed@, old(ks).pos as int, 256, beta) {
            None => r is None,
            Some((cs, p)) => r matches Some(x) && x.coeff@ == cs && final(ks).pos == p,
        },
{
    let ghost seed = ks.seed@;
    let ghost start = ks.pos as int;
    let mut coeff = [0i64; 256];
    for i in 0usize..256
        invariant
            ks.seed@ == seed,
            start == old(ks).pos,
            seed == old(ks).seed@,
            ks.seed == old(ks).seed,
            draw_coeffs(seed, start, i as nat, beta) == Some((coeff@.take(i as int), ks.pos as int)),
            forall|k: int| 0 <= k < i ==> if beta {
                -BETA <= #[trigger] coeff@[k] <= BETA
            } else {
                0 <= coeff@[k] < Q
            },
    {
        let w = if beta {
            draw_below(ks, BETA_RS_RANGE)
        } else {
            draw_below(ks, Q_RS_RANGE)
        };
        let w = match w {
            None => {
                proof {
                    assert(draw_coeffs(seed, start, (i + 1) as nat, beta) is None);
                    lemma_draw_none(seed, start, (i + 1) as nat, 256, beta);
                }
                return None;
            },
            Some(w) => w,
        };
        coeff[i] = if beta {
            (w % BETA_M2_P1) as i64 - BETA
        } else {
            (w % (Q as u32)) as i64
        };
        assert(coeff@.take(i + 1) =~= coeff@.take(i as int).push(coeff@[i as int]));
    }
    assert(coeff@.take(256) =~= coeff@);
    Some(Poly256 { coeff })
}

proof fn lemma_draw_none(seed: Seq<u8>, pos: int, m: nat, n: nat, beta: bool)
    requires
        m <= n,
        draw_coeffs(seed, pos, m, beta) is None,
    ensures
        draw_coeffs(seed, pos, n, beta) is None,
    decreases n - m,
{
    if m < n {
        lemma_draw_none(seed, pos, (m + 1) as nat, n, beta);
    }
}

/// One trinary draw from the 2-bit groups of `tmp`, of which `ct` are used:
/// a group of 3 is skipped, and after its 32nd group `tmp` is refilled from
/// the stream at `pos`. Returns the value and the state after it.
pub open spec fn next_trit(seed: Seq<u8>, tmp: u64, ct: int, pos: int) -> Option<(i64, u64, int, int)>
    decreases u64::MAX - pos, 32 - ct,
{
    if !(0 <= ct < 32) || pos < 0 || pos > u64::MAX {
        None
    } else {
        let cur = tmp & 3u64;
        if ct + 1 == 32 && pos >= u64::MAX - 1 {
            None
        } else {
            let tmp2 = if ct + 1 == 32 { chacha20_u64(seed, pos) } else { tmp >> 2u64 };
            let ct2 = if ct + 1 == 32 { 0 } else { ct + 1 };
            let pos2 = if ct + 1 == 32 { pos + 2 } else { pos };
            if cur != 3 {
                Some(((cur - 1) as i64, tmp2, ct2, pos2))
            } else {
                next_trit(seed, tmp2, ct2, pos2)
            }
        }
    }
}

/// `n` trinary draws one after another, and the state after them.
pub open spec fn trits(seed: Seq<u8>, tmp: u64, ct: int, pos: int, n: nat) -> Option<(Seq<i64>, u64, int, int)>
    decreases n,
{
    if n == 0 {
        Some((Seq::empty(), tmp, ct, pos))
    } else {
        match trits(seed, tmp, ct, pos, (n - 1) as nat) {
            None => None,
            Some((cs, t, c, p)) => match next_trit(seed, t, c, p) {
                None => None,
                Some((x, t2, c2, p2)) => Some((cs.push(x), t2, c2, p2)),
            },
        }
    }
}

/// An element with coefficients uniform in {-1, 0, 1}, drawn from a fresh
/// 64-bit word at `pos`, and the position after it.
pub open spec fn draw_trinary(seed: Seq<u8>, pos: int) -> Option<(Seq<i64>, int)> {
    if pos < 0 || pos >= u64::MAX - 1 {
        None
    } else {
        match trits(seed, chacha20_u64(seed, pos), 0, pos + 2, 256) {
            None => None,
            Some((cs, t, c, p)) => Some((cs, p)),
        }
    }
}

/// The kinds of element that the stream is drawn into.
pub open spec fn draw_kind(seed: Seq<u8>, pos: int, kind: int) -> Option<(Seq<i64>, int)> {
    if kind == 0 {
        draw_coeffs(seed, pos, 256, false)
    } else if kind == 1 {
        draw_coeffs(seed, pos, 256, true)
    } else {
        draw_trinary(seed, pos)
    }
}

/// `n` elements of one kind (0: uniform modulo Q, 1: uniform in [-BETA, BETA],
/// 2: uniform in {-1, 0, 1}) drawn one after another from `pos` on.
pub open spec fn draw_many(seed: Seq<u8>, pos: int, n: nat, kind: int) -> Option<(Seq<Seq<i64>>, int)>
    decreases n,
{
    if n == 0 {
        Some((Seq::empty(), pos))
    } else {
        match draw_many(seed, pos, (n - 1) as nat, kind) {
            None => None,
            Some((ps, p)) => match draw_kind(seed, p, kind) {
                None => None,
                Some((x, p2)) => Some((ps.push(x), p2)),
            },
        }
    }
}

proof fn lemma_trits_none(seed: Seq<u8>, tmp: u64, ct: int, pos: int, m: nat, n: nat)
    requires
        m <= n,
        trits(seed, tmp, ct, pos, m) is None,
    ensures
        trits(seed, tmp, ct, pos, n) is None,
    decreases n - m,
{
    if m < n {
        lemma_trits_none(seed, tmp, ct, pos, (m + 1) as nat, n);
    }
}

/// One trinary draw; `tmp` and `ct` carry the current 64-bit word and the
/// number of its 2-bit groups used.
fn trit(ks: &mut KeyStream, tmp: &mut u64, ct: &mut u32) -> (r: Option<i64>)
    requires
        *old(ct) < 32,
    ensures
        final(ks).seed == old(ks).seed,
        *final(ct) < 32,
        r matches Some(x) ==> -1 <= x <= 1,
        match next_trit(old(ks).seed@, *old(tmp), *old(ct) as int, old(ks).pos as int) {
            None => r is None,
            Some((x, t, c, p)) => r == Some(x) && *final(tmp) == t && *final(ct) == c && final(ks).pos == p,
        },
{
    let ghost seed = ks.seed@;
    let ghost goal = next_trit(seed, *tmp, *ct as int, ks.pos as int);
    loop
        invariant
            ks.seed == old(ks).seed,
            seed == ks.seed@,
            *ct < 32,
            goal == next_trit(seed, *old(tmp), *old(ct) as int, old(ks).pos as int),
            next_trit(seed, *tmp, *ct as int, ks.pos as int) == goal,
        decreases u64::MAX - ks.pos, 32 - *ct,
    {
        let cur = *tmp & 3u64;
        assert(cur <= 3) by (bit_vector)
            requires
                cur == *tmp & 3u64,
        ;
        if *ct + 1 == 32 {
            match ks.next_u64() {
                None => {
                    return None;
                },
                Some(w) => {
                    *tmp = w;
                    *ct = 0;
                },
            }
        } else {
            *tmp = *tmp >> 2u64;
            *ct = *ct + 1;
        }
        if cur != 3 {
            return Some(cur as i64 - 1);
        }
    }
}

impl Poly256 {
    /// An element with coefficients uniform in [0, Q), drawn by rejection
    /// from 32-bit words; `None` once the stream's positions are used up.
    pub fn uniform_random(ks: &mut KeyStream) -> (r: Option<Poly256>)
        ensures
            final(ks).seed == old(ks).seed,
            r matches Some(x) ==> x.is_normalized(),
            match draw_kind(old(ks).seed@, old(ks).pos as int, 0) {
                None => r is None,
                Some((cs, p)) => r matches Some(x) && x.coeff@ == cs && final(ks).pos == p,
            },
    {
        draw_poly(ks, false)
    }

    /// An element with coefficients uniform in [-BETA, BETA], drawn by
    /// rejection from 32-bit words.
    pub fn rand_mod_beta(ks: &mut KeyStream) -> (r: Option<Poly256>)
        ensures
            final(ks).seed == old(ks).seed,
            r matches Some(x) ==> forall|k: int| 0 <= k < 256 ==> -BETA <= #[trigger] x.coeff@[k] <= BETA,
            match draw_kind(old(ks).seed@, old(ks).pos as int, 1) {
                None => r is None,
                Some((cs, p)) => r matches Some(x) && x.coeff@ == cs && final(ks).pos == p,
            },
    {
        draw_poly(ks, true)
    }

    /// An element with coefficients uniform in {-1, 0, 1}, drawn from the
    /// 2-bit groups of 64-bit words, skipping groups of 3.
    pub fn rand_trinary(ks: &mut KeyStream) -> (r: Option<Poly256>)
        ensures
            final(ks).seed == old(ks).seed,
            r matches Some(x) ==> forall|k: int| 0 <= k < 256 ==> -1 <= #[trigger] x.coeff@[k] <= 1,
            match draw_kind(old(ks).seed@, old(ks).pos as int, 2) {
                None => r is None,
                Some((cs, p)) => r matches Some(x) && x.coeff@ == cs && final(ks).pos == p,
            },
    {
        let ghost seed = ks.seed@;
        let ghost start = ks.pos as int;
        let mut tmp = match ks.next_u64() {
            None => {
                return None;
            },
            Some(w) => w,
        };
        let mut ct: u32 = 0;
        let mut coeff = [0i64; 256];
        assert(coeff@.take(0) =~= Seq::<i64>::empty());
        for i in 0usize..256
            invariant
                ks.seed == old(ks).seed,
                seed == ks.seed@,
                start == old(ks).pos,
                start < u64::MAX - 1,
                ct < 32,
                trits(seed, chacha20_u64(seed, start), 0, start + 2, i as nat) == Some(
                    (coeff@.take(i as int), tmp, ct as int, ks.pos as int),
                ),
                forall|k: int| 0 <= k < i ==> -1 <= #[trigger] coeff@[k] <= 1,
        {
            let x = match trit(ks, &mut tmp, &mut ct) {
                None => {
                    proof {
                        lemma_trits_none(seed, chacha20_u64(seed, start), 0, start + 2, (i + 1) as nat, 256);
                    }
                    return None;
                },
                Some(x) => x,
            };
            coeff[i] = x;
            assert(coeff@.take(i + 1) =~= coeff@.take(i as int).push(x));
            assert(ct < 32);
        }
        assert(coeff@.take(256) =~= coeff@);
        Some(Poly256 { coeff })
    }
}

} // verus!
