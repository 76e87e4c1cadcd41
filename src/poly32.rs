use vstd::prelude::*;

use crate::param::{P, P_RS_RANGE, R};
use crate::poly256::{sum, Poly256};
use crate::rng::{chacha20_word, draw_below, next_below, KeyStream};

verus! {

/// Residue of `x` modulo P, in [0, P).
pub open spec fn mod_p(x: int) -> int {
    x % (P as int)
}

/// `(-R)^j` modulo P.
pub open spec fn neg_r_pow(j: nat) -> int
    decreases j,
{
    if j == 0 {
        1
    } else {
        mod_p(neg_r_pow((j - 1) as nat) * (-R))
    }
}

/// The `i`-th term of coefficient `k` of `a * b` modulo x^32 + R: a product
/// that wraps past x^32 is multiplied by -R.
pub open spec fn wrap32_term(a: Seq<i64>, b: Seq<i64>, k: int, i: int) -> int {
    if i <= k {
        a[i] * b[k - i]
    } else {
        -R * (a[i] * b[k + 32 - i])
    }
}

/// The product in Z_P[x]/(x^32 + R), with coefficients in [0, P).
pub open spec fn mul32_spec(a: Seq<i64>, b: Seq<i64>) -> Seq<i64> {
    Seq::new(32, |k: int| mod_p(sum(|i: int| wrap32_term(a, b, k, i), 0, 32)) as i64)
}

/// Coefficient-wise sum modulo P.
pub open spec fn add32_spec(a: Seq<i64>, b: Seq<i64>) -> Seq<i64> {
    Seq::new(32, |k: int| mod_p(a[k] + b[k]) as i64)
}

/// Coefficient-wise difference modulo P.
pub open spec fn sub32_spec(a: Seq<i64>, b: Seq<i64>) -> Seq<i64> {
    Seq::new(32, |k: int| mod_p(a[k] - b[k]) as i64)
}

/// The element with every coefficient zero.
pub open spec fn zero32_spec() -> Seq<i64> {
    Seq::new(32, |k: int| 0i64)
}

/// `sum_k a[k] * b[k]` over the first `n` pairs, in Z_P[x]/(x^32 + R).
pub open spec fn inner_product32_spec(a: Seq<Poly32>, b: Seq<Poly32>, n: int) -> Seq<i64>
    decreases n,
{
    if n <= 0 {
        zero32_spec()
    } else {
        add32_spec(inner_product32_spec(a, b, n - 1), mul32_spec(a[n - 1].coeff@, b[n - 1].coeff@))
    }
}

/// The image of an element of Z_Q[x]/(x^256 + 1) in Z_P[x]/(x^32 + R):
/// coefficient `i` is `sum_j a[i + 32 j] (-R)^j` modulo P.
pub open spec fn fold_spec(a: Seq<i64>) -> Seq<i64> {
    Seq::new(32, |i: int| mod_p(sum(|j: int| a[i + 32 * j] * neg_r_pow(j as nat), 0, 8)) as i64)
}

/// `n` residues modulo P drawn one after another by rejection from the words
/// at `pos` on, and the position after them.
pub open spec fn draw_mod_p_coeffs(seed: Seq<u8>, pos: int, n: nat) -> Option<(Seq<i64>, int)>
    decreases n,
{
    if n == 0 {
        Some((Seq::empty(), pos))
    } else {
        match draw_mod_p_coeffs(seed, pos, (n - 1) as nat) {
            None => None,
            Some((cs, p)) => match next_below(seed, p, P_RS_RANGE) {
                None => None,
                Some(q) => Some((cs.push((chacha20_word(seed, q) % (P as u32)) as i64), q + 1)),
            },
        }
    }
}

proof fn lemma_draw_mod_p_none(seed: Seq<u8>, pos: int, m: nat, n: nat)
    requires
        m <= n,
        draw_mod_p_coeffs(seed, pos, m) is None,
    ensures
        draw_mod_p_coeffs(seed, pos, n) is None,
    decreases n - m,
{
    if m < n {
        lemma_draw_mod_p_none(seed, pos, (m + 1) as nat, n);
    }
}

/// An element of Z_P[x]/(x^32 + R): coefficient `i` belongs to x^i.
#[derive(Clone, Copy, Debug, PartialEq)]
pub struct Poly32 {
    pub coeff: [i64; 32],
}

/// Reduces a 64-bit value modulo P.
pub fn reduce_p(x: i64) -> (r: i64)
    ensures
        r == mod_p(x as int),
        0 <= r < P,
{
    let t = x % P;
    if t < 0 {
        t + P
    } else {
        t
    }
}

impl Poly32 {
    /// Every coefficient lies strictly between -P and P.
    pub open spec fn wf(&self) -> bool {
        forall|i: int| 0 <= i < 32 ==> -P < #[trigger] self.coeff@[i] < P
    }

    /// Every coefficient lies in [0, P).
    pub open spec fn is_normalized(&self) -> bool {
        forall|i: int| 0 <= i < 32 ==> 0 <= #[trigger] self.coeff@[i] < P
    }

    /// The zero element.
    pub fn zero() -> (r: Poly32)
        ensures
            r.coeff@ == zero32_spec(),
            r.is_normalized(),
    {
        let mut coeff = [0i64; 32];
        for i in 0usize..32
            invariant
                forall|k: int| 0 <= k < i ==> #[trigger] coeff@[k] == 0,
        {
            coeff[i] = 0;
        }
        let r = Poly32 { coeff };
        assert(r.coeff@ =~= zero32_spec());
        r
    }

    /// Coefficient-wise addition modulo P.
    pub fn add(a: &Poly32, b: &Poly32) -> (r: Poly32)
        requires
            a.wf(),
            b.wf(),
        ensures
            r.coeff@ == add32_spec(a.coeff@, b.coeff@),
            r.is_normalized(),
    {
        let mut res = [0i64; 32];
        for i in 0usize..32
            invariant
                a.wf(),
                b.wf(),
                forall|k: int| 0 <= k < i ==> #[trigger] res@[k] == add32_spec(a.coeff@, b.coeff@)[k],
                forall|k: int| 0 <= k < i ==> 0 <= #[trigger] res@[k] < P,
        {
            res[i] = reduce_p(a.coeff[i] + b.coeff[i]);
        }
        let r = Poly32 { coeff: res };
        assert(r.coeff@ =~= add32_spec(a.coeff@, b.coeff@));
        r
    }

    /// Coefficient-wise subtraction modulo P.
    pub fn sub(a: &Poly32, b: &Poly32) -> (r: Poly32)
        requires
            a.wf(),
            b.wf(),
        ensures
            r.coeff@ == sub32_spec(a.coeff@, b.coeff@),
            r.is_normalized(),
    {
        let mut res = [0i64; 32];
        for i in 0usize..32
            invariant
                a.wf(),
                b.wf(),
                forall|k: int| 0 <= k < i ==> #[trigger] res@[k] == sub32_spec(a.coeff@, b.coeff@)[k],
                forall|k: int| 0 <= k < i ==> 0 <= #[trigger] res@[k] < P,
        {
            res[i] = reduce_p(a.coeff[i] - b.coeff[i]);
        }
        let r = Poly32 { coeff: res };
        assert(r.coeff@ =~= sub32_spec(a.coeff@, b.coeff@));
        r
    }

    /// Multiplication in Z_P[x]/(x^32 + R).
    pub fn mul(a: &Poly32, b: &Poly32) -> (r: Poly32)
        requires
            a.wf(),
            b.wf(),
        ensures
            r.coeff@ == mul32_spec(a.coeff@, b.coeff@),
            r.is_normalized(),
    {
        school_book32(a, b)
    }

    /// Replaces `self` by `self + b`.
    pub fn add_assign(&mut self, b: &Poly32)
        requires
            old(self).wf(),
            b.wf(),
        ensures
            final(self).coeff@ == add32_spec(old(self).coeff@, b.coeff@),
            final(self).is_normalized(),
    {
        *self = Poly32::add(self, b);
    }

    /// Lifts every coefficient into [0, P).
    pub fn normalized(&mut self)
        ensures
            forall|k: int| 0 <= k < 32 ==> #[trigger] final(self).coeff@[k] == mod_p(old(self).coeff@[k] as int),
            final(self).is_normalized(),
    {
        for i in 0usize..32
            invariant
                forall|k: int| 0 <= k < i ==> #[trigger] self.coeff@[k] == mod_p(old(self).coeff@[k] as int),
                forall|k: int| i <= k < 32 ==> #[trigger] self.coeff@[k] == old(self).coeff@[k],
        {
            self.coeff[i] = reduce_p(self.coeff[i]);
        }
    }

    /// Lifts every coefficient into (-P/2, P/2].
    pub fn centered(&mut self)
        ensures
            forall|k: int| 0 <= k < 32 ==> #[trigger] final(self).coeff@[k] == if 2 * mod_p(old(self).coeff@[k] as int) > P {
                mod_p(old(self).coeff@[k] as int) - P
            } else {
                mod_p(old(self).coeff@[k] as int)
            },
    {
        for i in 0usize..32
            invariant
                forall|k: int| 0 <= k < i ==> #[trigger] self.coeff@[k] == if 2 * mod_p(old(self).coeff@[k] as int) > P {
                    mod_p(old(self).coeff@[k] as int) - P
                } else {
                    mod_p(old(self).coeff@[k] as int)
                },
                forall|k: int| i <= k < 32 ==> #[trigger] self.coeff@[k] == old(self).coeff@[k],
        {
            let e = reduce_p(self.coeff[i]);
            self.coeff[i] = if 2 * e > P {
                e - P
            } else {
                e
            };
        }
    }

    /// An element with coefficients uniform in [0, P), drawn by rejection from
    /// 32-bit words; `None` once the stream's positions are used up.
    pub fn uniform_random(ks: &mut KeyStream) -> (r: Option<Poly32>)
        ensures
            final(ks).seed == old(ks).seed,
            match draw_mod_p_coeffs(old(ks).seed@, old(ks).pos as int, 32) {
                None => r is None,
                Some((cs, p)) => r matches Some(x) && x.coeff@ == cs && final(ks).pos == p,
            },
            r matches Some(x) ==> x.is_normalized(),
    {
        let ghost seed = ks.seed@;
        let ghost start = ks.pos as int;
        let mut coeff = [0i64; 32];
        for i in 0usize..32
            invariant
                ks.seed == old(ks).seed,
                seed == ks.seed@,
                start == old(ks).pos,
                draw_mod_p_coeffs(seed, start, i as nat) == Some((coeff@.take(i as int), ks.pos as int)),
                forall|k: int| 0 <= k < i ==> 0 <= #[trigger] coeff@[k] < P,
        {
            let w = match draw_below(ks, P_RS_RANGE) {
                None => {
                    proof {
                        lemma_draw_mod_p_none(seed, start, (i + 1) as nat, 32);
                    }
                    return None;
                },
                Some(w) => w,
            };
            coeff[i] = (w % (P as u32)) as i64;
            assert(coeff@.take(i + 1) =~= coeff@.take(i as int).push(coeff@[i as int]));
        }
        assert(coeff@.take(32) =~= coeff@);
        Some(Poly32 { coeff })
    }
}

impl From<Poly256> for Poly32 {
    /// Folds an element of Z_Q[x]/(x^256 + 1) into Z_P[x]/(x^32 + R).
    fn from(a: Poly256) -> (r: Poly32)
        ensures
            r.coeff@ == fold_spec(a.coeff@),
            r.is_normalized(),
    {
        let mut res = [0i64; 32];
        for i in 0usize..32
            invariant
                forall|k: int| 0 <= k < i ==> #[trigger] res@[k] == fold_spec(a.coeff@)[k],
                forall|k: int| 0 <= k < i ==> 0 <= #[trigger] res@[k] < P,
        {
            let ghost f = |j: int| a.coeff@[i + 32 * j] * neg_r_pow(j as nat);
            let mut e: i128 = 0;
            for j in 0usize..8
                invariant
                    i < 32,
                    f == (|j: int| a.coeff@[i + 32 * j] * neg_r_pow(j as nat)),
                    e == sum(f, 0, j as int),
                    -j * 0x40_0000_0000_0000_0000_0000 <= e <= j * 0x40_0000_0000_0000_0000_0000,
            {
                let rj = r_base(j);
                let x = a.coeff[i + 32 * j];
                proof {
                    assert(-0x40_0000_0000_0000_0000_0000 <= x * rj <= 0x40_0000_0000_0000_0000_0000) by (nonlinear_arith)
                        requires
                            -0x8000_0000_0000_0000 <= x < 0x8000_0000_0000_0000,
                            0 <= rj < 2_097_169,
                    ;
                }
                e = e + (x as i128) * (rj as i128);
            }
            let t = e % (P as i128);
            res[i] = if t < 0 {
                (t + P as i128) as i64
            } else {
                t as i64
            };
        }
        let r = Poly32 { coeff: res };
        assert(r.coeff@ =~= fold_spec(a.coeff@));
        r
    }
}

/// What the conversion returns is stated by the `ensures` of `from` itself
/// (`fold_spec`); no value is claimed for it at the spec level.
impl vstd::std_specs::convert::FromSpecImpl<Poly256> for Poly32 {
    open spec fn obeys_from_spec() -> bool {
        false
    }

    open spec fn from_spec(a: Poly256) -> Poly32 {
        arbitrary()
    }
}

proof fn lemma_r_base()
    ensures
        neg_r_pow(0) == 1,
        neg_r_pow(1) == 1_244_801,
        neg_r_pow(2) == 562_078,
        neg_r_pow(3) == 957_346,
        neg_r_pow(4) == 1_556_910,
        neg_r_pow(5) == 1_017_123,
        neg_r_pow(6) == 275_829,
        neg_r_pow(7) == 1_609_180,
{
    assert(neg_r_pow(0) == 1);
    assert(neg_r_pow(1) == mod_p(neg_r_pow(0) * (-R)));
    assert((-852_368int) % 2_097_169 == 1_244_801) by (nonlinear_arith);
    assert(neg_r_pow(2) == mod_p(1_244_801 * (-R)));
    assert((1_244_801int * -852_368) % 2_097_169 == 562_078) by (nonlinear_arith);
    assert(neg_r_pow(3) == mod_p(562_078 * (-R)));
    assert((562_078int * -852_368) % 2_097_169 == 957_346) by (nonlinear_arith);
    assert(neg_r_pow(4) == mod_p(957_346 * (-R)));
    assert((957_346int * -852_368) % 2_097_169 == 1_556_910) by (nonlinear_arith);
    assert(neg_r_pow(5) == mod_p(1_556_910 * (-R)));
    assert((1_556_910int * -852_368) % 2_097_169 == 1_017_123) by (nonlinear_arith);
    assert(neg_r_pow(6) == mod_p(1_017_123 * (-R)));
    assert((1_017_123int * -852_368) % 2_097_169 == 275_829) by (nonlinear_arith);
    assert(neg_r_pow(7) == mod_p(275_829 * (-R)));
    assert((275_829int * -852_368) % 2_097_169 == 1_609_180) by (nonlinear_arith);
}

/// `(-R)^j` modulo P, for `j < 8`.
fn r_base(j: usize) -> (r: i64)
    requires
        j < 8,
    ensures
        r == neg_r_pow(j as nat),
        0 <= r < P,
{
    proof {
        lemma_r_base();
    }
    if j == 0 {
        1
    } else if j == 1 {
        1_244_801
    } else if j == 2 {
        562_078
    } else if j == 3 {
        957_346
    } else if j == 4 {
        1_556_910
    } else if j == 5 {
        1_017_123
    } else if j == 6 {
        275_829
    } else {
        1_609_180
    }
}

/// The term of row `i` in coefficient `t` of the plain (unreduced) product.
pub open spec fn row32_term(a: Seq<i64>, b: Seq<i64>, t: int, i: int) -> int {
    if 0 <= t - i < 32 {
        a[i] * b[t - i]
    } else {
        0
    }
}

proof fn lemma_prod32_bound(x: i64, y: i64)
    requires
        -P < x < P,
        -P < y < P,
    ensures
        -4_398_113_620_224 <= x * y <= 4_398_113_620_224,
{
    assert(-4_398_113_620_224 <= x * y <= 4_398_113_620_224) by (nonlinear_arith)
        requires
            -2_097_168 <= x <= 2_097_168,
            -2_097_168 <= y <= 2_097_168,
    ;
}

proof fn lemma_row32_sum_bound(a: Seq<i64>, b: Seq<i64>, t: int, n: int)
    requires
        a.len() == 32,
        b.len() == 32,
        forall|i: int| 0 <= i < 32 ==> -P < #[trigger] a[i] < P,
        forall|i: int| 0 <= i < 32 ==> -P < #[trigger] b[i] < P,
        0 <= n <= 32,
    ensures
        -n * 4_398_113_620_224 <= sum(|i: int| row32_term(a, b, t, i), 0, n) <= n * 4_398_113_620_224,
    decreases n,
{
    if n > 0 {
        lemma_row32_sum_bound(a, b, t, n - 1);
        if 0 <= t - (n - 1) < 32 {
            lemma_prod32_bound(a[n - 1], b[t - (n - 1)]);
        }
    }
}

proof fn lemma_rows32_wrap(a: Seq<i64>, b: Seq<i64>, k: int, n: int)
    requires
        0 <= k < 32,
        0 <= n <= 32,
    ensures
        sum(|i: int| row32_term(a, b, k, i), 0, n) - R * sum(|i: int| row32_term(a, b, k + 32, i), 0, n)
            == sum(|i: int| wrap32_term(a, b, k, i), 0, n),
    decreases n,
{
    if n > 0 {
        lemma_rows32_wrap(a, b, k, n - 1);
        let i = n - 1;
        if i > k {
            assert(R * (a[i] * b[k + 32 - i]) == -(-R * (a[i] * b[k + 32 - i])));
        }
    }
}

proof fn lemma_mod_p_shift(x: int, y: int)
    ensures
        mod_p(x - R * mod_p(y)) == mod_p(x - R * y),
{
    let p = P as int;
    vstd::arithmetic::div_mod::lemma_fundamental_div_mod(y, p);
    let q = y / p;
    assert(x - R * y == (x - R * mod_p(y)) + p * (-R * q)) by (nonlinear_arith)
        requires
            y == p * q + mod_p(y),
    ;
    vstd::arithmetic::div_mod::lemma_mod_multiples_vanish(-R * q, x - R * mod_p(y), p);
    assert(p * (-R * q) + (x - R * mod_p(y)) == x - R * y);
}

/// Schoolbook multiplication in Z_P[x]/(x^32 + R).
fn school_book32(a: &Poly32, b: &Poly32) -> (r: Poly32)
    requires
        a.wf(),
        b.wf(),
    ensures
        r.coeff@ == mul32_spec(a.coeff@, b.coeff@),
        r.is_normalized(),
{
    let ghost av = a.coeff@;
    let ghost bv = b.coeff@;
    let mut res = [0i64; 64];
    let mut i: usize = 0;
    while i < 32
        invariant
            0 <= i <= 32,
            av == a.coeff@,
            bv == b.coeff@,
            a.wf(),
            b.wf(),
            forall|t: int| 0 <= t < 64 ==> #[trigger] res@[t] == sum(|m: int| row32_term(av, bv, t, m), 0, i as int),
        decreases 32 - i,
    {
        let mut j: usize = 0;
        while j < 32
            invariant
                0 <= i < 32,
                0 <= j <= 32,
                av == a.coeff@,
                bv == b.coeff@,
                a.wf(),
                b.wf(),
                forall|t: int| 0 <= t < 64 ==> #[trigger] res@[t] == sum(|m: int| row32_term(av, bv, t, m), 0, i as int)
                    + (if i <= t < i + j { av[i as int] * bv[t - i] } else { 0 }),
            decreases 32 - j,
        {
            proof {
                lemma_row32_sum_bound(av, bv, (i + j) as int, i as int);
                lemma_prod32_bound(av[i as int], bv[j as int]);
            }
            res[i + j] = res[i + j] + a.coeff[i] * b.coeff[j];
            j += 1;
        }
        assert forall|t: int| 0 <= t < 64 implies #[trigger] res@[t] == sum(|m: int| row32_term(av, bv, t, m), 0, (i + 1) as int) by {
            assert(sum(|m: int| row32_term(av, bv, t, m), 0, (i + 1) as int)
                == sum(|m: int| row32_term(av, bv, t, m), 0, i as int) + row32_term(av, bv, t, i as int));
        }
        i += 1;
    }
    let mut out = [0i64; 32];
    for k in 0usize..32
        invariant
            av == a.coeff@,
            bv == b.coeff@,
            a.wf(),
            b.wf(),
            forall|t: int| 0 <= t < 64 ==> #[trigger] res@[t] == sum(|m: int| row32_term(av, bv, t, m), 0, 32),
            forall|t: int| 0 <= t < k ==> #[trigger] out@[t] == mul32_spec(av, bv)[t],
            forall|t: int| 0 <= t < k ==> 0 <= #[trigger] out@[t] < P,
    {
        proof {
            lemma_row32_sum_bound(av, bv, k as int, 32);
            lemma_rows32_wrap(av, bv, k as int, 32);
            lemma_mod_p_shift(res@[k as int] as int, res@[k + 32] as int);
        }
        let high = reduce_p(res[k + 32]);
        out[k] = reduce_p(res[k] - R * high);
    }
    let r = Poly32 { coeff: out };
    assert(r.coeff@ =~= mul32_spec(av, bv));
    r
}

/// `sum_k a[k] * b[k]` in Z_P[x]/(x^32 + R), with coefficients in [0, P).
pub fn poly32_inner_product(a: &[Poly32], b: &[Poly32]) -> (r: Poly32)
    requires
        a@.len() == b@.len(),
        forall|i: int| 0 <= i < a@.len() ==> (#[trigger] a@[i]).wf(),
        forall|i: int| 0 <= i < b@.len() ==> (#[trigger] b@[i]).wf(),
    ensures
        r.coeff@ == inner_product32_spec(a@, b@, a@.len() as int),
        r.is_normalized(),
{
    let mut res = Poly32::zero();
    for i in 0..a.len()
        invariant
            a@.len() == b@.len(),
            forall|j: int| 0 <= j < a@.len() ==> (#[trigger] a@[j]).wf(),
            forall|j: int| 0 <= j < b@.len() ==> (#[trigger] b@[j]).wf(),
            res.coeff@ == inner_product32_spec(a@, b@, i as int),
            res.is_normalized(),
    {
        let p = Poly32::mul(&a[i], &b[i]);
        res.add_assign(&p);
    }
    res
}

} // verus!
