use vstd::prelude::*;

use crate::param::Q;

verus! {

/// Residue of `x` modulo Q, in [0, Q).
pub open spec fn mod_q(x: int) -> int {
    x % (Q as int)
}

/// The representative of a residue `x` in [0, Q) that lies in (-Q/2, Q/2].
pub open spec fn center(x: int) -> int {
    if 2 * x > Q {
        x - Q
    } else {
        x
    }
}

/// The sum of `f(i)` for `lo <= i < hi`.
pub open spec fn sum(f: spec_fn(int) -> int, lo: int, hi: int) -> int
    decreases hi - lo,
{
    if lo >= hi {
        0
    } else {
        sum(f, lo, hi - 1) + f(hi - 1)
    }
}

/// The `i`-th term of coefficient `k` of `a * b` modulo x^256 + 1: a product
/// that wraps past x^256 changes sign.
pub open spec fn wrap_term(a: Seq<i64>, b: Seq<i64>, k: int, i: int) -> int {
    if i <= k {
        a[i] * b[k - i]
    } else {
        -(a[i] * b[k + 256 - i])
    }
}

/// Coefficient `k` of `a * b` in Z[x]/(x^256 + 1).
pub open spec fn wrap_coeff(a: Seq<i64>, b: Seq<i64>, k: int) -> int {
    sum(|i: int| wrap_term(a, b, k, i), 0, 256)
}

/// Coefficient-wise sum modulo Q.
pub open spec fn add_spec(a: Seq<i64>, b: Seq<i64>) -> Seq<i64> {
    Seq::new(256, |k: int| mod_q(a[k] + b[k]) as i64)
}

/// Coefficient-wise difference modulo Q.
pub open spec fn sub_spec(a: Seq<i64>, b: Seq<i64>) -> Seq<i64> {
    Seq::new(256, |k: int| mod_q(a[k] - b[k]) as i64)
}

/// The product in Z_Q[x]/(x^256 + 1), with coefficients in [0, Q).
pub open spec fn mul_spec(a: Seq<i64>, b: Seq<i64>) -> Seq<i64> {
    Seq::new(256, |k: int| mod_q(wrap_coeff(a, b, k)) as i64)
}

/// Every coefficient reduced into [0, Q).
pub open spec fn normalized_spec(a: Seq<i64>) -> Seq<i64> {
    Seq::new(256, |k: int| mod_q(a[k] as int) as i64)
}

/// Every coefficient reduced into (-Q/2, Q/2].
pub open spec fn centered_spec(a: Seq<i64>) -> Seq<i64> {
    Seq::new(256, |k: int| center(mod_q(a[k] as int)) as i64)
}

/// The element with every coefficient zero.
pub open spec fn zero_spec() -> Seq<i64> {
    Seq::new(256, |k: int| 0i64)
}

/// `sum_k a[k] * b[k]` over the first `n` pairs, in Z_Q[x]/(x^256 + 1).
pub open spec fn inner_product_spec(a: Seq<Seq<i64>>, b: Seq<Seq<i64>>, n: int) -> Seq<i64>
    decreases n,
{
    if n <= 0 {
        zero_spec()
    } else {
        add_spec(inner_product_spec(a, b, n - 1), mul_spec(a[n - 1], b[n - 1]))
    }
}

/// The coefficient sequences of a sequence of elements.
pub open spec fn coeffs(a: Seq<Poly256>) -> Seq<Seq<i64>> {
    a.map_values(|p: Poly256| p.coeff@)
}

/// A coefficient sequence of length 256 with every entry strictly between -Q and Q.
pub open spec fn bounded(a: Seq<i64>) -> bool {
    a.len() == 256 && forall|i: int| 0 <= i < 256 ==> -Q < #[trigger] a[i] < Q
}

/// A coefficient sequence of length 256 with every entry in [0, Q).
pub open spec fn reduced(a: Seq<i64>) -> bool {
    a.len() == 256 && forall|i: int| 0 <= i < 256 ==> 0 <= #[trigger] a[i] < Q
}

/// An element of Z_Q[x]/(x^256 + 1): coefficient `i` belongs to x^i.
#[derive(Clone, Copy, Debug)]
pub struct Poly256 {
    pub coeff: [i64; 256],
}

impl Poly256 {
    /// Every coefficient lies strictly between -Q and Q, the range that the
    /// arithmetic accepts.
    pub open spec fn wf(&self) -> bool {
        bounded(self.coeff@)
    }

    /// Every coefficient lies in [0, Q).
    pub open spec fn is_normalized(&self) -> bool {
        reduced(self.coeff@)
    }

    /// Every coefficient lies in (-Q/2, Q/2].
    pub open spec fn is_centered(&self) -> bool {
        forall|i: int| 0 <= i < 256 ==> -Q < 2 * #[trigger] self.coeff@[i] <= Q
    }

    /// The zero element.
    pub fn zero() -> (r: Poly256)
        ensures
            r.coeff@ == zero_spec(),
            r.is_normalized(),
    {
        let mut coeff = [0i64; 256];
        for i in 0usize..256
            invariant
                forall|k: int| 0 <= k < i ==> #[trigger] coeff@[k] == 0,
        {
            coeff[i] = 0;
        }
        let r = Poly256 { coeff };
        assert(r.coeff@ =~= zero_spec());
        r
    }

    /// Coefficient-wise addition modulo Q.
    pub fn add(a: &Poly256, b: &Poly256) -> (r: Poly256)
        requires
            a.wf(),
            b.wf(),
        ensures
            r.coeff@ == add_spec(a.coeff@, b.coeff@),
            r.is_normalized(),
    {
        let mut res = [0i64; 256];
        for i in 0..256
            invariant
                a.wf(),
                b.wf(),
                forall|k: int| 0 <= k < i ==> res@[k] == add_spec(a.coeff@, b.coeff@)[k],
        {
            res[i] = reduce(a.coeff[i] + b.coeff[i]);
        }
        let r = Poly256 { coeff: res };
        assert(r.coeff@ =~= add_spec(a.coeff@, b.coeff@));
        r
    }

    /// Coefficient-wise subtraction modulo Q.
    pub fn sub(a: &Poly256, b: &Poly256) -> (r: Poly256)
        requires
            a.wf(),
            b.wf(),
        ensures
            r.coeff@ == sub_spec(a.coeff@, b.coeff@),
            r.is_normalized(),
    {
        let mut res = [0i64; 256];
        for i in 0..256
            invariant
                a.wf(),
                b.wf(),
                forall|k: int| 0 <= k < i ==> res@[k] == sub_spec(a.coeff@, b.coeff@)[k],
        {
            res[i] = reduce(a.coeff[i] - b.coeff[i]);
        }
        let r = Poly256 { coeff: res };
        assert(r.coeff@ =~= sub_spec(a.coeff@, b.coeff@));
        r
    }

    /// Multiplication in Z_Q[x]/(x^256 + 1).
    pub fn mul(a: &Poly256, b: &Poly256) -> (r: Poly256)
        requires
            a.wf(),
            b.wf(),
        ensures
            r.coeff@ == mul_spec(a.coeff@, b.coeff@),
            r.is_normalized(),
    {
        school_book(a, b)
    }

    /// Replaces `self` by `self + b`.
    pub fn add_assign(&mut self, b: &Poly256)
        requires
            old(self).wf(),
            b.wf(),
        ensures
            final(self).coeff@ == add_spec(old(self).coeff@, b.coeff@),
            final(self).is_normalized(),
    {
        *self = Poly256::add(self, b);
    }

    /// Replaces `self` by `self - b`.
    pub fn sub_assign(&mut self, b: &Poly256)
        requires
            old(self).wf(),
            b.wf(),
        ensures
            final(self).coeff@ == sub_spec(old(self).coeff@, b.coeff@),
            final(self).is_normalized(),
    {
        *self = Poly256::sub(self, b);
    }

    /// Replaces `self` by `self * b`.
    pub fn mul_assign(&mut self, b: &Poly256)
        requires
            old(self).wf(),
            b.wf(),
        ensures
            final(self).coeff@ == mul_spec(old(self).coeff@, b.coeff@),
            final(self).is_normalized(),
    {
        *self = Poly256::mul(self, b);
    }

    /// Lifts every coefficient into [0, Q).
    pub fn normalized(&mut self)
        ensures
            final(self).coeff@ == normalized_spec(old(self).coeff@),
            final(self).is_normalized(),
    {
        for i in 0..256
            invariant
                forall|k: int| 0 <= k < i ==> self.coeff@[k] == normalized_spec(old(self).coeff@)[k],
                forall|k: int| i <= k < 256 ==> self.coeff@[k] == old(self).coeff@[k],
        {
            self.coeff[i] = reduce(self.coeff[i]);
        }
        assert(self.coeff@ =~= normalized_spec(old(self).coeff@));
    }

    /// Lifts every coefficient into (-Q/2, Q/2].
    pub fn centered(&mut self)
        ensures
            final(self).coeff@ == centered_spec(old(self).coeff@),
            final(self).is_centered(),
            final(self).wf(),
    {
        for i in 0..256
            invariant
                forall|k: int| 0 <= k < i ==> self.coeff@[k] == centered_spec(old(self).coeff@)[k],
                forall|k: int| i <= k < 256 ==> self.coeff@[k] == old(self).coeff@[k],
        {
            let e = reduce(self.coeff[i]);
            self.coeff[i] = if 2 * e > Q {
                e - Q
            } else {
                e
            };
        }
        assert(self.coeff@ =~= centered_spec(old(self).coeff@));
    }
}

/// Reduces a 64-bit value modulo Q.
pub fn reduce(x: i64) -> (r: i64)
    ensures
        r == mod_q(x as int),
        0 <= r < Q,
{
    let t = x % Q;
    if t < 0 {
        t + Q
    } else {
        t
    }
}

/// The largest magnitude of a product of two bounded coefficients.
pub open spec fn max_prod() -> int {
    10_136_397_964_902_400
}

/// The term of row `i` in coefficient `t` of the plain (unreduced) product.
pub open spec fn row_term(a: Seq<i64>, b: Seq<i64>, t: int, i: int) -> int {
    if 0 <= t - i < 256 {
        a[i] * b[t - i]
    } else {
        0
    }
}

proof fn lemma_prod_bound(x: i64, y: i64)
    requires
        -Q < x < Q,
        -Q < y < Q,
    ensures
        -max_prod() <= x * y <= max_prod(),
{
    assert(-10_136_397_964_902_400 <= x * y <= 10_136_397_964_902_400) by (nonlinear_arith)
        requires
            -100_679_680 <= x <= 100_679_680,
            -100_679_680 <= y <= 100_679_680,
    ;
}

proof fn lemma_row_sum_bound(a: Seq<i64>, b: Seq<i64>, t: int, n: int)
    requires
        bounded(a),
        bounded(b),
        0 <= n <= 256,
    ensures
        -n * max_prod() <= sum(|i: int| row_term(a, b, t, i), 0, n) <= n * max_prod(),
    decreases n,
{
    if n > 0 {
        lemma_row_sum_bound(a, b, t, n - 1);
        if 0 <= t - (n - 1) < 256 {
            lemma_prod_bound(a[n - 1], b[t - (n - 1)]);
        }
    }
}

proof fn lemma_rows_wrap(a: Seq<i64>, b: Seq<i64>, k: int, n: int)
    requires
        0 <= k < 256,
        0 <= n <= 256,
    ensures
        sum(|i: int| row_term(a, b, k, i), 0, n) - sum(|i: int| row_term(a, b, k + 256, i), 0, n)
            == sum(|i: int| wrap_term(a, b, k, i), 0, n),
    decreases n,
{
    if n > 0 {
        lemma_rows_wrap(a, b, k, n - 1);
    }
}

/// Schoolbook multiplication in Z_Q[x]/(x^256 + 1).
pub fn school_book(a: &Poly256, b: &Poly256) -> (r: Poly256)
    requires
        a.wf(),
        b.wf(),
    ensures
        r.coeff@ == mul_spec(a.coeff@, b.coeff@),
        r.is_normalized(),
{
    let ghost av = a.coeff@;
    let ghost bv = b.coeff@;
    let mut res = [0i64; 512];
    let mut i: usize = 0;
    while i < 256
        invariant
            0 <= i <= 256,
            av == a.coeff@,
            bv == b.coeff@,
            bounded(av),
            bounded(bv),
            forall|t: int| 0 <= t < 512 ==> #[trigger] res@[t] == sum(|m: int| row_term(av, bv, t, m), 0, i as int),
        decreases 256 - i,
    {
        let mut j: usize = 0;
        while j < 256
            invariant
                0 <= i < 256,
                0 <= j <= 256,
                av == a.coeff@,
                bv == b.coeff@,
                bounded(av),
                bounded(bv),
                forall|t: int| 0 <= t < 512 ==> #[trigger] res@[t] == sum(|m: int| row_term(av, bv, t, m), 0, i as int)
                    + (if i <= t < i + j { av[i as int] * bv[t - i] } else { 0 }),
            decreases 256 - j,
        {
            proof {
                lemma_row_sum_bound(av, bv, (i + j) as int, i as int);
                lemma_prod_bound(av[i as int], bv[j as int]);
            }
            res[i + j] = res[i + j] + a.coeff[i] * b.coeff[j];
            j += 1;
        }
        assert forall|t: int| 0 <= t < 512 implies #[trigger] res@[t] == sum(|m: int| row_term(av, bv, t, m), 0, (i + 1) as int) by {
            assert(sum(|m: int| row_term(av, bv, t, m), 0, (i + 1) as int)
                == sum(|m: int| row_term(av, bv, t, m), 0, i as int) + row_term(av, bv, t, i as int));
        }
        i += 1;
    }
    let mut out = [0i64; 256];
    for k in 0..256
        invariant
            av == a.coeff@,
            bv == b.coeff@,
            bounded(av),
            bounded(bv),
            forall|t: int| 0 <= t < 512 ==> #[trigger] res@[t] == sum(|m: int| row_term(av, bv, t, m), 0, 256),
            forall|t: int| 0 <= t < k ==> out@[t] == mul_spec(av, bv)[t],
    {
        proof {
            lemma_row_sum_bound(av, bv, k as int, 256);
            lemma_row_sum_bound(av, bv, k + 256, 256);
            lemma_rows_wrap(av, bv, k as int, 256);
        }
        out[k] = reduce(res[k] - res[k + 256]);
    }
    let r = Poly256 { coeff: out };
    assert(r.coeff@ =~= mul_spec(av, bv));
    r
}

/// `sum_k a[k] * b[k]` in Z_Q[x]/(x^256 + 1), with coefficients in [0, Q).
pub fn poly256_inner_product(a: &[Poly256], b: &[Poly256]) -> (r: Poly256)
    requires
        a@.len() == b@.len(),
        forall|i: int| 0 <= i < a@.len() ==> (#[trigger] a@[i]).wf(),
        forall|i: int| 0 <= i < b@.len() ==> (#[trigger] b@[i]).wf(),
    ensures
        r.coeff@ == inner_product_spec(coeffs(a@), coeffs(b@), a@.len() as int),
        r.is_normalized(),
{
    let mut res = Poly256::zero();
    for i in 0..a.len()
        invariant
            a@.len() == b@.len(),
            forall|j: int| 0 <= j < a@.len() ==> (#[trigger] a@[j]).wf(),
            forall|j: int| 0 <= j < b@.len() ==> (#[trigger] b@[j]).wf(),
            res.coeff@ == inner_product_spec(coeffs(a@), coeffs(b@), i as int),
            res.is_normalized(),
    {
        let p = Poly256::mul(&a[i], &b[i]);
        res.add_assign(&p);
    }
    res
}

impl PartialEq for Poly256 {
    fn eq(&self, other: &Poly256) -> (r: bool)
        ensures
            r == (self.coeff@ == other.coeff@),
    {
        let mut i: usize = 0;
        while i < 256
            invariant
                0 <= i <= 256,
                forall|k: int| 0 <= k < i ==> self.coeff@[k] == other.coeff@[k],
            decreases 256 - i,
        {
            if self.coeff[i] != other.coeff[i] {
                return false;
            }
            i += 1;
        }
        assert(self.coeff@ =~= other.coeff@);
        true
    }
}

impl vstd::std_specs::cmp::PartialEqSpecImpl for Poly256 {
    open spec fn obeys_eq_spec() -> bool {
        true
    }

    open spec fn eq_spec(&self, other: &Poly256) -> bool {
        self.coeff@ == other.coeff@
    }
}

pub(crate) proof fn lemma_sum_front(f: spec_fn(int) -> int, lo: int, hi: int)
    requires
        lo < hi,
    ensures
        sum(f, lo, hi) == f(lo) + sum(f, lo + 1, hi),
    decreases hi - lo,
{
    if lo + 1 < hi {
        lemma_sum_front(f, lo, hi - 1);
        assert(sum(f, lo + 1, hi) == sum(f, lo + 1, hi - 1) + f(hi - 1));
    } else {
        assert(sum(f, lo, hi) == sum(f, lo, lo) + f(lo));
        assert(sum(f, lo + 1, hi) == 0);
    }
}

proof fn lemma_sum_zero(f: spec_fn(int) -> int, lo: int, hi: int)
    requires
        forall|i: int| lo <= i < hi ==> #[trigger] f(i) == 0,
    ensures
        sum(f, lo, hi) == 0,
    decreases hi - lo,
{
    if lo < hi {
        lemma_sum_zero(f, lo, hi - 1);
    }
}

pub(crate) proof fn lemma_sum_split(f: spec_fn(int) -> int, lo: int, mid: int, hi: int)
    requires
        lo <= mid <= hi,
    ensures
        sum(f, lo, hi) == sum(f, lo, mid) + sum(f, mid, hi),
    decreases hi - lo,
{
    if mid < hi {
        lemma_sum_split(f, lo, mid, hi - 1);
    }
}

/// Summing `g` over `lo2 .. lo2 + (hi - lo)` visits the values of `f` over
/// `lo .. hi` in reverse order.
proof fn lemma_sum_reverse(f: spec_fn(int) -> int, g: spec_fn(int) -> int, lo: int, hi: int, lo2: int)
    requires
        lo <= hi,
        forall|j: int| 0 <= j < hi - lo ==> #[trigger] g(lo2 + j) == f(hi - 1 - j),
    ensures
        sum(f, lo, hi) == sum(g, lo2, lo2 + (hi - lo)),
    decreases hi - lo,
{
    if lo < hi {
        lemma_sum_front(g, lo2, lo2 + (hi - lo));
        assert(g(lo2 + 0) == f(hi - 1 - 0));
        assert forall|j: int| 0 <= j < hi - 1 - lo implies #[trigger] g(lo2 + 1 + j) == f(hi - 1 - 1 - j) by {
            assert(g(lo2 + (j + 1)) == f(hi - 1 - (j + 1)));
        }
        lemma_sum_reverse(f, g, lo, hi - 1, lo2 + 1);
    }
}

/// Multiplying by the zero element gives the zero element.
pub proof fn lemma_mul_zero(a: Seq<i64>)
    ensures
        mul_spec(zero_spec(), a) == zero_spec(),
        mul_spec(a, zero_spec()) == zero_spec(),
{
    assert forall|k: int| 0 <= k < 256 implies #[trigger] wrap_coeff(zero_spec(), a, k) == 0
        && wrap_coeff(a, zero_spec(), k) == 0 by {
        let f = |i: int| wrap_term(zero_spec(), a, k, i);
        let g = |i: int| wrap_term(a, zero_spec(), k, i);
        assert forall|i: int| 0 <= i < 256 implies #[trigger] f(i) == 0 && g(i) == 0 by {
            let j = if i <= k { k - i } else { k + 256 - i };
            assert(zero_spec()[j] == 0);
            assert(zero_spec()[i] == 0);
            assert(a[i] * zero_spec()[j] == 0 && zero_spec()[i] * a[j] == 0) by (nonlinear_arith)
                requires
                    zero_spec()[j] == 0,
                    zero_spec()[i] == 0,
            ;
        }
        assert forall|i: int| 0 <= i < 256 implies #[trigger] g(i) == 0 by {
            assert(f(i) == 0 && g(i) == 0);
        }
        lemma_sum_zero(f, 0, 256);
        lemma_sum_zero(g, 0, 256);
    }
    assert(mul_spec(zero_spec(), a) =~= zero_spec());
    assert(mul_spec(a, zero_spec()) =~= zero_spec());
}

/// Multiplication in Z_Q[x]/(x^256 + 1) is commutative.
pub proof fn lemma_mul_commutative(a: Seq<i64>, b: Seq<i64>)
    ensures
        mul_spec(a, b) == mul_spec(b, a),
{
    assert forall|k: int| 0 <= k < 256 implies #[trigger] wrap_coeff(a, b, k) == wrap_coeff(b, a, k) by {
        let fa = |i: int| wrap_term(a, b, k, i);
        let fb = |i: int| wrap_term(b, a, k, i);
        lemma_sum_split(fa, 0, k + 1, 256);
        lemma_sum_split(fb, 0, k + 1, 256);
        assert forall|j: int| 0 <= j < k + 1 implies #[trigger] fb(0 + j) == fa(k + 1 - 1 - j) by {
            assert(b[j] * a[k - j] == a[k - j] * b[j]) by (nonlinear_arith);
        }
        lemma_sum_reverse(fa, fb, 0, k + 1, 0);
        assert forall|j: int| 0 <= j < 256 - (k + 1) implies #[trigger] fb(k + 1 + j) == fa(256 - 1 - j) by {
            assert(b[k + 1 + j] * a[255 - j] == a[255 - j] * b[k + 1 + j]) by (nonlinear_arith);
        }
        lemma_sum_reverse(fa, fb, k + 1, 256, k + 1);
    }
    assert(mul_spec(a, b) =~= mul_spec(b, a));
}

} // verus!
