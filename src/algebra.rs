use vstd::arithmetic::div_mod::{
    lemma_add_mod_noop, lemma_fundamental_div_mod, lemma_fundamental_div_mod_converse,
    lemma_mul_mod_noop_left, lemma_mul_mod_noop_right, lemma_sub_mod_noop,
};
use vstd::prelude::*;

use crate::param::Q;
use crate::poly256::{
    add_spec, center, centered_spec, inner_product_spec, lemma_mul_commutative, lemma_mul_zero, mod_q, mul_spec,
    sub_spec, sum, wrap_coeff, wrap_term, zero_spec,
};

verus! {

/// Coefficient `t` of the signed periodic extension of `b`, for any integer
/// `t`: shifting by 256 changes the sign, as x^256 = -1.
pub open spec fn ext(b: Seq<i64>, t: int) -> int {
    if (t / 256) % 2 == 0 {
        b[t % 256] as int
    } else {
        -(b[t % 256] as int)
    }
}

/// `sum_t b[t] ext(c, u - t)`: coefficient `u` of `b * c`, before reduction,
/// for any integer `u`.
pub open spec fn conv(b: Seq<i64>, c: Seq<i64>, u: int) -> int {
    sum(|t: int| b[t] * ext(c, u - t), 0, 256)
}

proof fn lemma_ext_shift(b: Seq<i64>, t: int)
    ensures
        ext(b, t + 256) == -ext(b, t),
{
    lemma_fundamental_div_mod(t, 256);
    lemma_fundamental_div_mod_converse(t + 256, 256, t / 256 + 1, t % 256);
    lemma_fundamental_div_mod(t / 256, 2);
    lemma_fundamental_div_mod_converse(
        t / 256 + 1,
        2,
        if (t / 256) % 2 == 0 { (t / 256) / 2 } else { (t / 256) / 2 + 1 },
        if (t / 256) % 2 == 0 { 1 } else { 0 },
    );
}

proof fn lemma_ext_in_range(b: Seq<i64>, t: int)
    requires
        0 <= t < 256,
    ensures
        ext(b, t) == b[t],
{
    lemma_fundamental_div_mod_converse(t, 256, 0, t);
}

proof fn lemma_ext_below(b: Seq<i64>, t: int)
    requires
        -256 <= t < 0,
    ensures
        ext(b, t) == -b[t + 256],
{
    lemma_fundamental_div_mod_converse(t, 256, -1, t + 256);
}

pub(crate) proof fn lemma_sum_ext(f: spec_fn(int) -> int, g: spec_fn(int) -> int, lo: int, hi: int)
    requires
        forall|i: int| lo <= i < hi ==> #[trigger] f(i) == g(i),
    ensures
        sum(f, lo, hi) == sum(g, lo, hi),
    decreases hi - lo,
{
    if lo < hi {
        lemma_sum_ext(f, g, lo, hi - 1);
    }
}

pub(crate) proof fn lemma_sum_cong(f: spec_fn(int) -> int, g: spec_fn(int) -> int, lo: int, hi: int)
    requires
        forall|i: int| lo <= i < hi ==> #[trigger] mod_q(f(i)) == mod_q(g(i)),
    ensures
        mod_q(sum(f, lo, hi)) == mod_q(sum(g, lo, hi)),
    decreases hi - lo,
{
    if lo < hi {
        lemma_sum_cong(f, g, lo, hi - 1);
        assert(mod_q(f(hi - 1)) == mod_q(g(hi - 1)));
        let q = Q as int;
        lemma_add_mod_noop(sum(f, lo, hi - 1), f(hi - 1), q);
        lemma_add_mod_noop(sum(g, lo, hi - 1), g(hi - 1), q);
    }
}

pub(crate) proof fn lemma_sum_add(f: spec_fn(int) -> int, g: spec_fn(int) -> int, h: spec_fn(int) -> int, lo: int, hi: int)
    requires
        forall|i: int| lo <= i < hi ==> #[trigger] h(i) == f(i) + g(i),
    ensures
        sum(h, lo, hi) == sum(f, lo, hi) + sum(g, lo, hi),
    decreases hi - lo,
{
    if lo < hi {
        lemma_sum_add(f, g, h, lo, hi - 1);
    }
}

proof fn lemma_sum_scale(f: spec_fn(int) -> int, g: spec_fn(int) -> int, c: int, lo: int, hi: int)
    requires
        forall|i: int| lo <= i < hi ==> #[trigger] g(i) == c * f(i),
    ensures
        sum(g, lo, hi) == c * sum(f, lo, hi),
    decreases hi - lo,
{
    if lo < hi {
        lemma_sum_scale(f, g, c, lo, hi - 1);
        assert(c * sum(f, lo, hi - 1) + c * f(hi - 1) == c * (sum(f, lo, hi - 1) + f(hi - 1))) by (nonlinear_arith);
    }
}

/// Shifting the index: `sum_{lo <= t < hi} f(t) = sum_{lo - d <= t < hi - d} f(t + d)`.
pub(crate) proof fn lemma_sum_shift(f: spec_fn(int) -> int, g: spec_fn(int) -> int, lo: int, hi: int, d: int)
    requires
        forall|t: int| lo - d <= t < hi - d ==> #[trigger] g(t) == f(t + d),
    ensures
        sum(f, lo, hi) == sum(g, lo - d, hi - d),
    decreases hi - lo,
{
    if lo < hi {
        lemma_sum_shift(f, g, lo, hi - 1, d);
        assert(g(hi - 1 - d) == f(hi - 1 - d + d));
    }
}

/// A function with period 256 has the same sum over every 256 consecutive integers.
proof fn lemma_sum_periodic(f: spec_fn(int) -> int, s: int)
    requires
        forall|t: int| #[trigger] f(t + 256) == f(t),
        -256 < s <= 0,
    ensures
        sum(f, s, s + 256) == sum(f, 0, 256),
    decreases -s,
{
    if s < 0 {
        lemma_sum_periodic(f, s + 1);
        crate::poly256::lemma_sum_front(f, s, s + 256);
        assert(f(s + 256) == f(s));
    }
}

/// `j -> sum_{0 <= i < m} g(i, j)`.
pub open spec fn col_sums(g: spec_fn(int, int) -> int, m: int) -> spec_fn(int) -> int {
    |j: int| sum(|i: int| g(i, j), 0, m)
}

/// `i -> sum_{0 <= j < n} g(i, j)`.
pub open spec fn row_sums(g: spec_fn(int, int) -> int, n: int) -> spec_fn(int) -> int {
    |i: int| sum(|j: int| g(i, j), 0, n)
}

/// Exchanging the order of a double sum.
proof fn lemma_sum_swap(g: spec_fn(int, int) -> int, n: int, m: int)
    requires
        0 <= n,
        0 <= m,
    ensures
        sum(col_sums(g, m), 0, n) == sum(row_sums(g, n), 0, m),
    decreases n,
{
    if n > 0 {
        lemma_sum_swap(g, n - 1, m);
        let last = |i: int| g(i, n - 1);
        assert forall|i: int| 0 <= i < m implies #[trigger] row_sums(g, n)(i) == row_sums(g, n - 1)(i) + last(i) by {}
        lemma_sum_add(row_sums(g, n - 1), last, row_sums(g, n), 0, m);
        assert(col_sums(g, m)(n - 1) == sum(last, 0, m)) by {
            lemma_sum_ext(|i: int| g(i, n - 1), last, 0, m);
        }
    } else {
        lemma_sum_zero_rows(g, m);
    }
}

proof fn lemma_sum_zero_rows(g: spec_fn(int, int) -> int, m: int)
    requires
        0 <= m,
    ensures
        sum(row_sums(g, 0), 0, m) == 0,
    decreases m,
{
    if m > 0 {
        lemma_sum_zero_rows(g, m - 1);
    }
}

/// Coefficient `k` of the product in Z[x]/(x^256 + 1) is `conv(a, b, k)`.
proof fn lemma_wrap_conv(a: Seq<i64>, b: Seq<i64>, k: int)
    requires
        0 <= k < 256,
    ensures
        wrap_coeff(a, b, k) == conv(a, b, k),
{
    let f = |i: int| wrap_term(a, b, k, i);
    let g = |i: int| a[i] * ext(b, k - i);
    assert forall|i: int| 0 <= i < 256 implies #[trigger] f(i) == g(i) by {
        if i <= k {
            lemma_ext_in_range(b, k - i);
        } else {
            lemma_ext_below(b, k - i);
            assert(k - i + 256 == k + 256 - i);
            assert(a[i] * (-(b[k + 256 - i] as int)) == -(a[i] * b[k + 256 - i])) by (nonlinear_arith);
        }
    }
    lemma_sum_ext(f, g, 0, 256);
}

proof fn lemma_conv_shift(b: Seq<i64>, c: Seq<i64>, u: int)
    ensures
        conv(b, c, u + 256) == -conv(b, c, u),
{
    let f = |t: int| b[t] * ext(c, u - t);
    let g = |t: int| b[t] * ext(c, u + 256 - t);
    assert forall|t: int| 0 <= t < 256 implies #[trigger] g(t) == -1 * f(t) by {
        lemma_ext_shift(c, u - t);
        assert(u - t + 256 == u + 256 - t);
        assert(b[t] * (-ext(c, u - t)) == -1 * (b[t] * ext(c, u - t))) by (nonlinear_arith);
    }
    lemma_sum_scale(f, g, -1, 0, 256);
}

/// Coefficient `u` (for -256 < u < 256) of the signed extension of `b * c`
/// is congruent to `conv(b, c, u)`.
proof fn lemma_ext_mul(b: Seq<i64>, c: Seq<i64>, u: int)
    requires
        -256 < u < 256,
    ensures
        mod_q(ext(mul_spec(b, c), u)) == mod_q(conv(b, c, u)),
{
    let q = Q as int;
    let n = mul_spec(b, c);
    if u >= 0 {
        lemma_ext_in_range(n, u);
        lemma_wrap_conv(b, c, u);
        vstd::arithmetic::div_mod::lemma_mod_twice(conv(b, c, u), q);
    } else {
        lemma_ext_below(n, u);
        lemma_wrap_conv(b, c, u + 256);
        lemma_conv_shift(b, c, u);
        let v = conv(b, c, u + 256);
        assert(n[u + 256] == mod_q(v));
        lemma_sub_mod_noop(0, v, q);
        vstd::arithmetic::div_mod::lemma_mod_twice(v, q);
        assert(mod_q(0 - mod_q(v)) == mod_q(0 - v)) by {
            assert((0int % q) == 0);
        }
    }
}

/// Multiplication in Z_Q[x]/(x^256 + 1) is associative.
pub proof fn lemma_mul_associative(a: Seq<i64>, b: Seq<i64>, c: Seq<i64>)
    ensures
        mul_spec(mul_spec(a, b), c) == mul_spec(a, mul_spec(b, c)),
{
    let q = Q as int;
    let m = mul_spec(a, b);
    let n = mul_spec(b, c);
    assert forall|k: int| 0 <= k < 256 implies #[trigger] mod_q(wrap_coeff(m, c, k)) == mod_q(wrap_coeff(a, n, k)) by {
        lemma_wrap_conv(m, c, k);
        lemma_wrap_conv(a, n, k);
        // left side: sum_j m[j] ext(c, k - j) ~ sum_j conv(a, b, j) ext(c, k - j)
        let l1 = |j: int| m[j] * ext(c, k - j);
        let l2 = |j: int| conv(a, b, j) * ext(c, k - j);
        assert forall|j: int| 0 <= j < 256 implies #[trigger] mod_q(l1(j)) == mod_q(l2(j)) by {
            lemma_wrap_conv(a, b, j);
            assert(m[j] == mod_q(conv(a, b, j)));
            lemma_mul_mod_noop_left(conv(a, b, j), ext(c, k - j), q);
            lemma_mul_mod_noop_left(m[j] as int, ext(c, k - j), q);
            vstd::arithmetic::div_mod::lemma_mod_twice(conv(a, b, j), q);
        }
        lemma_sum_cong(l1, l2, 0, 256);
        // expand and exchange the double sum
        let g = |i: int, j: int| a[i] * (ext(b, j - i) * ext(c, k - j));
        assert forall|j: int| 0 <= j < 256 implies #[trigger] l2(j) == sum(|i: int| g(i, j), 0, 256) by {
            let f = |i: int| a[i] * ext(b, j - i);
            let h = |i: int| g(i, j);
            assert forall|i: int| 0 <= i < 256 implies #[trigger] h(i) == ext(c, k - j) * f(i) by {
                assert(a[i] * (ext(b, j - i) * ext(c, k - j)) == ext(c, k - j) * (a[i] * ext(b, j - i)))
                    by (nonlinear_arith);
            }
            lemma_sum_scale(f, h, ext(c, k - j), 0, 256);
            assert(conv(a, b, j) * ext(c, k - j) == ext(c, k - j) * conv(a, b, j)) by (nonlinear_arith);
        }
        lemma_sum_ext(l2, col_sums(g, 256), 0, 256);
        lemma_sum_swap(g, 256, 256);
        // each row: sum_j ext(b, j - i) ext(c, k - j) = conv(b, c, k - i)
        let r1 = row_sums(g, 256);
        let r2 = |i: int| a[i] * conv(b, c, k - i);
        assert forall|i: int| 0 <= i < 256 implies #[trigger] r1(i) == r2(i) by {
            let e = |j: int| ext(b, j - i) * ext(c, k - j);
            let h = |j: int| g(i, j);
            assert forall|j: int| 0 <= j < 256 implies #[trigger] h(j) == a[i] * e(j) by {}
            lemma_sum_scale(e, h, a[i] as int, 0, 256);
            let p = |t: int| ext(b, t) * ext(c, k - i - t);
            assert forall|t: int| 0 - i <= t < 256 - i implies #[trigger] p(t) == e(t + i) by {
                assert(t + i - i == t && k - (t + i) == k - i - t);
            }
            lemma_sum_shift(e, p, 0, 256, i);
            assert forall|t: int| #[trigger] p(t + 256) == p(t) by {
                lemma_ext_shift(b, t);
                lemma_ext_shift(c, k - i - t - 256);
                assert(k - i - (t + 256) + 256 == k - i - t);
                assert((-ext(b, t)) * (-ext(c, k - i - t)) == ext(b, t) * ext(c, k - i - t)) by (nonlinear_arith);
            }
            lemma_sum_periodic(p, -i);
            let v = |t: int| b[t] * ext(c, k - i - t);
            assert forall|t: int| 0 <= t < 256 implies #[trigger] p(t) == v(t) by {
                lemma_ext_in_range(b, t);
            }
            lemma_sum_ext(p, v, 0, 256);
        }
        lemma_sum_ext(r1, r2, 0, 256);
        // right side: sum_i a[i] ext(n, k - i) ~ sum_i a[i] conv(b, c, k - i)
        let s1 = |i: int| a[i] * ext(n, k - i);
        assert forall|i: int| 0 <= i < 256 implies #[trigger] mod_q(s1(i)) == mod_q(r2(i)) by {
            lemma_ext_mul(b, c, k - i);
            lemma_mul_mod_noop_right(a[i] as int, ext(n, k - i), q);
            lemma_mul_mod_noop_right(a[i] as int, conv(b, c, k - i), q);
        }
        lemma_sum_cong(s1, r2, 0, 256);
    }
    assert(mul_spec(m, c) =~= mul_spec(a, n));
}

/// The coefficients of `x` and `y` agree modulo Q.
pub open spec fn congruent(x: Seq<i64>, y: Seq<i64>) -> bool {
    forall|k: int| 0 <= k < 256 ==> #[trigger] mod_q(x[k] as int) == mod_q(y[k] as int)
}

proof fn lemma_ext_congruent(x: Seq<i64>, y: Seq<i64>, u: int)
    requires
        congruent(x, y),
        -256 < u < 256,
    ensures
        mod_q(ext(x, u)) == mod_q(ext(y, u)),
{
    let q = Q as int;
    if u >= 0 {
        lemma_ext_in_range(x, u);
        lemma_ext_in_range(y, u);
        assert(mod_q(x[u] as int) == mod_q(y[u] as int));
    } else {
        lemma_ext_below(x, u);
        lemma_ext_below(y, u);
        assert(mod_q(x[u + 256] as int) == mod_q(y[u + 256] as int));
        lemma_sub_mod_noop(0, x[u + 256] as int, q);
        lemma_sub_mod_noop(0, y[u + 256] as int, q);
        assert(0int % q == 0);
    }
}

/// The product depends only on the residues of the second factor.
pub proof fn lemma_mul_congruent(a: Seq<i64>, x: Seq<i64>, y: Seq<i64>)
    requires
        congruent(x, y),
    ensures
        mul_spec(a, x) == mul_spec(a, y),
{
    let q = Q as int;
    assert forall|k: int| 0 <= k < 256 implies #[trigger] mod_q(wrap_coeff(a, x, k)) == mod_q(wrap_coeff(a, y, k)) by {
        lemma_wrap_conv(a, x, k);
        lemma_wrap_conv(a, y, k);
        let f = |i: int| a[i] * ext(x, k - i);
        let g = |i: int| a[i] * ext(y, k - i);
        assert forall|i: int| 0 <= i < 256 implies #[trigger] mod_q(f(i)) == mod_q(g(i)) by {
            lemma_ext_congruent(x, y, k - i);
            lemma_mul_mod_noop_right(a[i] as int, ext(x, k - i), q);
            lemma_mul_mod_noop_right(a[i] as int, ext(y, k - i), q);
        }
        lemma_sum_cong(f, g, 0, 256);
    }
    assert(mul_spec(a, x) =~= mul_spec(a, y));
}

/// Multiplication distributes over addition in Z_Q[x]/(x^256 + 1).
pub proof fn lemma_mul_distributive(a: Seq<i64>, b: Seq<i64>, c: Seq<i64>)
    ensures
        mul_spec(a, add_spec(b, c)) == add_spec(mul_spec(a, b), mul_spec(a, c)),
{
    let q = Q as int;
    let d = add_spec(b, c);
    assert forall|k: int| 0 <= k < 256 implies #[trigger] mul_spec(a, d)[k] == add_spec(mul_spec(a, b), mul_spec(a, c))[k] by {
        lemma_wrap_conv(a, d, k);
        lemma_wrap_conv(a, b, k);
        lemma_wrap_conv(a, c, k);
        let f = |i: int| a[i] * ext(d, k - i);
        let fb = |i: int| a[i] * ext(b, k - i);
        let fc = |i: int| a[i] * ext(c, k - i);
        let h = |i: int| fb(i) + fc(i);
        assert forall|i: int| 0 <= i < 256 implies #[trigger] mod_q(f(i)) == mod_q(h(i)) by {
            let u = k - i;
            let e = ext(b, u) + ext(c, u);
            assert(mod_q(ext(d, u)) == mod_q(e)) by {
                if u >= 0 {
                    lemma_ext_in_range(d, u);
                    lemma_ext_in_range(b, u);
                    lemma_ext_in_range(c, u);
                    vstd::arithmetic::div_mod::lemma_mod_twice(b[u] + c[u], q);
                } else {
                    lemma_ext_below(d, u);
                    lemma_ext_below(b, u);
                    lemma_ext_below(c, u);
                    let t = b[u + 256] + c[u + 256];
                    vstd::arithmetic::div_mod::lemma_mod_twice(t, q);
                    lemma_sub_mod_noop(0, t, q);
                    lemma_sub_mod_noop(0, mod_q(t), q);
                    assert(0int % q == 0);
                    assert(e == 0 - t);
                }
            }
            lemma_mul_mod_noop_right(a[i] as int, ext(d, u), q);
            lemma_mul_mod_noop_right(a[i] as int, e, q);
            assert(a[i] * e == fb(i) + fc(i)) by (nonlinear_arith)
                requires
                    e == ext(b, u) + ext(c, u),
                    fb(i) == a[i] * ext(b, u),
                    fc(i) == a[i] * ext(c, u),
            ;
        }
        lemma_sum_cong(f, h, 0, 256);
        lemma_sum_add(fb, fc, h, 0, 256);
        lemma_add_mod_noop(conv(a, b, k), conv(a, c, k), q);
        vstd::arithmetic::div_mod::lemma_mod_twice(conv(a, b, k), q);
        vstd::arithmetic::div_mod::lemma_mod_twice(conv(a, c, k), q);
    }
    assert(mul_spec(a, d) =~= add_spec(mul_spec(a, b), mul_spec(a, c)));
}

/// `r * (c * s) = c * (r * s)`.
proof fn lemma_mul_swap_left(r: Seq<i64>, c: Seq<i64>, s: Seq<i64>)
    ensures
        mul_spec(r, mul_spec(c, s)) == mul_spec(c, mul_spec(r, s)),
{
    lemma_mul_associative(r, c, s);
    lemma_mul_commutative(r, c);
    lemma_mul_associative(c, r, s);
}

/// Sums of residues may be regrouped: `(a + b) + (c + d) = (a + c) + (b + d)`.
proof fn lemma_add_regroup(a: Seq<i64>, b: Seq<i64>, c: Seq<i64>, d: Seq<i64>)
    ensures
        add_spec(add_spec(a, b), add_spec(c, d)) == add_spec(add_spec(a, c), add_spec(b, d)),
{
    let q = Q as int;
    assert forall|k: int| 0 <= k < 256 implies #[trigger] add_spec(add_spec(a, b), add_spec(c, d))[k] == add_spec(
        add_spec(a, c),
        add_spec(b, d),
    )[k] by {
        lemma_add_mod_noop(a[k] + b[k], c[k] + d[k], q);
        lemma_add_mod_noop(a[k] + c[k], b[k] + d[k], q);
    }
    assert(add_spec(add_spec(a, b), add_spec(c, d)) =~= add_spec(add_spec(a, c), add_spec(b, d)));
}

proof fn lemma_inner_product_reduced(r: Seq<Seq<i64>>, x: Seq<Seq<i64>>, n: int)
    ensures
        forall|k: int| 0 <= k < 256 ==> 0 <= #[trigger] inner_product_spec(r, x, n)[k] < Q,
        inner_product_spec(r, x, n).len() == 256,
{
}

/// With `z[j]` congruent to `y[j] + c s[j]`:
/// `sum_j r[j] z[j] = sum_j r[j] y[j] + c sum_j r[j] s[j]`.
proof fn lemma_inner_product_split(r: Seq<Seq<i64>>, z: Seq<Seq<i64>>, y: Seq<Seq<i64>>, c: Seq<i64>, s: Seq<Seq<i64>>, n: int)
    requires
        0 <= n <= 9,
        forall|j: int| 0 <= j < 9 ==> congruent(#[trigger] z[j], add_spec(y[j], mul_spec(c, s[j]))),
    ensures
        inner_product_spec(r, z, n) == add_spec(inner_product_spec(r, y, n), mul_spec(c, inner_product_spec(r, s, n))),
    decreases n,
{
    if n == 0 {
        lemma_mul_zero(c);
        assert(add_spec(zero_spec(), zero_spec()) =~= zero_spec());
    } else {
        let j = n - 1;
        lemma_inner_product_split(r, z, y, c, s, n - 1);
        let py = inner_product_spec(r, y, n - 1);
        let ps = inner_product_spec(r, s, n - 1);
        assert(congruent(z[j], add_spec(y[j], mul_spec(c, s[j]))));
        lemma_mul_congruent(r[j], z[j], add_spec(y[j], mul_spec(c, s[j])));
        lemma_mul_distributive(r[j], y[j], mul_spec(c, s[j]));
        lemma_mul_swap_left(r[j], c, s[j]);
        lemma_mul_distributive(c, ps, mul_spec(r[j], s[j]));
        lemma_add_regroup(py, mul_spec(c, ps), mul_spec(r[j], y[j]), mul_spec(c, mul_spec(r[j], s[j])));
    }
}

/// The centered responses are congruent to `y + c s`.
proof fn lemma_centered_congruent(x: Seq<i64>)
    requires
        forall|k: int| 0 <= k < 256 ==> 0 <= #[trigger] x[k] < Q,
    ensures
        congruent(centered_spec(x), x),
{
    let q = Q as int;
    assert forall|k: int| 0 <= k < 256 implies #[trigger] mod_q(centered_spec(x)[k] as int) == mod_q(x[k] as int) by {
        vstd::arithmetic::div_mod::lemma_small_mod(x[k] as nat, q as nat);
        if 2 * x[k] > Q {
            vstd::arithmetic::div_mod::lemma_mod_sub_multiples_vanish(x[k] as int, q);
        }
    }
}

/// Taking away what was added: `(y + w) - w = y` for `y` in [0, Q).
proof fn lemma_add_sub(y: Seq<i64>, w: Seq<i64>)
    requires
        y.len() == 256,
        forall|k: int| 0 <= k < 256 ==> 0 <= #[trigger] y[k] < Q,
    ensures
        sub_spec(add_spec(y, w), w) == y,
{
    let q = Q as int;
    assert forall|k: int| 0 <= k < 256 implies #[trigger] sub_spec(add_spec(y, w), w)[k] == y[k] by {
        lemma_sub_mod_noop(y[k] + w[k], w[k] as int, q);
        vstd::arithmetic::div_mod::lemma_mod_twice(y[k] + w[k], q);
        vstd::arithmetic::div_mod::lemma_mod_twice(w[k] as int, q);
        vstd::arithmetic::div_mod::lemma_small_mod(y[k] as nat, q as nat);
        assert(mod_q(mod_q(y[k] + w[k]) - w[k]) == mod_q(y[k] + w[k] - w[k])) by {
            lemma_sub_mod_noop(mod_q(y[k] + w[k]), w[k] as int, q);
        }
    }
    assert(sub_spec(add_spec(y, w), w) =~= y);
}

/// Recomputing `w = sum_j r[j] y[j]` from centered responses
/// `z[j] = y[j] + c s[j]` and `t = sum_j r[j] s[j]`: `sum_j r[j] z[j] - c t = w`.
pub proof fn lemma_recompute(r: Seq<Seq<i64>>, y: Seq<Seq<i64>>, c: Seq<i64>, s: Seq<Seq<i64>>, z: Seq<Seq<i64>>)
    requires
        z.len() == 9,
        forall|j: int| 0 <= j < 9 ==> #[trigger] z[j] == centered_spec(add_spec(y[j], mul_spec(c, s[j]))),
    ensures
        sub_spec(inner_product_spec(r, z, 9), mul_spec(c, inner_product_spec(r, s, 9))) == inner_product_spec(r, y, 9),
{
    assert forall|j: int| 0 <= j < 9 implies congruent(#[trigger] z[j], add_spec(y[j], mul_spec(c, s[j]))) by {
        lemma_centered_congruent(add_spec(y[j], mul_spec(c, s[j])));
    }
    lemma_inner_product_split(r, z, y, c, s, 9);
    lemma_inner_product_reduced(r, y, 9);
    lemma_add_sub(inner_product_spec(r, y, 9), mul_spec(c, inner_product_spec(r, s, 9)));
}

} // verus!
