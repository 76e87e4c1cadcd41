use vstd::prelude::*;

use crate::param::Q;
use crate::algebra::{lemma_sum_add, lemma_sum_ext, lemma_sum_shift};
use crate::poly256::{lemma_sum_split, mod_q, reduce, sum};

verus! {

/// The term of row `i` in coefficient `t` of the plain product of the first
/// `n` coefficients of `a` and `b`.
pub open spec fn plain_term(a: Seq<i64>, b: Seq<i64>, n: int, t: int, i: int) -> int {
    if 0 <= t - i < n {
        a[i] * b[t - i]
    } else {
        0
    }
}

/// Coefficient `t` of the plain product (no reduction, no wrap) of the first
/// `n` coefficients of `a` and `b`.
pub open spec fn plain_coeff(a: Seq<i64>, b: Seq<i64>, n: int, t: int) -> int {
    sum(|i: int| plain_term(a, b, n, t, i), 0, n)
}

/// The sizes Karatsuba takes: up to 32 (0 included) it multiplies plainly, and
/// 64 and 128 halve down to 32. (At 256 the partial sums of inputs near Q
/// overflow 64 bits.)
pub open spec fn karatsuba_size(n: int) -> bool {
    0 <= n <= 32 || n == 64 || n == 128
}

/// Adds the plain product of the first `n` coefficients of `a` and `b` into
/// `c`: entry `t` gains `sum_{i + j = t} a[i] b[j]`, and entries from `2n - 1`
/// on are left as they were.
pub fn school_book_without_reduction(a: &[i64], b: &[i64], c: &mut Vec<i64>, n: usize)
    requires
        n <= 256,
        a@.len() >= n,
        b@.len() >= n,
        old(c)@.len() + 1 >= 2 * n,
        forall|t: int| 0 <= t < 2 * n - 1 ==> -0x2000_0000_0000_0000 <= #[trigger] old(c)@[t] <= 0x2000_0000_0000_0000,
        forall|i: int| 0 <= i < n ==> -coeff_limit(n as int) <= #[trigger] a@[i] <= coeff_limit(n as int),
        forall|i: int| 0 <= i < n ==> -coeff_limit(n as int) <= #[trigger] b@[i] <= coeff_limit(n as int),
    ensures
        final(c)@.len() == old(c)@.len(),
        forall|t: int| 0 <= t < 2 * n - 1 ==> #[trigger] final(c)@[t] == old(c)@[t] + plain_coeff(a@, b@, n as int, t),
        forall|t: int| 2 * n - 1 <= t < old(c)@.len() ==> #[trigger] final(c)@[t] == old(c)@[t],
{
    let ghost av = a@;
    let ghost bv = b@;
    let ghost c0 = c@;
    let ghost lim = coeff_limit(n as int);
    let ghost pb = limit_square(n as int);
    let mut i: usize = 0;
    while i < n
        invariant
            0 <= i <= n <= 256,
            av == a@,
            bv == b@,
            c0 == old(c)@,
            lim == coeff_limit(n as int),
            pb == limit_square(n as int),
            a@.len() >= n,
            b@.len() >= n,
            c@.len() == c0.len(),
            c0.len() + 1 >= 2 * n,
            forall|t: int| 0 <= t < 2 * n - 1 ==> -0x2000_0000_0000_0000 <= #[trigger] c0[t] <= 0x2000_0000_0000_0000,
            forall|k: int| 0 <= k < n ==> -lim <= #[trigger] av[k] <= lim,
            forall|k: int| 0 <= k < n ==> -lim <= #[trigger] bv[k] <= lim,
            forall|t: int| 0 <= t < 2 * n - 1 ==> #[trigger] c@[t] == c0[t] + sum(|m: int| plain_term(av, bv, n as int, t, m), 0, i as int),
            forall|t: int| 2 * n - 1 <= t < c0.len() ==> #[trigger] c@[t] == c0[t],
        decreases n - i,
    {
        let mut j: usize = 0;
        while j < n
            invariant
                0 <= i < n <= 256,
                0 <= j <= n,
                av == a@,
                bv == b@,
                lim == coeff_limit(n as int),
                pb == limit_square(n as int),
                a@.len() >= n,
                b@.len() >= n,
                c@.len() == c0.len(),
                c0.len() + 1 >= 2 * n,
                forall|t: int| 0 <= t < 2 * n - 1 ==> -0x2000_0000_0000_0000 <= #[trigger] c0[t] <= 0x2000_0000_0000_0000,
                forall|k: int| 0 <= k < n ==> -lim <= #[trigger] av[k] <= lim,
                forall|k: int| 0 <= k < n ==> -lim <= #[trigger] bv[k] <= lim,
                forall|t: int| 0 <= t < 2 * n - 1 ==> #[trigger] c@[t] == c0[t] + sum(|m: int| plain_term(av, bv, n as int, t, m), 0, i as int)
                    + (if i <= t < i + j { av[i as int] * bv[t - i] } else { 0 }),
                forall|t: int| 2 * n - 1 <= t < c0.len() ==> #[trigger] c@[t] == c0[t],
            decreases n - j,
        {
            proof {
                if n <= 32 {
                    assert(lim == 402_718_724 && pb == 162_182_370_660_188_176 && i * pb + pb <= 32 * pb);
                    assert(pb == lim * lim) by (nonlinear_arith)
                        requires
                            lim == 402_718_724,
                            pb == 162_182_370_660_188_176,
                    ;
                } else if n <= 64 {
                    assert(lim == 201_359_362 && pb == 40_545_592_665_047_044 && i * pb + pb <= 64 * pb);
                    assert(pb == lim * lim) by (nonlinear_arith)
                        requires
                            lim == 201_359_362,
                            pb == 40_545_592_665_047_044,
                    ;
                } else {
                    assert(lim == 100_679_681 && pb == 10_136_398_166_261_761 && i * pb + pb <= 256 * pb);
                    assert(pb == lim * lim) by (nonlinear_arith)
                        requires
                            lim == 100_679_681,
                            pb == 10_136_398_166_261_761,
                    ;
                }
                lemma_plain_bound_by(av, bv, n as int, (i + j) as int, i as int, lim, pb);
                let x = av[i as int] as int;
                let y = bv[j as int] as int;
                assert(-pb <= x * y <= pb) by (nonlinear_arith)
                    requires
                        -lim <= x <= lim,
                        -lim <= y <= lim,
                        pb == lim * lim,
                ;
            }
            let v = c[i + j] + a[i] * b[j];
            c.set(i + j, v);
            j += 1;
        }
        assert forall|t: int| 0 <= t < 2 * n - 1 implies #[trigger] c@[t] == c0[t] + sum(|m: int| plain_term(av, bv, n as int, t, m), 0, (i + 1) as int) by {
            assert(sum(|m: int| plain_term(av, bv, n as int, t, m), 0, (i + 1) as int)
                == sum(|m: int| plain_term(av, bv, n as int, t, m), 0, i as int) + plain_term(av, bv, n as int, t, i as int));
        }
        i += 1;
    }
}

/// Coefficient `u` of a plain product of `h` coefficients vanishes outside [0, 2h - 1).
proof fn lemma_plain_outside(a: Seq<i64>, b: Seq<i64>, h: int, u: int)
    requires
        0 <= h,
        u < 0 || u >= 2 * h - 1,
    ensures
        plain_coeff(a, b, h, u) == 0,
{
    let f = |i: int| plain_term(a, b, h, u, i);
    let z = |i: int| 0int;
    assert forall|i: int| 0 <= i < h implies #[trigger] f(i) == z(i) by {}
    lemma_sum_ext(f, z, 0, h);
    lemma_sum_zero_const(h);
}

proof fn lemma_sum_zero_const(h: int)
    requires
        0 <= h,
    ensures
        sum(|i: int| 0int, 0, h) == 0,
    decreases h,
{
    if h > 0 {
        lemma_sum_zero_const(h - 1);
    }
}

/// The halves of `x`: `lo = x[0..h]`, `hi = x[h..2h]`, and `both = lo + hi`.
pub open spec fn halves(x: Seq<i64>, lo: Seq<i64>, hi: Seq<i64>, h: int) -> bool {
    &&& lo.len() >= h
    &&& hi.len() >= h
    &&& forall|i: int| 0 <= i < h ==> #[trigger] lo[i] == x[i]
    &&& forall|i: int| 0 <= i < h ==> #[trigger] hi[i] == x[i + h]
}

/// Splitting both factors in halves: coefficient `t` of `a * b` is
/// `a0 b0 [t] + a0 b1 [t - h] + a1 b0 [t - h] + a1 b1 [t - 2h]`.
proof fn lemma_karatsuba_split(a: Seq<i64>, b: Seq<i64>, a0: Seq<i64>, a1: Seq<i64>, b0: Seq<i64>, b1: Seq<i64>, h: int, t: int)
    requires
        0 < h,
        a.len() >= 2 * h,
        b.len() >= 2 * h,
        halves(a, a0, a1, h),
        halves(b, b0, b1, h),
    ensures
        plain_coeff(a, b, 2 * h, t) == plain_coeff(a0, b0, h, t) + plain_coeff(a0, b1, h, t - h) + plain_coeff(
            a1,
            b0,
            h,
            t - h,
        ) + plain_coeff(a1, b1, h, t - 2 * h),
{
    let n = 2 * h;
    let f = |i: int| plain_term(a, b, n, t, i);
    lemma_sum_split(f, 0, h, n);
    // rows in the low half
    let f00 = |i: int| plain_term(a0, b0, h, t, i);
    let f01 = |i: int| plain_term(a0, b1, h, t - h, i);
    assert forall|i: int| 0 <= i < h implies #[trigger] f(i) == f00(i) + f01(i) by {
        assert(a0[i] == a[i]);
        if 0 <= t - i < h {
            assert(b0[t - i] == b[t - i]);
        } else if h <= t - i < n {
            assert(b1[t - h - i] == b[t - h - i + h]);
        }
    }
    lemma_sum_add(f00, f01, f, 0, h);
    // rows in the high half, shifted down by h
    let g = |i: int| f(i + h);
    lemma_sum_shift(f, g, h, n, h);
    let f10 = |i: int| plain_term(a1, b0, h, t - h, i);
    let f11 = |i: int| plain_term(a1, b1, h, t - n, i);
    assert forall|i: int| 0 <= i < h implies #[trigger] g(i) == f10(i) + f11(i) by {
        assert(a1[i] == a[i + h]);
        if 0 <= t - h - i < h {
            assert(b0[t - h - i] == b[t - (i + h)]);
        } else if h <= t - h - i < n {
            assert(b1[t - n - i] == b[t - n - i + h]);
        }
    }
    lemma_sum_add(f10, f11, g, 0, h);
}

/// The product of the sums of the halves is the sum of the four products.
proof fn lemma_plain_bilinear(a0: Seq<i64>, a1: Seq<i64>, sa: Seq<i64>, b0: Seq<i64>, b1: Seq<i64>, sb: Seq<i64>, h: int, u: int)
    requires
        0 <= h,
        forall|i: int| 0 <= i < h ==> #[trigger] sa[i] == a0[i] + a1[i],
        forall|i: int| 0 <= i < h ==> #[trigger] sb[i] == b0[i] + b1[i],
    ensures
        plain_coeff(sa, sb, h, u) == plain_coeff(a0, b0, h, u) + plain_coeff(a0, b1, h, u) + plain_coeff(a1, b0, h, u)
            + plain_coeff(a1, b1, h, u),
{
    let f = |i: int| plain_term(sa, sb, h, u, i);
    let f00 = |i: int| plain_term(a0, b0, h, u, i);
    let f01 = |i: int| plain_term(a0, b1, h, u, i);
    let f10 = |i: int| plain_term(a1, b0, h, u, i);
    let f11 = |i: int| plain_term(a1, b1, h, u, i);
    let g0 = |i: int| f00(i) + f01(i);
    let g1 = |i: int| f10(i) + f11(i);
    assert forall|i: int| 0 <= i < h implies #[trigger] f(i) == g0(i) + g1(i) by {
        if 0 <= u - i < h {
            let x0 = a0[i];
            let x1 = a1[i];
            let y0 = b0[u - i];
            let y1 = b1[u - i];
            assert((x0 + x1) * (y0 + y1) == x0 * y0 + x0 * y1 + (x1 * y0 + x1 * y1)) by (nonlinear_arith);
        }
    }
    lemma_sum_add(f00, f01, g0, 0, h);
    lemma_sum_add(f10, f11, g1, 0, h);
    lemma_sum_add(g0, g1, f, 0, h);
}

/// The coefficient bound at each size: 4 Q at 32, 2 Q at 64, Q at 128, so
/// that halving the size and adding the halves keeps within the bound.
pub open spec fn coeff_limit(n: int) -> int {
    if n <= 32 {
        4 * Q
    } else if n <= 64 {
        2 * Q
    } else {
        Q as int
    }
}

/// The square of `coeff_limit(n)`.
pub open spec fn limit_square(n: int) -> int {
    if n <= 32 {
        162_182_370_660_188_176
    } else if n <= 64 {
        40_545_592_665_047_044
    } else {
        10_136_398_166_261_761
    }
}

/// `x` and `y` agree modulo Q.
pub open spec fn cong(x: int, y: int) -> bool {
    mod_q(x) == mod_q(y)
}

proof fn lemma_cong_add(x1: int, x2: int, y1: int, y2: int)
    requires
        cong(x1, y1),
        cong(x2, y2),
    ensures
        cong(x1 + x2, y1 + y2),
{
    let q = Q as int;
    vstd::arithmetic::div_mod::lemma_add_mod_noop(x1, x2, q);
    vstd::arithmetic::div_mod::lemma_add_mod_noop(y1, y2, q);
}

proof fn lemma_cong_sub(x1: int, x2: int, y1: int, y2: int)
    requires
        cong(x1, y1),
        cong(x2, y2),
    ensures
        cong(x1 - x2, y1 - y2),
{
    let q = Q as int;
    vstd::arithmetic::div_mod::lemma_sub_mod_noop(x1, x2, q);
    vstd::arithmetic::div_mod::lemma_sub_mod_noop(y1, y2, q);
}

proof fn lemma_plain_bound_by(a: Seq<i64>, b: Seq<i64>, n: int, t: int, m: int, bound: int, pb: int)
    requires
        0 <= m <= n,
        0 <= bound,
        pb == bound * bound,
        a.len() >= n,
        b.len() >= n,
        forall|i: int| 0 <= i < n ==> -bound <= #[trigger] a[i] <= bound,
        forall|i: int| 0 <= i < n ==> -bound <= #[trigger] b[i] <= bound,
    ensures
        -(m * pb) <= sum(|i: int| plain_term(a, b, n, t, i), 0, m) <= m * pb,
    decreases m,
{
    if m > 0 {
        lemma_plain_bound_by(a, b, n, t, m - 1, bound, pb);
        let i = m - 1;
        if 0 <= t - i < n {
            let x = a[i] as int;
            let y = b[t - i] as int;
            assert(-pb <= x * y <= pb) by (nonlinear_arith)
                requires
                    -bound <= x <= bound,
                    -bound <= y <= bound,
                    pb == bound * bound,
            ;
        }
        assert((m - 1) * pb + pb == m * pb) by (nonlinear_arith);
    }
}

/// A vector of `n` zeros.
fn zeros(n: usize) -> (v: Vec<i64>)
    ensures
        v@.len() == n,
        forall|t: int| 0 <= t < n ==> #[trigger] v@[t] == 0,
{
    let mut v: Vec<i64> = Vec::new();
    for i in 0..n
        invariant
            v@.len() == i,
            forall|t: int| 0 <= t < i ==> #[trigger] v@[t] == 0,
    {
        v.push(0);
    }
    v
}

/// The product of the first `n` coefficients of `a` and `b` into the first
/// `2n` entries of `c`, which start zeroed. Up to size 32 the product is
/// computed plainly and left unreduced; at 64 and 128 each factor is split in
/// halves, three half-size products are combined, and every coefficient is
/// reduced into [0, Q). Entries of `c` from `2n` on are left as they were.
pub fn karatsuba(a: &[i64], b: &[i64], c: &mut Vec<i64>, n: usize)
    requires
        karatsuba_size(n as int),
        a@.len() >= n,
        b@.len() >= n,
        old(c)@.len() >= 2 * n,
        forall|t: int| 0 <= t < 2 * n ==> old(c)@[t] == 0,
        forall|i: int| 0 <= i < n ==> -coeff_limit(n as int) <= #[trigger] a@[i] <= coeff_limit(n as int),
        forall|i: int| 0 <= i < n ==> -coeff_limit(n as int) <= #[trigger] b@[i] <= coeff_limit(n as int),
    ensures
        final(c)@.len() == old(c)@.len(),
        forall|t: int| 0 <= t < 2 * n ==> #[trigger] final(c)@[t] == if n <= 32 {
            plain_coeff(a@, b@, n as int, t)
        } else {
            mod_q(plain_coeff(a@, b@, n as int, t))
        },
        forall|t: int| 2 * n <= t < old(c)@.len() ==> #[trigger] final(c)@[t] == old(c)@[t],
    decreases n,
{
    if n <= 32 {
        school_book_without_reduction(a, b, c, n);
        proof {
            if n > 0 {
                lemma_plain_outside(a@, b@, n as int, 2 * n - 1);
                assert(c@[2 * n - 1] == old(c)@[2 * n - 1]);
            }
        }
        return;
    }
    let ghost c0 = c@;
    let size = n / 2;
    let ghost h = size as int;
    let mut a0: Vec<i64> = Vec::new();
    let mut a1: Vec<i64> = Vec::new();
    let mut b0: Vec<i64> = Vec::new();
    let mut b1: Vec<i64> = Vec::new();
    let mut sa: Vec<i64> = Vec::new();
    let mut sb: Vec<i64> = Vec::new();
    for i in 0..size
        invariant
            size == n / 2,
            n == 64 || n == 128,
            a@.len() >= n,
            b@.len() >= n,
            forall|k: int| 0 <= k < n ==> -coeff_limit(n as int) <= #[trigger] a@[k] <= coeff_limit(n as int),
            forall|k: int| 0 <= k < n ==> -coeff_limit(n as int) <= #[trigger] b@[k] <= coeff_limit(n as int),
            a0@.len() == i && a1@.len() == i && b0@.len() == i && b1@.len() == i && sa@.len() == i && sb@.len() == i,
            forall|k: int| 0 <= k < i ==> #[trigger] a0@[k] == a@[k],
            forall|k: int| 0 <= k < i ==> #[trigger] a1@[k] == a@[k + size],
            forall|k: int| 0 <= k < i ==> #[trigger] b0@[k] == b@[k],
            forall|k: int| 0 <= k < i ==> #[trigger] b1@[k] == b@[k + size],
            forall|k: int| 0 <= k < i ==> #[trigger] sa@[k] == a@[k] + a@[k + size],
            forall|k: int| 0 <= k < i ==> #[trigger] sb@[k] == b@[k] + b@[k + size],
    {
        a0.push(a[i]);
        a1.push(a[i + size]);
        b0.push(b[i]);
        b1.push(b[i + size]);
        sa.push(a[i] + a[i + size]);
        sb.push(b[i] + b[i + size]);
    }
    let ghost lim = coeff_limit(n as int);
    assert(coeff_limit(size as int) == 2 * coeff_limit(n as int));
    let mut zero = zeros(n);
    let mut infinity = zeros(n);
    let mut one = zeros(n);
    karatsuba(a0.as_slice(), b0.as_slice(), &mut zero, size);
    karatsuba(a1.as_slice(), b1.as_slice(), &mut infinity, size);
    karatsuba(sa.as_slice(), sb.as_slice(), &mut one, size);
    let ghost av = a@;
    let ghost bv = b@;
    proof {
        assert(halves(av, a0@, a1@, h));
        assert(halves(bv, b0@, b1@, h));
    }
    for i in 0..size
        invariant
            size == n / 2,
            h == size,
            n == 64 || n == 128,
            av == a@,
            bv == b@,
            av.len() >= n,
            bv.len() >= n,
            halves(av, a0@, a1@, h),
            halves(bv, b0@, b1@, h),
            a0@.len() == h && a1@.len() == h && b0@.len() == h && b1@.len() == h && sa@.len() == h && sb@.len() == h,
            forall|k: int| 0 <= k < h ==> #[trigger] sa@[k] == a0@[k] + a1@[k],
            forall|k: int| 0 <= k < h ==> #[trigger] sb@[k] == b0@[k] + b1@[k],
            lim == coeff_limit(n as int),
            coeff_limit(h) == 2 * lim,
            forall|k: int| 0 <= k < h ==> -lim <= #[trigger] a0@[k] <= lim,
            forall|k: int| 0 <= k < h ==> -lim <= #[trigger] a1@[k] <= lim,
            forall|k: int| 0 <= k < h ==> -lim <= #[trigger] b0@[k] <= lim,
            forall|k: int| 0 <= k < h ==> -lim <= #[trigger] b1@[k] <= lim,
            forall|k: int| 0 <= k < h ==> -2 * lim <= #[trigger] sa@[k] <= 2 * lim,
            forall|k: int| 0 <= k < h ==> -2 * lim <= #[trigger] sb@[k] <= 2 * lim,
            zero@.len() == n && one@.len() == n && infinity@.len() == n,
            forall|t: int| 0 <= t < n ==> #[trigger] zero@[t] == if size <= 32 {
                plain_coeff(a0@, b0@, h, t)
            } else {
                mod_q(plain_coeff(a0@, b0@, h, t))
            },
            forall|t: int| 0 <= t < n ==> #[trigger] infinity@[t] == if size <= 32 {
                plain_coeff(a1@, b1@, h, t)
            } else {
                mod_q(plain_coeff(a1@, b1@, h, t))
            },
            forall|t: int| 0 <= t < n ==> #[trigger] one@[t] == if size <= 32 {
                plain_coeff(sa@, sb@, h, t)
            } else {
                mod_q(plain_coeff(sa@, sb@, h, t))
            },
            c@.len() == c0.len(),
            c0 == old(c)@,
            c0.len() >= 2 * n,
            forall|t: int| 2 * n <= t < c0.len() ==> #[trigger] c@[t] == c0[t],
            forall|t: int|
                (0 <= t < i || h <= t < h + i || n <= t < n + i || 3 * h <= t < 3 * h + i) ==> #[trigger] c@[t]
                    == mod_q(plain_coeff(av, bv, n as int, t)),
    {
        let ghost ii = i as int;
        let ghost z = |u: int| plain_coeff(a0@, b0@, h, u);
        let ghost p01 = |u: int| plain_coeff(a0@, b1@, h, u);
        let ghost p10 = |u: int| plain_coeff(a1@, b0@, h, u);
        let ghost f = |u: int| plain_coeff(a1@, b1@, h, u);
        let ghost o = |u: int| plain_coeff(sa@, sb@, h, u);
        proof {
            lemma_karatsuba_split(av, bv, a0@, a1@, b0@, b1@, h, ii);
            lemma_karatsuba_split(av, bv, a0@, a1@, b0@, b1@, h, ii + h);
            lemma_karatsuba_split(av, bv, a0@, a1@, b0@, b1@, h, ii + 2 * h);
            lemma_karatsuba_split(av, bv, a0@, a1@, b0@, b1@, h, ii + 3 * h);
            lemma_plain_bilinear(a0@, a1@, sa@, b0@, b1@, sb@, h, ii);
            lemma_plain_bilinear(a0@, a1@, sa@, b0@, b1@, sb@, h, ii + h);
            lemma_plain_outside(a0@, b1@, h, ii - h);
            lemma_plain_outside(a1@, b0@, h, ii - h);
            lemma_plain_outside(a1@, b1@, h, ii - 2 * h);
            lemma_plain_outside(a1@, b1@, h, ii - h);
            lemma_plain_outside(a0@, b0@, h, ii + 2 * h);
            lemma_plain_outside(a0@, b0@, h, ii + 3 * h);
            lemma_plain_outside(a0@, b1@, h, ii + 2 * h);
            lemma_plain_outside(a1@, b0@, h, ii + 2 * h);
            if size <= 32 {
                lemma_plain_bound_by(a0@, b0@, h, ii, h, lim, 40_545_592_665_047_044);
                lemma_plain_bound_by(a0@, b0@, h, ii + h, h, lim, 40_545_592_665_047_044);
                lemma_plain_bound_by(a1@, b1@, h, ii, h, lim, 40_545_592_665_047_044);
                lemma_plain_bound_by(a1@, b1@, h, ii + h, h, lim, 40_545_592_665_047_044);
                lemma_plain_bound_by(a0@, b1@, h, ii, h, lim, 40_545_592_665_047_044);
                lemma_plain_bound_by(a0@, b1@, h, ii + h, h, lim, 40_545_592_665_047_044);
                lemma_plain_bound_by(a1@, b0@, h, ii, h, lim, 40_545_592_665_047_044);
                lemma_plain_bound_by(a1@, b0@, h, ii + h, h, lim, 40_545_592_665_047_044);
                lemma_plain_bound_by(sa@, sb@, h, ii, h, 2 * lim, 162_182_370_660_188_176);
                lemma_plain_bound_by(sa@, sb@, h, ii + h, h, 2 * lim, 162_182_370_660_188_176);
            }
        }
        let m0 = one[i] - zero[i] - infinity[i];
        let m1 = one[i + size] - zero[i + size] - infinity[i + size];
        c.set(i, reduce(zero[i]));
        c.set(i + size, reduce(zero[i + size] + m0));
        c.set(i + n, reduce(m1 + infinity[i]));
        c.set(i + 3 * size, reduce(infinity[i + size]));
        proof {
            let q = Q as int;
            assert forall|u: int| 0 <= u < n implies cong(#[trigger] zero@[u] as int, z(u)) && cong(
                infinity@[u] as int,
                f(u),
            ) && cong(one@[u] as int, o(u)) by {
                if size != 32 {
                    vstd::arithmetic::div_mod::lemma_mod_twice(z(u), q);
                    vstd::arithmetic::div_mod::lemma_mod_twice(f(u), q);
                    vstd::arithmetic::div_mod::lemma_mod_twice(o(u), q);
                }
            }
            assert(cong(zero@[ii] as int, z(ii)));
            assert(cong(zero@[ii + h] as int, z(ii + h)));
            assert(cong(infinity@[ii] as int, f(ii)));
            assert(cong(infinity@[ii + h] as int, f(ii + h)));
            assert(cong(one@[ii] as int, o(ii)));
            assert(cong(one@[ii + h] as int, o(ii + h)));
            lemma_cong_sub(one@[ii] as int, zero@[ii] as int, o(ii), z(ii));
            lemma_cong_sub(one@[ii] - zero@[ii], infinity@[ii] as int, o(ii) - z(ii), f(ii));
            lemma_cong_add(zero@[ii + h] as int, m0 as int, z(ii + h), o(ii) - z(ii) - f(ii));
            lemma_cong_sub(one@[ii + h] as int, zero@[ii + h] as int, o(ii + h), z(ii + h));
            lemma_cong_sub(one@[ii + h] - zero@[ii + h], infinity@[ii + h] as int, o(ii + h) - z(ii + h), f(ii + h));
            lemma_cong_add(m1 as int, infinity@[ii] as int, o(ii + h) - z(ii + h) - f(ii + h), f(ii));
        }
    }
    assert forall|t: int| 0 <= t < 2 * n implies #[trigger] c@[t] == mod_q(plain_coeff(a@, b@, n as int, t)) by {
        assert(0 <= t < h || h <= t < 2 * h || n <= t < n + h || 3 * h <= t < 4 * h);
    }
}

} // verus!
