//! The forward transform evaluates at the roots of `X^n + 1`, so it turns the negacyclic
//! product into the entry-wise product.
use vstd::arithmetic::div_mod::*;
use vstd::arithmetic::mul::*;
use vstd::arithmetic::power::*;
use vstd::arithmetic::power2::*;
use vstd::prelude::*;

use crate::arith::{ilog2, is_pow2, rev_bits};
use crate::butterfly::{fwd_layer, fwd_upto, lemma_fwd_upto_len, lemma_stage_shape};
use crate::fq::Fq;
use crate::ntt::{
    intt_of, lemma_transforms_reduced, ntt_friendly, ntt_layers, ntt_of, twiddles, two_nth_root, Ntt,
};
use crate::poly_mul_laws::{
    lemma_nega_sum_shifted, lemma_range_sum_congruent, lemma_range_sum_ext, lemma_range_sum_scale,
    lemma_range_sum_shift, lemma_range_sum_split, lemma_range_sum_swap, lemma_range_sum_zero,
    range_sum, shifted,
};
use crate::pow2_cyclotomic_poly_ring::{nega_sum, negacyclic_mul};
use crate::ring::{all_wf, vals};
use crate::roots::{lemma_minus_one_mod, lemma_root_half_power, lemma_times_minus_one};

verus! {

/// Reversing no bits, or the bits of zero, gives zero.
proof fn lemma_rev_bits_zero(l: nat)
    ensures
        rev_bits(0, l) == 0,
    decreases l,
{
    if l > 0 {
        lemma_rev_bits_zero((l - 1) as nat);
        assert(0nat / 2 == 0 && 0nat % 2 == 0);
        assert(0 * pow2((l - 1) as nat) == 0);
    }
}

/// For `y < 2^(l-1)`, reversing `l` bits doubles the reversal in `l - 1` bits.
proof fn lemma_rev_bits_double(y: nat, l: nat)
    requires
        l >= 1,
        y < pow2((l - 1) as nat),
    ensures
        rev_bits(y, l) == 2 * rev_bits(y, (l - 1) as nat),
    decreases l,
{
    if l == 1 {
        lemma2_to64();
        lemma_rev_bits_zero(1);
        lemma_rev_bits_zero(0);
    } else {
        let p = pow2((l - 2) as nat);
        lemma_pow2_unfold((l - 1) as nat);
        assert(y / 2 < p) by {
            lemma_fundamental_div_mod(y as int, 2);
        }
        lemma_rev_bits_double(y / 2, (l - 1) as nat);
        lemma_pow2_unfold(((l - 1) as nat) as nat);
        let b = (y % 2) as int;
        assert(b * (2 * p) == 2 * (b * p)) by (nonlinear_arith);
    }
}

/// A twiddle table that squares down the tree of the transform: `w[0] = 1`, and `w[j]^2` is
/// `w[j / 2]` for even `j` and `-w[j / 2]` for odd `j`, all modulo `q`.
pub open spec fn halving_table(w: Seq<int>, n: int, q: int) -> bool {
    &&& w.len() >= n
    &&& w[0] % q == 1int % q
    &&& forall|j: int|
        1 <= j < n ==> #[trigger] ((w[j] * w[j]) % q) == (if j % 2 == 0 {
            w[j / 2]
        } else {
            -w[j / 2]
        }) % q
}

/// The bit-reversed powers of a root whose `n`-th power is `-1` square down the tree.
pub proof fn lemma_twiddles_halving(q: int, n: nat, psi: int)
    requires
        q > 1,
        n >= 2,
        is_pow2(n),
        pow(psi, n) % q == q - 1,
    ensures
        halving_table(twiddles(q, n, psi), n as int, q),
{
    let l = ilog2(n);
    let w = twiddles(q, n, psi);
    assert(l >= 1);
    lemma_pow2_unfold(l);
    let h = pow2((l - 1) as nat);
    lemma_rev_bits_zero(l);
    assert(w[0] == pow(psi, 0) % q);
    lemma_pow0(psi);
    lemma_mod_twice(1, q);
    assert forall|j: int| 1 <= j < n implies #[trigger] ((w[j] * w[j]) % q) == (if j % 2 == 0 {
        w[j / 2]
    } else {
        -w[j / 2]
    }) % q by {
        let y = j / 2;
        lemma_fundamental_div_mod(j, 2);
        assert(y < h);
        let r = rev_bits(j as nat, l);
        let ry = rev_bits(y as nat, l);
        assert(r == (j % 2) * h + rev_bits(y as nat, (l - 1) as nat));
        lemma_rev_bits_double(y as nat, l);
        let pr = pow(psi, r);
        lemma_mul_mod_noop(pr, pr, q);
        lemma_pow_adds(psi, r, r);
        let py = pow(psi, ry);
        assert(w[y] == py % q);
        lemma_mod_twice(py, q);
        if j % 2 == 0 {
            assert(r + r == ry);
        } else {
            assert(r + r == n + ry);
            lemma_pow_adds(psi, n, ry);
            lemma_times_minus_one(pow(psi, n), py, q);
        }
    }
}

/// `c[0] + c[1] r + ... + c[len - 1] r^(len - 1)`.
pub open spec fn poly_eval(c: Seq<int>, r: int) -> int {
    range_sum(|i: int| c[i] * pow(r, i as nat), 0, c.len() as int)
}

/// The value `z` of the factor `X^t - z` that block `i` of the transform is reduced by after
/// `k` layers: `-1` before any layer, then `w[2^(k-1) + i / 2]` for even `i` and its negation
/// for odd `i`.
pub open spec fn block_root(w: Seq<int>, k: nat, i: int) -> int {
    if k == 0 {
        -1
    } else if i % 2 == 0 {
        w[pow2((k - 1) as nat) + i / 2]
    } else {
        -w[pow2((k - 1) as nat) + i / 2]
    }
}

/// Splitting a polynomial of degree below `2 t` into its low and high halves.
proof fn lemma_poly_eval_split(c: Seq<int>, t: int, r: int)
    requires
        t >= 0,
        c.len() == 2 * t,
    ensures
        poly_eval(c, r) == poly_eval(c.subrange(0, t), r) + pow(r, t as nat) * poly_eval(
            c.subrange(t, 2 * t),
            r,
        ),
{
    let f = |i: int| c[i] * pow(r, i as nat);
    lemma_range_sum_split(f, 0, t, 2 * t);
    let lo = c.subrange(0, t);
    let fl = |i: int| lo[i] * pow(r, i as nat);
    lemma_range_sum_ext(f, fl, 0, t);
    lemma_range_sum_shift(f, t, t, 2 * t);
    let hi = c.subrange(t, 2 * t);
    let fh = |i: int| hi[i] * pow(r, i as nat);
    let pt = pow(r, t as nat);
    let g = |x: int| pt * fh(x);
    assert forall|x: int| 0 <= x < t implies #[trigger] f(x + t) == g(x) by {
        lemma_pow_adds(r, x as nat, t as nat);
        let px = pow(r, x as nat);
        assert(c[x + t] * (px * pt) == pt * (c[x + t] * px)) by (nonlinear_arith);
    }
    lemma_range_sum_ext(|x: int| f(x + t), g, 0, t);
    lemma_range_sum_scale(fh, pt, 0, t);
}

/// Coefficients congruent to `lo + z hi` give a value congruent to `lo(r) + z hi(r)`.
proof fn lemma_poly_eval_combine(
    d: Seq<int>,
    lo: Seq<int>,
    hi: Seq<int>,
    z: int,
    r: int,
    q: int,
)
    requires
        q > 0,
        d.len() == lo.len(),
        d.len() == hi.len(),
        forall|j: int| 0 <= j < d.len() ==> #[trigger] (d[j] % q) == (lo[j] + z * hi[j]) % q,
    ensures
        poly_eval(d, r) % q == (poly_eval(lo, r) + z * poly_eval(hi, r)) % q,
{
    let n = d.len() as int;
    let f = |i: int| d[i] * pow(r, i as nat);
    let g = |i: int| lo[i] * pow(r, i as nat);
    let h0 = |i: int| hi[i] * pow(r, i as nat);
    let h = |x: int| z * h0(x);
    assert forall|i: int| 0 <= i < n implies #[trigger] f(i) % q == (g(i) + h(i)) % q by {
        let p = pow(r, i as nat);
        assert(d[i] % q == (lo[i] + z * hi[i]) % q);
        lemma_mul_mod_noop_left(d[i], p, q);
        lemma_mul_mod_noop_left(lo[i] + z * hi[i], p, q);
        assert((lo[i] + z * hi[i]) * p == lo[i] * p + z * (hi[i] * p)) by (nonlinear_arith);
    }
    lemma_range_sum_congruent(f, g, h, 0, n, q);
    lemma_range_sum_scale(h0, z, 0, n);
}

/// Replacing a factor by a congruent one keeps `a + z x` modulo `q`.
proof fn lemma_congruent_factor(a: int, z1: int, z2: int, x: int, q: int)
    requires
        q > 0,
        z1 % q == z2 % q,
    ensures
        (a + z1 * x) % q == (a + z2 * x) % q,
{
    lemma_mul_mod_noop_left(z1, x, q);
    lemma_mul_mod_noop_left(z2, x, q);
    lemma_add_mod_noop_right(a, z1 * x, q);
    lemma_add_mod_noop_right(a, z2 * x, q);
}

/// A layer of the forward transform turns the two halves `lo`, `hi` of a block into
/// `lo + z hi` in block `i`, where `z` is the root of block `i`.
#[verifier::spinoff_prover]
proof fn lemma_layer_block(s: Seq<int>, k: nat, l: nat, w: Seq<int>, q: int, i: int, j: int)
    requires
        1 <= k <= l,
        s.len() == pow2(l),
        q > 0,
        w.len() >= pow2(l),
        0 <= i < pow2(k),
        0 <= j < pow2((l - k) as nat),
    ensures
        ({
            let t = pow2((l - k) as nat) as int;
            let base = (i / 2) * (2 * t);
            let p = i * t + j;
            let f = fwd_layer(s, pow2((k - 1) as nat) as int, t, w, q);
            &&& 0 <= base + j
            &&& base + t + j < s.len()
            &&& 0 <= p < s.len()
            &&& f.len() == s.len()
            &&& f[p] % q == (s[base + j] + block_root(w, k, i) * s[base + t + j]) % q
        }),
{
    let t = pow2((l - k) as nat) as int;
    let m = pow2((k - 1) as nat) as int;
    lemma_stage_shape(k, l);
    let ip = i / 2;
    let b = i % 2;
    lemma_fundamental_div_mod(i, 2);
    let base = ip * (2 * t);
    let p = i * t + j;
    assert(p == base + (b * t + j)) by (nonlinear_arith)
        requires
            i == 2 * ip + b,
            p == i * t + j,
            base == ip * (2 * t),
    ;
    assert(0 <= b * t <= t) by (nonlinear_arith)
        requires
            0 <= b <= 1,
            t > 0,
    ;
    assert(ip < m);
    assert(0 <= base) by (nonlinear_arith)
        requires
            ip >= 0,
            t > 0,
            base == ip * (2 * t),
    ;
    assert(base + 2 * t <= 2 * t * m) by (nonlinear_arith)
        requires
            ip + 1 <= m,
            t > 0,
            base == ip * (2 * t),
    ;
    lemma_fundamental_div_mod_converse(p, 2 * t, ip, b * t + j);
    lemma_mul_is_commutative(ip, 2 * t);
    let f = fwd_layer(s, m, t, w, q);
    let ww = w[m + ip];
    if b == 0 {
        assert(b * t == 0);
        assert(f[p] == (s[p] + (s[p + t] * ww) % q) % q);
        lemma_add_mod_noop_right(s[p], s[p + t] * ww, q);
        lemma_mod_twice(s[p] + (s[p + t] * ww) % q, q);
        lemma_mul_is_commutative(ww, s[p + t]);
        assert(p == base + j);
        assert(block_root(w, k, i) == ww);
        assert(f[p] % q == (s[p] + (s[p + t] * ww)) % q);
        assert(f[p] % q == (s[base + j] + ww * s[base + t + j]) % q);
    } else {
        assert(b * t == t);
        assert(f[p] == (s[p - t] - (s[p] * ww) % q) % q);
        lemma_sub_mod_noop_right(s[p - t], s[p] * ww, q);
        lemma_mod_twice(s[p - t] - (s[p] * ww) % q, q);
        assert(s[p - t] - s[p] * ww == s[p - t] + (-ww) * s[p]) by (nonlinear_arith);
        assert(p - t == base + j);
        assert(block_root(w, k, i) == -ww);
        assert(f[p] % q == (s[p - t] - (s[p] * ww)) % q);
        assert(f[p] % q == (s[base + j] + (-ww) * s[base + t + j]) % q);
    }
}

/// The root of block `i` squares to the root of its parent block `i / 2`.
proof fn lemma_block_root_square(w: Seq<int>, k: nat, l: nat, i: int, q: int)
    requires
        q > 1,
        halving_table(w, pow2(l) as int, q),
        1 <= k <= l,
        0 <= i < pow2(k),
    ensures
        (block_root(w, k, i) * block_root(w, k, i)) % q == block_root(w, (k - 1) as nat, i / 2)
            % q,
{
    lemma_stage_shape(k, l);
    let m = pow2((k - 1) as nat) as int;
    let ip = i / 2;
    lemma_fundamental_div_mod(i, 2);
    let j = m + ip;
    let ww = w[j];
    let z = block_root(w, k, i);
    assert(z * z == ww * ww) by (nonlinear_arith)
        requires
            z == ww || z == -ww,
    ;
    assert(((w[j] * w[j]) % q) == (if j % 2 == 0 {
        w[j / 2]
    } else {
        -w[j / 2]
    }) % q);
    if k == 1 {
        lemma2_to64();
        assert(j == 1);
        lemma_sub_mod_noop(0, w[0], q);
        lemma_sub_mod_noop(0, 1, q);
    } else {
        lemma_pow2_unfold((k - 1) as nat);
        let h = pow2((k - 2) as nat) as int;
        lemma_fundamental_div_mod(ip, 2);
        lemma_fundamental_div_mod_converse(j, 2, h + ip / 2, ip % 2);
    }
}

/// After `k` layers, block `i` of the forward transform, read as a polynomial, agrees with the
/// input at every `r` whose power `r^t` (`t` the block width) is the root of the block.
proof fn lemma_fwd_upto_eval(a: Seq<int>, k: nat, l: nat, w: Seq<int>, q: int, i: int, r: int)
    requires
        q > 1,
        a.len() == pow2(l),
        k <= l,
        halving_table(w, pow2(l) as int, q),
        0 <= i < pow2(k),
        pow(r, pow2((l - k) as nat)) % q == block_root(w, k, i) % q,
    ensures
        0 <= i * pow2((l - k) as nat),
        (i + 1) * pow2((l - k) as nat) <= a.len(),
        poly_eval(
            fwd_upto(a, k, l, w, q).subrange(
                i * pow2((l - k) as nat),
                (i + 1) * pow2((l - k) as nat),
            ),
            r,
        ) % q == poly_eval(a, r) % q,
    decreases k,
{
    if k == 0 {
        lemma2_to64();
        assert(i == 0);
        let t = pow2((l - k) as nat) as int;
        assert(i * t == 0 && (i + 1) * t == t) by (nonlinear_arith)
            requires
                i == 0,
        ;
        assert(fwd_upto(a, k, l, w, q).subrange(0, t) =~= a);
    } else {
        let t = pow2((l - k) as nat) as int;
        let m = pow2((k - 1) as nat) as int;
        lemma_stage_shape(k, l);
        let sp = fwd_upto(a, (k - 1) as nat, l, w, q);
        lemma_fwd_upto_len(a, (k - 1) as nat, l, w, q);
        let f = fwd_layer(sp, m, t, w, q);
        assert(fwd_upto(a, k, l, w, q) == f);
        let ip = i / 2;
        lemma_fundamental_div_mod(i, 2);
        lemma_pow2_unfold((l - k + 1) as nat);
        let tt = pow2((l - (k - 1) as nat) as nat) as int;
        assert(tt == 2 * t);
        assert(0 <= i * t && (i + 1) * t <= 2 * t * m) by (nonlinear_arith)
            requires
                0 <= i < 2 * m,
                t > 0,
        ;
        assert(0 <= ip * tt && (ip + 1) * tt <= 2 * t * m) by (nonlinear_arith)
            requires
                0 <= ip < m,
                tt == 2 * t,
                t > 0,
        ;
        let d = f.subrange(i * t, (i + 1) * t);
        let c = sp.subrange(ip * tt, (ip + 1) * tt);
        assert((ip + 1) * tt - ip * tt == tt) by (nonlinear_arith);
        assert((i + 1) * t - i * t == t) by (nonlinear_arith);
        let lo = c.subrange(0, t);
        let hi = c.subrange(t, 2 * t);
        let z = block_root(w, k, i);
        assert forall|j: int| 0 <= j < d.len() implies #[trigger] (d[j] % q) == (lo[j] + z
            * hi[j]) % q by {
            lemma_layer_block(sp, k, l, w, q, i, j);
            assert(ip * tt == ip * (2 * t));
        }
        lemma_poly_eval_combine(d, lo, hi, z, r, q);
        lemma_poly_eval_split(c, t, r);
        lemma_congruent_factor(poly_eval(lo, r), z, pow(r, t as nat), poly_eval(hi, r), q);
        // the parent block's root
        lemma_block_root_square(w, k, l, i, q);
        let pt = pow(r, t as nat);
        lemma_pow_adds(r, t as nat, t as nat);
        lemma_mul_mod_noop(pt, pt, q);
        lemma_mul_mod_noop(z, z, q);
        assert(pow(r, tt as nat) % q == block_root(w, (k - 1) as nat, ip) % q);
        lemma_fwd_upto_eval(a, (k - 1) as nat, l, w, q, ip, r);
    }
}

/// The root of every block after `k` layers is a `2^k`-th root of `-1`.
proof fn lemma_block_root_power(w: Seq<int>, k: nat, l: nat, i: int, q: int)
    requires
        q > 1,
        halving_table(w, pow2(l) as int, q),
        k <= l,
        0 <= i < pow2(k),
    ensures
        pow(block_root(w, k, i), pow2(k)) % q == q - 1,
    decreases k,
{
    lemma_minus_one_mod(q);
    if k == 0 {
        lemma2_to64();
        lemma_pow1(-1);
    } else {
        let z = block_root(w, k, i);
        let e = pow2((k - 1) as nat);
        lemma_stage_shape(k, l);
        lemma_fundamental_div_mod(i, 2);
        lemma_block_root_power(w, (k - 1) as nat, l, i / 2, q);
        lemma_block_root_square(w, k, l, i, q);
        lemma_pow_multiplies(z, 2, e);
        lemma_square_is_pow2(z);
        let parent = block_root(w, (k - 1) as nat, i / 2);
        lemma_pow_mod_noop(z * z, e, q);
        lemma_pow_mod_noop(parent, e, q);
    }
}

/// The point at which entry `j` of the transform of length `n` evaluates its input.
pub open spec fn eval_point(q: int, n: nat, j: int) -> int {
    block_root(twiddles(q, n, two_nth_root(q, n as int)), ilog2(n), j)
}

/// Entry `j` of the forward transform is the input evaluated at a root of `X^n + 1`.
pub proof fn lemma_ntt_evaluates(a: Seq<int>, q: int, n: nat, j: int)
    requires
        ntt_friendly(q, n as int),
        a.len() == n,
        0 <= j < n,
    ensures
        ntt_layers(a, q, n)[j] == poly_eval(a, eval_point(q, n, j)) % q,
        pow(eval_point(q, n, j), n) % q == q - 1,
{
    let l = ilog2(n);
    let psi = two_nth_root(q, n as int);
    let w = twiddles(q, n, psi);
    lemma_root_half_power(q, n as int);
    lemma_twiddles_halving(q, n, psi);
    assert(pow2(l) == n);
    let r = eval_point(q, n, j);
    lemma_block_root_power(w, l, l, j, q);
    assert((l - l) as nat == 0);
    lemma2_to64();
    lemma_pow1(r);
    lemma_fwd_upto_eval(a, l, l, w, q, j, r);
    let s = ntt_layers(a, q, n);
    lemma_transforms_reduced(a, q, n);
    assert(j * 1 == j && (j + 1) * 1 == j + 1);
    let one = s.subrange(j, j + 1);
    let f = |i: int| one[i] * pow(r, i as nat);
    assert(range_sum(f, 0, 1) == range_sum(f, 0, 0) + f(0));
    lemma_pow0(r);
    assert(poly_eval(one, r) == s[j]);
    lemma_small_mod(s[j] as nat, q as nat);
}

/// The butterfly layers compute the transform.
pub proof fn lemma_ntt_layers_is_ntt_of(a: Seq<int>, q: int, n: nat)
    requires
        ntt_friendly(q, n as int),
        a.len() == n,
    ensures
        ntt_layers(a, q, n) == ntt_of(a, q, n),
{
    lemma_transforms_reduced(a, q, n);
    assert forall|j: int| 0 <= j < n implies #[trigger] ntt_layers(a, q, n)[j] == ntt_of(a, q, n)[j] by {
        lemma_ntt_evaluates(a, q, n, j);
    }
    assert(ntt_layers(a, q, n) =~= ntt_of(a, q, n));
}

/// Range sums of pairwise congruent terms are congruent.
proof fn lemma_range_sum_congruent_terms(
    f: spec_fn(int) -> int,
    g: spec_fn(int) -> int,
    lo: int,
    hi: int,
    m: int,
)
    requires
        m > 1,
        forall|i: int| lo <= i < hi ==> #[trigger] f(i) % m == g(i) % m,
    ensures
        range_sum(f, lo, hi) % m == range_sum(g, lo, hi) % m,
{
    let zero = |i: int| 0int;
    assert forall|i: int| lo <= i < hi implies #[trigger] f(i) % m == (g(i) + zero(i)) % m by {
        assert(f(i) % m == g(i) % m);
    }
    lemma_range_sum_congruent(f, g, zero, lo, hi, m);
    lemma_range_sum_zero(zero, lo, hi);
}

/// At a root of `X^n + 1`, multiplying by `X^i` multiplies the value by `r^i`.
proof fn lemma_shifted_eval(b: Seq<int>, i: int, r: int, q: int)
    requires
        q > 1,
        0 <= i < b.len(),
        pow(r, b.len()) % q == q - 1,
    ensures
        range_sum(|k: int| shifted(b, i, k) * pow(r, k as nat), 0, b.len() as int) % q == (pow(
            r,
            i as nat,
        ) * poly_eval(b, r)) % q,
{
    let n = b.len() as int;
    let ri = pow(r, i as nat);
    let f = |k: int| shifted(b, i, k) * pow(r, k as nat);
    let e = |j: int| b[j] * pow(r, j as nat);
    let g = |j: int| ri * e(j);
    lemma_range_sum_scale(e, ri, 0, n);
    // the terms that do not wrap around
    lemma_range_sum_split(f, 0, i, n);
    lemma_range_sum_split(g, 0, n - i, n);
    lemma_range_sum_shift(f, i, i, n);
    assert forall|x: int| 0 <= x < n - i implies #[trigger] f(x + i) == g(x) by {
        lemma_pow_adds(r, x as nat, i as nat);
        let px = pow(r, x as nat);
        assert(b[x] * (px * ri) == ri * (b[x] * px)) by (nonlinear_arith);
    }
    lemma_range_sum_ext(|x: int| f(x + i), g, 0, n - i);
    // the terms that wrap around pick up the sign of r^n
    lemma_range_sum_shift(g, n - i, n - i, n);
    assert forall|x: int| 0 <= x < i implies #[trigger] f(x) % q == g(x + (n - i)) % q by {
        let c = b[x + n - i];
        let px = pow(r, x as nat);
        lemma_pow_adds(r, x as nat, (n - i) as nat);
        lemma_pow_adds(r, i as nat, (x + n - i) as nat);
        lemma_pow_adds(r, x as nat, n as nat);
        assert(pow(r, (i + (x + n - i)) as nat) == pow(r, (x + n) as nat));
        assert(g(x + (n - i)) == c * (px * pow(r, n as nat))) by (nonlinear_arith)
            requires
                g(x + (n - i)) == ri * (c * pow(r, (x + n - i) as nat)),
                ri * pow(r, (x + n - i) as nat) == px * pow(r, n as nat),
        ;
        assert(c * (px * pow(r, n as nat)) == pow(r, n as nat) * (c * px)) by (nonlinear_arith);
        lemma_times_minus_one(pow(r, n as nat), c * px, q);
        lemma_sub_mod_noop(0, c * px, q);
        lemma_small_mod(0, q as nat);
        assert(f(x) == (-c) * px);
        assert((-c) * px == 0 - c * px) by (nonlinear_arith);
    }
    lemma_range_sum_congruent_terms(f, |x: int| g(x + (n - i)), 0, i, q);
    let wrapped = range_sum(f, 0, i);
    let straight = range_sum(f, i, n);
    lemma_add_mod_noop(wrapped, straight, q);
    lemma_add_mod_noop(range_sum(g, n - i, n), straight, q);
}

/// At a root of `X^n + 1`, the value of a negacyclic product is the product of the values.
pub proof fn lemma_negacyclic_eval(a: Seq<int>, b: Seq<int>, r: int, q: int)
    requires
        q > 1,
        a.len() == b.len(),
        pow(r, a.len()) % q == q - 1,
    ensures
        poly_eval(negacyclic_mul(a, b, q), r) % q == (poly_eval(a, r) * poly_eval(b, r)) % q,
{
    let n = a.len() as int;
    let c = negacyclic_mul(a, b, q);
    let eb = poly_eval(b, r);
    let g = |i: int, k: int| a[i] * (shifted(b, i, k) * pow(r, k as nat));
    // reduce the coefficients away
    let fc = |k: int| c[k] * pow(r, k as nat);
    let fx = |k: int| range_sum(|i: int| g(i, k), 0, n);
    assert forall|k: int| 0 <= k < n implies #[trigger] fc(k) % q == fx(k) % q by {
        let pk = pow(r, k as nat);
        lemma_nega_sum_shifted(a, b, k);
        let row = |i: int| a[i] * shifted(b, i, k);
        lemma_range_sum_scale(row, pk, 0, n);
        let scaled = |x: int| pk * row(x);
        let gk = |i: int| g(i, k);
        assert forall|i: int| 0 <= i < n implies #[trigger] scaled(i) == gk(i) by {
            assert(pk * (a[i] * shifted(b, i, k)) == a[i] * (shifted(b, i, k) * pk))
                by (nonlinear_arith);
        }
        lemma_range_sum_ext(scaled, gk, 0, n);
        assert(fx(k) == pk * nega_sum(a, b, a.len(), k));
        lemma_mul_mod_noop_left(nega_sum(a, b, a.len(), k), pk, q);
        lemma_mul_is_commutative(pk, nega_sum(a, b, a.len(), k));
    }
    lemma_range_sum_congruent_terms(fc, fx, 0, n, q);
    // exchange the sums
    lemma_range_sum_swap(g, n, n);
    let rows = |i: int| range_sum(|k: int| g(i, k), 0, n);
    let ea = |i: int| a[i] * pow(r, i as nat);
    let target = |i: int| eb * ea(i);
    assert forall|i: int| 0 <= i < n implies #[trigger] rows(i) % q == target(i) % q by {
        let sh = |k: int| shifted(b, i, k) * pow(r, k as nat);
        lemma_range_sum_scale(sh, a[i], 0, n);
        lemma_range_sum_ext(|x: int| a[i] * sh(x), |k: int| g(i, k), 0, n);
        lemma_shifted_eval(b, i, r, q);
        let si = range_sum(sh, 0, n);
        lemma_mul_mod_noop_right(a[i], si, q);
        lemma_mul_mod_noop_right(a[i], pow(r, i as nat) * eb, q);
        assert(a[i] * (pow(r, i as nat) * eb) == eb * (a[i] * pow(r, i as nat))) by (nonlinear_arith);
    }
    lemma_range_sum_congruent_terms(rows, target, 0, n, q);
    lemma_range_sum_scale(ea, eb, 0, n);
    lemma_mul_is_commutative(eb, poly_eval(a, r));
}

/// Entry-wise product, reduced modulo `q`.
pub open spec fn mul_mod(a: Seq<int>, b: Seq<int>, q: int) -> Seq<int> {
    Seq::new(a.len(), |j: int| (a[j] * b[j]) % q)
}

/// The transform of the negacyclic product of two coefficient sequences of length `n` is the
/// entry-wise product of their transforms.
pub proof fn lemma_ntt_of_product(a: Seq<int>, b: Seq<int>, q: int, n: nat)
    requires
        ntt_friendly(q, n as int),
        a.len() == n,
        b.len() == n,
    ensures
        ntt_of(negacyclic_mul(a, b, q), q, n) == mul_mod(ntt_of(a, q, n), ntt_of(b, q, n), q),
{
    let c = negacyclic_mul(a, b, q);
    let fa = ntt_of(a, q, n);
    let fb = ntt_of(b, q, n);
    let fc = ntt_of(c, q, n);
    lemma_transforms_reduced(a, q, n);
    lemma_transforms_reduced(b, q, n);
    lemma_transforms_reduced(c, q, n);
    assert forall|j: int| 0 <= j < n implies #[trigger] fc[j] == mul_mod(fa, fb, q)[j] by {
        let r = eval_point(q, n, j);
        lemma_ntt_evaluates(a, q, n, j);
        lemma_ntt_evaluates(b, q, n, j);
        lemma_ntt_evaluates(c, q, n, j);
        lemma_negacyclic_eval(a, b, r, q);
        lemma_mul_mod_noop(poly_eval(a, r), poly_eval(b, r), q);
    }
    assert(fc =~= mul_mod(fa, fb, q));
}

/// The convolution theorem: the transform of the negacyclic product is the entry-wise product
/// of the transforms, so multiplying transforms entry-wise and transforming back gives the
/// product in `F_q[X] / (X^N + 1)`.
pub proof fn law_ntt_mul<const Q: u64, const N: usize>(a: [Fq<Q>; N], b: [Fq<Q>; N])
    requires
        ntt_friendly(Q as int, N as int),
        all_wf(a@),
        all_wf(b@),
    ensures
        ntt_of(negacyclic_mul(vals(a@), vals(b@), Q as int), Q as int, N as nat) == mul_mod(
            ntt_of(vals(a@), Q as int, N as nat),
            ntt_of(vals(b@), Q as int, N as nat),
            Q as int,
        ),
        intt_of(
            mul_mod(
                ntt_of(vals(a@), Q as int, N as nat),
                ntt_of(vals(b@), Q as int, N as nat),
                Q as int,
            ),
            Q as int,
            N as nat,
        ) == negacyclic_mul(vals(a@), vals(b@), Q as int),
{
    let q = Q as int;
    let va = vals(a@);
    let vb = vals(b@);
    let c = negacyclic_mul(va, vb, q);
    lemma_ntt_of_product(va, vb, q, N as nat);
    assert forall|j: int| 0 <= j < N implies 0 <= #[trigger] c[j] < Q by {
        lemma_mod_bound(nega_sum(va, vb, va.len(), j), q);
    }
    <Fq<Q> as Ntt<N>>::lemma_intt_ntt(c);
}

/// Setting the top bit of `y < 2^(l-1)` adds one to its reversal.
proof fn lemma_rev_bits_top(y: nat, l: nat)
    requires
        l >= 1,
        y < pow2((l - 1) as nat),
    ensures
        rev_bits((pow2((l - 1) as nat) + y) as nat, l) == 1 + rev_bits(y, l),
    decreases l,
{
    let x = (pow2((l - 1) as nat) + y) as nat;
    if l == 1 {
        lemma2_to64();
        assert(y == 0);
        lemma_rev_bits_zero(1);
        lemma_rev_bits_zero(0);
        assert(x == 1);
        assert(rev_bits(1, 1) == (1nat % 2) * pow2(0) + rev_bits(0, 0));
    } else {
        let h = pow2((l - 2) as nat);
        lemma_pow2_unfold((l - 1) as nat);
        assert(x % 2 == y % 2 && x / 2 == h + y / 2) by {
            lemma_fundamental_div_mod(y as int, 2);
            lemma_fundamental_div_mod_converse(x as int, 2, (h + y / 2) as int, (y % 2) as int);
        }
        assert(y / 2 < h) by {
            lemma_fundamental_div_mod(y as int, 2);
        }
        lemma_rev_bits_top(y / 2, (l - 1) as nat);
    }
}

/// Entry `j` of the forward transform of length `n = 2^l` evaluates at `psi^(2 rev(j) + 1)`,
/// for the chosen primitive `2n`-th root of unity `psi` and `rev` the reversal of `l` bits: the
/// point that `eval_point` names.
pub proof fn lemma_eval_point_power(q: int, n: nat, j: int)
    requires
        ntt_friendly(q, n as int),
        0 <= j < n,
    ensures
        eval_point(q, n, j) % q == pow(
            two_nth_root(q, n as int),
            2 * rev_bits(j as nat, ilog2(n)) + 1,
        ) % q,
{
    let l = ilog2(n);
    let psi = two_nth_root(q, n as int);
    let w = twiddles(q, n, psi);
    assert(l >= 1);
    lemma_pow2_unfold(l);
    let h = pow2((l - 1) as nat);
    let y = j / 2;
    lemma_fundamental_div_mod(j, 2);
    assert(y < h);
    let idx = h + y;
    lemma_rev_bits_top(y as nat, l);
    lemma_rev_bits_double(y as nat, l);
    let ry = rev_bits(y as nat, (l - 1) as nat);
    assert(rev_bits(j as nat, l) == (j % 2) * h + ry);
    // the twiddle at h + j/2 is psi^(2 ry + 1)
    assert(w[idx] == pow(psi, 2 * ry + 1) % q);
    lemma_mod_twice(pow(psi, 2 * ry + 1), q);
    if j % 2 == 0 {
        assert(2 * rev_bits(j as nat, l) + 1 == 2 * ry + 1);
    } else {
        // psi^(2 (h + ry) + 1) = psi^n psi^(2 ry + 1) = -psi^(2 ry + 1)
        lemma_root_half_power(q, n as int);
        assert(2 * rev_bits(j as nat, l) + 1 == n + (2 * ry + 1));
        lemma_pow_adds(psi, n, (2 * ry + 1) as nat);
        lemma_times_minus_one(pow(psi, n), pow(psi, (2 * ry + 1) as nat), q);
        lemma_sub_mod_noop(0, pow(psi, (2 * ry + 1) as nat) % q, q);
        lemma_mod_twice(pow(psi, (2 * ry + 1) as nat), q);
        lemma_small_mod(0, q as nat);
    }
}

/// The value of a polynomial modulo `q` depends only on the point modulo `q`.
proof fn lemma_poly_eval_congruent_point(a: Seq<int>, r1: int, r2: int, q: int)
    requires
        q > 1,
        r1 % q == r2 % q,
    ensures
        poly_eval(a, r1) % q == poly_eval(a, r2) % q,
{
    let f = |i: int| a[i] * pow(r1, i as nat);
    let g = |i: int| a[i] * pow(r2, i as nat);
    assert forall|i: int| 0 <= i < a.len() implies #[trigger] f(i) % q == g(i) % q by {
        lemma_pow_mod_noop(r1, i as nat, q);
        lemma_pow_mod_noop(r2, i as nat, q);
        lemma_mul_mod_noop_right(a[i], pow(r1, i as nat), q);
        lemma_mul_mod_noop_right(a[i], pow(r2, i as nat), q);
    }
    lemma_range_sum_congruent_terms(f, g, 0, a.len() as int, q);
}

/// The forward transform evaluates at the odd powers of the chosen primitive `2n`-th root of
/// unity `psi`, in bit-reversed order: entry `j` is `a(psi^(2 rev(j) + 1)) mod q`.
pub proof fn law_ntt_evaluates_at_odd_powers(a: Seq<int>, q: int, n: nat, j: int)
    requires
        ntt_friendly(q, n as int),
        a.len() == n,
        0 <= j < n,
    ensures
        ntt_of(a, q, n)[j] == poly_eval(
            a,
            pow(two_nth_root(q, n as int), 2 * rev_bits(j as nat, ilog2(n)) + 1),
        ) % q,
{
    lemma_ntt_evaluates(a, q, n, j);
    lemma_eval_point_power(q, n, j);
    let r = pow(two_nth_root(q, n as int), 2 * rev_bits(j as nat, ilog2(n)) + 1);
    lemma_mod_twice(r, q);
    lemma_poly_eval_congruent_point(a, eval_point(q, n, j), r, q);
}

} // verus!
