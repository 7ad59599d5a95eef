//! The layers of the negacyclic number-theoretic transform as functions on residue
//! sequences, and the proof that the inverse transform undoes the forward one.
use vstd::arithmetic::div_mod::*;
use vstd::arithmetic::mul::*;
use vstd::arithmetic::power2::*;
use vstd::prelude::*;

verus! {

/// Every entry is a residue in `[0, q)`.
pub open spec fn reduced(a: Seq<int>, q: int) -> bool {
    forall|j: int| 0 <= j < a.len() ==> 0 <= #[trigger] a[j] < q
}

/// Entry-wise multiplication by `c`, reduced modulo `q`.
pub open spec fn scale(a: Seq<int>, c: int, q: int) -> Seq<int> {
    Seq::new(a.len(), |j: int| (c * a[j]) % q)
}

/// One Cooley-Tukey layer: `m` blocks of width `2 t`, block `i` twisted by `w[m + i]`.
pub open spec fn fwd_layer(a: Seq<int>, m: int, t: int, w: Seq<int>, q: int) -> Seq<int> {
    Seq::new(
        a.len(),
        |j: int|
            {
                let i = j / (2 * t);
                if j % (2 * t) < t {
                    (a[j] + (a[j + t] * w[m + i]) % q) % q
                } else {
                    (a[j - t] - (a[j] * w[m + i]) % q) % q
                }
            },
    )
}

/// One Gentleman-Sande layer: `h` blocks of width `2 t`, block `i` twisted by `wi[h + i]`.
pub open spec fn inv_layer(a: Seq<int>, h: int, t: int, wi: Seq<int>, q: int) -> Seq<int> {
    Seq::new(
        a.len(),
        |j: int|
            {
                let i = j / (2 * t);
                if j % (2 * t) < t {
                    (a[j] + a[j + t]) % q
                } else {
                    (((a[j - t] - a[j]) % q) * wi[h + i]) % q
                }
            },
    )
}

/// The first `k` forward layers of a transform of length `2^l`.
pub open spec fn fwd_upto(a: Seq<int>, k: nat, l: nat, w: Seq<int>, q: int) -> Seq<int>
    decreases k,
{
    if k == 0 {
        a
    } else {
        fwd_layer(
            fwd_upto(a, (k - 1) as nat, l, w, q),
            pow2((k - 1) as nat) as int,
            pow2((l - k) as nat) as int,
            w,
            q,
        )
    }
}

/// The inverse layers `l, l-1, ..., k+1` of a transform of length `2^l`, in that order.
pub open spec fn inv_until(b: Seq<int>, k: nat, l: nat, wi: Seq<int>, q: int) -> Seq<int>
    decreases l - k,
{
    if k >= l {
        b
    } else {
        inv_layer(
            inv_until(b, k + 1, l, wi, q),
            pow2(k) as int,
            pow2((l - k - 1) as nat) as int,
            wi,
            q,
        )
    }
}

/// The inverse layers `k, k-1, ..., 1`, in that order.
pub open spec fn inv_down(b: Seq<int>, k: nat, l: nat, wi: Seq<int>, q: int) -> Seq<int>
    decreases k,
{
    if k == 0 {
        b
    } else {
        inv_down(
            inv_layer(b, pow2((k - 1) as nat) as int, pow2((l - k) as nat) as int, wi, q),
            (k - 1) as nat,
            l,
            wi,
            q,
        )
    }
}

/// Twiddle tables whose entries `1..n` are pairwise inverse modulo `q`.
pub open spec fn inverse_tables(w: Seq<int>, wi: Seq<int>, n: int, q: int) -> bool {
    &&& w.len() >= n
    &&& wi.len() >= n
    &&& forall|k: int| 1 <= k < n ==> (#[trigger] w[k] * wi[k]) % q == 1int % q
}

/// Entry-wise sum, reduced modulo `q`.
pub open spec fn add_mod(a: Seq<int>, b: Seq<int>, q: int) -> Seq<int> {
    Seq::new(a.len(), |j: int| (a[j] + b[j]) % q)
}

/// A forward butterfly is additive modulo `q`.
pub proof fn lemma_butterfly_additive(x1: int, x2: int, y1: int, y2: int, w: int, q: int)
    requires
        q > 0,
    ensures
        ((x1 + x2) % q + ((((y1 + y2) % q) * w) % q)) % q == ((x1 + (y1 * w) % q) % q + (x2 + (y2
            * w) % q) % q) % q,
        ((x1 + x2) % q - ((((y1 + y2) % q) * w) % q)) % q == ((x1 - (y1 * w) % q) % q + (x2 - (y2
            * w) % q) % q) % q,
{
    let s = (y1 + y2) * w;
    assert((y1 + y2) * w == y1 * w + y2 * w) by (nonlinear_arith);
    lemma_mul_mod_noop_left(y1 + y2, w, q);
    // left-hand sides
    lemma_add_mod_noop(x1 + x2, s, q);
    lemma_mod_twice(x1 + x2, q);
    lemma_mod_twice(s, q);
    lemma_add_mod_noop(x1 + x2, s % q, q);
    lemma_sub_mod_noop(x1 + x2, s % q, q);
    lemma_sub_mod_noop(x1 + x2, s, q);
    // right-hand sides
    lemma_add_mod_noop_right(x1, y1 * w, q);
    lemma_add_mod_noop_right(x2, y2 * w, q);
    lemma_sub_mod_noop_right(x1, y1 * w, q);
    lemma_sub_mod_noop_right(x2, y2 * w, q);
    lemma_add_mod_noop(x1 + y1 * w, x2 + y2 * w, q);
    lemma_add_mod_noop(x1 - y1 * w, x2 - y2 * w, q);
    assert((x1 + y1 * w) + (x2 + y2 * w) == (x1 + x2) + s);
    assert((x1 - y1 * w) + (x2 - y2 * w) == (x1 + x2) - s);
}

/// A forward layer is additive modulo `q`.
pub proof fn lemma_fwd_layer_additive(a: Seq<int>, b: Seq<int>, m: int, t: int, w: Seq<int>, q: int)
    requires
        q > 0,
        t > 0,
        m > 0,
        a.len() == b.len(),
        a.len() == 2 * t * m,
    ensures
        fwd_layer(add_mod(a, b, q), m, t, w, q) == add_mod(
            fwd_layer(a, m, t, w, q),
            fwd_layer(b, m, t, w, q),
            q,
        ),
{
    let s = add_mod(a, b, q);
    let lhs = fwd_layer(s, m, t, w, q);
    let rhs = add_mod(fwd_layer(a, m, t, w, q), fwd_layer(b, m, t, w, q), q);
    assert forall|j: int| 0 <= j < a.len() implies #[trigger] lhs[j] == rhs[j] by {
        lemma_block(j, t, m);
        let i = j / (2 * t);
        if j % (2 * t) < t {
            lemma_butterfly_additive(a[j], b[j], a[j + t], b[j + t], w[m + i], q);
        } else {
            lemma_butterfly_additive(a[j - t], b[j - t], a[j], b[j], w[m + i], q);
        }
    }
    assert(lhs =~= rhs);
}

/// The forward layers are additive modulo `q`.
pub proof fn lemma_fwd_upto_additive(a: Seq<int>, b: Seq<int>, k: nat, l: nat, w: Seq<int>, q: int)
    requires
        q > 0,
        k <= l,
        a.len() == pow2(l),
        b.len() == pow2(l),
    ensures
        fwd_upto(add_mod(a, b, q), k, l, w, q) == add_mod(
            fwd_upto(a, k, l, w, q),
            fwd_upto(b, k, l, w, q),
            q,
        ),
    decreases k,
{
    if k > 0 {
        lemma_fwd_upto_additive(a, b, (k - 1) as nat, l, w, q);
        lemma_stage_shape(k, l);
        lemma_fwd_upto_len(a, (k - 1) as nat, l, w, q);
        lemma_fwd_upto_len(b, (k - 1) as nat, l, w, q);
        lemma_fwd_layer_additive(
            fwd_upto(a, (k - 1) as nat, l, w, q),
            fwd_upto(b, (k - 1) as nat, l, w, q),
            pow2((k - 1) as nat) as int,
            pow2((l - k) as nat) as int,
            w,
            q,
        );
    }
}

/// Position `j` of a layer with blocks of width `2 t`.
pub proof fn lemma_block(j: int, t: int, m: int)
    requires
        t > 0,
        m > 0,
        0 <= j < 2 * t * m,
    ensures
        j == 2 * t * (j / (2 * t)) + j % (2 * t),
        0 <= j % (2 * t) < 2 * t,
        0 <= j / (2 * t) < m,
        j % (2 * t) < t ==> (j + t) / (2 * t) == j / (2 * t) && (j + t) % (2 * t) == j % (2 * t)
            + t && j + t < 2 * t * m,
        j % (2 * t) >= t ==> (j - t) / (2 * t) == j / (2 * t) && (j - t) % (2 * t) == j % (2
            * t) - t && j - t >= 0,
{
    let d = 2 * t;
    let i = j / d;
    let o = j % d;
    lemma_fundamental_div_mod(j, d);
    lemma_mod_bound(j, d);
    lemma_div_pos_is_pos(j, d);
    assert(i < m) by {
        if i >= m {
            lemma_mul_inequality(m, i, d);
            lemma_mul_is_commutative(i, d);
            lemma_mul_is_commutative(m, d);
            lemma_mul_is_associative(2, t, m);
        }
    }
    if o < t {
        lemma_fundamental_div_mod_converse(j + t, d, i, o + t);
        assert(j + t < d * m) by {
            assert(j + t < d * i + d);
            lemma_mul_inequality(i + 1, m, d);
            lemma_mul_is_commutative(i + 1, d);
            lemma_mul_is_distributive_add(d, i, 1);
            lemma_mul_is_commutative(m, d);
        }
        lemma_mul_is_associative(2, t, m);
    } else {
        lemma_fundamental_div_mod_converse(j - t, d, i, o - t);
    }
}

/// A forward butterfly followed by an inverse butterfly doubles both inputs.
pub proof fn lemma_butterfly_roundtrip(u: int, v: int, w: int, wi: int, q: int)
    requires
        q > 0,
        (w * wi) % q == 1int % q,
    ensures
        ({
            let p = (v * w) % q;
            let a = (u + p) % q;
            let b = (u - p) % q;
            &&& (a + b) % q == (2 * u) % q
            &&& (((a - b) % q) * wi) % q == (2 * v) % q
        }),
{
    let p = (v * w) % q;
    let a = (u + p) % q;
    let b = (u - p) % q;
    // a + b == 2u (mod q)
    lemma_add_mod_noop(u + p, u - p, q);
    lemma_mod_twice(u + p, q);
    lemma_mod_twice(u - p, q);
    assert((a + b) % q == ((u + p) + (u - p)) % q) by {
        lemma_add_mod_noop(u + p, u - p, q);
    }
    // a - b == 2p (mod q)
    assert((a - b) % q == (2 * p) % q) by {
        lemma_sub_mod_noop(u + p, u - p, q);
    }
    // 2p * wi == 2 v w wi == 2 v (mod q)
    assert((((a - b) % q) * wi) % q == ((2 * p) * wi) % q) by {
        lemma_mul_mod_noop_left(2 * p, wi, q);
    }
    assert(((2 * p) * wi) % q == (2 * ((v * w) * wi)) % q) by {
        lemma_mul_is_associative(2, p, wi);
        lemma_mul_mod_noop_left(v * w, wi, q);
        lemma_mul_mod_noop_right(2, p * wi, q);
        lemma_mul_mod_noop_right(2, (v * w) * wi, q);
    }
    assert(((v * w) * wi) % q == v % q) by {
        lemma_mul_is_associative(v, w, wi);
        lemma_mul_mod_noop_right(v, w * wi, q);
        lemma_mul_mod_noop_right(v, 1, q);
    }
    assert((2 * ((v * w) * wi)) % q == (2 * v) % q) by {
        lemma_mul_mod_noop_right(2, (v * w) * wi, q);
        lemma_mul_mod_noop_right(2, v, q);
    }
}

/// The inverse layer commutes with scaling.
pub proof fn lemma_inv_butterfly_linear(x: int, y: int, c: int, wi: int, q: int)
    requires
        q > 0,
    ensures
        (((c * x) % q) + ((c * y) % q)) % q == (c * ((x + y) % q)) % q,
        (((((c * x) % q) - ((c * y) % q)) % q) * wi) % q == (c * ((((x - y) % q) * wi) % q)) % q,
{
    lemma_add_mod_noop(c * x, c * y, q);
    lemma_mul_is_distributive_add(c, x, y);
    lemma_mul_mod_noop_right(c, x + y, q);
    lemma_sub_mod_noop(c * x, c * y, q);
    lemma_mul_is_distributive_sub(c, x, y);
    lemma_mul_mod_noop_right(c, x - y, q);
    // ((c (x - y)) % q * wi) % q == (c ((x-y)%q * wi)) % q
    lemma_mul_mod_noop_left(c * (x - y), wi, q);
    lemma_mul_mod_noop_left(c * ((x - y) % q), wi, q);
    lemma_mul_is_associative(c, (x - y) % q, wi);
    lemma_mul_mod_noop_right(c, ((x - y) % q) * wi, q);
}

/// Scaling twice is scaling by the product.
pub proof fn lemma_scale_scale(a: Seq<int>, c1: int, c2: int, q: int)
    requires
        q > 0,
    ensures
        scale(scale(a, c1, q), c2, q) == scale(a, c2 * c1, q),
{
    assert forall|j: int| 0 <= j < a.len() implies #[trigger] scale(scale(a, c1, q), c2, q)[j]
        == scale(a, c2 * c1, q)[j] by {
        lemma_mul_mod_noop_right(c2, c1 * a[j], q);
        lemma_mul_is_associative(c2, c1, a[j]);
    }
    assert(scale(scale(a, c1, q), c2, q) =~= scale(a, c2 * c1, q));
}

/// The inverse layer commutes with scaling.
pub proof fn lemma_inv_layer_linear(a: Seq<int>, h: int, t: int, wi: Seq<int>, c: int, q: int)
    requires
        q > 0,
        t > 0,
        h > 0,
        a.len() == 2 * t * h,
    ensures
        inv_layer(scale(a, c, q), h, t, wi, q) == scale(inv_layer(a, h, t, wi, q), c, q),
{
    let lhs = inv_layer(scale(a, c, q), h, t, wi, q);
    let rhs = scale(inv_layer(a, h, t, wi, q), c, q);
    assert forall|j: int| 0 <= j < a.len() implies #[trigger] lhs[j] == rhs[j] by {
        lemma_block(j, t, h);
        if j % (2 * t) < t {
            lemma_inv_butterfly_linear(a[j], a[j + t], c, 0, q);
        } else {
            lemma_inv_butterfly_linear(a[j - t], a[j], c, wi[h + j / (2 * t)], q);
        }
    }
    assert(lhs =~= rhs);
}

/// An inverse layer undoes the matching forward layer, up to a factor of two.
pub proof fn lemma_layer_roundtrip(
    a: Seq<int>,
    m: int,
    t: int,
    w: Seq<int>,
    wi: Seq<int>,
    q: int,
)
    requires
        q > 0,
        t > 0,
        m > 0,
        a.len() == 2 * t * m,
        inverse_tables(w, wi, 2 * m, q),
    ensures
        inv_layer(fwd_layer(a, m, t, w, q), m, t, wi, q) == scale(a, 2, q),
{
    let f = fwd_layer(a, m, t, w, q);
    let g = inv_layer(f, m, t, wi, q);
    assert forall|j: int| 0 <= j < a.len() implies #[trigger] g[j] == scale(a, 2, q)[j] by {
        lemma_block(j, t, m);
        let i = j / (2 * t);
        assert(1 <= m + i < 2 * m);
        assert((w[m + i] * wi[m + i]) % q == 1int % q);
        if j % (2 * t) < t {
            lemma_block(j + t, t, m);
            lemma_butterfly_roundtrip(a[j], a[j + t], w[m + i], wi[m + i], q);
        } else {
            lemma_block(j - t, t, m);
            lemma_butterfly_roundtrip(a[j - t], a[j], w[m + i], wi[m + i], q);
        }
    }
    assert(g =~= scale(a, 2, q));
}

/// Layer `k` of a transform of length `2^l` has `2^(k-1)` blocks of width `2^(l-k+1)`.
pub proof fn lemma_stage_shape(k: nat, l: nat)
    requires
        1 <= k <= l,
    ensures
        2 * (pow2((l - k) as nat) as int) * (pow2((k - 1) as nat) as int) == pow2(l) as int,
        pow2((l - k) as nat) > 0,
        pow2((k - 1) as nat) > 0,
        2 * (pow2((k - 1) as nat) as int) == pow2(k) as int,
        pow2(k) <= pow2(l),
{
    lemma_pow2_pos((l - k) as nat);
    lemma_pow2_pos((k - 1) as nat);
    lemma_pow2_adds((l - k) as nat, (k - 1) as nat);
    lemma_pow2_unfold(k);
    lemma_pow2_unfold((l - k + 1) as nat);
    assert((l - k) + (k - 1) == l - 1);
    lemma_pow2_unfold(l);
    lemma_mul_is_associative(2, pow2((l - k) as nat) as int, pow2((k - 1) as nat) as int);
    if k < l {
        lemma_pow2_strictly_increases(k, l);
    }
}

/// Forward layers keep the length.
pub proof fn lemma_fwd_upto_len(a: Seq<int>, k: nat, l: nat, w: Seq<int>, q: int)
    ensures
        fwd_upto(a, k, l, w, q).len() == a.len(),
    decreases k,
{
    if k > 0 {
        lemma_fwd_upto_len(a, (k - 1) as nat, l, w, q);
    }
}

/// Inverse layers keep the length.
pub proof fn lemma_inv_until_len(b: Seq<int>, k: nat, l: nat, wi: Seq<int>, q: int)
    ensures
        inv_until(b, k, l, wi, q).len() == b.len(),
    decreases l - k,
{
    if k < l {
        lemma_inv_until_len(b, k + 1, l, wi, q);
    }
}

/// The inverse layers commute with scaling.
pub proof fn lemma_inv_down_linear(b: Seq<int>, k: nat, l: nat, wi: Seq<int>, c: int, q: int)
    requires
        q > 0,
        k <= l,
        b.len() == pow2(l),
    ensures
        inv_down(scale(b, c, q), k, l, wi, q) == scale(inv_down(b, k, l, wi, q), c, q),
    decreases k,
{
    if k > 0 {
        lemma_stage_shape(k, l);
        let h = pow2((k - 1) as nat) as int;
        let t = pow2((l - k) as nat) as int;
        lemma_inv_layer_linear(b, h, t, wi, c, q);
        lemma_inv_down_linear(inv_layer(b, h, t, wi, q), (k - 1) as nat, l, wi, c, q);
    }
}

/// Running the inverse layers in the order `l, ..., 1` is `inv_down` of all `l` layers.
pub proof fn lemma_inv_until_down(b: Seq<int>, k: nat, l: nat, wi: Seq<int>, q: int)
    requires
        k <= l,
    ensures
        inv_down(inv_until(b, k, l, wi, q), k, l, wi, q) == inv_down(b, l, l, wi, q),
    decreases l - k,
{
    if k < l {
        lemma_inv_until_down(b, k + 1, l, wi, q);
        assert((k + 1 - 1) as nat == k);
        assert((l - (k + 1)) as nat == (l - k - 1) as nat);
    }
}

/// The first `k` inverse layers undo the first `k` forward layers, up to a factor `2^k`.
pub proof fn lemma_layers_roundtrip(a: Seq<int>, k: nat, l: nat, w: Seq<int>, wi: Seq<int>, q: int)
    requires
        q > 0,
        k <= l,
        a.len() == pow2(l),
        reduced(a, q),
        inverse_tables(w, wi, pow2(l) as int, q),
    ensures
        inv_down(fwd_upto(a, k, l, w, q), k, l, wi, q) == scale(a, pow2(k) as int, q),
    decreases k,
{
    if k == 0 {
        assert forall|j: int| 0 <= j < a.len() implies #[trigger] scale(a, 1, q)[j] == a[j] by {
            lemma_small_mod(a[j] as nat, q as nat);
        }
        assert(scale(a, 1, q) =~= a);
        lemma2_to64();
    } else {
        lemma_stage_shape(k, l);
        let km1 = (k - 1) as nat;
        let m = pow2(km1) as int;
        let t = pow2((l - k) as nat) as int;
        let g = fwd_upto(a, km1, l, w, q);
        lemma_fwd_upto_len(a, km1, l, w, q);
        assert(inverse_tables(w, wi, 2 * m, q));
        lemma_layer_roundtrip(g, m, t, w, wi, q);
        lemma_inv_down_linear(g, km1, l, wi, 2, q);
        lemma_layers_roundtrip(a, km1, l, w, wi, q);
        lemma_scale_scale(a, pow2(km1) as int, 2, q);
        let f = fwd_upto(a, k, l, w, q);
        assert(f == fwd_layer(g, m, t, w, q));
        assert(inv_down(f, k, l, wi, q) == inv_down(inv_layer(f, m, t, wi, q), km1, l, wi, q));
        assert(inv_layer(f, m, t, wi, q) == scale(g, 2, q));
        assert(inv_down(scale(g, 2, q), km1, l, wi, q) == scale(inv_down(g, km1, l, wi, q), 2, q));
        assert(2 * m == pow2(k));
    }
}

/// Scaling by the inverse of the accumulated factor restores a reduced sequence.
pub proof fn lemma_unscale(a: Seq<int>, c: int, ci: int, q: int)
    requires
        q > 0,
        reduced(a, q),
        (ci * c) % q == 1int % q,
    ensures
        scale(scale(a, c, q), ci, q) == a,
{
    lemma_scale_scale(a, c, ci, q);
    assert forall|j: int| 0 <= j < a.len() implies #[trigger] scale(a, ci * c, q)[j] == a[j] by {
        lemma_mul_mod_noop_left(ci * c, a[j], q);
        lemma_mul_mod_noop_left(1, a[j], q);
        lemma_small_mod(a[j] as nat, q as nat);
    }
    assert(scale(a, ci * c, q) =~= a);
}

/// The transform law: scaling the inverse layers of the forward layers by `2^-l` is the identity.
pub proof fn lemma_transform_roundtrip(
    a: Seq<int>,
    l: nat,
    w: Seq<int>,
    wi: Seq<int>,
    n_inv: int,
    q: int,
)
    requires
        q > 0,
        a.len() == pow2(l),
        reduced(a, q),
        inverse_tables(w, wi, pow2(l) as int, q),
        (n_inv * pow2(l)) % q == 1int % q,
    ensures
        scale(inv_until(fwd_upto(a, l, l, w, q), 0, l, wi, q), n_inv, q) == a,
{
    lemma_fwd_upto_len(a, l, l, w, q);
    lemma_inv_until_down(fwd_upto(a, l, l, w, q), 0, l, wi, q);
    lemma_layers_roundtrip(a, l, l, w, wi, q);
    lemma_unscale(a, pow2(l) as int, n_inv, q);
}

/// An inverse butterfly followed by a forward butterfly doubles both inputs.
pub proof fn lemma_butterfly_reverse_roundtrip(x: int, y: int, w: int, wi: int, q: int)
    requires
        q > 0,
        (w * wi) % q == 1int % q,
    ensures
        ({
            let a = (x + y) % q;
            let b = (((x - y) % q) * wi) % q;
            &&& (a + (b * w) % q) % q == (2 * x) % q
            &&& (a - (b * w) % q) % q == (2 * y) % q
        }),
{
    let d = (x - y) % q;
    let a = (x + y) % q;
    let b = (d * wi) % q;
    // b w == d wi w == d (mod q)
    assert((b * w) % q == d % q) by {
        lemma_mul_mod_noop_left(d * wi, w, q);
        lemma_mul_is_associative(d, wi, w);
        lemma_mul_is_commutative(wi, w);
        lemma_mul_mod_noop_right(d, w * wi, q);
        lemma_mul_mod_noop_right(d, 1, q);
    }
    lemma_mod_twice(x - y, q);
    assert((a + (b * w) % q) % q == (2 * x) % q) by {
        lemma_add_mod_noop(x + y, x - y, q);
        lemma_mod_twice(x + y, q);
    }
    assert((a - (b * w) % q) % q == (2 * y) % q) by {
        lemma_sub_mod_noop(x + y, x - y, q);
        lemma_mod_twice(x + y, q);
    }
}

/// The forward butterfly commutes with scaling.
pub proof fn lemma_fwd_butterfly_linear(x: int, y: int, c: int, w: int, q: int)
    requires
        q > 0,
    ensures
        ((c * x) % q + (((c * y) % q) * w) % q) % q == (c * ((x + (y * w) % q) % q)) % q,
        ((c * x) % q - (((c * y) % q) * w) % q) % q == (c * ((x - (y * w) % q) % q)) % q,
{
    // ((c y) % q * w) % q == (c (y w)) % q
    lemma_mul_mod_noop_left(c * y, w, q);
    lemma_mul_is_associative(c, y, w);
    lemma_mul_mod_noop_right(c, y * w, q);
    let p = (y * w) % q;
    lemma_add_mod_noop(c * x, c * p, q);
    lemma_sub_mod_noop(c * x, c * p, q);
    lemma_mul_is_distributive_add(c, x, p);
    lemma_mul_is_distributive_sub(c, x, p);
    lemma_mul_mod_noop_right(c, x + p, q);
    lemma_mul_mod_noop_right(c, x - p, q);
    lemma_mod_twice(c * p, q);
}

/// The forward layer commutes with scaling.
pub proof fn lemma_fwd_layer_linear(a: Seq<int>, m: int, t: int, w: Seq<int>, c: int, q: int)
    requires
        q > 0,
        t > 0,
        m > 0,
        a.len() == 2 * t * m,
    ensures
        fwd_layer(scale(a, c, q), m, t, w, q) == scale(fwd_layer(a, m, t, w, q), c, q),
{
    let lhs = fwd_layer(scale(a, c, q), m, t, w, q);
    let rhs = scale(fwd_layer(a, m, t, w, q), c, q);
    assert forall|j: int| 0 <= j < a.len() implies #[trigger] lhs[j] == rhs[j] by {
        lemma_block(j, t, m);
        if j % (2 * t) < t {
            lemma_fwd_butterfly_linear(a[j], a[j + t], c, w[m + j / (2 * t)], q);
        } else {
            lemma_fwd_butterfly_linear(a[j - t], a[j], c, w[m + j / (2 * t)], q);
        }
    }
    assert(lhs =~= rhs);
}

/// The forward layers commute with scaling.
pub proof fn lemma_fwd_upto_linear(a: Seq<int>, k: nat, l: nat, w: Seq<int>, c: int, q: int)
    requires
        q > 0,
        k <= l,
        a.len() == pow2(l),
    ensures
        fwd_upto(scale(a, c, q), k, l, w, q) == scale(fwd_upto(a, k, l, w, q), c, q),
    decreases k,
{
    if k > 0 {
        lemma_stage_shape(k, l);
        let km1 = (k - 1) as nat;
        lemma_fwd_upto_linear(a, km1, l, w, c, q);
        lemma_fwd_upto_len(a, km1, l, w, q);
        lemma_fwd_layer_linear(
            fwd_upto(a, km1, l, w, q),
            pow2(km1) as int,
            pow2((l - k) as nat) as int,
            w,
            c,
            q,
        );
    }
}

/// A forward layer undoes the matching inverse layer, up to a factor of two.
pub proof fn lemma_layer_reverse_roundtrip(
    a: Seq<int>,
    m: int,
    t: int,
    w: Seq<int>,
    wi: Seq<int>,
    q: int,
)
    requires
        q > 0,
        t > 0,
        m > 0,
        a.len() == 2 * t * m,
        inverse_tables(w, wi, 2 * m, q),
    ensures
        fwd_layer(inv_layer(a, m, t, wi, q), m, t, w, q) == scale(a, 2, q),
{
    let g = inv_layer(a, m, t, wi, q);
    let f = fwd_layer(g, m, t, w, q);
    assert forall|j: int| 0 <= j < a.len() implies #[trigger] f[j] == scale(a, 2, q)[j] by {
        lemma_block(j, t, m);
        let i = j / (2 * t);
        assert(1 <= m + i < 2 * m);
        assert((w[m + i] * wi[m + i]) % q == 1int % q);
        if j % (2 * t) < t {
            lemma_block(j + t, t, m);
            lemma_butterfly_reverse_roundtrip(a[j], a[j + t], w[m + i], wi[m + i], q);
        } else {
            lemma_block(j - t, t, m);
            lemma_butterfly_reverse_roundtrip(a[j - t], a[j], w[m + i], wi[m + i], q);
        }
    }
    assert(f =~= scale(a, 2, q));
}

/// Inverse layers on a reduced sequence give a reduced sequence.
pub proof fn lemma_inv_until_reduced(b: Seq<int>, k: nat, l: nat, wi: Seq<int>, q: int)
    requires
        q > 0,
        reduced(b, q),
    ensures
        reduced(inv_until(b, k, l, wi, q), q),
    decreases l - k,
{
    if k < l {
        lemma_inv_until_reduced(b, k + 1, l, wi, q);
        let g = inv_until(b, k, l, wi, q);
        assert forall|j: int| 0 <= j < g.len() implies 0 <= #[trigger] g[j] < q by {
            let prev = inv_until(b, k + 1, l, wi, q);
            let t = pow2((l - k - 1) as nat) as int;
            let h = pow2(k) as int;
            let i = j / (2 * t);
            if j % (2 * t) < t {
                lemma_mod_bound(prev[j] + prev[j + t], q);
            } else {
                lemma_mod_bound(((prev[j - t] - prev[j]) % q) * wi[h + i], q);
            }
        }
    }
}

/// The first `k` forward layers of all inverse layers give the inverse layers from `k` on,
/// scaled by `2^k`.
pub proof fn lemma_layers_reverse_roundtrip(
    b: Seq<int>,
    k: nat,
    l: nat,
    w: Seq<int>,
    wi: Seq<int>,
    q: int,
)
    requires
        q > 0,
        k <= l,
        b.len() == pow2(l),
        reduced(b, q),
        inverse_tables(w, wi, pow2(l) as int, q),
    ensures
        fwd_upto(inv_until(b, 0, l, wi, q), k, l, w, q) == scale(
            inv_until(b, k, l, wi, q),
            pow2(k) as int,
            q,
        ),
    decreases k,
{
    if k == 0 {
        let g = inv_until(b, 0, l, wi, q);
        lemma_inv_until_reduced(b, 0, l, wi, q);
        assert forall|j: int| 0 <= j < g.len() implies #[trigger] scale(g, 1, q)[j] == g[j] by {
            lemma_small_mod(g[j] as nat, q as nat);
        }
        assert(scale(g, 1, q) =~= g);
        lemma2_to64();
    } else {
        lemma_stage_shape(k, l);
        let km1 = (k - 1) as nat;
        let m = pow2(km1) as int;
        let t = pow2((l - k) as nat) as int;
        lemma_layers_reverse_roundtrip(b, km1, l, w, wi, q);
        let y = inv_until(b, k, l, wi, q);
        lemma_inv_until_len(b, k, l, wi, q);
        assert((l - km1 - 1) as nat == (l - k) as nat);
        assert(inv_until(b, km1, l, wi, q) == inv_layer(y, m, t, wi, q));
        let g = inv_layer(y, m, t, wi, q);
        assert(inverse_tables(w, wi, 2 * m, q));
        lemma_fwd_layer_linear(g, m, t, w, pow2(km1) as int, q);
        lemma_layer_reverse_roundtrip(y, m, t, w, wi, q);
        lemma_scale_scale(y, 2, pow2(km1) as int, q);
        assert(pow2(km1) * 2 == pow2(k));
    }
}

/// Scaling the forward layers of the inverse layers by `2^-l` is the identity on reduced
/// sequences.
pub proof fn lemma_transform_reverse_roundtrip(
    b: Seq<int>,
    l: nat,
    w: Seq<int>,
    wi: Seq<int>,
    n_inv: int,
    q: int,
)
    requires
        q > 0,
        b.len() == pow2(l),
        reduced(b, q),
        inverse_tables(w, wi, pow2(l) as int, q),
        (n_inv * pow2(l)) % q == 1int % q,
    ensures
        fwd_upto(scale(inv_until(b, 0, l, wi, q), n_inv, q), l, l, w, q) == b,
{
    lemma_inv_until_len(b, 0, l, wi, q);
    lemma_fwd_upto_linear(inv_until(b, 0, l, wi, q), l, l, w, n_inv, q);
    lemma_layers_reverse_roundtrip(b, l, l, w, wi, q);
    lemma_unscale(b, pow2(l) as int, n_inv, q);
}

} // verus!
