//! The arithmetic of transformed polynomials: sums and products of pairs
//! obey the laws of a commutative ring, and sums of sums can be taken in
//! either order.
use crate::helpers::{column, dot, mat_t_vec, mat_vec, poly_add, vec_add, zero_poly};
use crate::ntt::{is_poly, multiply_ntts_spec, zeta_table};
use crate::ntt_product::{lemma_eqm_add, lemma_eqm_mod, lemma_eqm_mul};
use vstd::arithmetic::div_mod::*;
use vstd::prelude::*;

verus! {

/// The sum does not depend on the order of its two terms.
pub proof fn lemma_add_comm(a: Seq<int>, b: Seq<int>)
    ensures
        poly_add(a, b) == poly_add(b, a),
{
    assert(poly_add(a, b) =~= poly_add(b, a));
}

/// The sum of three does not depend on which two are added first.
pub proof fn lemma_add_assoc(a: Seq<int>, b: Seq<int>, c: Seq<int>)
    ensures
        poly_add(poly_add(a, b), c) == poly_add(a, poly_add(b, c)),
{
    let l = poly_add(poly_add(a, b), c);
    let r = poly_add(a, poly_add(b, c));
    assert forall|t: int| 0 <= t < 256 implies l[t] == r[t] by {
        lemma_eqm_mod(a[t] + b[t]);
        lemma_eqm_add((a[t] + b[t]) % 3329, a[t] + b[t], c[t], c[t]);
        lemma_eqm_mod(b[t] + c[t]);
        lemma_eqm_add(a[t], a[t], (b[t] + c[t]) % 3329, b[t] + c[t]);
    }
    assert(l =~= r);
}

/// Adding the zero polynomial changes nothing.
pub proof fn lemma_add_zero(a: Seq<int>)
    requires
        is_poly(a),
    ensures
        poly_add(zero_poly(), a) == a,
        poly_add(a, zero_poly()) == a,
{
    assert forall|t: int| 0 <= t < 256 implies poly_add(zero_poly(), a)[t] == a[t] by {
        lemma_small_mod(a[t] as nat, 3329);
    }
    assert(poly_add(zero_poly(), a) =~= a);
    assert(poly_add(a, zero_poly()) =~= a);
}

/// The product does not depend on the order of its two factors.
pub proof fn lemma_mul_comm(a: Seq<int>, b: Seq<int>)
    ensures
        multiply_ntts_spec(a, b) == multiply_ntts_spec(b, a),
{
    let l = multiply_ntts_spec(a, b);
    let r = multiply_ntts_spec(b, a);
    assert forall|t: int| 0 <= t < 256 implies l[t] == r[t] by {
        let i = t / 2;
        let (a0, a1, b0, b1) = (a[2 * i], a[2 * i + 1], b[2 * i], b[2 * i + 1]);
        assert(a0 * b0 == b0 * a0) by (nonlinear_arith);
        assert(a1 * b1 == b1 * a1) by (nonlinear_arith);
        assert(a0 * b1 == b1 * a0) by (nonlinear_arith);
        assert(a1 * b0 == b0 * a1) by (nonlinear_arith);
    }
    assert(l =~= r);
}

/// A product with the zero polynomial is the zero polynomial.
pub proof fn lemma_mul_zero(a: Seq<int>)
    ensures
        multiply_ntts_spec(zero_poly(), a) == zero_poly(),
{
    let l = multiply_ntts_spec(zero_poly(), a);
    assert forall|t: int| 0 <= t < 256 implies l[t] == 0 by {
        let i = t / 2;
        let z = zeta_table()[128 + i];
        assert(0 * a[2 * i] == 0);
        assert(0 * a[2 * i + 1] == 0);
        assert(0 * a[2 * i + 1] * z == 0) by (nonlinear_arith);
    }
    assert(l =~= zero_poly());
}

/// The product of a sum is the sum of the products.
pub proof fn lemma_mul_add(a: Seq<int>, b: Seq<int>, c: Seq<int>)
    ensures
        multiply_ntts_spec(poly_add(a, b), c) == poly_add(
            multiply_ntts_spec(a, c),
            multiply_ntts_spec(b, c),
        ),
        multiply_ntts_spec(c, poly_add(a, b)) == poly_add(
            multiply_ntts_spec(c, a),
            multiply_ntts_spec(c, b),
        ),
{
    let s = poly_add(a, b);
    let l = multiply_ntts_spec(s, c);
    let r = poly_add(multiply_ntts_spec(a, c), multiply_ntts_spec(b, c));
    assert forall|t: int| 0 <= t < 256 implies l[t] == r[t] by {
        let i = t / 2;
        let z = zeta_table()[128 + i];
        let (a0, a1, b0, b1) = (a[2 * i], a[2 * i + 1], b[2 * i], b[2 * i + 1]);
        let (c0, c1) = (c[2 * i], c[2 * i + 1]);
        let (s0, s1) = (s[2 * i], s[2 * i + 1]);
        lemma_eqm_mod(a0 + b0);
        lemma_eqm_mod(a1 + b1);
        if t % 2 == 0 {
            lemma_eqm_mul(s0, a0 + b0, c0, c0);
            lemma_eqm_mul(s1, a1 + b1, c1 * z, c1 * z);
            assert(s1 * c1 * z == s1 * (c1 * z)) by (nonlinear_arith);
            lemma_eqm_add(s0 * c0, (a0 + b0) * c0, s1 * (c1 * z), (a1 + b1) * (c1 * z));
            lemma_eqm_mod(a0 * c0 + a1 * c1 * z);
            lemma_eqm_mod(b0 * c0 + b1 * c1 * z);
            lemma_eqm_add(
                (a0 * c0 + a1 * c1 * z) % 3329,
                a0 * c0 + a1 * c1 * z,
                (b0 * c0 + b1 * c1 * z) % 3329,
                b0 * c0 + b1 * c1 * z,
            );
            assert((a0 + b0) * c0 == a0 * c0 + b0 * c0) by (nonlinear_arith);
            assert((a1 + b1) * (c1 * z) == a1 * c1 * z + b1 * c1 * z) by (nonlinear_arith);
        } else {
            lemma_eqm_mul(s0, a0 + b0, c1, c1);
            lemma_eqm_mul(s1, a1 + b1, c0, c0);
            lemma_eqm_add(s0 * c1, (a0 + b0) * c1, s1 * c0, (a1 + b1) * c0);
            lemma_eqm_mod(a0 * c1 + a1 * c0);
            lemma_eqm_mod(b0 * c1 + b1 * c0);
            lemma_eqm_add(
                (a0 * c1 + a1 * c0) % 3329,
                a0 * c1 + a1 * c0,
                (b0 * c1 + b1 * c0) % 3329,
                b0 * c1 + b1 * c0,
            );
            assert((a0 + b0) * c1 == a0 * c1 + b0 * c1) by (nonlinear_arith);
            assert((a1 + b1) * c0 == a1 * c0 + b1 * c0) by (nonlinear_arith);
        }
    }
    assert(l =~= r);
    lemma_mul_comm(c, s);
    lemma_mul_comm(c, a);
    lemma_mul_comm(c, b);
}

/// The product of three does not depend on which two are multiplied first.
pub proof fn lemma_mul_assoc(a: Seq<int>, b: Seq<int>, c: Seq<int>)
    ensures
        multiply_ntts_spec(multiply_ntts_spec(a, b), c) == multiply_ntts_spec(
            a,
            multiply_ntts_spec(b, c),
        ),
{
    let p = multiply_ntts_spec(a, b);
    let q = multiply_ntts_spec(b, c);
    let l = multiply_ntts_spec(p, c);
    let r = multiply_ntts_spec(a, q);
    assert forall|t: int| 0 <= t < 256 implies l[t] == r[t] by {
        let i = t / 2;
        let z = zeta_table()[128 + i];
        let (a0, a1, b0, b1) = (a[2 * i], a[2 * i + 1], b[2 * i], b[2 * i + 1]);
        let (c0, c1) = (c[2 * i], c[2 * i + 1]);
        let (p0, p1) = (p[2 * i], p[2 * i + 1]);
        let (q0, q1) = (q[2 * i], q[2 * i + 1]);
        let up0 = a0 * b0 + a1 * b1 * z;
        let up1 = a0 * b1 + a1 * b0;
        let uq0 = b0 * c0 + b1 * c1 * z;
        let uq1 = b0 * c1 + b1 * c0;
        assert((2 * i) / 2 == i && (2 * i) % 2 == 0);
        assert((2 * i + 1) / 2 == i && (2 * i + 1) % 2 == 1);
        assert(p0 == up0 % 3329 && p1 == up1 % 3329);
        assert(q0 == uq0 % 3329 && q1 == uq1 % 3329);
        lemma_eqm_mod(up0);
        lemma_eqm_mod(up1);
        lemma_eqm_mod(uq0);
        lemma_eqm_mod(uq1);
        if t % 2 == 0 {
            // (p0 c0 + p1 c1 z) and (a0 q0 + a1 q1 z)
            lemma_eqm_mul(p0, up0, c0, c0);
            lemma_eqm_mul(p1, up1, c1 * z, c1 * z);
            assert(p1 * c1 * z == p1 * (c1 * z)) by (nonlinear_arith);
            lemma_eqm_add(p0 * c0, up0 * c0, p1 * (c1 * z), up1 * (c1 * z));
            lemma_eqm_mul(a0, a0, q0, uq0);
            lemma_eqm_mul(a1 * z, a1 * z, q1, uq1);
            assert(a1 * q1 * z == (a1 * z) * q1) by (nonlinear_arith);
            lemma_eqm_add(a0 * q0, a0 * uq0, (a1 * z) * q1, (a1 * z) * uq1);
            // each of the four products of three, in the two groupings
            assert((a0 * b0) * c0 == a0 * (b0 * c0)) by (nonlinear_arith);
            assert(((a1 * b1) * z) * c0 == (a1 * z) * (b1 * c0)) by (nonlinear_arith);
            assert((a0 * b1) * (c1 * z) == a0 * ((b1 * c1) * z)) by (nonlinear_arith);
            assert((a1 * b0) * (c1 * z) == (a1 * z) * (b0 * c1)) by (nonlinear_arith);
            assert(up0 * c0 == (a0 * b0) * c0 + ((a1 * b1) * z) * c0) by (nonlinear_arith)
                requires
                    up0 == a0 * b0 + a1 * b1 * z,
            ;
            assert(up1 * (c1 * z) == (a0 * b1) * (c1 * z) + (a1 * b0) * (c1 * z))
                by (nonlinear_arith)
                requires
                    up1 == a0 * b1 + a1 * b0,
            ;
            assert(a0 * uq0 == a0 * (b0 * c0) + a0 * ((b1 * c1) * z)) by (nonlinear_arith)
                requires
                    uq0 == b0 * c0 + b1 * c1 * z,
            ;
            assert((a1 * z) * uq1 == (a1 * z) * (b0 * c1) + (a1 * z) * (b1 * c0))
                by (nonlinear_arith)
                requires
                    uq1 == b0 * c1 + b1 * c0,
            ;
        } else {
            // (p0 c1 + p1 c0) and (a0 q1 + a1 q0)
            lemma_eqm_mul(p0, up0, c1, c1);
            lemma_eqm_mul(p1, up1, c0, c0);
            lemma_eqm_add(p0 * c1, up0 * c1, p1 * c0, up1 * c0);
            lemma_eqm_mul(a0, a0, q1, uq1);
            lemma_eqm_mul(a1, a1, q0, uq0);
            lemma_eqm_add(a0 * q1, a0 * uq1, a1 * q0, a1 * uq0);
            assert((a0 * b0) * c1 == a0 * (b0 * c1)) by (nonlinear_arith);
            assert(((a1 * b1) * z) * c1 == a1 * ((b1 * c1) * z)) by (nonlinear_arith);
            assert((a0 * b1) * c0 == a0 * (b1 * c0)) by (nonlinear_arith);
            assert((a1 * b0) * c0 == a1 * (b0 * c0)) by (nonlinear_arith);
            assert(up0 * c1 == (a0 * b0) * c1 + ((a1 * b1) * z) * c1) by (nonlinear_arith)
                requires
                    up0 == a0 * b0 + a1 * b1 * z,
            ;
            assert(up1 * c0 == (a0 * b1) * c0 + (a1 * b0) * c0) by (nonlinear_arith)
                requires
                    up1 == a0 * b1 + a1 * b0,
            ;
            assert(a0 * uq1 == a0 * (b0 * c1) + a0 * (b1 * c0)) by (nonlinear_arith)
                requires
                    uq1 == b0 * c1 + b1 * c0,
            ;
            assert(a1 * uq0 == a1 * (b0 * c0) + a1 * ((b1 * c1) * z)) by (nonlinear_arith)
                requires
                    uq0 == b0 * c0 + b1 * c1 * z,
            ;
        }
    }
    assert(l =~= r);
}

/// The sum of two sums is the sum of the sums of their terms taken in pairs:
/// `(a + b) + (c + d) = (a + c) + (b + d)`.
pub proof fn lemma_add_pairs(a: Seq<int>, b: Seq<int>, c: Seq<int>, d: Seq<int>)
    ensures
        poly_add(poly_add(a, b), poly_add(c, d)) == poly_add(poly_add(a, c), poly_add(b, d)),
{
    let l = poly_add(poly_add(a, b), poly_add(c, d));
    let r = poly_add(poly_add(a, c), poly_add(b, d));
    assert forall|t: int| 0 <= t < 256 implies l[t] == r[t] by {
        lemma_eqm_mod(a[t] + b[t]);
        lemma_eqm_mod(c[t] + d[t]);
        lemma_eqm_add((a[t] + b[t]) % 3329, a[t] + b[t], (c[t] + d[t]) % 3329, c[t] + d[t]);
        lemma_eqm_mod(a[t] + c[t]);
        lemma_eqm_mod(b[t] + d[t]);
        lemma_eqm_add((a[t] + c[t]) % 3329, a[t] + c[t], (b[t] + d[t]) % 3329, b[t] + d[t]);
    }
    assert(l =~= r);
}

/// The sum of the polynomials `f(0)` to `f(n - 1)`.
pub open spec fn psum(f: spec_fn(int) -> Seq<int>, n: nat) -> Seq<int>
    decreases n,
{
    if n == 0 {
        zero_poly()
    } else {
        poly_add(psum(f, (n - 1) as nat), f(n - 1))
    }
}

/// A sum depends on its terms only.
pub proof fn lemma_psum_ext(f: spec_fn(int) -> Seq<int>, g: spec_fn(int) -> Seq<int>, n: nat)
    requires
        forall|i: int| 0 <= i < n ==> #[trigger] f(i) == g(i),
    ensures
        psum(f, n) == psum(g, n),
    decreases n,
{
    if n > 0 {
        lemma_psum_ext(f, g, (n - 1) as nat);
        assert(f(n - 1) == g(n - 1));
    }
}

/// The sum of sums of two terms is the sum of the two sums.
pub proof fn lemma_psum_add(f: spec_fn(int) -> Seq<int>, g: spec_fn(int) -> Seq<int>, n: nat)
    ensures
        psum(|i: int| poly_add(f(i), g(i)), n) == poly_add(psum(f, n), psum(g, n)),
    decreases n,
{
    let h = |i: int| poly_add(f(i), g(i));
    if n == 0 {
        lemma_add_zero(zero_poly());
    } else {
        lemma_psum_add(f, g, (n - 1) as nat);
        lemma_add_pairs(psum(f, (n - 1) as nat), psum(g, (n - 1) as nat), f(n - 1), g(n - 1));
        assert(h(n - 1) == poly_add(f(n - 1), g(n - 1)));
    }
}

/// A product with a sum is the sum of the products.
pub proof fn lemma_psum_mul(c: Seq<int>, f: spec_fn(int) -> Seq<int>, n: nat)
    ensures
        multiply_ntts_spec(c, psum(f, n)) == psum(|i: int| multiply_ntts_spec(c, f(i)), n),
        multiply_ntts_spec(psum(f, n), c) == psum(|i: int| multiply_ntts_spec(f(i), c), n),
    decreases n,
{
    let h = |i: int| multiply_ntts_spec(c, f(i));
    let h2 = |i: int| multiply_ntts_spec(f(i), c);
    if n == 0 {
        lemma_mul_zero(c);
        lemma_mul_comm(c, zero_poly());
    } else {
        lemma_psum_mul(c, f, (n - 1) as nat);
        lemma_mul_add(psum(f, (n - 1) as nat), f(n - 1), c);
        assert(h(n - 1) == multiply_ntts_spec(c, f(n - 1)));
        assert(h2(n - 1) == multiply_ntts_spec(f(n - 1), c));
    }
}

/// A sum of sums can be taken in either order.
pub proof fn lemma_psum_exchange(t: spec_fn(int, int) -> Seq<int>, n: nat, m: nat)
    ensures
        psum(|i: int| psum(|j: int| t(i, j), m), n) == psum(|j: int| psum(|i: int| t(i, j), n), m),
    decreases n,
{
    let rows = |i: int| psum(|j: int| t(i, j), m);
    let cols = |j: int| psum(|i: int| t(i, j), n);
    if n == 0 {
        // every inner sum over no terms is zero
        lemma_psum_zero(cols, m);
    } else {
        let n1 = (n - 1) as nat;
        let cols1 = |j: int| psum(|i: int| t(i, j), n1);
        let last = |j: int| t(n - 1, j);
        lemma_psum_exchange(t, n1, m);
        // the rows up to n - 1, then the last row
        let rows1 = |i: int| psum(|j: int| t(i, j), m);
        assert(psum(rows, n) == poly_add(psum(rows, n1), rows(n - 1)));
        assert(rows(n - 1) == psum(|j: int| t(n - 1, j), m));
        lemma_psum_ext(|j: int| t(n - 1, j), last, m);
        // each column is the column up to n - 1 plus its last entry
        lemma_psum_add(cols1, last, m);
        lemma_psum_ext(cols, |j: int| poly_add(cols1(j), last(j)), m);
    }
}

/// A sum whose terms are all the zero polynomial is the zero polynomial.
pub proof fn lemma_psum_zero(f: spec_fn(int) -> Seq<int>, n: nat)
    requires
        forall|i: int| 0 <= i < n ==> #[trigger] f(i) == zero_poly(),
    ensures
        psum(f, n) == zero_poly(),
    decreases n,
{
    if n > 0 {
        lemma_psum_zero(f, (n - 1) as nat);
        assert(f(n - 1) == zero_poly());
        lemma_add_zero(zero_poly());
    }
}

/// The sum of products of entries as a sum of polynomials.
pub proof fn lemma_dot_is_psum(u: Seq<Seq<int>>, v: Seq<Seq<int>>, n: nat)
    ensures
        dot(u, v, n) == psum(|j: int| multiply_ntts_spec(u[j], v[j]), n),
    decreases n,
{
    if n > 0 {
        lemma_dot_is_psum(u, v, (n - 1) as nat);
    }
}

/// The product of a matrix with a vector, taken against a second vector, is
/// the first vector taken against the product of the transposed matrix with
/// the second: both are the sum of the `a[i][j] s[j] y[i]` over all `i` and
/// `j`.
pub proof fn lemma_transpose(a: Seq<Seq<Seq<int>>>, s: Seq<Seq<int>>, y: Seq<Seq<int>>, k: nat)
    requires
        a.len() == k,
        s.len() == k,
        y.len() == k,
        forall|i: int| 0 <= i < k ==> (#[trigger] a[i]).len() == k,
    ensures
        dot(mat_vec(a, s), y, k) == dot(s, mat_t_vec(a, y), k),
{
    let t = |i: int, j: int| multiply_ntts_spec(multiply_ntts_spec(a[i][j], s[j]), y[i]);
    // the left side, row by row
    let left = |i: int| multiply_ntts_spec(mat_vec(a, s)[i], y[i]);
    let rows = |i: int| psum(|j: int| t(i, j), k);
    lemma_dot_is_psum(mat_vec(a, s), y, k);
    assert forall|i: int| 0 <= i < k implies #[trigger] left(i) == rows(i) by {
        let f = |j: int| multiply_ntts_spec(a[i][j], s[j]);
        lemma_dot_is_psum(a[i], s, k);
        assert(mat_vec(a, s)[i] == psum(f, k));
        lemma_psum_mul(y[i], f, k);
        lemma_psum_ext(|j: int| multiply_ntts_spec(f(j), y[i]), |j: int| t(i, j), k);
    }
    lemma_psum_ext(left, rows, k);
    // the right side, column by column
    let right = |j: int| multiply_ntts_spec(s[j], mat_t_vec(a, y)[j]);
    let cols = |j: int| psum(|i: int| t(i, j), k);
    lemma_dot_is_psum(s, mat_t_vec(a, y), k);
    assert forall|j: int| 0 <= j < k implies #[trigger] right(j) == cols(j) by {
        let col = column(a, j);
        let f = |i: int| multiply_ntts_spec(col[i], y[i]);
        lemma_dot_is_psum(col, y, k);
        assert(mat_t_vec(a, y)[j] == psum(f, k));
        lemma_psum_mul(s[j], f, k);
        assert forall|i: int| 0 <= i < k implies #[trigger] multiply_ntts_spec(s[j], f(i)) == t(
            i,
            j,
        ) by {
            assert(col[i] == a[i][j]);
            lemma_mul_comm(a[i][j], s[j]);
            lemma_mul_assoc(s[j], a[i][j], y[i]);
        }
        lemma_psum_ext(|i: int| multiply_ntts_spec(s[j], f(i)), |i: int| t(i, j), k);
    }
    lemma_psum_ext(right, cols, k);
    lemma_psum_exchange(t, k, k);
}

/// The sum of products is additive in its first vector.
pub proof fn lemma_dot_add_left(u: Seq<Seq<int>>, w: Seq<Seq<int>>, v: Seq<Seq<int>>, n: nat)
    requires
        n <= u.len(),
    ensures
        dot(vec_add(u, w), v, n) == poly_add(dot(u, v, n), dot(w, v, n)),
    decreases n,
{
    if n == 0 {
        lemma_add_zero(zero_poly());
    } else {
        let n1 = (n - 1) as nat;
        lemma_dot_add_left(u, w, v, n1);
        lemma_mul_add(u[n - 1], w[n - 1], v[n - 1]);
        lemma_add_pairs(
            dot(u, v, n1),
            dot(w, v, n1),
            multiply_ntts_spec(u[n - 1], v[n - 1]),
            multiply_ntts_spec(w[n - 1], v[n - 1]),
        );
    }
}

/// The sum of products is additive in its second vector.
pub proof fn lemma_dot_add_right(u: Seq<Seq<int>>, v: Seq<Seq<int>>, w: Seq<Seq<int>>, n: nat)
    requires
        n <= v.len(),
    ensures
        dot(u, vec_add(v, w), n) == poly_add(dot(u, v, n), dot(u, w, n)),
    decreases n,
{
    if n == 0 {
        lemma_add_zero(zero_poly());
    } else {
        let n1 = (n - 1) as nat;
        lemma_dot_add_right(u, v, w, n1);
        lemma_mul_add(v[n - 1], w[n - 1], u[n - 1]);
        lemma_add_pairs(
            dot(u, v, n1),
            dot(u, w, n1),
            multiply_ntts_spec(u[n - 1], v[n - 1]),
            multiply_ntts_spec(u[n - 1], w[n - 1]),
        );
    }
}

} // verus!
