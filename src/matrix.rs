//! Square and rectangular matrices over GF(2^8), and their inversion.
use vstd::prelude::*;
use crate::gf::{gmul, ginv, lemma_mul_associates, lemma_mul_commutes, lemma_mul_distributes, lemma_mul_zero_one, lemma_mul_inverse};

verus! {

/// The sum `f(0) ^ f(1) ^ ... ^ f(n - 1)`.
pub open spec fn xsum(f: spec_fn(int) -> u8, n: nat) -> u8
    decreases n,
{
    if n == 0 {
        0
    } else {
        xsum(f, (n - 1) as nat) ^ f(n - 1)
    }
}

/// The inner product of two vectors of the length of `u`.
pub open spec fn dot(u: Seq<u8>, v: Seq<u8>) -> u8 {
    xsum(|l: int| gmul(u[l], v[l]), u.len())
}

/// Column `j` of `m`.
pub open spec fn column(m: Seq<Seq<u8>>, j: int) -> Seq<u8> {
    Seq::new(m.len(), |i: int| m[i][j])
}

/// `m` has `rows` rows of `cols` entries each.
pub open spec fn is_matrix(m: Seq<Seq<u8>>, rows: nat, cols: nat) -> bool {
    m.len() == rows && forall|i: int| 0 <= i < rows ==> #[trigger] m[i].len() == cols
}

/// The product of `a` and a matrix `b` with `p` columns.
pub open spec fn mat_mul(a: Seq<Seq<u8>>, b: Seq<Seq<u8>>, p: nat) -> Seq<Seq<u8>> {
    Seq::new(a.len(), |i: int| Seq::new(p, |j: int| dot(a[i], column(b, j))))
}

/// The `n x n` identity matrix.
pub open spec fn identity(n: nat) -> Seq<Seq<u8>> {
    Seq::new(n, |i: int| Seq::new(n, |j: int| if i == j { 1u8 } else { 0u8 }))
}

/// The `r x c` matrix of zeros.
pub open spec fn zeros(r: nat, c: nat) -> Seq<Seq<u8>> {
    Seq::new(r, |i: int| Seq::new(c, |j: int| 0u8))
}

/// `b` is an `n x n` matrix with `b * a == I`.
pub open spec fn is_left_inverse(b: Seq<Seq<u8>>, a: Seq<Seq<u8>>, n: nat) -> bool {
    is_matrix(b, n, n) && mat_mul(b, a, n) == identity(n)
}

/// The `n x n` matrix `a` has an inverse.
pub open spec fn invertible(a: Seq<Seq<u8>>, n: nat) -> bool {
    exists|b: Seq<Seq<u8>>| is_left_inverse(b, a, n)
}

/// `u` multiplied by the scalar `t`.
pub open spec fn scale(u: Seq<u8>, t: u8) -> Seq<u8> {
    Seq::new(u.len(), |j: int| gmul(t, u[j]))
}

/// `u + t * w`.
pub open spec fn axpy(u: Seq<u8>, t: u8, w: Seq<u8>) -> Seq<u8> {
    Seq::new(u.len(), |j: int| u[j] ^ gmul(t, w[j]))
}

pub open spec fn swap_rows(m: Seq<Seq<u8>>, a: int, b: int) -> Seq<Seq<u8>> {
    m.update(a, m[b]).update(b, m[a])
}

pub open spec fn scale_row(m: Seq<Seq<u8>>, r: int, t: u8) -> Seq<Seq<u8>> {
    m.update(r, scale(m[r], t))
}

pub open spec fn add_row(m: Seq<Seq<u8>>, dst: int, src: int, t: u8) -> Seq<Seq<u8>> {
    m.update(dst, axpy(m[dst], t, m[src]))
}

pub proof fn lemma_xor(a: u8, b: u8, c: u8, d: u8)
    by (bit_vector)
    ensures
        a ^ 0u8 == a,
        0u8 ^ a == a,
        a ^ a == 0u8,
        a ^ b == b ^ a,
        (a ^ b) ^ c == a ^ (b ^ c),
        (a ^ b) ^ (c ^ d) == (a ^ c) ^ (b ^ d),
{
}

pub proof fn lemma_xsum_ext(f: spec_fn(int) -> u8, g: spec_fn(int) -> u8, n: nat)
    requires
        forall|i: int| 0 <= i < n ==> #[trigger] f(i) == g(i),
    ensures
        xsum(f, n) == xsum(g, n),
    decreases n,
{
    if n > 0 {
        lemma_xsum_ext(f, g, (n - 1) as nat);
    }
}

pub proof fn lemma_xsum_zero(f: spec_fn(int) -> u8, n: nat)
    requires
        forall|i: int| 0 <= i < n ==> #[trigger] f(i) == 0,
    ensures
        xsum(f, n) == 0,
    decreases n,
{
    if n > 0 {
        lemma_xsum_zero(f, (n - 1) as nat);
        lemma_xor(0, 0, 0, 0);
    }
}

pub proof fn lemma_xsum_add(f: spec_fn(int) -> u8, g: spec_fn(int) -> u8, h: spec_fn(int) -> u8, n: nat)
    requires
        forall|i: int| 0 <= i < n ==> #[trigger] h(i) == f(i) ^ g(i),
    ensures
        xsum(h, n) == xsum(f, n) ^ xsum(g, n),
    decreases n,
{
    if n == 0 {
        lemma_xor(0, 0, 0, 0);
    } else {
        let m = (n - 1) as nat;
        lemma_xsum_add(f, g, h, m);
        lemma_xor(xsum(f, m), xsum(g, m), f(n - 1), g(n - 1));
    }
}

pub proof fn lemma_xsum_scale(f: spec_fn(int) -> u8, g: spec_fn(int) -> u8, c: u8, n: nat)
    requires
        forall|i: int| 0 <= i < n ==> #[trigger] g(i) == gmul(c, f(i)),
    ensures
        xsum(g, n) == gmul(c, xsum(f, n)),
    decreases n,
{
    if n == 0 {
        lemma_mul_zero_one(c);
    } else {
        let m = (n - 1) as nat;
        lemma_xsum_scale(f, g, c, m);
        lemma_mul_distributes(c, xsum(f, m), f(n - 1));
    }
}

pub proof fn lemma_xsum_single(f: spec_fn(int) -> u8, n: nat, p: int)
    requires
        0 <= p < n,
        forall|i: int| 0 <= i < n && i != p ==> #[trigger] f(i) == 0,
    ensures
        xsum(f, n) == f(p),
    decreases n,
{
    let m = (n - 1) as nat;
    lemma_xor(f(p), 0, 0, 0);
    if p == n - 1 {
        lemma_xsum_zero(f, m);
    } else {
        lemma_xsum_single(f, m, p);
    }
}

proof fn lemma_xsum_pair(f: spec_fn(int) -> u8, n: nat, p: int, q: int)
    requires
        0 <= p < q < n,
        forall|i: int| 0 <= i < n && i != p && i != q ==> #[trigger] f(i) == 0,
    ensures
        xsum(f, n) == f(p) ^ f(q),
    decreases n,
{
    let m = (n - 1) as nat;
    lemma_xor(f(p), f(q), 0, 0);
    lemma_xor(f(p) ^ f(q), 0, 0, 0);
    if q == n - 1 {
        lemma_xsum_single(f, m, p);
    } else {
        lemma_xsum_pair(f, m, p, q);
    }
}

proof fn lemma_xsum_swap(g: spec_fn(int, int) -> u8, k: nat, l: nat)
    ensures
        xsum(|y: int| xsum(|x: int| g(x, y), k), l) == xsum(|x: int| xsum(|y: int| g(x, y), l), k),
    decreases l,
{
    if l == 0 {
        lemma_xsum_zero(|x: int| xsum(|y: int| g(x, y), 0), k);
    } else {
        let m = (l - 1) as nat;
        lemma_xsum_swap(g, k, m);
        lemma_xsum_add(
            |x: int| xsum(|y: int| g(x, y), m),
            |x: int| g(x, m as int),
            |x: int| xsum(|y: int| g(x, y), l),
            k,
        );
    }
}


/// Matrix multiplication is associative.
pub proof fn lemma_mat_mul_associates(
    x: Seq<Seq<u8>>,
    y: Seq<Seq<u8>>,
    z: Seq<Seq<u8>>,
    r: nat,
    s: nat,
    t: nat,
    p: nat,
)
    requires
        is_matrix(x, r, s),
        is_matrix(y, s, t),
        is_matrix(z, t, p),
    ensures
        mat_mul(mat_mul(x, y, t), z, p) == mat_mul(x, mat_mul(y, z, p), p),
{
    let xy = mat_mul(x, y, t);
    let yz = mat_mul(y, z, p);
    let lhs = mat_mul(xy, z, p);
    let rhs = mat_mul(x, yz, p);
    assert forall|i: int, j: int| 0 <= i < r && 0 <= j < p implies #[trigger] lhs[i][j] == rhs[i][j] by {
        let g = |k: int, l: int| gmul(gmul(x[i][k], y[k][l]), z[l][j]);
        assert forall|l: int| 0 <= l < t implies gmul(xy[i][l], z[l][j]) == xsum(|k: int| g(k, l), s) by {
            assert(xy[i][l] == xsum(|k: int| gmul(x[i][k], column(y, l)[k]), s));
            lemma_xsum_ext(
                |k: int| gmul(x[i][k], column(y, l)[k]),
                |k: int| gmul(x[i][k], y[k][l]),
                s,
            );
            assert forall|k: int| 0 <= k < s implies #[trigger] g(k, l) == gmul(z[l][j], gmul(x[i][k], y[k][l])) by {
                lemma_mul_commutes(gmul(x[i][k], y[k][l]), z[l][j]);
            }
            lemma_xsum_scale(|k: int| gmul(x[i][k], y[k][l]), |k: int| g(k, l), z[l][j], s);
            lemma_mul_commutes(xy[i][l], z[l][j]);
        }
        lemma_xsum_ext(
            |l: int| gmul(xy[i][l], column(z, j)[l]),
            |l: int| xsum(|k: int| g(k, l), s),
            t,
        );
        lemma_xsum_swap(g, s, t);
        assert forall|k: int| 0 <= k < s implies gmul(x[i][k], yz[k][j]) == xsum(|l: int| g(k, l), t) by {
            assert(yz[k][j] == xsum(|l: int| gmul(y[k][l], column(z, j)[l]), t));
            lemma_xsum_ext(
                |l: int| gmul(y[k][l], column(z, j)[l]),
                |l: int| gmul(y[k][l], z[l][j]),
                t,
            );
            assert forall|l: int| 0 <= l < t implies #[trigger] g(k, l) == gmul(x[i][k], gmul(y[k][l], z[l][j])) by {
                lemma_mul_associates(x[i][k], y[k][l], z[l][j]);
            }
            lemma_xsum_scale(|l: int| gmul(y[k][l], z[l][j]), |l: int| g(k, l), x[i][k], t);
        }
        lemma_xsum_ext(
            |k: int| gmul(x[i][k], column(yz, j)[k]),
            |k: int| xsum(|l: int| g(k, l), t),
            s,
        );
    }
    assert forall|i: int| 0 <= i < r implies #[trigger] lhs[i] =~= rhs[i] by {}
    assert(lhs =~= rhs);
}

/// The identity is neutral on the left.
pub proof fn lemma_mat_mul_identity(m: Seq<Seq<u8>>, n: nat, p: nat)
    requires
        is_matrix(m, n, p),
    ensures
        mat_mul(identity(n), m, p) == m,
{
    let e = identity(n);
    let lhs = mat_mul(e, m, p);
    assert forall|i: int, j: int| 0 <= i < n && 0 <= j < p implies #[trigger] lhs[i][j] == m[i][j] by {
        let f = |l: int| gmul(e[i][l], column(m, j)[l]);
        assert forall|l: int| 0 <= l < n && l != i implies #[trigger] f(l) == 0 by {
            lemma_mul_zero_one(m[l][j]);
        }
        lemma_mul_zero_one(m[i][j]);
        lemma_xsum_single(f, n, i);
    }
    assert forall|i: int| 0 <= i < n implies #[trigger] lhs[i] =~= m[i] by {}
    assert(lhs =~= m);
}

/// The identity is neutral on the right.
pub proof fn lemma_mat_mul_identity_right(m: Seq<Seq<u8>>, r: nat, n: nat)
    requires
        is_matrix(m, r, n),
    ensures
        mat_mul(m, identity(n), n) == m,
{
    let e = identity(n);
    let lhs = mat_mul(m, e, n);
    assert forall|i: int, j: int| 0 <= i < r && 0 <= j < n implies #[trigger] lhs[i][j] == m[i][j] by {
        let f = |l: int| gmul(m[i][l], column(e, j)[l]);
        assert forall|l: int| 0 <= l < n && l != j implies #[trigger] f(l) == 0 by {
            lemma_mul_zero_one(m[i][l]);
        }
        lemma_mul_zero_one(m[i][j]);
        lemma_xsum_single(f, n, j);
    }
    assert forall|i: int| 0 <= i < r implies #[trigger] lhs[i] =~= m[i] by {}
    assert(lhs =~= m);
}

/// The inverse of an invertible `n x n` matrix.
pub open spec fn inverse_of(a: Seq<Seq<u8>>, n: nat) -> Seq<Seq<u8>> {
    choose|b: Seq<Seq<u8>>| is_left_inverse(b, a, n)
}

/// A matrix with a two-sided inverse `o` has no other left inverse.
pub proof fn lemma_left_inverse_unique(a: Seq<Seq<u8>>, o: Seq<Seq<u8>>, b: Seq<Seq<u8>>, n: nat)
    requires
        is_matrix(a, n, n),
        is_matrix(o, n, n),
        mat_mul(a, o, n) == identity(n),
        is_left_inverse(b, a, n),
    ensures
        b == o,
{
    lemma_mat_mul_associates(b, a, o, n, n, n, n);
    lemma_mat_mul_identity_right(b, n, n);
    lemma_mat_mul_identity(o, n, n);
}

/// A product with a matrix of zeros on the right is zero.
pub proof fn lemma_mat_mul_zeros(b: Seq<Seq<u8>>, r: nat, s: nat, p: nat)
    requires
        is_matrix(b, r, s),
    ensures
        mat_mul(b, zeros(s, p), p) == zeros(r, p),
{
    let lhs = mat_mul(b, zeros(s, p), p);
    assert forall|i: int, j: int| 0 <= i < r && 0 <= j < p implies #[trigger] lhs[i][j] == 0 by {
        let f = |l: int| gmul(b[i][l], column(zeros(s, p), j)[l]);
        assert forall|l: int| 0 <= l < s implies #[trigger] f(l) == 0 by {
            lemma_mul_zero_one(b[i][l]);
        }
        lemma_xsum_zero(f, s);
    }
    assert forall|i: int| 0 <= i < r implies #[trigger] lhs[i] =~= zeros(r, p)[i] by {}
    assert(lhs =~= zeros(r, p));
}

proof fn lemma_dot_scale(u: Seq<u8>, t: u8, v: Seq<u8>)
    ensures
        dot(scale(u, t), v) == gmul(t, dot(u, v)),
{
    let su = scale(u, t);
    assert forall|l: int| 0 <= l < u.len() implies #[trigger] gmul(su[l], v[l]) == gmul(t, gmul(u[l], v[l])) by {
        lemma_mul_associates(t, u[l], v[l]);
    }
    lemma_xsum_scale(|l: int| gmul(u[l], v[l]), |l: int| gmul(su[l], v[l]), t, u.len());
}

proof fn lemma_dot_axpy(u: Seq<u8>, t: u8, w: Seq<u8>, v: Seq<u8>)
    requires
        w.len() == u.len(),
    ensures
        dot(axpy(u, t, w), v) == dot(u, v) ^ gmul(t, dot(w, v)),
{
    let au = axpy(u, t, w);
    lemma_dot_scale(w, t, v);
    let sw = scale(w, t);
    assert forall|l: int| 0 <= l < u.len() implies #[trigger] gmul(au[l], v[l]) == gmul(u[l], v[l]) ^ gmul(sw[l], v[l]) by {
        lemma_mul_distributes(v[l], u[l], gmul(t, w[l]));
    }
    lemma_xsum_add(|l: int| gmul(u[l], v[l]), |l: int| gmul(sw[l], v[l]), |l: int| gmul(au[l], v[l]), u.len());
}

/// Row operations on the left factor are row operations on the product.
pub proof fn lemma_row_ops(o: Seq<Seq<u8>>, a: Seq<Seq<u8>>, n: nat, r: int, q: int, t: u8)
    requires
        is_matrix(o, n, n),
        is_matrix(a, n, n),
        0 <= r < n,
        0 <= q < n,
    ensures
        mat_mul(swap_rows(o, r, q), a, n) == swap_rows(mat_mul(o, a, n), r, q),
        mat_mul(scale_row(o, r, t), a, n) == scale_row(mat_mul(o, a, n), r, t),
        mat_mul(add_row(o, r, q, t), a, n) == add_row(mat_mul(o, a, n), r, q, t),
{
    let m = mat_mul(o, a, n);
    assert(mat_mul(swap_rows(o, r, q), a, n) =~= swap_rows(m, r, q));
    let ls = mat_mul(scale_row(o, r, t), a, n);
    assert forall|j: int| 0 <= j < n implies #[trigger] ls[r][j] == scale(m[r], t)[j] by {
        lemma_dot_scale(o[r], t, column(a, j));
    }
    assert(ls[r] =~= scale(m[r], t));
    assert(ls =~= scale_row(m, r, t));
    let la = mat_mul(add_row(o, r, q, t), a, n);
    assert forall|j: int| 0 <= j < n implies #[trigger] la[r][j] == axpy(m[r], t, m[q])[j] by {
        lemma_dot_axpy(o[r], t, o[q], column(a, j));
    }
    assert(la[r] =~= axpy(m[r], t, m[q]));
    assert(la =~= add_row(m, r, q, t));
}

/// Each row operation is undone by another.
pub proof fn lemma_row_ops_undo(m: Seq<Seq<u8>>, n: nat, r: int, q: int, t: u8)
    requires
        is_matrix(m, n, n),
        0 <= r < n,
        0 <= q < n,
    ensures
        swap_rows(swap_rows(m, r, q), r, q) == m,
        t != 0 ==> scale_row(scale_row(m, r, t), r, ginv(t)) == m,
        r != q ==> add_row(add_row(m, r, q, t), r, q, t) == m,
{
    assert(swap_rows(swap_rows(m, r, q), r, q) =~= m);
    if t != 0 {
        let s2 = scale_row(scale_row(m, r, t), r, ginv(t));
        assert forall|j: int| 0 <= j < n implies #[trigger] s2[r][j] == m[r][j] by {
            lemma_mul_associates(ginv(t), t, m[r][j]);
            lemma_mul_inverse(t);
            lemma_mul_commutes(t, ginv(t));
            lemma_mul_zero_one(m[r][j]);
        }
        assert(s2[r] =~= m[r]);
        assert(s2 =~= m);
    }
    if r != q {
        let a2 = add_row(add_row(m, r, q, t), r, q, t);
        assert forall|j: int| 0 <= j < n implies #[trigger] a2[r][j] == m[r][j] by {
            lemma_xor(m[r][j], gmul(t, m[q][j]), gmul(t, m[q][j]), 0);
            lemma_xor(gmul(t, m[q][j]), 0, 0, 0);
        }
        assert(a2[r] =~= m[r]);
        assert(a2 =~= m);
    }
}


proof fn lemma_track(a0: Seq<Seq<u8>>, o: Seq<Seq<u8>>, p: Seq<Seq<u8>>, o2: Seq<Seq<u8>>, f: Seq<Seq<u8>>, n: nat)
    requires
        is_matrix(o, n, n),
        is_matrix(p, n, n),
        is_matrix(o2, n, n),
        is_matrix(f, n, n),
        mat_mul(p, o, n) == identity(n),
        mat_mul(f, o2, n) == o,
    ensures
        is_matrix(mat_mul(p, f, n), n, n),
        mat_mul(mat_mul(p, f, n), o2, n) == identity(n),
{
    lemma_mat_mul_associates(p, f, o2, n, n, n, n);
}

pub proof fn lemma_identity_is_matrix(n: nat)
    ensures
        is_matrix(identity(n), n, n),
        is_matrix(zeros(n, 1), n, 1),
{
}

pub proof fn lemma_mat_mul_is_matrix(a: Seq<Seq<u8>>, b: Seq<Seq<u8>>, p: nat)
    ensures
        is_matrix(mat_mul(a, b, p), a.len(), p),
{
}

/// When column `c` of the reduced matrix `m` has no pivot left, `a0` has no inverse.
proof fn lemma_no_pivot(a0: Seq<Seq<u8>>, m: Seq<Seq<u8>>, o: Seq<Seq<u8>>, p: Seq<Seq<u8>>, n: nat, c: int)
    requires
        is_matrix(a0, n, n),
        is_matrix(m, n, n),
        is_matrix(o, n, n),
        is_matrix(p, n, n),
        mat_mul(o, a0, n) == m,
        mat_mul(p, o, n) == identity(n),
        0 <= c < n,
        forall|i: int, j: int| 0 <= i < n && 0 <= j < c ==> #[trigger] m[i][j] == identity(n)[i][j],
        forall|i: int| c <= i < n ==> #[trigger] m[i][c] == 0,
    ensures
        !invertible(a0, n),
{
    let x = Seq::new(n, |l: int| Seq::new(1, |z: int| if l < c { m[l][c] } else if l == c { 1u8 } else { 0u8 }));
    assert(is_matrix(x, n, 1));
    let mx = mat_mul(m, x, 1);
    assert forall|i: int| 0 <= i < n implies #[trigger] mx[i][0] == 0u8 by {
        let f = |l: int| gmul(m[i][l], column(x, 0)[l]);
        assert(mx[i][0] == xsum(f, n));
        lemma_mul_zero_one(m[i][c]);
        lemma_xor(m[i][c], 0, 0, 0);
        if i < c {
            assert forall|l: int| 0 <= l < n && l != i && l != c implies #[trigger] f(l) == 0 by {
                lemma_mul_zero_one(m[i][l]);
                lemma_mul_zero_one(column(x, 0)[l]);
            }
            lemma_xsum_pair(f, n, i, c);
        } else {
            assert forall|l: int| 0 <= l < n implies #[trigger] f(l) == 0 by {
                lemma_mul_zero_one(m[i][l]);
                lemma_mul_zero_one(column(x, 0)[l]);
            }
            lemma_xsum_zero(f, n);
        }
    }
    lemma_identity_is_matrix(n);
    assert(mx =~= zeros(n, 1)) by {
        assert forall|i: int| 0 <= i < n implies #[trigger] mx[i] =~= zeros(n, 1)[i] by {}
    }
    let a0x = mat_mul(a0, x, 1);
    lemma_mat_mul_is_matrix(a0, x, 1);
    lemma_mat_mul_associates(o, a0, x, n, n, n, 1);
    lemma_mat_mul_associates(p, o, a0x, n, n, n, 1);
    lemma_mat_mul_zeros(p, n, n, 1);
    lemma_mat_mul_identity(a0x, n, 1);
    assert(a0x == zeros(n, 1));
    if invertible(a0, n) {
        let b = choose|b: Seq<Seq<u8>>| is_left_inverse(b, a0, n);
        lemma_mat_mul_associates(b, a0, x, n, n, n, 1);
        lemma_mat_mul_zeros(b, n, n, 1);
        lemma_mat_mul_identity(x, n, 1);
        assert(x[c][0] == 1u8);
        assert(zeros(n, 1)[c][0] == 0u8);
    }
}

/// The rows of a matrix held as vectors.
pub open spec fn rows_view(m: &Vec<Vec<u8>>) -> Seq<Seq<u8>> {
    m@.map_values(|r: Vec<u8>| r@)
}

/// Appends a row to a matrix held as vectors.
pub fn push_row(a: &mut Vec<Vec<u8>>, row: Vec<u8>)
    ensures
        final(a).len() == old(a).len() + 1,
        rows_view(final(a)) == rows_view(old(a)).push(row@),
{
    let ghost before = rows_view(a);
    let ghost v = row@;
    a.push(row);
    assert(rows_view(a) =~= before.push(v));
}

fn scale_vec(u: &Vec<u8>, t: u8) -> (r: Vec<u8>)
    ensures
        r@ == scale(u@, t),
{
    let mut r: Vec<u8> = Vec::with_capacity(u.len());
    for j in 0..u.len()
        invariant
            r@ == scale(u@, t).take(j as int),
    {
        r.push(crate::gf::mul(t, u[j]));
    }
    r
}

fn axpy_vec(u: &Vec<u8>, t: u8, w: &Vec<u8>) -> (r: Vec<u8>)
    requires
        w.len() == u.len(),
    ensures
        r@ == axpy(u@, t, w@),
{
    let mut r: Vec<u8> = Vec::with_capacity(u.len());
    for j in 0..u.len()
        invariant
            w.len() == u.len(),
            r@ == axpy(u@, t, w@).take(j as int),
    {
        r.push(u[j] ^ crate::gf::mul(t, w[j]));
    }
    r
}

fn identity_rows(n: usize) -> (r: Vec<Vec<u8>>)
    ensures
        rows_view(&r) == identity(n as nat),
{
    let mut r: Vec<Vec<u8>> = Vec::with_capacity(n);
    for i in 0..n
        invariant
            r.len() == i,
            rows_view(&r) == identity(n as nat).take(i as int),
    {
        let mut row: Vec<u8> = Vec::with_capacity(n);
        for j in 0..n
            invariant
                i < n,
                row@ == identity(n as nat)[i as int].take(j as int),
        {
            if i == j {
                row.push(1u8);
            } else {
                row.push(0u8);
            }
            assert(row@ =~= identity(n as nat)[i as int].take(j + 1));
        }
        assert(row@ =~= identity(n as nat)[i as int]);
        let ghost prev = r@;
        r.push(row);
        assert forall|k: int| 0 <= k < i + 1 implies #[trigger] rows_view(&r)[k] == identity(n as nat)[k] by {
            if k < i {
                assert(r@[k] == prev[k]);
                assert(rows_view(&r)[k] == identity(n as nat).take(i as int)[k]);
            }
        }
        assert(rows_view(&r) =~= identity(n as nat).take(i + 1));
    }
    assert(rows_view(&r) =~= identity(n as nat));
    r
}

fn copy_rows(a: &Vec<Vec<u8>>) -> (r: Vec<Vec<u8>>)
    ensures
        rows_view(&r) == rows_view(a),
{
    let mut r: Vec<Vec<u8>> = Vec::with_capacity(a.len());
    for i in 0..a.len()
        invariant
            r.len() == i,
            rows_view(&r) == rows_view(a).take(i as int),
    {
        let row = a[i].clone();
        assert(row@ =~= a@[i as int]@);
        let ghost prev = r@;
        r.push(row);
        assert forall|k: int| 0 <= k < i + 1 implies #[trigger] rows_view(&r)[k] == rows_view(a)[k] by {
            if k < i {
                assert(r@[k] == prev[k]);
                assert(rows_view(&r)[k] == rows_view(a).take(i as int)[k]);
            }
        }
        assert(rows_view(&r) =~= rows_view(a).take(i + 1));
    }
    assert(rows_view(&r) =~= rows_view(a));
    r
}


proof fn lemma_step_swap(a0: Seq<Seq<u8>>, o: Seq<Seq<u8>>, p: Seq<Seq<u8>>, n: nat, r: int, c: int)
    requires
        is_matrix(a0, n, n),
        is_matrix(o, n, n),
        is_matrix(p, n, n),
        mat_mul(p, o, n) == identity(n),
        0 <= r < n,
        0 <= c < n,
    ensures
        is_matrix(swap_rows(o, r, c), n, n),
        mat_mul(swap_rows(o, r, c), a0, n) == swap_rows(mat_mul(o, a0, n), r, c),
        is_matrix(mat_mul(p, swap_rows(identity(n), r, c), n), n, n),
        mat_mul(mat_mul(p, swap_rows(identity(n), r, c), n), swap_rows(o, r, c), n) == identity(n),
{
    let o2 = swap_rows(o, r, c);
    lemma_identity_is_matrix(n);
    lemma_row_ops(o, a0, n, r, c, 0);
    lemma_row_ops(identity(n), o2, n, r, c, 0);
    lemma_mat_mul_identity(o2, n, n);
    lemma_row_ops_undo(o, n, r, c, 0);
    lemma_track(a0, o, p, o2, swap_rows(identity(n), r, c), n);
}

proof fn lemma_step_scale(a0: Seq<Seq<u8>>, o: Seq<Seq<u8>>, p: Seq<Seq<u8>>, n: nat, c: int, t: u8)
    requires
        is_matrix(a0, n, n),
        is_matrix(o, n, n),
        is_matrix(p, n, n),
        mat_mul(p, o, n) == identity(n),
        0 <= c < n,
        t != 0,
    ensures
        is_matrix(scale_row(o, c, t), n, n),
        mat_mul(scale_row(o, c, t), a0, n) == scale_row(mat_mul(o, a0, n), c, t),
        is_matrix(mat_mul(p, scale_row(identity(n), c, ginv(t)), n), n, n),
        mat_mul(mat_mul(p, scale_row(identity(n), c, ginv(t)), n), scale_row(o, c, t), n) == identity(n),
{
    let o2 = scale_row(o, c, t);
    lemma_identity_is_matrix(n);
    lemma_row_ops(o, a0, n, c, c, t);
    lemma_row_ops(identity(n), o2, n, c, c, ginv(t));
    lemma_mat_mul_identity(o2, n, n);
    lemma_row_ops_undo(o, n, c, c, t);
    lemma_track(a0, o, p, o2, scale_row(identity(n), c, ginv(t)), n);
}

proof fn lemma_step_add(a0: Seq<Seq<u8>>, o: Seq<Seq<u8>>, p: Seq<Seq<u8>>, n: nat, i: int, c: int, t: u8)
    requires
        is_matrix(a0, n, n),
        is_matrix(o, n, n),
        is_matrix(p, n, n),
        mat_mul(p, o, n) == identity(n),
        0 <= i < n,
        0 <= c < n,
        i != c,
    ensures
        is_matrix(add_row(o, i, c, t), n, n),
        mat_mul(add_row(o, i, c, t), a0, n) == add_row(mat_mul(o, a0, n), i, c, t),
        is_matrix(mat_mul(p, add_row(identity(n), i, c, t), n), n, n),
        mat_mul(mat_mul(p, add_row(identity(n), i, c, t), n), add_row(o, i, c, t), n) == identity(n),
{
    let o2 = add_row(o, i, c, t);
    lemma_identity_is_matrix(n);
    lemma_row_ops(o, a0, n, i, c, t);
    lemma_row_ops(identity(n), o2, n, i, c, t);
    lemma_mat_mul_identity(o2, n, n);
    lemma_row_ops_undo(o, n, i, c, t);
    lemma_track(a0, o, p, o2, add_row(identity(n), i, c, t), n);
}

fn set_row(m: &mut Vec<Vec<u8>>, i: usize, row: Vec<u8>)
    requires
        i < old(m).len(),
    ensures
        final(m).len() == old(m).len(),
        rows_view(final(m)) == rows_view(old(m)).update(i as int, row@),
{
    let ghost before = rows_view(m);
    let ghost v = row@;
    m.set(i, row);
    assert(rows_view(m) =~= before.update(i as int, v));
}

fn swap_row_pair(m: &mut Vec<Vec<u8>>, a: usize, b: usize)
    requires
        a < old(m).len(),
        b < old(m).len(),
    ensures
        final(m).len() == old(m).len(),
        rows_view(final(m)) == swap_rows(rows_view(old(m)), a as int, b as int),
{
    let ra = m[a].clone();
    let rb = m[b].clone();
    assert(ra@ =~= m@[a as int]@);
    assert(rb@ =~= m@[b as int]@);
    set_row(m, a, rb);
    set_row(m, b, ra);
}

fn find_pivot(m: &Vec<Vec<u8>>, c: usize, n: usize) -> (r: usize)
    requires
        c < n,
        is_matrix(rows_view(m), n as nat, n as nat),
    ensures
        c <= r <= n,
        forall|i: int| c <= i < r ==> #[trigger] rows_view(m)[i][c as int] == 0,
        r < n ==> rows_view(m)[r as int][c as int] != 0,
{
    let mut r = c;
    while r < n
        invariant
            c <= r <= n,
            c < n,
            is_matrix(rows_view(m), n as nat, n as nat),
            forall|i: int| c <= i < r ==> #[trigger] rows_view(m)[i][c as int] == 0,
        decreases n - r,
    {
        assert(rows_view(m)[r as int] == m@[r as int]@);
        if m[r][c] != 0 {
            return r;
        }
        r += 1;
    }
    r
}

/// Clears column `c` outside the pivot row `c`, whose pivot is already `1`.
fn eliminate_column(
    m: &mut Vec<Vec<u8>>,
    o: &mut Vec<Vec<u8>>,
    c: usize,
    n: usize,
    Ghost(a0): Ghost<Seq<Seq<u8>>>,
    Ghost(p): Ghost<Seq<Seq<u8>>>,
) -> (q: Ghost<Seq<Seq<u8>>>)
    requires
        c < n,
        is_matrix(a0, n as nat, n as nat),
        is_matrix(rows_view(old(m)), n as nat, n as nat),
        is_matrix(rows_view(old(o)), n as nat, n as nat),
        is_matrix(p, n as nat, n as nat),
        mat_mul(rows_view(old(o)), a0, n as nat) == rows_view(old(m)),
        mat_mul(p, rows_view(old(o)), n as nat) == identity(n as nat),
        rows_view(old(m))[c as int][c as int] == 1,
        forall|k: int, j: int|
            0 <= k < n && 0 <= j < c ==> #[trigger] rows_view(old(m))[k][j] == identity(n as nat)[k][j],
    ensures
        is_matrix(rows_view(final(m)), n as nat, n as nat),
        is_matrix(rows_view(final(o)), n as nat, n as nat),
        is_matrix(q@, n as nat, n as nat),
        mat_mul(rows_view(final(o)), a0, n as nat) == rows_view(final(m)),
        mat_mul(q@, rows_view(final(o)), n as nat) == identity(n as nat),
        forall|k: int, j: int|
            0 <= k < n && 0 <= j <= c ==> #[trigger] rows_view(final(m))[k][j] == identity(n as nat)[k][j],
{
    let ghost nn = n as nat;
    let ghost mut p = p;
    let mut i: usize = 0;
    while i < n
        invariant
            c < n,
            i <= n,
            nn == n,
            is_matrix(a0, nn, nn),
            is_matrix(rows_view(m), nn, nn),
            is_matrix(rows_view(o), nn, nn),
            is_matrix(p, nn, nn),
            mat_mul(rows_view(o), a0, nn) == rows_view(m),
            mat_mul(p, rows_view(o), nn) == identity(nn),
            rows_view(m)[c as int][c as int] == 1,
            forall|k: int, j: int|
                0 <= k < n && 0 <= j < c ==> #[trigger] rows_view(m)[k][j] == identity(nn)[k][j],
            forall|k: int| 0 <= k < i && k != c ==> #[trigger] rows_view(m)[k][c as int] == 0,
        decreases n - i,
    {
        if i != c {
            assert(rows_view(m)[i as int] == m@[i as int]@);
            assert(rows_view(m)[c as int] == m@[c as int]@);
            assert(rows_view(o)[i as int] == o@[i as int]@);
            assert(rows_view(o)[c as int] == o@[c as int]@);
            let f = m[i][c];
            proof {
                let o0 = rows_view(o);
                lemma_step_add(a0, o0, p, nn, i as int, c as int, f);
                p = mat_mul(p, add_row(identity(nn), i as int, c as int, f), nn);
                lemma_mul_zero_one(f);
                lemma_xor(f, 0, 0, 0);
                lemma_xor(f, f, 0, 0);
                assert forall|j: int| 0 <= j < c implies #[trigger] axpy(
                    rows_view(m)[i as int],
                    f,
                    rows_view(m)[c as int],
                )[j] == rows_view(m)[i as int][j] by {
                    lemma_xor(rows_view(m)[i as int][j], 0, 0, 0);
                }
            }
            let am = axpy_vec(&m[i], f, &m[c]);
            set_row(m, i, am);
            let ao = axpy_vec(&o[i], f, &o[c]);
            set_row(o, i, ao);
        }
        i += 1;
    }
    Ghost(p)
}

/// Inverts the `n x n` matrix `a` by Gauss-Jordan elimination. Gives the
/// inverse exactly when there is one.
pub fn invert(a: &Vec<Vec<u8>>, n: usize) -> (r: Option<Vec<Vec<u8>>>)
    requires
        is_matrix(rows_view(a), n as nat, n as nat),
    ensures
        r.is_some() <==> invertible(rows_view(a), n as nat),
        r.is_some() ==> is_left_inverse(rows_view(&r.unwrap()), rows_view(a), n as nat),
        r.is_some() ==> mat_mul(rows_view(a), rows_view(&r.unwrap()), n as nat) == identity(n as nat),
        r.is_some() ==> rows_view(&r.unwrap()) == inverse_of(rows_view(a), n as nat),
{
    let ghost a0 = rows_view(a);
    let ghost nn = n as nat;
    let mut m = copy_rows(a);
    let mut o = identity_rows(n);
    let ghost mut p = identity(nn);
    proof {
        lemma_identity_is_matrix(nn);
        lemma_mat_mul_identity(a0, nn, nn);
        lemma_mat_mul_identity(identity(nn), nn, nn);
    }
    let mut c: usize = 0;
    while c < n
        invariant
            c <= n,
            a0 == rows_view(a),
            nn == n,
            is_matrix(a0, nn, nn),
            is_matrix(rows_view(&m), nn, nn),
            is_matrix(rows_view(&o), nn, nn),
            is_matrix(p, nn, nn),
            mat_mul(rows_view(&o), a0, nn) == rows_view(&m),
            mat_mul(p, rows_view(&o), nn) == identity(nn),
            forall|i: int, j: int|
                0 <= i < n && 0 <= j < c ==> #[trigger] rows_view(&m)[i][j] == identity(nn)[i][j],
        decreases n - c,
    {
        let r = find_pivot(&m, c, n);
        if r == n {
            proof {
                lemma_no_pivot(a0, rows_view(&m), rows_view(&o), p, nn, c as int);
            }
            return None;
        }
        if r != c {
            proof {
                lemma_step_swap(a0, rows_view(&o), p, nn, r as int, c as int);
                p = mat_mul(p, swap_rows(identity(nn), r as int, c as int), nn);
            }
            swap_row_pair(&mut m, r, c);
            swap_row_pair(&mut o, r, c);
        }
        assert(rows_view(&m)[c as int] == m@[c as int]@);
        assert(rows_view(&o)[c as int] == o@[c as int]@);
        let t = crate::gf::inv(m[c][c]);
        proof {
            lemma_mul_zero_one(m[c as int][c as int]);
            lemma_mul_commutes(m[c as int][c as int], t);
            lemma_step_scale(a0, rows_view(&o), p, nn, c as int, t);
            p = mat_mul(p, scale_row(identity(nn), c as int, ginv(t)), nn);
            lemma_mul_zero_one(t);
        }
        let sm = scale_vec(&m[c], t);
        set_row(&mut m, c, sm);
        let so = scale_vec(&o[c], t);
        set_row(&mut o, c, so);
        let q = eliminate_column(&mut m, &mut o, c, n, Ghost(a0), Ghost(p));
        proof {
            p = q@;
        }
        c += 1;
    }
    proof {
        assert forall|i: int| 0 <= i < n implies #[trigger] rows_view(&m)[i] =~= identity(nn)[i] by {}
        assert(rows_view(&m) =~= identity(nn));
        let ov = rows_view(&o);
        assert(is_left_inverse(ov, a0, nn));
        lemma_mat_mul_associates(p, ov, a0, nn, nn, nn, nn);
        lemma_mat_mul_identity(a0, nn, nn);
        lemma_mat_mul_identity_right(p, nn, nn);
        assert(a0 == p);
        let b = inverse_of(a0, nn);
        lemma_left_inverse_unique(a0, ov, b, nn);
    }
    Some(o)
}

} // verus!
