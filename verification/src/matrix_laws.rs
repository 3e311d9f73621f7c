//! Why the elimination solves a linear system: the vector that `solve` returns
//! satisfies every equation, in a field in which every element but zero has an
//! inverse.

use vstd::prelude::*;
use crate::bits::{lemma_leading_one, lemma_xor};
use crate::field_laws::{
    field_has_inverses, lemma_fadd_reduced, lemma_fmul_associative, lemma_fmul_commutative,
    lemma_fmul_distributive, lemma_fmul_one, lemma_fmul_reduced, MAX_ASSOCIATIVE_BITS,
};
use crate::gf2tm::{
    field_exists, field_modulus, lemma_field_modulus, spec_fadd, spec_finv, spec_fmul,
};
use crate::matrix::{
    spec_augment, spec_eliminate, spec_find_pivot, spec_pivot_row, spec_reduce, spec_solve,
};
use crate::poly_gf2::{lemma_degree_bits, lemma_degree_shift, spec_degree, spec_mul};
use crate::poly_gf2_lemmas::{lemma_divmod_law, lemma_mul_zero, lemma_rem_small};

verus! {

/// The sum of the products `row[j] * x[j]` over `j < n`.
pub open spec fn spec_dot(row: Seq<u32>, x: Seq<u32>, n: nat, p: u32) -> u32
    decreases n,
{
    if n == 0 {
        0
    } else {
        spec_dot(row, x, (n - 1) as nat, p) ^ spec_fmul(row[n - 1], x[n - 1], p)
    }
}

/// Every entry of `row` is a residue modulo a polynomial of degree `m`.
pub open spec fn row_reduced(row: Seq<u32>, m: u32) -> bool {
    forall|j: int| 0 <= j < row.len() ==> spec_degree(#[trigger] row[j]) < m
}

/// A dot product is a residue.
pub proof fn lemma_dot_reduced(row: Seq<u32>, x: Seq<u32>, n: nat, m: u32)
    requires
        field_exists(m),
    ensures
        spec_degree(spec_dot(row, x, n, field_modulus(m))) < m,
    decreases n,
{
    if n == 0 {
        lemma_degree_bits(0);
    } else {
        lemma_dot_reduced(row, x, (n - 1) as nat, m);
        lemma_fmul_reduced(row[n - 1], x[n - 1], m);
        lemma_fadd_reduced(
            spec_dot(row, x, (n - 1) as nat, field_modulus(m)),
            spec_fmul(row[n - 1], x[n - 1], field_modulus(m)),
            m,
        );
    }
}

/// The dot product is linear in the row: where `row[j] = base[j] + c * other[j]` for
/// every `j`, the dot product of `row` is that of `base` plus `c` times that of `other`.
pub proof fn lemma_dot_linear(
    row: Seq<u32>,
    base: Seq<u32>,
    c: u32,
    other: Seq<u32>,
    x: Seq<u32>,
    n: nat,
    m: u32,
)
    requires
        field_exists(m),
        m <= MAX_ASSOCIATIVE_BITS,
        n <= row.len(),
        n <= base.len(),
        n <= other.len(),
        n <= x.len(),
        spec_degree(c) < m,
        row_reduced(other, m),
        row_reduced(x, m),
        forall|j: int|
            0 <= j < n ==> #[trigger] row[j] == base[j] ^ spec_fmul(c, other[j], field_modulus(m)),
    ensures
        spec_dot(row, x, n, field_modulus(m)) == spec_dot(base, x, n, field_modulus(m)) ^ spec_fmul(
            c,
            spec_dot(other, x, n, field_modulus(m)),
            field_modulus(m),
        ),
    decreases n,
{
    let p = field_modulus(m);
    lemma_field_modulus(m);
    if n == 0 {
        lemma_fmul_reduced(c, 0, m);
        lemma_xor(0, 0, 0);
    } else {
        let k = (n - 1) as nat;
        lemma_dot_linear(row, base, c, other, x, k, m);
        let j = n - 1;
        assert(row[j] == base[j] ^ spec_fmul(c, other[j], p));
        // (base[j] + c other[j]) x[j] = base[j] x[j] + c (other[j] x[j])
        lemma_fmul_commutative(row[j], x[j], p);
        lemma_fmul_distributive(x[j], base[j], spec_fmul(c, other[j], p), p);
        lemma_fmul_commutative(x[j], base[j], p);
        lemma_fmul_commutative(x[j], spec_fmul(c, other[j], p), p);
        assert(spec_degree(other[j]) < m);
        assert(spec_degree(x[j]) < m);
        lemma_fmul_associative(c, other[j], x[j], p);
        // c (d + other[j] x[j]) = c d + c (other[j] x[j])
        let d = spec_dot(other, x, k, p);
        lemma_fmul_distributive(c, d, spec_fmul(other[j], x[j], p), p);
        let u = spec_dot(base, x, k, p);
        let v = spec_fmul(c, d, p);
        let s = spec_fmul(base[j], x[j], p);
        let t = spec_fmul(c, spec_fmul(other[j], x[j], p), p);
        lemma_regroup(u, v, s, t);
    }
}

proof fn lemma_regroup(u: u32, v: u32, s: u32, t: u32)
    by (bit_vector)
    ensures
        (u ^ v) ^ (s ^ t) == (u ^ s) ^ (v ^ t),
{
}

/// The dot product with the row that holds a one at place `i` and zeros elsewhere
/// is `x[i]`.
pub proof fn lemma_dot_unit(row: Seq<u32>, x: Seq<u32>, i: int, n: nat, m: u32)
    requires
        field_exists(m),
        n <= row.len(),
        n <= x.len(),
        0 <= i,
        row_reduced(x, m),
        forall|j: int| 0 <= j < n ==> #[trigger] row[j] == (if j == i {
            1u32
        } else {
            0u32
        }),
    ensures
        spec_dot(row, x, n, field_modulus(m)) == (if i < n {
            x[i]
        } else {
            0u32
        }),
    decreases n,
{
    let p = field_modulus(m);
    lemma_field_modulus(m);
    if n > 0 {
        let j = n - 1;
        lemma_dot_unit(row, x, i, (n - 1) as nat, m);
        assert(spec_degree(x[j]) < m);
        lemma_fmul_reduced(x[j], 0, m);
        lemma_fmul_one(x[j], p);
        lemma_xor(x[j], 0, 0);
        lemma_xor(spec_dot(row, x, (n - 1) as nat, p), 0, 0);
        assert(row[j] == (if j == i {
            1u32
        } else {
            0u32
        }));
    }
}

/// The matrix has `n` rows of `n + 1` residues each.
pub open spec fn shaped(w: Seq<Seq<u32>>, n: nat, m: u32) -> bool {
    &&& w.len() == n
    &&& forall|i: int| 0 <= i < n ==> (#[trigger] w[i]).len() == n + 1 && row_reduced(w[i], m)
}

/// The columns before `k` are those of the unit matrix.
pub open spec fn unit_columns(w: Seq<Seq<u32>>, k: int) -> bool {
    forall|i: int, c: int|
        0 <= i < w.len() && 0 <= c < k ==> #[trigger] w[i][c] == (if i == c {
            1u32
        } else {
            0u32
        })
}

/// The vector `x` satisfies every equation of the augmented matrix `w`.
pub open spec fn satisfied(w: Seq<Seq<u32>>, x: Seq<u32>, n: nat, p: u32) -> bool {
    forall|i: int| 0 <= i < n ==> spec_dot(#[trigger] w[i], x, n, p) == w[i][n as int]
}

/// The vector `x` solves the system with the square matrix `a` and the right-hand
/// side `rhs`: row `i` of `a`, times `x`, is `rhs[i]`.
pub open spec fn is_solution(a: Seq<Seq<u32>>, x: Seq<u32>, rhs: Seq<u32>, p: u32) -> bool {
    &&& x.len() == a.len()
    &&& forall|i: int| 0 <= i < a.len() ==> spec_dot(#[trigger] a[i], x, a.len(), p) == rhs[i]
}

/// The first pivot at or after `from` is a row with an entry in column `k` that is
/// not zero.
proof fn lemma_find_pivot(a: Seq<Seq<u32>>, k: int, from: int)
    requires
        0 <= from <= a.len(),
    ensures
        from <= spec_find_pivot(a, k, from) <= a.len(),
        spec_find_pivot(a, k, from) < a.len() ==> a[spec_find_pivot(a, k, from)][k] != 0,
    decreases a.len() - from,
{
    if from < a.len() && a[from][k] == 0 {
        lemma_find_pivot(a, k, from + 1);
    }
}

/// What the pivot of a step offers: its inverse is a residue, and undoes it.
proof fn lemma_pivot(pv: u32, m: u32)
    requires
        field_exists(m),
        field_has_inverses(m),
        pv != 0,
        spec_degree(pv) < m,
    ensures
        spec_degree(spec_finv(pv, m, field_modulus(m))) < m,
        spec_fmul(pv, spec_finv(pv, m, field_modulus(m)), field_modulus(m)) == 1,
        spec_fmul(spec_finv(pv, m, field_modulus(m)), pv, field_modulus(m)) == 1,
{
    lemma_field_modulus(m);
    crate::field_laws::lemma_fpow_reduced(pv, ((1u32 << m) - 2) as nat, field_modulus(m));
    lemma_fmul_commutative(pv, spec_finv(pv, m, field_modulus(m)), field_modulus(m));
}

/// A step of the elimination keeps the shape of the matrix and makes column `k` a
/// column of the unit matrix.
proof fn lemma_eliminate_forward(w: Seq<Seq<u32>>, k: int, r: int, n: nat, m: u32)
    requires
        field_exists(m),
        m <= MAX_ASSOCIATIVE_BITS,
        field_has_inverses(m),
        shaped(w, n, m),
        unit_columns(w, k),
        0 <= k <= r < n,
        w[r][k] != 0,
    ensures
        shaped(spec_eliminate(w, k, r, m, field_modulus(m)), n, m),
        unit_columns(spec_eliminate(w, k, r, m, field_modulus(m)), k + 1),
{
    let p = field_modulus(m);
    let w2 = spec_eliminate(w, k, r, m, p);
    let pv = w[r][k];
    let inv = spec_finv(pv, m, p);
    let prow = spec_pivot_row(w, k, r, m, p);
    lemma_field_modulus(m);
    assert(row_reduced(w[r], m));
    assert(row_reduced(w[k], m));
    lemma_pivot(pv, m);
    assert forall|i: int| 0 <= i < n implies (#[trigger] w2[i]).len() == n + 1 && row_reduced(
        w2[i],
        m,
    ) by {
        assert(row_reduced(w[i], m));
        assert forall|j: int| 0 <= j < w2[i].len() implies spec_degree(#[trigger] w2[i][j]) < m by {
            if i == k {
                lemma_fmul_reduced(w[r][j], inv, m);
            } else {
                let src = if i == r {
                    w[k]
                } else {
                    w[i]
                };
                lemma_divmod_law(src[j] ^ spec_fmul(src[k], prow[j], p), p);
            }
        }
    }
    assert forall|i: int, c: int| 0 <= i < w2.len() && 0 <= c < k + 1 implies #[trigger] w2[i][c]
        == (if i == c {
        1u32
    } else {
        0u32
    }) by {
        assert(row_reduced(w[i], m));
        let src = if i == r {
            w[k]
        } else {
            w[i]
        };
        if c < k {
            // the pivot row holds a zero in column c
            assert(w[r][c] == 0);
            assert(w[k][c] == 0);
            lemma_fmul_reduced(inv, 0, m);
            assert(prow[c] == 0);
            if i != k {
                lemma_fmul_reduced(src[k], 0, m);
                assert(spec_degree(src[c]) < m);
                lemma_degree_bits(0);
                lemma_fadd_reduced(src[c], 0, m);
                lemma_xor(src[c], 0, 0);
                assert(w2[i][c] == src[c]);
                assert(w[i][c] == (if i == c {
                    1u32
                } else {
                    0u32
                }));
            }
        } else {
            assert(prow[k] == 1);
            if i != k {
                assert(spec_degree(src[k]) < m);
                lemma_fmul_one(src[k], p);
                lemma_fadd_reduced(src[k], src[k], m);
                lemma_xor(src[k], 0, 0);
            }
        }
    }
}

/// A vector that satisfies the matrix after a step of the elimination satisfies the
/// matrix before it.
proof fn lemma_eliminate_backward(w: Seq<Seq<u32>>, k: int, r: int, n: nat, m: u32, x: Seq<u32>)
    requires
        field_exists(m),
        m <= MAX_ASSOCIATIVE_BITS,
        field_has_inverses(m),
        shaped(w, n, m),
        0 <= k <= r < n,
        w[r][k] != 0,
        x.len() == n,
        row_reduced(x, m),
        satisfied(spec_eliminate(w, k, r, m, field_modulus(m)), x, n, field_modulus(m)),
    ensures
        satisfied(w, x, n, field_modulus(m)),
{
    let p = field_modulus(m);
    let w2 = spec_eliminate(w, k, r, m, p);
    let pv = w[r][k];
    let inv = spec_finv(pv, m, p);
    let prow = spec_pivot_row(w, k, r, m, p);
    lemma_field_modulus(m);
    assert(row_reduced(w[r], m));
    assert(row_reduced(w[k], m));
    lemma_pivot(pv, m);
    assert(w2[k] == prow);
    assert forall|j: int| 0 <= j < prow.len() implies spec_degree(#[trigger] prow[j]) < m by {
        lemma_fmul_reduced(w[r][j], inv, m);
    }
    let d = spec_dot(prow, x, n, p);
    assert(d == prow[n as int]);
    assert forall|i: int| 0 <= i < n implies spec_dot(#[trigger] w[i], x, n, p) == w[i][n as int] by {
        assert(row_reduced(w[i], m));
        if i == r {
            // the pivot row is the pivot times the row that took its place
            let zero = Seq::new((n + 1) as nat, |j: int| 0u32);
            assert forall|j: int| 0 <= j <= n implies #[trigger] w[r][j] == zero[j] ^ spec_fmul(
                pv,
                prow[j],
                p,
            ) by {
                assert(spec_degree(w[r][j]) < m);
                lemma_fmul_associative(pv, w[r][j], inv, p);
                lemma_fmul_commutative(pv, w[r][j], p);
                lemma_fmul_associative(w[r][j], pv, inv, p);
                lemma_fmul_one(w[r][j], p);
                lemma_xor(spec_fmul(pv, prow[j], p), 0, 0);
            }
            lemma_dot_linear(w[r], zero, pv, prow, x, n, m);
            lemma_dot_unit(zero, x, n as int, n, m);
            lemma_xor(spec_fmul(pv, d, p), 0, 0);
        } else {
            // the row went into row t of the new matrix, less a multiple of the pivot row
            let t = if i == k {
                r
            } else {
                i
            };
            let c = w[i][k];
            assert(spec_degree(c) < m);
            assert forall|j: int| 0 <= j <= n implies #[trigger] w[i][j] == w2[t][j] ^ spec_fmul(
                c,
                prow[j],
                p,
            ) by {
                assert(spec_degree(w[i][j]) < m);
                lemma_fmul_reduced(c, prow[j], m);
                lemma_fadd_reduced(w[i][j], spec_fmul(c, prow[j], p), m);
                lemma_xor(w[i][j], spec_fmul(c, prow[j], p), 0);
            }
            lemma_dot_linear(w[i], w2[t], c, prow, x, n, m);
            assert(spec_dot(w2[t], x, n, p) == w2[t][n as int]);
        }
    }
}

/// The vector in the last column of the matrix that the elimination ends with
/// satisfies every equation of the matrix that it started from.
proof fn lemma_reduce(w: Seq<Seq<u32>>, k: int, n: nat, m: u32)
    requires
        field_exists(m),
        m <= MAX_ASSOCIATIVE_BITS,
        field_has_inverses(m),
        shaped(w, n, m),
        unit_columns(w, k),
        0 <= k <= n,
        spec_reduce(w, k, m, field_modulus(m)) is Some,
    ensures
        shaped(spec_reduce(w, k, m, field_modulus(m))->Some_0, n, m),
        satisfied(
            w,
            Seq::new(n, |i: int| spec_reduce(w, k, m, field_modulus(m))->Some_0[i][n as int]),
            n,
            field_modulus(m),
        ),
    decreases n - k,
{
    let p = field_modulus(m);
    let last = spec_reduce(w, k, m, p)->Some_0;
    let x = Seq::new(n, |i: int| last[i][n as int]);
    if k >= n {
        assert forall|j: int| 0 <= j < x.len() implies spec_degree(#[trigger] x[j]) < m by {
            assert(row_reduced(w[j], m));
        }
        assert forall|i: int| 0 <= i < n implies spec_dot(#[trigger] w[i], x, n, p) == w[i][n as int] by {
            lemma_dot_unit(w[i], x, i, n, m);
        }
    } else {
        lemma_find_pivot(w, k, k);
        let r = spec_find_pivot(w, k, k);
        let w2 = spec_eliminate(w, k, r, m, p);
        lemma_eliminate_forward(w, k, r, n, m);
        lemma_reduce(w2, k + 1, n, m);
        assert forall|j: int| 0 <= j < x.len() implies spec_degree(#[trigger] x[j]) < m by {
            assert(row_reduced(last[j], m));
        }
        lemma_eliminate_backward(w, k, r, n, m, x);
    }
}

/// The vector that the elimination finds is a solution of the system: each row of
/// the matrix, times the vector, is the entry of the right-hand side.
pub proof fn lemma_solve(a: Seq<Seq<u32>>, rhs: Seq<u32>, m: u32)
    requires
        field_exists(m),
        m <= MAX_ASSOCIATIVE_BITS,
        field_has_inverses(m),
        rhs.len() == a.len(),
        row_reduced(rhs, m),
        forall|i: int| 0 <= i < a.len() ==> (#[trigger] a[i]).len() == a.len() && row_reduced(a[i], m),
        spec_solve(a, rhs, m, field_modulus(m)) is Some,
    ensures
        row_reduced(spec_solve(a, rhs, m, field_modulus(m))->Some_0, m),
        is_solution(a, spec_solve(a, rhs, m, field_modulus(m))->Some_0, rhs, field_modulus(m)),
{
    let p = field_modulus(m);
    let n = a.len();
    let w = spec_augment(a, rhs);
    let x = spec_solve(a, rhs, m, p)->Some_0;
    lemma_augment_shaped(a, rhs, m);
    lemma_reduce(w, 0, n, m);
    let last = spec_reduce(w, 0, m, p)->Some_0;
    assert(x =~= Seq::new(n, |i: int| last[i][n as int]));
    assert forall|j: int| 0 <= j < x.len() implies spec_degree(#[trigger] x[j]) < m by {
        assert(row_reduced(last[j], m));
    }
    assert forall|i: int| 0 <= i < n implies spec_dot(#[trigger] a[i], x, n, p) == rhs[i] by {
        assert(spec_dot(w[i], x, n, p) == w[i][n as int]);
        lemma_dot_prefix(w[i], a[i], x, n, p);
    }
}

/// A vector that satisfies the matrix before a step of the elimination satisfies the
/// matrix after it.
proof fn lemma_eliminate_keeps(w: Seq<Seq<u32>>, k: int, r: int, n: nat, m: u32, y: Seq<u32>)
    requires
        field_exists(m),
        m <= MAX_ASSOCIATIVE_BITS,
        field_has_inverses(m),
        shaped(w, n, m),
        0 <= k <= r < n,
        w[r][k] != 0,
        y.len() == n,
        row_reduced(y, m),
        satisfied(w, y, n, field_modulus(m)),
    ensures
        satisfied(spec_eliminate(w, k, r, m, field_modulus(m)), y, n, field_modulus(m)),
{
    let p = field_modulus(m);
    let w2 = spec_eliminate(w, k, r, m, p);
    let pv = w[r][k];
    let inv = spec_finv(pv, m, p);
    let prow = spec_pivot_row(w, k, r, m, p);
    lemma_field_modulus(m);
    assert(row_reduced(w[r], m));
    assert(row_reduced(w[k], m));
    lemma_pivot(pv, m);
    assert(w2[k] == prow);
    assert forall|j: int| 0 <= j < prow.len() implies spec_degree(#[trigger] prow[j]) < m by {
        lemma_fmul_reduced(w[r][j], inv, m);
    }
    // the pivot row, divided by the pivot
    let zero = Seq::new((n + 1) as nat, |j: int| 0u32);
    assert forall|j: int| 0 <= j <= n implies #[trigger] prow[j] == zero[j] ^ spec_fmul(
        inv,
        w[r][j],
        p,
    ) by {
        lemma_fmul_commutative(inv, w[r][j], p);
        lemma_xor(prow[j], 0, 0);
    }
    lemma_dot_linear(prow, zero, inv, w[r], y, n, m);
    lemma_dot_unit(zero, y, n as int, n, m);
    assert(spec_dot(w[r], y, n, p) == w[r][n as int]);
    lemma_xor(spec_fmul(inv, w[r][n as int], p), 0, 0);
    assert(spec_dot(prow, y, n, p) == prow[n as int]);
    assert forall|i: int| 0 <= i < n implies spec_dot(#[trigger] w2[i], y, n, p) == w2[i][n as int] by {
        if i != k {
            let t = if i == r {
                k
            } else {
                i
            };
            let src = w[t];
            assert(row_reduced(src, m));
            let c = src[k];
            assert(spec_degree(c) < m);
            assert forall|j: int| 0 <= j <= n implies #[trigger] w2[i][j] == src[j] ^ spec_fmul(
                c,
                prow[j],
                p,
            ) by {
                assert(spec_degree(src[j]) < m);
                lemma_fmul_reduced(c, prow[j], m);
                lemma_fadd_reduced(src[j], spec_fmul(c, prow[j], p), m);
            }
            lemma_dot_linear(w2[i], src, c, prow, y, n, m);
            assert(spec_dot(src, y, n, p) == src[n as int]);
        }
    }
}

/// Every vector that satisfies the matrix is the vector in the last column of the
/// matrix that the elimination ends with.
proof fn lemma_reduce_unique(w: Seq<Seq<u32>>, k: int, n: nat, m: u32, y: Seq<u32>)
    requires
        field_exists(m),
        m <= MAX_ASSOCIATIVE_BITS,
        field_has_inverses(m),
        shaped(w, n, m),
        unit_columns(w, k),
        0 <= k <= n,
        spec_reduce(w, k, m, field_modulus(m)) is Some,
        y.len() == n,
        row_reduced(y, m),
        satisfied(w, y, n, field_modulus(m)),
    ensures
        y == Seq::new(n, |i: int| spec_reduce(w, k, m, field_modulus(m))->Some_0[i][n as int]),
    decreases n - k,
{
    let p = field_modulus(m);
    let last = spec_reduce(w, k, m, p)->Some_0;
    let x = Seq::new(n, |i: int| last[i][n as int]);
    if k >= n {
        assert forall|i: int| 0 <= i < n implies y[i] == x[i] by {
            lemma_dot_unit(w[i], y, i, n, m);
            assert(spec_dot(w[i], y, n, p) == w[i][n as int]);
        }
        assert(y =~= x);
    } else {
        lemma_find_pivot(w, k, k);
        let r = spec_find_pivot(w, k, k);
        lemma_eliminate_forward(w, k, r, n, m);
        lemma_eliminate_keeps(w, k, r, n, m, y);
        lemma_reduce_unique(spec_eliminate(w, k, r, m, p), k + 1, n, m, y);
    }
}

/// The vector that the elimination finds is the only solution of the system.
pub proof fn lemma_solve_unique(a: Seq<Seq<u32>>, rhs: Seq<u32>, m: u32, y: Seq<u32>)
    requires
        field_exists(m),
        m <= MAX_ASSOCIATIVE_BITS,
        field_has_inverses(m),
        rhs.len() == a.len(),
        row_reduced(rhs, m),
        forall|i: int| 0 <= i < a.len() ==> (#[trigger] a[i]).len() == a.len() && row_reduced(a[i], m),
        spec_solve(a, rhs, m, field_modulus(m)) is Some,
        row_reduced(y, m),
        is_solution(a, y, rhs, field_modulus(m)),
    ensures
        y == spec_solve(a, rhs, m, field_modulus(m))->Some_0,
{
    let p = field_modulus(m);
    let n = a.len();
    let w = spec_augment(a, rhs);
    lemma_augment_shaped(a, rhs, m);
    assert forall|i: int| 0 <= i < n implies spec_dot(#[trigger] w[i], y, n, p) == w[i][n as int] by {
        assert(spec_dot(a[i], y, n, p) == rhs[i]);
        lemma_dot_prefix(w[i], a[i], y, n, p);
    }
    lemma_reduce_unique(w, 0, n, m, y);
    let last = spec_reduce(w, 0, m, p)->Some_0;
    assert(spec_solve(a, rhs, m, p)->Some_0 =~= Seq::new(n, |i: int| last[i][n as int]));
}

/// The augmented matrix of a system of residues has the shape that the elimination
/// works on.
proof fn lemma_augment_shaped(a: Seq<Seq<u32>>, rhs: Seq<u32>, m: u32)
    requires
        rhs.len() == a.len(),
        row_reduced(rhs, m),
        forall|i: int| 0 <= i < a.len() ==> (#[trigger] a[i]).len() == a.len() && row_reduced(a[i], m),
    ensures
        shaped(spec_augment(a, rhs), a.len(), m),
{
    let n = a.len();
    let w = spec_augment(a, rhs);
    assert forall|i: int| 0 <= i < n implies (#[trigger] w[i]).len() == n + 1 && row_reduced(
        w[i],
        m,
    ) by {
        assert(row_reduced(a[i], m));
        assert forall|j: int| 0 <= j < w[i].len() implies spec_degree(#[trigger] w[i][j]) < m by {
            if j < n {
                assert(w[i][j] == a[i][j]);
            } else {
                assert(w[i][j] == rhs[i]);
            }
        }
    }
}

/// The dot product reads the first `n` entries of the row only.
proof fn lemma_dot_prefix(row: Seq<u32>, other: Seq<u32>, x: Seq<u32>, n: nat, p: u32)
    requires
        n <= row.len(),
        n <= other.len(),
        forall|j: int| 0 <= j < n ==> #[trigger] row[j] == other[j],
    ensures
        spec_dot(row, x, n, p) == spec_dot(other, x, n, p),
    decreases n,
{
    if n > 0 {
        lemma_dot_prefix(row, other, x, (n - 1) as nat, p);
        assert(row[n - 1] == other[n - 1]);
    }
}

} // verus!
