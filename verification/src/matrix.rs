//! Dense matrices over GF(2^M): Gauss-Jordan elimination, determinant, and the
//! solution of a square linear system.

use vstd::prelude::*;
use crate::error::CodeError;
use crate::fermat::lemma_small_fields_have_inverses;
use crate::field_laws::{field_has_inverses, MAX_ASSOCIATIVE_BITS};
use crate::gf2tm::{field_exists, field_modulus, spec_fadd, spec_finv, spec_fmul, GF2TM};
use crate::matrix_laws::{is_solution, lemma_solve, row_reduced};
use crate::poly_field_spec::{all_wf, values};
use crate::poly_gf2::spec_degree;
use num_traits::Zero;
use std::ops::Neg;

verus! {

/// The polynomials that stand for the entries of the rows.
pub open spec fn grid<const M: u32>(rows: Seq<Vec<GF2TM<M>>>) -> Seq<Seq<u32>> {
    Seq::new(rows.len(), |i: int| values(rows[i]@))
}

/// Every row has `width` entries, and every entry is a valid element.
pub open spec fn rows_wf<const M: u32>(rows: Seq<Vec<GF2TM<M>>>, width: nat) -> bool {
    forall|i: int|
        0 <= i < rows.len() ==> (#[trigger] rows[i])@.len() == width && all_wf(rows[i]@)
}

/// The matrix with `rows` rows and `cols` columns that `flat` holds row by row.
pub open spec fn spec_from_flat(flat: Seq<u32>, rows: nat, cols: nat) -> Seq<Seq<u32>> {
    Seq::new(rows, |i: int| Seq::new(cols, |j: int| flat[i * cols + j]))
}

/// The first row at or after `from` whose entry in column `k` is not zero, and the
/// number of rows where there is none.
pub open spec fn spec_find_pivot(a: Seq<Seq<u32>>, k: int, from: int) -> int
    decreases a.len() - from,
{
    if from >= a.len() {
        a.len() as int
    } else if a[from][k] != 0 {
        from
    } else {
        spec_find_pivot(a, k, from + 1)
    }
}

/// Row `r`, divided by its entry in column `k`.
pub open spec fn spec_pivot_row(a: Seq<Seq<u32>>, k: int, r: int, m: u32, p: u32) -> Seq<u32> {
    Seq::new(a[r].len(), |j: int| spec_fmul(a[r][j], spec_finv(a[r][k], m, p), p))
}

/// One step of the elimination on column `k` with pivot row `r`: rows `k` and `r`
/// change places, the pivot row is divided by the pivot, and the multiple of it that
/// clears column `k` is taken from every other row.
pub open spec fn spec_eliminate(a: Seq<Seq<u32>>, k: int, r: int, m: u32, p: u32) -> Seq<Seq<u32>> {
    let pivot_row = spec_pivot_row(a, k, r, m, p);
    Seq::new(
        a.len(),
        |i: int|
            if i == k {
                pivot_row
            } else {
                let src = if i == r {
                    a[k]
                } else {
                    a[i]
                };
                Seq::new(
                    src.len(),
                    |j: int| spec_fadd(src[j], spec_fmul(src[k], pivot_row[j], p), p),
                )
            },
    )
}

/// The matrix after the elimination on the columns from `k` on, and `None` where a
/// column has no pivot.
pub open spec fn spec_reduce(a: Seq<Seq<u32>>, k: int, m: u32, p: u32) -> Option<Seq<Seq<u32>>>
    decreases a.len() - k,
{
    if k >= a.len() {
        Some(a)
    } else {
        let r = spec_find_pivot(a, k, k);
        if r >= a.len() {
            None
        } else {
            spec_reduce(spec_eliminate(a, k, r, m, p), k + 1, m, p)
        }
    }
}

/// `acc` times the pivots that the elimination meets on the columns from `k` on, and
/// zero where a column has no pivot.
pub open spec fn spec_pivot_product(a: Seq<Seq<u32>>, k: int, acc: u32, m: u32, p: u32) -> u32
    decreases a.len() - k,
{
    if k >= a.len() {
        acc
    } else {
        let r = spec_find_pivot(a, k, k);
        if r >= a.len() {
            0
        } else {
            spec_pivot_product(
                spec_eliminate(a, k, r, m, p),
                k + 1,
                spec_fmul(acc, a[r][k], p),
                m,
                p,
            )
        }
    }
}

/// The determinant of the square matrix `a` over GF(2^m): the product of the pivots
/// of the elimination. In characteristic 2 the exchange of two rows does not change it.
pub open spec fn spec_determinant(a: Seq<Seq<u32>>, m: u32, p: u32) -> u32 {
    spec_pivot_product(a, 0, 1, m, p)
}

/// The matrix `a` with `rhs[i]` appended to row `i`.
pub open spec fn spec_augment(a: Seq<Seq<u32>>, rhs: Seq<u32>) -> Seq<Seq<u32>> {
    Seq::new(a.len(), |i: int| a[i].push(rhs[i]))
}

/// The solution `x` of `a * x = rhs` that the elimination finds for the square matrix
/// `a`, and `None` where a column has no pivot.
pub open spec fn spec_solve(a: Seq<Seq<u32>>, rhs: Seq<u32>, m: u32, p: u32) -> Option<Seq<u32>> {
    match spec_reduce(spec_augment(a, rhs), 0, m, p) {
        Some(reduced) => Some(Seq::new(a.len(), |i: int| reduced[i][a.len() as int])),
        None => None,
    }
}

/// The first row at or after `from` with an entry in column `k` that is not zero.
fn find_pivot<const M: u32>(rows: &Vec<Vec<GF2TM<M>>>, k: usize, from: usize) -> (r: usize)
    requires
        from <= rows.len(),
        forall|i: int| 0 <= i < rows.len() ==> k < (#[trigger] rows[i])@.len(),
    ensures
        r == spec_find_pivot(grid(rows@), k as int, from as int),
        from <= r <= rows.len(),
        r < rows.len() ==> rows[r as int]@[k as int].spec_value() != 0,
    decreases rows.len() - from,
{
    if from >= rows.len() {
        return rows.len();
    }
    if !rows[from][k].is_zero() {
        return from;
    }
    find_pivot(rows, k, from + 1)
}

/// One step of the elimination, into a new matrix.
fn eliminate<const M: u32>(rows: &Vec<Vec<GF2TM<M>>>, k: usize, r: usize, width: usize) -> (out:
    Vec<Vec<GF2TM<M>>>)
    requires
        rows_wf(rows@, width as nat),
        k < rows.len(),
        r < rows.len(),
        k < width,
    ensures
        out.len() == rows.len(),
        rows_wf(out@, width as nat),
        grid(out@) == spec_eliminate(grid(rows@), k as int, r as int, M, field_modulus(M)),
{
    let ghost a = grid(rows@);
    let ghost p = field_modulus(M);
    assert(rows[r as int]@.len() == width && all_wf(rows[r as int]@));
    assert(rows[k as int]@.len() == width && all_wf(rows[k as int]@));
    let inverse = rows[r][k].inv();
    let mut pivot_row: Vec<GF2TM<M>> = Vec::new();
    let mut j: usize = 0;
    while j < width
        invariant
            j <= width,
            r < rows.len(),
            k < width,
            rows[r as int]@.len() == width,
            all_wf(rows[r as int]@),
            inverse.wf(),
            inverse.spec_value() == spec_finv(a[r as int][k as int], M, p),
            a == grid(rows@),
            p == field_modulus(M),
            pivot_row.len() == j,
            all_wf(pivot_row@),
            forall|c: int|
                0 <= c < j ==> (#[trigger] pivot_row[c]).spec_value() == spec_pivot_row(
                    a,
                    k as int,
                    r as int,
                    M,
                    p,
                )[c],
        decreases width - j,
    {
        pivot_row.push(rows[r][j] * inverse);
        j += 1;
    }
    assert(values(pivot_row@) == spec_pivot_row(a, k as int, r as int, M, p));
    let mut out: Vec<Vec<GF2TM<M>>> = Vec::new();
    let mut i: usize = 0;
    while i < rows.len()
        invariant
            i <= rows.len(),
            rows_wf(rows@, width as nat),
            k < rows.len(),
            r < rows.len(),
            k < width,
            a == grid(rows@),
            p == field_modulus(M),
            pivot_row.len() == width,
            all_wf(pivot_row@),
            values(pivot_row@) == spec_pivot_row(a, k as int, r as int, M, p),
            out.len() == i,
            rows_wf(out@, width as nat),
            forall|t: int|
                0 <= t < i ==> values((#[trigger] out[t])@) == spec_eliminate(
                    a,
                    k as int,
                    r as int,
                    M,
                    p,
                )[t],
        decreases rows.len() - i,
    {
        let src: &Vec<GF2TM<M>> = if i == k {
            &pivot_row
        } else if i == r {
            &rows[k]
        } else {
            &rows[i]
        };
        assert(src@.len() == width && all_wf(src@));
        let mut row: Vec<GF2TM<M>> = Vec::new();
        let mut j: usize = 0;
        while j < width
            invariant
                j <= width,
                k < width,
                src@.len() == width,
                all_wf(src@),
                pivot_row.len() == width,
                all_wf(pivot_row@),
                p == field_modulus(M),
                row.len() == j,
                all_wf(row@),
                forall|c: int|
                    0 <= c < j ==> (#[trigger] row[c]).spec_value() == (if i == k {
                        src[c].spec_value()
                    } else {
                        spec_fadd(
                            src[c].spec_value(),
                            spec_fmul(src[k as int].spec_value(), pivot_row[c].spec_value(), p),
                            p,
                        )
                    }),
            decreases width - j,
        {
            if i == k {
                row.push(src[j]);
            } else {
                row.push(src[j] - src[k] * pivot_row[j]);
            }
            j += 1;
        }
        proof {
            let want = spec_eliminate(a, k as int, r as int, M, p)[i as int];
            assert(values(src@) == (if i == k {
                values(pivot_row@)
            } else if i == r {
                a[k as int]
            } else {
                a[i as int]
            }));
            assert(values(row@) =~= want);
        }
        out.push(row);
        i += 1;
    }
    assert(grid(out@) =~= spec_eliminate(a, k as int, r as int, M, p));
    out
}

/// The entries of the matrix `g`, row after row.
pub open spec fn spec_flatten(g: Seq<Seq<u32>>) -> Seq<u32>
    decreases g.len(),
{
    if g.len() == 0 {
        Seq::empty()
    } else {
        spec_flatten(g.drop_last()) + g.last()
    }
}

/// Entry `(a, b)` of a matrix with rows of `n` entries stands at place `a * n + b`
/// of the flat sequence.
pub proof fn lemma_flatten_index(g: Seq<Seq<u32>>, n: nat, a: int, b: int)
    requires
        forall|i: int| 0 <= i < g.len() ==> (#[trigger] g[i]).len() == n,
        0 <= a < g.len(),
        0 <= b < n,
    ensures
        spec_flatten(g).len() == g.len() * n,
        0 <= a * n + b < g.len() * n,
        spec_flatten(g)[a * n + b] == g[a][b],
    decreases g.len(),
{
    lemma_flatten_len(g, n);
    lemma_flat_index(a, b, g.len() as int, n as int);
    if a < g.len() - 1 {
        lemma_flatten_index(g.drop_last(), n, a, b);
        lemma_flatten_len(g.drop_last(), n);
    } else {
        lemma_flatten_len(g.drop_last(), n);
        assert((g.len() - 1) * n == g.len() * n - n) by (nonlinear_arith);
    }
}

/// A matrix with rows of `n` entries has `rows * n` entries.
pub proof fn lemma_flatten_len(g: Seq<Seq<u32>>, n: nat)
    requires
        forall|i: int| 0 <= i < g.len() ==> (#[trigger] g[i]).len() == n,
    ensures
        spec_flatten(g).len() == g.len() * n,
    decreases g.len(),
{
    if g.len() > 0 {
        lemma_flatten_len(g.drop_last(), n);
        assert((g.len() - 1) * n + n == g.len() * n) by (nonlinear_arith);
    }
}

/// A matrix is the matrix that its flat sequence holds.
pub proof fn lemma_from_flat_flatten(g: Seq<Seq<u32>>, n: nat)
    requires
        forall|i: int| 0 <= i < g.len() ==> (#[trigger] g[i]).len() == n,
    ensures
        spec_from_flat(spec_flatten(g), g.len(), n) == g,
{
    let f = spec_from_flat(spec_flatten(g), g.len(), n);
    assert forall|a: int| 0 <= a < g.len() implies #[trigger] f[a] == g[a] by {
        assert forall|b: int| 0 <= b < n implies f[a][b] == g[a][b] by {
            lemma_flatten_index(g, n, a, b);
        }
        assert(f[a] =~= g[a]);
    }
    assert(f =~= g);
}

proof fn lemma_flat_index(i: int, j: int, rows: int, cols: int)
    by (nonlinear_arith)
    requires
        0 <= i < rows,
        0 <= j < cols,
    ensures
        0 <= i * cols + j < rows * cols,
        0 <= i * cols <= rows * cols,
{
}

/// A matrix over GF(2^M).
#[derive(Clone, Debug, PartialEq, Eq)]
pub struct Matrix<const M: u32> {
    rows: Vec<Vec<GF2TM<M>>>,
    cols: usize,
}

impl<const M: u32> View for Matrix<M> {
    type V = Seq<Seq<u32>>;

    /// The polynomials that stand for the entries, row by row.
    closed spec fn view(&self) -> Seq<Seq<u32>> {
        grid(self.rows@)
    }
}

impl<const M: u32> Matrix<M> {
    /// The number of columns.
    pub closed spec fn spec_cols(&self) -> nat {
        self.cols as nat
    }

    /// The entry in row `i` and column `j`.
    pub closed spec fn spec_entry(&self, i: int, j: int) -> GF2TM<M> {
        self.rows@[i]@[j]
    }

    /// Every row has as many entries as the matrix has columns, and every entry is a
    /// valid element.
    pub closed spec fn wf(&self) -> bool {
        rows_wf(self.rows@, self.cols as nat)
    }

    /// What holds of a matrix that is well formed.
    pub proof fn lemma_wf(&self)
        requires
            self.wf(),
        ensures
            forall|i: int| 0 <= i < self@.len() ==> (#[trigger] self@[i]).len() == self.spec_cols(),
            forall|i: int, j: int|
                0 <= i < self@.len() && 0 <= j < self.spec_cols() ==> (#[trigger] self.spec_entry(
                    i,
                    j,
                )).wf() && self.spec_entry(i, j).spec_value() == self@[i][j],
    {
        assert forall|i: int, j: int|
            0 <= i < self@.len() && 0 <= j < self.spec_cols() implies (#[trigger] self.spec_entry(
            i,
            j,
        )).wf() && self.spec_entry(i, j).spec_value() == self@[i][j] by {
            assert(all_wf(self.rows@[i]@));
        }
    }

    /// The matrix with `rows` rows and `cols` columns that `data` holds row by row.
    pub fn new(data: Vec<GF2TM<M>>, rows: usize, cols: usize) -> (r: Self)
        requires
            data.len() == rows * cols,
            all_wf(data@),
        ensures
            r.wf(),
            r.spec_cols() == cols,
            r@ == spec_from_flat(values(data@), rows as nat, cols as nat),
    {
        let mut out: Vec<Vec<GF2TM<M>>> = Vec::new();
        let mut i: usize = 0;
        while i < rows
            invariant
                i <= rows,
                data.len() == rows * cols,
                all_wf(data@),
                out.len() == i,
                rows_wf(out@, cols as nat),
                forall|t: int|
                    0 <= t < i ==> values((#[trigger] out[t])@) == spec_from_flat(
                        values(data@),
                        rows as nat,
                        cols as nat,
                    )[t],
            decreases rows - i,
        {
            let mut row: Vec<GF2TM<M>> = Vec::new();
            let mut j: usize = 0;
            proof {
                lemma_flat_index(i as int, 0, rows as int, cols as int + 1);
            }
            while j < cols
                invariant
                    j <= cols,
                    i < rows,
                    data.len() == rows * cols,
                    all_wf(data@),
                    row.len() == j,
                    all_wf(row@),
                    forall|c: int| 0 <= c < j ==> (#[trigger] row[c]) == data[i * cols + c],
                decreases cols - j,
            {
                proof {
                    lemma_flat_index(i as int, j as int, rows as int, cols as int);
                }
                row.push(data[i * cols + j]);
                j += 1;
            }
            proof {
                let want = spec_from_flat(values(data@), rows as nat, cols as nat)[i as int];
                assert forall|c: int| 0 <= c < cols implies #[trigger] values(row@)[c] == want[c] by {
                    lemma_flat_index(i as int, c, rows as int, cols as int);
                }
                assert(values(row@) =~= want);
            }
            out.push(row);
            i += 1;
        }
        assert(grid(out@) =~= spec_from_flat(values(data@), rows as nat, cols as nat));
        Matrix { rows: out, cols }
    }

    /// The matrix of zeros with `rows` rows and `cols` columns.
    pub fn zero(rows: usize, cols: usize) -> (r: Self)
        requires
            rows > 0 && cols > 0 ==> field_exists(M),
        ensures
            r.wf(),
            r.spec_cols() == cols,
            r@ == Seq::new(rows as nat, |i: int| Seq::new(cols as nat, |j: int| 0u32)),
    {
        let mut out: Vec<Vec<GF2TM<M>>> = Vec::new();
        let mut i: usize = 0;
        while i < rows
            invariant
                i <= rows,
                rows > 0 && cols > 0 ==> field_exists(M),
                out.len() == i,
                rows_wf(out@, cols as nat),
                forall|t: int|
                    0 <= t < i ==> values((#[trigger] out[t])@) == Seq::new(
                        cols as nat,
                        |j: int| 0u32,
                    ),
            decreases rows - i,
        {
            let mut row: Vec<GF2TM<M>> = Vec::new();
            let mut j: usize = 0;
            while j < cols
                invariant
                    j <= cols,
                    cols > 0 ==> field_exists(M),
                    row.len() == j,
                    all_wf(row@),
                    forall|c: int| 0 <= c < j ==> (#[trigger] row[c]).spec_value() == 0,
                decreases cols - j,
            {
                row.push(GF2TM::<M>::zero());
                j += 1;
            }
            assert(values(row@) =~= Seq::new(cols as nat, |j: int| 0u32));
            out.push(row);
            i += 1;
        }
        assert(grid(out@) =~= Seq::new(rows as nat, |i: int| Seq::new(cols as nat, |j: int| 0u32)));
        Matrix { rows: out, cols }
    }

    /// The number of rows.
    pub fn rows(&self) -> (r: usize)
        ensures
            r == self@.len(),
    {
        self.rows.len()
    }

    /// The number of columns.
    pub fn cols(&self) -> (r: usize)
        ensures
            r == self.spec_cols(),
    {
        self.cols
    }

    /// The entry in row `i` and column `j`.
    pub fn get(&self, i: usize, j: usize) -> (r: GF2TM<M>)
        requires
            self.wf(),
            i < self@.len(),
            j < self.spec_cols(),
        ensures
            r.wf(),
            r == self.spec_entry(i as int, j as int),
            r.spec_value() == self@[i as int][j as int],
    {
        assert(self.rows[i as int]@.len() == self.cols && all_wf(self.rows[i as int]@));
        self.rows[i][j]
    }

    /// Puts `value` in row `i` and column `j`.
    pub fn set(&mut self, i: usize, j: usize, value: GF2TM<M>)
        requires
            old(self).wf(),
            value.wf(),
            i < old(self)@.len(),
            j < old(self).spec_cols(),
        ensures
            final(self).wf(),
            final(self).spec_cols() == old(self).spec_cols(),
            final(self)@ == old(self)@.update(
                i as int,
                old(self)@[i as int].update(j as int, value.spec_value()),
            ),
    {
        assert(self.rows[i as int]@.len() == self.cols && all_wf(self.rows[i as int]@));
        let mut row: Vec<GF2TM<M>> = Vec::new();
        let mut c: usize = 0;
        while c < self.cols
            invariant
                c <= self.cols,
                i < self.rows.len(),
                j < self.cols,
                self.rows[i as int]@.len() == self.cols,
                all_wf(self.rows[i as int]@),
                value.wf(),
                row.len() == c,
                all_wf(row@),
                forall|t: int|
                    0 <= t < c ==> (#[trigger] row[t]) == (if t == j {
                        value
                    } else {
                        self.rows[i as int]@[t]
                    }),
            decreases self.cols - c,
        {
            if c == j {
                row.push(value);
            } else {
                row.push(self.rows[i][c]);
            }
            c += 1;
        }
        let ghost before = self.rows@;
        proof {
            assert(values(row@) =~= values(before[i as int]@).update(j as int, value.spec_value()));
        }
        self.rows.set(i, row);
        proof {
            assert(grid(self.rows@) =~= grid(before).update(
                i as int,
                grid(before)[i as int].update(j as int, value.spec_value()),
            ));
        }
    }

    /// The determinant, by elimination: the product of the pivots, and zero where a
    /// column has none.
    pub fn determinant(&self) -> (r: GF2TM<M>)
        requires
            self.wf(),
            self@.len() == self.spec_cols(),
        ensures
            r.spec_value() == spec_determinant(self@, M, field_modulus(M)),
            r.spec_irr() == field_modulus(M),
            field_exists(M) ==> r.wf(),
    {
        let n = self.rows.len();
        let mut det = GF2TM::<M>::one();
        if n == 0 {
            return det;
        }
        assert(self.rows[0]@.len() == self.cols && all_wf(self.rows[0]@));
        assert(self.rows[0]@[0].wf());
        let mut work = copy_rows(&self.rows, self.cols);
        let mut k: usize = 0;
        while k < n
            invariant
                k <= n,
                n == work.len(),
                n == self.cols,
                field_exists(M),
                rows_wf(work@, n as nat),
                det.wf(),
                spec_pivot_product(grid(work@), k as int, det.spec_value(), M, field_modulus(M))
                    == spec_determinant(self@, M, field_modulus(M)),
            decreases n - k,
        {
            assert forall|i: int| 0 <= i < work.len() implies k < (#[trigger] work[i])@.len() by {}
            let r = find_pivot(&work, k, k);
            if r >= n {
                return GF2TM::<M>::zero();
            }
            assert(all_wf(work[r as int]@));
            if r != k {
                det = det.neg();
            }
            det = det * work[r][k];
            work = eliminate(&work, k, r, n);
            k += 1;
        }
        det
    }

    /// In a field with inverses the vector that the elimination finds solves the system.
    proof fn lemma_solution(&self, rhs: Seq<GF2TM<M>>)
        requires
            self.wf(),
            self@.len() == self.spec_cols(),
            rhs.len() == self@.len(),
            all_wf(rhs),
        ensures
            spec_solve(self@, values(rhs), M, field_modulus(M)) is Some && M
                <= MAX_ASSOCIATIVE_BITS && (field_has_inverses(M) || 1 <= M <= 8) ==> is_solution(
                self@,
                spec_solve(self@, values(rhs), M, field_modulus(M))->Some_0,
                values(rhs),
                field_modulus(M),
            ),
    {
        if spec_solve(self@, values(rhs), M, field_modulus(M)) is Some && M <= MAX_ASSOCIATIVE_BITS
            && (field_has_inverses(M) || 1 <= M <= 8) {
            if 1 <= M <= 8 {
                lemma_small_fields_have_inverses(M);
            }
            if self@.len() > 0 {
                assert(rhs[0].wf());
                assert forall|j: int| 0 <= j < rhs.len() implies spec_degree(
                    #[trigger] values(rhs)[j],
                ) < M by {
                    assert(rhs[j].wf());
                }
                assert forall|i: int| 0 <= i < self@.len() implies (#[trigger] self@[i]).len()
                    == self@.len() && row_reduced(self@[i], M) by {
                    assert(all_wf(self.rows@[i]@));
                    assert forall|j: int| 0 <= j < self@[i].len() implies spec_degree(
                        #[trigger] self@[i][j],
                    ) < M by {
                        assert(self.rows@[i]@[j].wf());
                    }
                }
                lemma_solve(self@, values(rhs), M);
            } else {
                assert(spec_reduce(spec_augment(self@, values(rhs)), 0, M, field_modulus(M))
                    == Some(spec_augment(self@, values(rhs))));
            }
        }
    }

    /// The solution `x` of `self * x = rhs`, by elimination. A column without a pivot
    /// makes the system singular. In a field in which every element but zero has an
    /// inverse, as the fields up to GF(2^8) are known to be, the vector returned
    /// satisfies every equation.
    pub fn solve(&self, rhs: Vec<GF2TM<M>>) -> (r: Result<Vec<GF2TM<M>>, CodeError>)
        requires
            self.wf(),
            self@.len() == self.spec_cols(),
            rhs.len() == self@.len(),
            all_wf(rhs@),
            self@.len() < usize::MAX,
        ensures
            match spec_solve(self@, values(rhs@), M, field_modulus(M)) {
                Some(x) => r is Ok && values(r->Ok_0@) == x && all_wf(r->Ok_0@),
                None => r == Err::<Vec<GF2TM<M>>, CodeError>(CodeError::Singular),
            },
            r is Ok && M <= MAX_ASSOCIATIVE_BITS && (field_has_inverses(M) || 1 <= M <= 8)
                ==> is_solution(self@, values(r->Ok_0@), values(rhs@), field_modulus(M)),
    {
        let n = self.rows.len();
        let ghost p = field_modulus(M);
        proof {
            self.lemma_solution(rhs@);
        }
        // the augmented matrix
        let mut work: Vec<Vec<GF2TM<M>>> = Vec::new();
        let mut i: usize = 0;
        while i < n
            invariant
                i <= n,
                n == self.rows.len(),
                n == self.cols,
                n == rhs.len(),
                rows_wf(self.rows@, n as nat),
                all_wf(rhs@),
                work.len() == i,
                rows_wf(work@, (n + 1) as nat),
                forall|t: int|
                    0 <= t < i ==> values((#[trigger] work[t])@) == spec_augment(
                        self@,
                        values(rhs@),
                    )[t],
            decreases n - i,
        {
            assert(self.rows[i as int]@.len() == n && all_wf(self.rows[i as int]@));
            let mut row: Vec<GF2TM<M>> = Vec::new();
            let mut j: usize = 0;
            while j < n
                invariant
                    j <= n,
                    i < self.rows.len(),
                    self.rows[i as int]@.len() == n,
                    all_wf(self.rows[i as int]@),
                    row.len() == j,
                    all_wf(row@),
                    forall|c: int| 0 <= c < j ==> (#[trigger] row[c]) == self.rows[i as int]@[c],
                decreases n - j,
            {
                row.push(self.rows[i][j]);
                j += 1;
            }
            row.push(rhs[i]);
            assert(values(row@) =~= spec_augment(self@, values(rhs@))[i as int]);
            work.push(row);
            i += 1;
        }
        assert(grid(work@) =~= spec_augment(self@, values(rhs@)));
        let mut k: usize = 0;
        while k < n
            invariant
                k <= n,
                n == work.len(),
                n < usize::MAX,
                rows_wf(work@, (n + 1) as nat),
                spec_reduce(grid(work@), k as int, M, p) == spec_reduce(
                    spec_augment(self@, values(rhs@)),
                    0,
                    M,
                    p,
                ),
                p == field_modulus(M),
            decreases n - k,
        {
            assert forall|i: int| 0 <= i < work.len() implies k < (#[trigger] work[i])@.len() by {}
            let r = find_pivot(&work, k, k);
            if r >= n {
                return Err(CodeError::Singular);
            }
            work = eliminate(&work, k, r, n + 1);
            k += 1;
        }
        let mut solution: Vec<GF2TM<M>> = Vec::new();
        let mut i: usize = 0;
        while i < n
            invariant
                i <= n,
                n == work.len(),
                rows_wf(work@, (n + 1) as nat),
                solution.len() == i,
                all_wf(solution@),
                forall|t: int|
                    0 <= t < i ==> (#[trigger] solution[t]).spec_value() == grid(work@)[t][n as int],
            decreases n - i,
        {
            assert(work[i as int]@.len() == n + 1 && all_wf(work[i as int]@));
            solution.push(work[i][n]);
            i += 1;
        }
        assert(values(solution@) =~= Seq::new(n as nat, |i: int| grid(work@)[i][n as int]));
        Ok(solution)
    }
}

/// A copy of the rows.
fn copy_rows<const M: u32>(rows: &Vec<Vec<GF2TM<M>>>, width: usize) -> (out: Vec<
    Vec<GF2TM<M>>,
>)
    requires
        rows_wf(rows@, width as nat),
    ensures
        out.len() == rows.len(),
        rows_wf(out@, width as nat),
        grid(out@) == grid(rows@),
{
    let mut out: Vec<Vec<GF2TM<M>>> = Vec::new();
    let mut i: usize = 0;
    while i < rows.len()
        invariant
            i <= rows.len(),
            rows_wf(rows@, width as nat),
            out.len() == i,
            rows_wf(out@, width as nat),
            forall|t: int| 0 <= t < i ==> values((#[trigger] out[t])@) == values(rows[t]@),
        decreases rows.len() - i,
    {
        assert(rows[i as int]@.len() == width && all_wf(rows[i as int]@));
        let mut row: Vec<GF2TM<M>> = Vec::new();
        let mut j: usize = 0;
        while j < width
            invariant
                j <= width,
                i < rows.len(),
                rows[i as int]@.len() == width,
                all_wf(rows[i as int]@),
                row.len() == j,
                all_wf(row@),
                forall|c: int| 0 <= c < j ==> (#[trigger] row[c]) == rows[i as int]@[c],
            decreases width - j,
        {
            row.push(rows[i][j]);
            j += 1;
        }
        assert(values(row@) =~= values(rows[i as int]@));
        out.push(row);
        i += 1;
    }
    assert(grid(out@) =~= grid(rows@));
    out
}

} // verus!
