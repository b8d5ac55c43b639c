use vstd::prelude::*;
use crate::error::LinalgError;
use crate::scalar::{abs, root_raw, fixed_text, Real, SCALE, sat, tdiv, times_raw, dot_acc, dot_raw, dot_slices};
use crate::vector::{Vector, norm_val, all_zero, unit_seq};

verus! {

/// A dense matrix of reals, stored row by row.
#[derive(Clone, Debug)]
pub struct Matrix {
    pub data: Vec<Vec<Real>>,
    pub rows: usize,
    pub cols: usize,
}

/// `t` is the transpose of `a`.
pub open spec fn is_transpose(a: Matrix, t: Matrix) -> bool {
    &&& t.shaped()
    &&& t.rows == a.cols
    &&& t.cols == a.rows
    &&& forall|i: int, j: int| 0 <= i < a.rows && 0 <= j < a.cols ==> #[trigger] t.entry(j, i) == a.entry(i, j)
}

/// Transposing twice gives back the matrix: its shape and every entry.
pub proof fn lemma_transpose_involutive(a: Matrix, t: Matrix, tt: Matrix)
    requires
        a.shaped(),
        is_transpose(a, t),
        is_transpose(t, tt),
    ensures
        tt.rows == a.rows,
        tt.cols == a.cols,
        tt.cells() == a.cells(),
{
    assert forall|i: int| 0 <= i < a.rows implies #[trigger] tt.row(i) == a.row(i) by {
        assert forall|j: int| 0 <= j < a.cols implies tt.row(i)[j] == a.row(i)[j] by {
            assert(t.entry(j, i) == a.entry(i, j));
            assert(tt.entry(i, j) == t.entry(j, i));
        }
        assert(tt.row(i) =~= a.row(i));
    }
    assert(tt.cells() =~= a.cells());
}

/// The entries of `row` in fixed-width form, separated by single spaces.
pub open spec fn row_text(row: Seq<Real>, k: int) -> Seq<char>
    decreases k,
{
    if k <= 0 {
        Seq::empty()
    } else if k == 1 {
        fixed_text(row[0].raw as int)
    } else {
        row_text(row, k - 1) + seq![' '] + fixed_text(row[k - 1].raw as int)
    }
}

/// The first `k` rows of `m`, each in brackets and ended by a newline.
pub open spec fn rows_text(m: Matrix, k: int) -> Seq<char>
    decreases k,
{
    if k <= 0 {
        Seq::empty()
    } else {
        rows_text(m, k - 1) + seq!['['] + row_text(m.row(k - 1), m.row(k - 1).len() as int) + seq![']', '\n']
    }
}

/// Some row of `data` differs in length from the first.
pub open spec fn ragged(data: Seq<Vec<Real>>) -> bool {
    exists|i: int| 0 <= i < data.len() && #[trigger] data[i]@.len() != data[0]@.len()
}

impl Matrix {
    /// The stored rows agree with `rows` and `cols`.
    pub open spec fn shaped(&self) -> bool {
        &&& self.data@.len() == self.rows
        &&& forall|i: int| 0 <= i < self.rows ==> #[trigger] self.data@[i]@.len() == self.cols
    }

    /// A shaped matrix with at least one row and one column.
    pub open spec fn wf(&self) -> bool {
        &&& self.shaped()
        &&& self.rows >= 1
        &&& self.cols >= 1
    }

    pub open spec fn row(&self, i: int) -> Seq<Real> {
        self.data@[i]@
    }

    pub open spec fn entry(&self, i: int, j: int) -> Real {
        self.data@[i]@[j]
    }

    pub open spec fn column(&self, j: int) -> Seq<Real> {
        Seq::new(self.rows as nat, |i: int| self.entry(i, j))
    }

    /// The table of values, row by row.
    pub open spec fn cells(&self) -> Seq<Seq<Real>> {
        Seq::new(self.rows as nat, |i: int| self.row(i))
    }

    /// `self` is shaped with the given dimensions and holds only zeros.
    pub open spec fn is_zeros(&self, rows: int, cols: int) -> bool {
        &&& self.shaped()
        &&& self.rows == rows
        &&& self.cols == cols
        &&& forall|i: int, j: int| 0 <= i < rows && 0 <= j < cols ==> (#[trigger] self.entry(i, j)).raw == 0
    }

    /// The matrix in human-readable form: one line per row, in brackets,
    /// with each entry to four decimals and right-aligned in eight characters.
    pub fn to_text(&self) -> (r: String)
        requires
            self.shaped(),
        ensures
            r@ == rows_text(*self, self.rows as int),
    {
        let mut s = String::new();
        let mut i: usize = 0;
        while i < self.rows
            invariant
                self.shaped(),
                0 <= i <= self.rows,
                s@ == rows_text(*self, i as int),
            decreases self.rows - i,
        {
            let ghost before = s@;
            proof { reveal_strlit("["); }
            s.append("[");
            let row = &self.data[i];
            let mut j: usize = 0;
            while j < row.len()
                invariant
                    row@ == self.row(i as int),
                    0 <= j <= row@.len(),
                    s@ == before + seq!['['] + row_text(row@, j as int),
                decreases row@.len() - j,
            {
                if j > 0 {
                    proof { reveal_strlit(" "); }
                    s.append(" ");
                }
                let t = row[j].to_fixed_text();
                s.append(t.as_str());
                assert(s@ =~= before + seq!['['] + row_text(row@, j + 1));
                j = j + 1;
            }
            proof { reveal_strlit("]\n"); }
            s.append("]\n");
            assert(s@ =~= rows_text(*self, i + 1));
            i = i + 1;
        }
        s
    }

    /// Builds a matrix from its rows.
    pub fn new(data: Vec<Vec<Real>>) -> (r: Result<Matrix, LinalgError>)
        ensures
            (data@.len() == 0 || data@[0]@.len() == 0) ==> r == Err::<Matrix, LinalgError>(LinalgError::EmptyMatrix),
            data@.len() > 0 && data@[0]@.len() > 0 && ragged(data@) ==> r == Err::<Matrix, LinalgError>(LinalgError::RaggedRows),
            data@.len() > 0 && data@[0]@.len() > 0 && !ragged(data@) ==> r is Ok && r->Ok_0.wf()
                && r->Ok_0.data@ == data@ && r->Ok_0.rows == data@.len() && r->Ok_0.cols == data@[0]@.len(),
    {
        if data.len() == 0 || data[0].len() == 0 {
            return Err(LinalgError::EmptyMatrix);
        }
        let cols: usize = data[0].len();
        let mut i: usize = 0;
        while i < data.len()
            invariant
                0 <= i <= data@.len(),
                data@.len() > 0,
                cols > 0,
                cols == data@[0]@.len(),
                forall|k: int| 0 <= k < i ==> #[trigger] data@[k]@.len() == cols,
            decreases data@.len() - i,
        {
            if data[i].len() != cols {
                return Err(LinalgError::RaggedRows);
            }
            i = i + 1;
        }
        let rows: usize = data.len();
        Ok(Matrix { data, rows, cols })
    }

    /// A `rows` by `cols` matrix of zeros.
    pub fn zeros(rows: usize, cols: usize) -> (r: Matrix)
        ensures
            r.is_zeros(rows as int, cols as int),
    {
        let mut data: Vec<Vec<Real>> = Vec::new();
        let mut i: usize = 0;
        while i < rows
            invariant
                0 <= i <= rows,
                data@.len() == i,
                forall|k: int| 0 <= k < i ==> #[trigger] data@[k]@.len() == cols,
                forall|k: int, j: int| 0 <= k < i && 0 <= j < cols ==> (#[trigger] data@[k]@[j]).raw == 0,
            decreases rows - i,
        {
            let mut row: Vec<Real> = Vec::new();
            let mut j: usize = 0;
            while j < cols
                invariant
                    0 <= j <= cols,
                    row@.len() == j,
                    forall|k: int| 0 <= k < j ==> (#[trigger] row@[k]).raw == 0,
                decreases cols - j,
            {
                row.push(Real::zero());
                j = j + 1;
            }
            data.push(row);
            i = i + 1;
        }
        Matrix { data, rows, cols }
    }

    /// The transpose: `cols` by `rows`, with entry `(j, i)` taken from `(i, j)`.
    pub fn transpose(&self) -> (r: Matrix)
        requires
            self.shaped(),
        ensures
            is_transpose(*self, r),
    {
        let mut t: Vec<Vec<Real>> = Vec::new();
        let mut j: usize = 0;
        while j < self.cols
            invariant
                self.shaped(),
                0 <= j <= self.cols,
                t@.len() == j,
                forall|k: int| 0 <= k < j ==> #[trigger] t@[k]@.len() == self.rows,
                forall|k: int, i: int| 0 <= k < j && 0 <= i < self.rows ==> #[trigger] t@[k]@[i] == self.entry(i, k),
            decreases self.cols - j,
        {
            let mut row: Vec<Real> = Vec::new();
            let mut i: usize = 0;
            while i < self.rows
                invariant
                    self.shaped(),
                    j < self.cols,
                    0 <= i <= self.rows,
                    row@.len() == i,
                    forall|k: int| 0 <= k < i ==> #[trigger] row@[k] == self.entry(k, j as int),
                decreases self.rows - i,
            {
                row.push(self.data[i][j]);
                i = i + 1;
            }
            t.push(row);
            j = j + 1;
        }
        Matrix { data: t, rows: self.cols, cols: self.rows }
    }

    /// The matrix product `self * other`; entry `(i, j)` is the dot product of
    /// row `i` of `self` and column `j` of `other`, summed exactly over `k`
    /// in increasing order and rounded once.
    pub fn mul(&self, other: &Matrix) -> (r: Result<Matrix, LinalgError>)
        requires
            self.shaped(),
            other.shaped(),
        ensures
            self.cols != other.rows ==> r == Err::<Matrix, LinalgError>(LinalgError::ShapeMismatch),
            self.cols == other.rows ==> r is Ok && r->Ok_0.shaped() && r->Ok_0.rows == self.rows
                && r->Ok_0.cols == other.cols,
            self.cols == other.rows ==> forall|i: int, j: int| 0 <= i < self.rows && 0 <= j < other.cols
                ==> (#[trigger] r->Ok_0.entry(i, j)).raw == dot_raw(self.row(i), other.column(j)),
    {
        if self.cols != other.rows {
            return Err(LinalgError::ShapeMismatch);
        }
        let bt = other.transpose();
        let mut out: Vec<Vec<Real>> = Vec::new();
        let mut i: usize = 0;
        while i < self.rows
            invariant
                self.shaped(),
                other.shaped(),
                self.cols == other.rows,
                bt.shaped(),
                bt.rows == other.cols,
                bt.cols == other.rows,
                forall|a: int, b: int| 0 <= a < other.rows && 0 <= b < other.cols ==> #[trigger] bt.entry(b, a) == other.entry(a, b),
                0 <= i <= self.rows,
                out@.len() == i,
                forall|k: int| 0 <= k < i ==> #[trigger] out@[k]@.len() == other.cols,
                forall|k: int, j: int| 0 <= k < i && 0 <= j < other.cols ==> (#[trigger] out@[k]@[j]).raw == dot_raw(self.row(k), other.column(j)),
            decreases self.rows - i,
        {
            let mut row: Vec<Real> = Vec::new();
            let mut j: usize = 0;
            while j < other.cols
                invariant
                    self.shaped(),
                    other.shaped(),
                    self.cols == other.rows,
                    bt.shaped(),
                    bt.rows == other.cols,
                    bt.cols == other.rows,
                    forall|a: int, b: int| 0 <= a < other.rows && 0 <= b < other.cols ==> #[trigger] bt.entry(b, a) == other.entry(a, b),
                    i < self.rows,
                    0 <= j <= other.cols,
                    row@.len() == j,
                    forall|k: int| 0 <= k < j ==> (#[trigger] row@[k]).raw == dot_raw(self.row(i as int), other.column(k)),
                decreases other.cols - j,
            {
                assert(bt.data@[j as int]@.len() == other.rows);
                assert forall|a: int| 0 <= a < other.rows implies bt.row(j as int)[a] == other.column(j as int)[a] by {
                    assert(bt.entry(j as int, a) == other.entry(a, j as int));
                }
                assert(bt.row(j as int) =~= other.column(j as int));
                row.push(dot_slices(self.data[i].as_slice(), bt.data[j].as_slice()));
                j = j + 1;
            }
            out.push(row);
            i = i + 1;
        }
        Ok(Matrix { data: out, rows: self.rows, cols: other.cols })
    }

    /// The product of `self` and the column vector `v`.
    pub fn mul_vec(&self, v: &[Real]) -> (r: Result<Vec<Real>, LinalgError>)
        requires
            self.shaped(),
        ensures
            self.cols != v@.len() ==> r == Err::<Vec<Real>, LinalgError>(LinalgError::ShapeMismatch),
            self.cols == v@.len() ==> r is Ok && r->Ok_0@.len() == self.rows,
            self.cols == v@.len() ==> forall|i: int| 0 <= i < self.rows
                ==> (#[trigger] r->Ok_0@[i]).raw == dot_raw(self.row(i), v@),
    {
        if self.cols != v.len() {
            return Err(LinalgError::ShapeMismatch);
        }
        let mut out: Vec<Real> = Vec::new();
        let mut i: usize = 0;
        while i < self.rows
            invariant
                self.shaped(),
                self.cols == v@.len(),
                0 <= i <= self.rows,
                out@.len() == i,
                forall|k: int| 0 <= k < i ==> (#[trigger] out@[k]).raw == dot_raw(self.row(k), v@),
            decreases self.rows - i,
        {
            out.push(dot_slices(self.data[i].as_slice(), v));
            i = i + 1;
        }
        Ok(out)
    }

    /// Column `idx`, top to bottom.
    pub fn col(&self, idx: usize) -> (r: Vec<Real>)
        requires
            self.shaped(),
            idx < self.cols,
        ensures
            r@ == self.column(idx as int),
    {
        let mut out: Vec<Real> = Vec::new();
        let mut i: usize = 0;
        while i < self.rows
            invariant
                self.shaped(),
                idx < self.cols,
                0 <= i <= self.rows,
                out@.len() == i,
                forall|k: int| 0 <= k < i ==> #[trigger] out@[k] == self.entry(k, idx as int),
            decreases self.rows - i,
        {
            out.push(self.data[i][idx]);
            i = i + 1;
        }
        assert(out@ =~= self.column(idx as int));
        out
    }

    /// Replaces column `idx` with `col`; on failure the matrix is unchanged.
    pub fn set_col(&mut self, idx: usize, col: &[Real]) -> (r: Result<(), LinalgError>)
        requires
            old(self).shaped(),
        ensures
            final(self).shaped(),
            final(self).rows == old(self).rows,
            final(self).cols == old(self).cols,
            col@.len() != old(self).rows ==> r == Err::<(), LinalgError>(LinalgError::ColumnLengthMismatch)
                && final(self).data@ == old(self).data@,
            col@.len() == old(self).rows && idx >= old(self).cols ==> r == Err::<(), LinalgError>(LinalgError::IndexOutOfRange)
                && final(self).data@ == old(self).data@,
            col@.len() == old(self).rows && idx < old(self).cols ==> r is Ok
                && forall|i: int, j: int| 0 <= i < old(self).rows && 0 <= j < old(self).cols
                    ==> #[trigger] final(self).entry(i, j) == if j == idx { col@[i] } else { old(self).entry(i, j) },
    {
        if col.len() != self.rows {
            return Err(LinalgError::ColumnLengthMismatch);
        }
        if idx >= self.cols {
            return Err(LinalgError::IndexOutOfRange);
        }
        let mut data: Vec<Vec<Real>> = Vec::new();
        let mut i: usize = 0;
        while i < self.rows
            invariant
                self.shaped(),
                col@.len() == self.rows,
                idx < self.cols,
                0 <= i <= self.rows,
                data@.len() == i,
                forall|k: int| 0 <= k < i ==> #[trigger] data@[k]@.len() == self.cols,
                forall|k: int, j: int| 0 <= k < i && 0 <= j < self.cols ==> #[trigger] data@[k]@[j]
                    == if j == idx { col@[k] } else { self.entry(k, j) },
            decreases self.rows - i,
        {
            let mut row: Vec<Real> = Vec::new();
            let mut j: usize = 0;
            while j < self.cols
                invariant
                    self.shaped(),
                    col@.len() == self.rows,
                    idx < self.cols,
                    i < self.rows,
                    0 <= j <= self.cols,
                    row@.len() == j,
                    forall|k: int| 0 <= k < j ==> #[trigger] row@[k] == if k == idx { col@[i as int] } else { self.entry(i as int, k) },
                decreases self.cols - j,
            {
                if j == idx {
                    row.push(col[i]);
                } else {
                    row.push(self.data[i][j]);
                }
                j = j + 1;
            }
            data.push(row);
            i = i + 1;
        }
        self.data = data;
        Ok(())
    }
}


/// Raw value of entry `(i, j)` of the left factor of a decomposition of `a`:
/// row `i` of `a` times row `j` of `vt`, divided by the singular value `s[j]`,
/// or zero where that singular value is zero.
pub open spec fn u_entry_raw(a: Matrix, vt: Matrix, s: Seq<Real>, i: int, j: int) -> int {
    if s[j].raw == 0 {
        0
    } else {
        sat(tdiv(dot_raw(a.row(i), vt.row(j)) * SCALE, s[j].raw as int))
    }
}

/// Every entry of `m` is zero.
pub open spec fn zero_matrix(m: Matrix) -> bool {
    forall|i: int, j: int| 0 <= i < m.rows && 0 <= j < m.cols ==> (#[trigger] m.entry(i, j)).raw == 0
}

/// What a decomposition `(u, s, vt)` of `a` satisfies.
pub open spec fn is_decomposition(a: Matrix, u: Matrix, s: Seq<Real>, vt: Matrix) -> bool {
    &&& s.len() <= a.cols
    &&& forall|j: int| 0 <= j < s.len() ==> (#[trigger] s[j]).raw >= 0
    &&& s.len() == 0 ==> u.is_zeros(a.rows as int, a.rows as int) && vt.is_zeros(0, 0)
    &&& s.len() > 0 ==> {
        &&& u.shaped() && u.rows == a.rows && u.cols == s.len()
        &&& vt.shaped() && vt.rows == s.len() && vt.cols == a.cols
        &&& forall|i: int, j: int| 0 <= i < a.rows && 0 <= j < s.len()
            ==> (#[trigger] u.entry(i, j)).raw == u_entry_raw(a, vt, s, i, j)
    }
}

/// `w` times `b`: entry `i` is the dot product of row `i` of `w` with `b`.
pub open spec fn grid_times(w: Seq<Seq<Real>>, b: Seq<Real>) -> Seq<Real> {
    Seq::new(w.len(), |i: int| Real { raw: dot_raw(w[i], b) as i64 })
}

/// The Rayleigh quotient `bᵗ w b`.
pub open spec fn rayleigh(w: Seq<Seq<Real>>, b: Seq<Real>) -> Real {
    Real { raw: dot_raw(b, grid_times(w, b)) as i64 }
}

/// Raw value of `|x - y|`.
pub open spec fn gap_raw(x: Real, y: Real) -> int {
    sat(abs(sat(x.raw - y.raw)))
}

/// The power iteration on `w` from the unit vector `b` and the eigenvalue
/// estimate `lambda`, with at most `fuel` steps left; yields the final
/// estimate and vector. A step stops early when `w b` is zero, and after
/// accepting an estimate that moved by less than `tol`.
pub open spec fn power_iteration(w: Seq<Seq<Real>>, b: Seq<Real>, lambda: Real, tol: Real, fuel: nat) -> (Real, Seq<Real>)
    decreases fuel,
{
    if fuel == 0 {
        (lambda, b)
    } else {
        let wb = grid_times(w, b);
        if all_zero(wb) {
            (lambda, b)
        } else {
            let next = unit_seq(wb);
            let l = rayleigh(w, next);
            if gap_raw(l, lambda) < tol.raw {
                (l, next)
            } else {
                power_iteration(w, next, l, tol, (fuel - 1) as nat)
            }
        }
    }
}

/// `w` with `lambda * b * bᵗ` taken out, entry by entry.
pub open spec fn deflated(w: Seq<Seq<Real>>, lambda: Real, b: Seq<Real>) -> Seq<Seq<Real>> {
    Seq::new(
        w.len(),
        |i: int|
            Seq::new(
                w[i].len(),
                |j: int|
                    Real {
                        raw: sat(w[i][j].raw - times_raw(times_raw(lambda.raw as int, b[i].raw as int), b[j].raw as int)) as i64,
                    },
            ),
    )
}

/// The all-ones vector of length `n`.
pub open spec fn ones(n: nat) -> Seq<Real> {
    Seq::new(n, |i: int| Real { raw: SCALE })
}

/// Up to `k` eigenpairs of the `n` by `n` matrix `w`, in the order found:
/// each is the result of the power iteration from the normalized all-ones
/// vector, and the next ones are those of `w` deflated by it. The search
/// ends at the first estimate that is zero.
pub open spec fn eigenpairs(w: Seq<Seq<Real>>, n: nat, k: nat, tol: Real, max_iter: nat) -> Seq<(Real, Seq<Real>)>
    decreases k,
{
    if k == 0 {
        Seq::empty()
    } else {
        let found = power_iteration(w, unit_seq(ones(n)), Real { raw: 0 }, tol, max_iter);
        if found.0.raw == 0 {
            Seq::empty()
        } else {
            seq![found] + eigenpairs(deflated(w, found.0, found.1), n, (k - 1) as nat, tol, max_iter)
        }
    }
}

/// `aᵗ a` as computed: entry `(i, j)` is the dot product of columns `i` and `j`.
pub open spec fn gram(a: Matrix) -> Seq<Seq<Real>> {
    Seq::new(
        a.cols as nat,
        |i: int| Seq::new(a.cols as nat, |j: int| Real { raw: dot_raw(a.column(i), a.column(j)) as i64 }),
    )
}

/// `b` is some non-zero vector scaled to unit length, as `unit_seq` does it.
pub open spec fn is_unit_vector(b: Seq<Real>) -> bool {
    exists|x: Seq<Real>| !all_zero(x) && #[trigger] unit_seq(x) == b
}

/// The eigenpairs that a decomposition of `a` rests on.
pub open spec fn svd_pairs(a: Matrix, tol: Real, max_iter: nat) -> Seq<(Real, Seq<Real>)> {
    eigenpairs(gram(a), a.cols as nat, a.cols as nat, tol, max_iter)
}

proof fn lemma_dot_zero(a: Seq<Real>, b: Seq<Real>, k: int)
    requires
        0 <= k <= a.len(),
        k <= b.len(),
        all_zero(a) || all_zero(b),
    ensures
        dot_acc(a, b, k) == 0,
    decreases k,
{
    if k > 0 {
        lemma_dot_zero(a, b, k - 1);
        assert(a[k - 1].raw == 0 || b[k - 1].raw == 0);
        assert(a[k - 1].raw * b[k - 1].raw == 0) by (nonlinear_arith)
            requires
                a[k - 1].raw == 0 || b[k - 1].raw == 0,
        ;
    }
}

proof fn lemma_dot_raw_zero(a: Seq<Real>, b: Seq<Real>)
    requires
        a.len() == b.len(),
        all_zero(a) || all_zero(b),
    ensures
        dot_raw(a, b) == 0,
{
    lemma_dot_zero(a, b, a.len() as int);
}

/// Scales `v` to unit length; returns the scaled vector and the norm of `v`.
/// A zero vector comes back as it is.
fn normalize(v: Vec<Real>) -> (r: (Vec<Real>, Real))
    requires
        v@.len() > 0,
    ensures
        r.1.raw == norm_val(v@),
        r.1.raw == 0 <==> all_zero(v@),
        r.1.raw != 0 ==> r.0@ == unit_seq(v@),
        r.0@.len() == v@.len(),
{
    let vec = Vector(v);
    let norm = match vec.norm() {
        Ok(n) => n,
        Err(_) => Real::zero(),
    };
    if norm.is_zero() {
        return (vec.0, norm);
    }
    match vec.unit_vect() {
        Ok(u) => (u.0, norm),
        Err(_) => (vec.0, norm),
    }
}

/// The Rayleigh quotient `vᵗ m v`.
fn rayleigh_quotient(m: &Matrix, v: &[Real]) -> (r: Real)
    requires
        m.shaped(),
        m.rows == v@.len(),
        m.cols == v@.len(),
    ensures
        r == rayleigh(m.cells(), v@),
{
    match m.mul_vec(v) {
        Ok(mv) => {
            assert(mv@ =~= grid_times(m.cells(), v@));
            dot_slices(v, mv.as_slice())
        },
        Err(_) => Real::zero(),
    }
}

/// Removes the direction `b` with weight `lambda` from `w`:
/// each entry `(i, j)` loses `lambda * b[i] * b[j]`.
fn deflate(w: &Matrix, lambda: Real, b: &[Real]) -> (r: Matrix)
    requires
        w.shaped(),
        w.rows == b@.len(),
        w.cols == b@.len(),
    ensures
        r.shaped(),
        r.rows == w.rows,
        r.cols == w.cols,
        forall|i: int, j: int| 0 <= i < w.rows && 0 <= j < w.cols ==> (#[trigger] r.entry(i, j)).raw
            == sat(w.entry(i, j).raw - times_raw(times_raw(lambda.raw as int, b@[i].raw as int), b@[j].raw as int)),
{
    let mut data: Vec<Vec<Real>> = Vec::new();
    let mut i: usize = 0;
    while i < w.rows
        invariant
            w.shaped(),
            w.rows == b@.len(),
            w.cols == b@.len(),
            0 <= i <= w.rows,
            data@.len() == i,
            forall|k: int| 0 <= k < i ==> #[trigger] data@[k]@.len() == w.cols,
            forall|k: int, j: int| 0 <= k < i && 0 <= j < w.cols ==> (#[trigger] data@[k]@[j]).raw
                == sat(w.entry(k, j).raw - times_raw(times_raw(lambda.raw as int, b@[k].raw as int), b@[j].raw as int)),
        decreases w.rows - i,
    {
        let mut row: Vec<Real> = Vec::new();
        let mut j: usize = 0;
        while j < w.cols
            invariant
                w.shaped(),
                w.rows == b@.len(),
                w.cols == b@.len(),
                i < w.rows,
                0 <= j <= w.cols,
                row@.len() == j,
                forall|k: int| 0 <= k < j ==> (#[trigger] row@[k]).raw
                    == sat(w.entry(i as int, k).raw - times_raw(times_raw(lambda.raw as int, b@[i as int].raw as int), b@[k].raw as int)),
            decreases w.cols - j,
        {
            row.push(w.data[i][j].minus(lambda.times(b[i]).times(b[j])));
            j = j + 1;
        }
        data.push(row);
        i = i + 1;
    }
    Matrix { data, rows: w.rows, cols: w.cols }
}

impl Matrix {
    /// Singular value decomposition by power iteration with deflation.
    ///
    /// The eigenpairs of `selfᵗ self` are found one at a time, dominant first:
    /// from the normalized all-ones vector, `b` is replaced by the normalized
    /// `W b` until the Rayleigh quotient moves by less than `tol` or
    /// `max_iter` steps have run; a zero quotient ends the search, and each
    /// accepted pair is deflated out of `W`. The singular values are the
    /// square roots of the eigenvalues (zero for a negative one), the rows of
    /// `vt` are the eigenvectors, and column `j` of `u` is `self` times row `j`
    /// of `vt` divided by the `j`-th singular value (zero where that value is
    /// zero). With no eigenvalue found, `u` is the `rows` by `rows` zero matrix
    /// and `vt` is empty.
    pub fn svd(&self, tol: Real, max_iter: usize) -> (r: Result<(Matrix, Vec<Real>, Matrix), LinalgError>)
        requires
            self.wf(),
        ensures
            r is Ok,
            is_decomposition(*self, r->Ok_0.0, r->Ok_0.1@, r->Ok_0.2),
            r->Ok_0.1@.len() == svd_pairs(*self, tol, max_iter as nat).len(),
            forall|j: int| 0 <= j < r->Ok_0.1@.len() ==> (#[trigger] r->Ok_0.1@[j]).raw
                == root_raw(svd_pairs(*self, tol, max_iter as nat)[j].0.raw as int),
            forall|j: int| 0 <= j < r->Ok_0.1@.len() ==> #[trigger] r->Ok_0.2.row(j)
                == svd_pairs(*self, tol, max_iter as nat)[j].1,
            forall|j: int| 0 <= j < r->Ok_0.1@.len() ==> is_unit_vector(#[trigger] r->Ok_0.2.row(j)),
            zero_matrix(*self) ==> r->Ok_0.1@.len() == 0,
    {
        let at = self.transpose();
        let ata = match at.mul(self) {
            Ok(m) => m,
            Err(e) => return Err(e),
        };
        let n: usize = ata.rows;
        let ghost zero_input = zero_matrix(*self);
        proof {
            if zero_input {
                assert forall|i: int, j: int| 0 <= i < n && 0 <= j < n implies (#[trigger] ata.entry(i, j)).raw == 0 by {
                    assert(all_zero(self.column(j)));
                    assert(at.row(i).len() == self.column(j).len());
                    lemma_dot_raw_zero(at.row(i), self.column(j));
                }
            }
        }
        let ghost target = svd_pairs(*self, tol, max_iter as nat);
        proof {
            assert forall|i: int| 0 <= i < n implies #[trigger] ata.cells()[i] == gram(*self)[i] by {
                assert forall|j: int| 0 <= j < n implies ata.row(i)[j] == gram(*self)[i][j] by {
                    assert forall|c: int| 0 <= c < self.rows implies at.row(i)[c] == self.column(i)[c] by {
                        assert(at.entry(i, c) == self.entry(c, i));
                    }
                    assert(at.row(i) =~= self.column(i));
                    assert(ata.entry(i, j).raw == dot_raw(at.row(i), self.column(j)));
                }
                assert(ata.row(i) =~= gram(*self)[i]);
            }
            assert(ata.cells() =~= gram(*self));
            assert(target.subrange(0, target.len() as int) =~= target);
        }
        let mut work: Matrix = ata;
        let mut eigvals: Vec<Real> = Vec::new();
        let mut eigvecs: Vec<Vec<Real>> = Vec::new();
        let mut k: usize = 0;
        while k < n
            invariant
                self.wf(),
                n == self.cols,
                work.shaped(),
                work.rows == n,
                work.cols == n,
                eigvals@.len() == k,
                eigvecs@.len() == k,
                k <= n,
                k <= target.len(),
                target == svd_pairs(*self, tol, max_iter as nat),
                eigenpairs(work.cells(), n as nat, (n - k) as nat, tol, max_iter as nat) == target.subrange(k as int, target.len() as int),
                forall|e: int| 0 <= e < k ==> #[trigger] eigvals@[e] == target[e].0,
                forall|e: int| 0 <= e < k ==> #[trigger] eigvecs@[e]@ == target[e].1,
                forall|e: int| 0 <= e < k ==> #[trigger] eigvecs@[e]@.len() == n,
                forall|e: int| 0 <= e < k ==> is_unit_vector(#[trigger] eigvecs@[e]@),
                zero_input == zero_matrix(*self),
                zero_input ==> k == 0 && zero_matrix(work),
            ensures
                k == target.len(),
                eigvals@.len() == k,
                eigvecs@.len() == k,
                forall|e: int| 0 <= e < k ==> #[trigger] eigvals@[e] == target[e].0,
                forall|e: int| 0 <= e < k ==> #[trigger] eigvecs@[e]@ == target[e].1,
                forall|e: int| 0 <= e < k ==> #[trigger] eigvecs@[e]@.len() == n,
                forall|e: int| 0 <= e < k ==> is_unit_vector(#[trigger] eigvecs@[e]@),
                zero_input ==> k == 0,
            decreases n - k,
        {
            let ghost w = work.cells();
            let ghost rest = target.subrange(k as int, target.len() as int);
            let mut ones_vec: Vec<Real> = Vec::new();
            let mut c: usize = 0;
            while c < n
                invariant
                    c <= n,
                    ones_vec@.len() == c,
                    forall|e: int| 0 <= e < c ==> (#[trigger] ones_vec@[e]).raw == SCALE,
                decreases n - c,
            {
                ones_vec.push(Real::one());
                c = c + 1;
            }
            assert(ones_vec@ =~= ones(n as nat));
            assert(!all_zero(ones_vec@)) by {
                assert(ones_vec@[0].raw != 0);
            }
            let (b0, nb0) = normalize(ones_vec);
            if nb0.is_zero() {
                break;
            }
            let ghost found = power_iteration(w, unit_seq(ones(n as nat)), Real { raw: 0 }, tol, max_iter as nat);
            let mut b: Vec<Real> = b0;
            let ghost mut src: Seq<Real> = ones_vec@;
            let mut lambda: Real = Real::zero();
            let mut it: usize = 0;
            while it < max_iter
                invariant_except_break
                    power_iteration(w, b@, lambda, tol, (max_iter - it) as nat) == found,
                invariant
                    work.shaped(),
                    work.rows == n,
                    work.cols == n,
                    w == work.cells(),
                    n >= 1,
                    b@.len() == n,
                    !all_zero(src),
                    b@ == unit_seq(src),
                    it <= max_iter,
                    zero_input ==> zero_matrix(work) && lambda.raw == 0,
                ensures
                    b@.len() == n,
                    !all_zero(src),
                    b@ == unit_seq(src),
                    (lambda, b@) == found,
                    zero_input ==> lambda.raw == 0,
                decreases max_iter - it,
            {
                let wb = match work.mul_vec(b.as_slice()) {
                    Ok(x) => x,
                    Err(e) => return Err(e),
                };
                assert(wb@ =~= grid_times(w, b@));
                proof {
                    if zero_input {
                        assert forall|i: int| 0 <= i < n implies (#[trigger] wb@[i]).raw == 0 by {
                            assert forall|c: int| 0 <= c < n implies (#[trigger] work.row(i)[c]).raw == 0 by {
                                assert(work.entry(i, c).raw == 0);
                            }
                            assert(all_zero(work.row(i)));
                            lemma_dot_raw_zero(work.row(i), b@);
                        }
                        assert(all_zero(wb@));
                    }
                }
                let (b_next, norm_next) = normalize(wb);
                if norm_next.is_zero() {
                    break;
                }
                let lambda_next = rayleigh_quotient(&work, b_next.as_slice());
                proof {
                    src = grid_times(w, b@);
                }
                if lambda_next.minus(lambda).magnitude().raw < tol.raw {
                    lambda = lambda_next;
                    b = b_next;
                    break;
                }
                lambda = lambda_next;
                b = b_next;
                it = it + 1;
            }
            // An eigenvalue below one unit of the scale is numerically zero.
            if lambda.is_zero() {
                break;
            }
            let ghost old_work = work;
            work = deflate(&work, lambda, b.as_slice());
            proof {
                let d = deflated(w, lambda, b@);
                assert forall|i: int| 0 <= i < n implies #[trigger] work.cells()[i] == d[i] by {
                    assert(w[i] == old_work.row(i));
                    assert forall|j: int| 0 <= j < n implies work.row(i)[j] == d[i][j] by {
                        assert(work.entry(i, j).raw == sat(old_work.entry(i, j).raw - times_raw(
                            times_raw(lambda.raw as int, b@[i].raw as int),
                            b@[j].raw as int,
                        )));
                    }
                    assert(work.row(i) =~= d[i]);
                }
                assert(work.cells() =~= d);
                assert(rest =~= seq![found] + eigenpairs(d, n as nat, (n - k - 1) as nat, tol, max_iter as nat));
                assert(target.subrange(k + 1, target.len() as int) =~= rest.subrange(1, rest.len() as int));
                assert(target[k as int] == rest[0]);
            }
            assert(is_unit_vector(b@));
            eigvals.push(lambda);
            eigvecs.push(b);
            k = k + 1;
        }
        let mut sing: Vec<Real> = Vec::new();
        let mut j: usize = 0;
        while j < eigvals.len()
            invariant
                j <= eigvals@.len(),
                sing@.len() == j,
                forall|e: int| 0 <= e < j ==> (#[trigger] sing@[e]).raw >= 0,
                forall|e: int| 0 <= e < j ==> (#[trigger] sing@[e]).raw == root_raw(eigvals@[e].raw as int),
            decreases eigvals@.len() - j,
        {
            sing.push(eigvals[j].sqrt());
            j = j + 1;
        }
        let r: usize = sing.len();
        if r == 0 {
            return Ok((Matrix::zeros(self.rows, self.rows), sing, Matrix::zeros(0, 0)));
        }
        let vt = Matrix { data: eigvecs, rows: r, cols: n };
        let v = vt.transpose();
        let av = match self.mul(&v) {
            Ok(m) => m,
            Err(e) => return Err(e),
        };
        proof {
            assert forall|c: int| 0 <= c < r implies #[trigger] v.column(c) == vt.row(c) by {
                assert forall|a: int| 0 <= a < n implies v.column(c)[a] == vt.row(c)[a] by {
                    assert(v.entry(a, c) == vt.entry(c, a));
                }
                assert(v.column(c) =~= vt.row(c));
            }
            assert forall|i: int, c: int| 0 <= i < self.rows && 0 <= c < r implies (#[trigger] av.entry(i, c)).raw
                == dot_raw(self.row(i), vt.row(c)) by {
                assert(v.column(c) == vt.row(c));
            }
        }
        let mut u = Matrix::zeros(self.rows, r);
        let mut j: usize = 0;
        while j < r
            invariant
                self.wf(),
                n == self.cols,
                r == sing@.len(),
                vt.shaped(),
                vt.rows == r,
                vt.cols == n,
                av.shaped(),
                av.rows == self.rows,
                av.cols == r,
                forall|i: int, c: int| 0 <= i < self.rows && 0 <= c < r ==> (#[trigger] av.entry(i, c)).raw
                    == dot_raw(self.row(i), vt.row(c)),
                u.shaped(),
                u.rows == self.rows,
                u.cols == r,
                0 <= j <= r,
                forall|i: int, c: int| 0 <= i < self.rows && 0 <= c < j ==> (#[trigger] u.entry(i, c)).raw
                    == u_entry_raw(*self, vt, sing@, i, c),
            decreases r - j,
        {
            let sigma: Real = sing[j];
            let avj = av.col(j);
            let mut colv: Vec<Real> = Vec::new();
            let mut i: usize = 0;
            while i < self.rows
                invariant
                    self.wf(),
                    avj@ == av.column(j as int),
                    av.shaped(),
                    av.rows == self.rows,
                    j < av.cols,
                    j < r,
                    r == sing@.len(),
                    sigma == sing@[j as int],
                    forall|a: int| 0 <= a < self.rows ==> (#[trigger] av.entry(a, j as int)).raw
                        == dot_raw(self.row(a), vt.row(j as int)),
                    0 <= i <= self.rows,
                    colv@.len() == i,
                    forall|a: int| 0 <= a < i ==> (#[trigger] colv@[a]).raw == u_entry_raw(*self, vt, sing@, a, j as int),
                decreases self.rows - i,
            {
                if sigma.is_zero() {
                    colv.push(Real::zero());
                } else {
                    colv.push(avj[i].over(sigma));
                }
                i = i + 1;
            }
            match u.set_col(j, colv.as_slice()) {
                Ok(()) => {},
                Err(e) => return Err(e),
            }
            j = j + 1;
        }
        Ok((u, sing, vt))
    }
}

} // verus!
