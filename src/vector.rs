use vstd::prelude::*;
use crate::error::LinalgError;
use vstd::arithmetic::div_mod::{lemma_fundamental_div_mod, lemma_mod_bound};
use crate::scalar::{floor_root, reduced, halve, reduce, halve_wide, scale_wide, narrow, div_toward_zero, sat_wide, abs, real_text, Real, SCALE, WIDE_MAX, sat, tdiv, is_floor_sqrt, dot_acc, dot_raw, dot_wide, dot_slices, floor_sqrt, lemma_floor_sqrt_unique};

verus! {

/// The elementwise operations on two vectors.
#[derive(Clone, Copy, Debug, PartialEq, Eq, Structural)]
pub enum VectorOp {
    Add,
    Sub,
    Mul,
    Div,
}

/// A vector of reals.
#[derive(Clone, Debug, PartialEq)]
pub struct Vector(pub Vec<Real>);

/// Raw value of `op` applied to two elements with raw values `x` and `y`.
pub open spec fn op_raw(op: VectorOp, x: int, y: int) -> int {
    match op {
        VectorOp::Add => sat(x + y),
        VectorOp::Sub => sat(x - y),
        VectorOp::Mul => sat(tdiv(x * y, SCALE as int)),
        VectorOp::Div => sat(tdiv(x * SCALE, y)),
    }
}

/// Some divisor of `b` is zero.
pub open spec fn has_zero(b: Seq<Real>) -> bool {
    exists|i: int| 0 <= i < b.len() && b[i].raw == 0
}

/// The elementwise result of `op` on `a` and `b`.
pub open spec fn elementwise(a: Seq<Real>, b: Seq<Real>, op: VectorOp, r: Seq<Real>) -> bool {
    &&& r.len() == a.len()
    &&& forall|i: int| 0 <= i < a.len() ==> #[trigger] r[i].raw == op_raw(op, a[i].raw as int, b[i].raw as int)
}

/// The result of `operate_vectors` on `a`, `b` and `op`.
pub open spec fn operated(a: Seq<Real>, b: Seq<Real>, op: VectorOp, r: Result<Vector, LinalgError>) -> bool {
    if a.len() != b.len() {
        r == Err::<Vector, LinalgError>(LinalgError::LengthMismatch)
    } else if op == VectorOp::Div && has_zero(b) {
        r == Err::<Vector, LinalgError>(LinalgError::DivisionByZero)
    } else {
        r is Ok && elementwise(a, b, op, r->Ok_0.0@)
    }
}

/// The sum of squares of `a`, exact at scale `SCALE * SCALE`.
pub open spec fn sum_sq(a: Seq<Real>) -> int {
    dot_acc(a, a, a.len() as int)
}

/// `v` is the raw Euclidean norm of `a`: the square root of the sum of
/// squares, rounded down and capped at the largest `i64`.
pub open spec fn is_norm(a: Seq<Real>, v: int) -> bool {
    ||| (0 <= v <= i64::MAX && is_floor_sqrt(v, sum_sq(a)))
    ||| (v == i64::MAX && i64::MAX * i64::MAX <= sum_sq(a))
}

/// The raw Euclidean norm of `a`.
pub open spec fn norm_val(a: Seq<Real>) -> int {
    choose|v: int| is_norm(a, v)
}

/// Every element of `a` is zero.
pub open spec fn all_zero(a: Seq<Real>) -> bool {
    forall|i: int| 0 <= i < a.len() ==> #[trigger] a[i].raw == 0
}

/// Below this sum of squares the norm that a vector is scaled by is taken
/// to twelve decimals, not six.
pub const FINE_LIMIT: i128 = 0x100_0000_0000_0000_0000_0000;

/// The norm of `a` is taken to twelve decimals when scaling it.
pub open spec fn unit_fine(a: Seq<Real>) -> bool {
    sum_sq(a) < FINE_LIMIT
}

/// The extra factor of precision of the norm that `a` is scaled by.
pub open spec fn unit_extra(a: Seq<Real>) -> int {
    if unit_fine(a) {
        SCALE as int
    } else {
        1
    }
}

/// The norm that `a` is scaled by, in units of `1 / (SCALE * unit_extra(a))`.
pub open spec fn unit_divisor(a: Seq<Real>) -> int {
    if unit_fine(a) {
        floor_root(sum_sq(a) * (SCALE * SCALE))
    } else {
        norm_val(a)
    }
}

/// `a` scaled by the inverse of its norm, elementwise, each element rounded
/// toward zero.
pub open spec fn unit_seq(a: Seq<Real>) -> Seq<Real> {
    Seq::new(
        a.len(),
        |i: int| Real { raw: sat(tdiv(a[i].raw * (SCALE * unit_extra(a)), unit_divisor(a))) as i64 },
    )
}

/// Raw cosine similarity of `a` and `b`: the exact dot product over the
/// square root of the product of the exact sums of squares, rounded once
/// toward zero. Each sum of squares is first divided by four until it is below
/// `2^62`; the dot product is halved once per such division, so the ratio is
/// kept and `a` and `b` are treated alike.
pub open spec fn cosine_of(a: Seq<Real>, b: Seq<Real>) -> int {
    let pa = reduced(sum_sq(a));
    let pb = reduced(sum_sq(b));
    let m = floor_root(pa.0 * pb.0);
    let d = halve(dot_acc(a, b, a.len() as int), pa.1 + pb.1);
    sat(tdiv(sat_wide(d * SCALE), m))
}

proof fn lemma_sum_sq(a: Seq<Real>, k: int)
    requires
        0 <= k <= a.len(),
    ensures
        dot_acc(a, a, k) >= 0,
        dot_acc(a, a, k) == 0 <==> (forall|j: int| 0 <= j < k ==> #[trigger] a[j].raw == 0),
    decreases k,
{
    if k > 0 {
        lemma_sum_sq(a, k - 1);
        let x = a[k - 1].raw as int;
        assert(x * x >= 0) by (nonlinear_arith);
        if x != 0 {
            assert(x * x > 0) by (nonlinear_arith)
                requires
                    x != 0,
            ;
        }
        if dot_acc(a, a, k) == 0 {
            assert forall|j: int| 0 <= j < k implies #[trigger] a[j].raw == 0 by {
                if j < k - 1 {
                    assert(a[j].raw == 0);
                }
            }
        }
    }
}

proof fn lemma_norm_unique(a: Seq<Real>, v: int, w: int)
    requires
        is_norm(a, v),
        is_norm(a, w),
    ensures
        v == w,
{
    let q = sum_sq(a);
    if is_floor_sqrt(v, q) && is_floor_sqrt(w, q) {
        lemma_floor_sqrt_unique(q, v, w);
    }
    if is_floor_sqrt(v, q) && w == i64::MAX && v < w {
        assert((v + 1) * (v + 1) <= i64::MAX * i64::MAX) by (nonlinear_arith)
            requires
                0 <= v,
                v + 1 <= i64::MAX,
        ;
    }
    if is_floor_sqrt(w, q) && v == i64::MAX && w < v {
        assert((w + 1) * (w + 1) <= i64::MAX * i64::MAX) by (nonlinear_arith)
            requires
                0 <= w,
                w + 1 <= i64::MAX,
        ;
    }
}

/// Applies `op` to each pair of elements of `a` and `b`, left to right.
pub fn operate_vectors(a: &[Real], b: &[Real], op: VectorOp) -> (r: Result<Vector, LinalgError>)
    ensures
        operated(a@, b@, op, r),
{
    if a.len() != b.len() {
        return Err(LinalgError::LengthMismatch);
    }
    let mut out: Vec<Real> = Vec::new();
    let mut i: usize = 0;
    while i < a.len()
        invariant
            a@.len() == b@.len(),
            0 <= i <= a@.len(),
            out@.len() == i,
            forall|j: int| 0 <= j < i ==> #[trigger] out@[j].raw == op_raw(op, a@[j].raw as int, b@[j].raw as int),
            op == VectorOp::Div ==> forall|j: int| 0 <= j < i ==> #[trigger] b@[j].raw != 0,
        decreases a@.len() - i,
    {
        let x: Real = a[i];
        let y: Real = b[i];
        let v: Real = match op {
            VectorOp::Add => x.plus(y),
            VectorOp::Sub => x.minus(y),
            VectorOp::Mul => x.times(y),
            VectorOp::Div => {
                if y.is_zero() {
                    return Err(LinalgError::DivisionByZero);
                }
                x.over(y)
            },
        };
        out.push(v);
        i = i + 1;
    }
    let r = Ok(Vector(out));
    assert(elementwise(a@, b@, op, out@));
    r
}

/// Elementwise sum of two equal-length vectors.
pub fn add_vectors(a: &Vec<Real>, b: &Vec<Real>) -> (r: Result<Vec<Real>, LinalgError>)
    ensures
        a@.len() != b@.len() ==> r == Err::<Vec<Real>, LinalgError>(LinalgError::LengthMismatch),
        a@.len() == b@.len() ==> r is Ok && elementwise(a@, b@, VectorOp::Add, r->Ok_0@),
{
    match operate_vectors(a.as_slice(), b.as_slice(), VectorOp::Add) {
        Ok(v) => Ok(v.0),
        Err(e) => Err(e),
    }
}

/// Elementwise difference of two equal-length vectors.
pub fn sub_vectors(a: &Vec<Real>, b: &Vec<Real>) -> (r: Result<Vec<Real>, LinalgError>)
    ensures
        a@.len() != b@.len() ==> r == Err::<Vec<Real>, LinalgError>(LinalgError::LengthMismatch),
        a@.len() == b@.len() ==> r is Ok && elementwise(a@, b@, VectorOp::Sub, r->Ok_0@),
{
    match operate_vectors(a.as_slice(), b.as_slice(), VectorOp::Sub) {
        Ok(v) => Ok(v.0),
        Err(e) => Err(e),
    }
}

/// Elementwise product of two equal-length vectors.
pub fn mult_vectors(a: &Vec<Real>, b: &Vec<Real>) -> (r: Result<Vec<Real>, LinalgError>)
    ensures
        a@.len() != b@.len() ==> r == Err::<Vec<Real>, LinalgError>(LinalgError::LengthMismatch),
        a@.len() == b@.len() ==> r is Ok && elementwise(a@, b@, VectorOp::Mul, r->Ok_0@),
{
    match operate_vectors(a.as_slice(), b.as_slice(), VectorOp::Mul) {
        Ok(v) => Ok(v.0),
        Err(e) => Err(e),
    }
}

/// The elements of `a` in decimal, separated by `", "`, in brackets.
pub open spec fn vector_text(a: Seq<Real>) -> Seq<char> {
    seq!['['] + joined(a, a.len() as int) + seq![']']
}

/// The first `k` elements of `a` in decimal, separated by `", "`.
pub open spec fn joined(a: Seq<Real>, k: int) -> Seq<char>
    decreases k,
{
    if k <= 0 {
        Seq::empty()
    } else if k == 1 {
        real_text(a[0].raw as int)
    } else {
        joined(a, k - 1) + seq![',', ' '] + real_text(a[k - 1].raw as int)
    }
}

impl Vector {
    /// The vector in human-readable form, such as `[1, 2.5, -3]`.
    pub fn to_text(&self) -> (r: String)
        ensures
            r@ == vector_text(self.0@),
    {
        let mut s = String::new();
        proof { reveal_strlit("["); }
        s.append("[");
        let mut i: usize = 0;
        while i < self.0.len()
            invariant
                0 <= i <= self.0@.len(),
                s@ == seq!['['] + joined(self.0@, i as int),
            decreases self.0@.len() - i,
        {
            if i > 0 {
                proof { reveal_strlit(", "); }
                s.append(", ");
            }
            let t = self.0[i].to_text();
            s.append(t.as_str());
            assert(s@ =~= seq!['['] + joined(self.0@, i + 1));
            i = i + 1;
        }
        proof { reveal_strlit("]"); }
        s.append("]");
        assert(s@ =~= vector_text(self.0@));
        s
    }

    /// The elementwise sum.
    pub fn add(&self, other: &Self) -> (r: Result<Self, LinalgError>)
        ensures
            operated(self.0@, other.0@, VectorOp::Add, r),
    {
        operate_vectors(self.0.as_slice(), other.0.as_slice(), VectorOp::Add)
    }

    /// The elementwise difference.
    pub fn sub(&self, other: &Self) -> (r: Result<Self, LinalgError>)
        ensures
            operated(self.0@, other.0@, VectorOp::Sub, r),
    {
        operate_vectors(self.0.as_slice(), other.0.as_slice(), VectorOp::Sub)
    }

    /// The elementwise product.
    pub fn mul(&self, other: &Self) -> (r: Result<Self, LinalgError>)
        ensures
            operated(self.0@, other.0@, VectorOp::Mul, r),
    {
        operate_vectors(self.0.as_slice(), other.0.as_slice(), VectorOp::Mul)
    }

    /// The elementwise quotient.
    pub fn div(&self, other: &Self) -> (r: Result<Self, LinalgError>)
        ensures
            operated(self.0@, other.0@, VectorOp::Div, r),
    {
        operate_vectors(self.0.as_slice(), other.0.as_slice(), VectorOp::Div)
    }

    /// The number of elements.
    pub fn len(&self) -> (r: usize)
        ensures
            r == self.0@.len(),
    {
        self.0.len()
    }

    /// Sum of pairwise products, accumulated exactly and rounded once.
    pub fn dot_product(&self, other: &Self) -> (r: Result<Real, LinalgError>)
        ensures
            self.0@.len() != other.0@.len() ==> r == Err::<Real, LinalgError>(LinalgError::LengthMismatch),
            self.0@.len() == other.0@.len() ==> r == Ok::<Real, LinalgError>(Real { raw: dot_raw(self.0@, other.0@) as i64 }),
    {
        if self.0.len() != other.0.len() {
            return Err(LinalgError::LengthMismatch);
        }
        Ok(dot_slices(self.0.as_slice(), other.0.as_slice()))
    }

    /// The Euclidean norm; the zero vector has norm zero.
    pub fn norm(&self) -> (r: Result<Real, LinalgError>)
        ensures
            self.0@.len() == 0 ==> r == Err::<Real, LinalgError>(LinalgError::EmptyVector),
            self.0@.len() > 0 ==> r is Ok && is_norm(self.0@, r->Ok_0.raw as int)
                && r->Ok_0.raw == norm_val(self.0@),
            self.0@.len() > 0 ==> (r->Ok_0.raw == 0 <==> all_zero(self.0@)),
    {
        if self.0.len() == 0 {
            return Err(LinalgError::EmptyVector);
        }
        let ghost a = self.0@;
        let acc: i128 = dot_wide(self.0.as_slice(), self.0.as_slice());
        proof {
            lemma_sum_sq(a, a.len() as int);
        }
        let s: u64 = floor_sqrt(acc as u128);
        let v: i64 = if s > i64::MAX as u64 {
            assert(i64::MAX * i64::MAX <= s * s) by (nonlinear_arith)
                requires
                    s > i64::MAX,
            ;
            i64::MAX
        } else {
            s as i64
        };
        proof {
            assert(is_norm(a, v as int));
            lemma_norm_unique(a, v as int, norm_val(a));
            if v == 0 {
                assert(acc < 1) by (nonlinear_arith)
                    requires
                        s == 0,
                        acc < (s + 1) * (s + 1),
                ;
            } else {
                assert(acc >= 1) by (nonlinear_arith)
                    requires
                        v >= 1,
                        v <= i64::MAX,
                        is_floor_sqrt(v as int, acc as int) || i64::MAX * i64::MAX <= acc,
                ;
            }
        }
        Ok(Real::from_raw(v))
    }

    /// The vector scaled to unit length.
    pub fn unit_vect(&self) -> (r: Result<Self, LinalgError>)
        ensures
            self.0@.len() == 0 ==> r == Err::<Vector, LinalgError>(LinalgError::EmptyVector),
            self.0@.len() > 0 && all_zero(self.0@) ==> r == Err::<Vector, LinalgError>(LinalgError::ZeroVectorNormalization),
            self.0@.len() > 0 && !all_zero(self.0@) ==> r is Ok && r->Ok_0.0@ == unit_seq(self.0@),
    {
        if self.0.len() == 0 {
            return Err(LinalgError::EmptyVector);
        }
        let ghost a = self.0@;
        let q: i128 = dot_wide(self.0.as_slice(), self.0.as_slice());
        proof {
            lemma_sum_sq(a, a.len() as int);
        }
        if q == 0 {
            return Err(LinalgError::ZeroVectorNormalization);
        }
        let sc: i128 = SCALE as i128;
        let (extra, divisor): (i128, i128) = if q < FINE_LIMIT {
            assert(q * (SCALE * SCALE) < 0x1_0000_0000_0000_0000_0000_0000_0000_0000) by (nonlinear_arith)
                requires
                    0 < q < FINE_LIMIT,
            ;
            let big: u128 = q as u128 * (sc * sc) as u128;
            let v: u64 = floor_sqrt(big);
            proof {
                let c = floor_root(big as int);
                lemma_floor_sqrt_unique(big as int, v as int, c);
                if v == 0 {
                    assert(big < 1) by (nonlinear_arith)
                        requires
                            v == 0,
                            big < (v + 1) * (v + 1),
                    ;
                }
            }
            (sc, v as i128)
        } else {
            let n: Real = match self.norm() {
                Ok(n) => n,
                Err(e) => return Err(e),
            };
            (1, n.raw as i128)
        };
        assert(extra == unit_extra(a) && divisor == unit_divisor(a) && divisor >= 1);
        let mut out: Vec<Real> = Vec::new();
        let mut i: usize = 0;
        while i < self.0.len()
            invariant
                a == self.0@,
                sc == SCALE,
                extra == unit_extra(a),
                divisor == unit_divisor(a),
                1 <= extra <= SCALE,
                1 <= divisor <= u64::MAX,
                0 <= i <= a.len(),
                out@.len() == i,
                forall|j: int| 0 <= j < i ==> #[trigger] out@[j] == unit_seq(a)[j],
            decreases a.len() - i,
        {
            let x: i64 = self.0[i].raw;
            assert(-WIDE_MAX <= x * (SCALE * extra) <= WIDE_MAX) by (nonlinear_arith)
                requires
                    i64::MIN <= x <= i64::MAX,
                    1 <= extra <= SCALE,
            ;
            out.push(Real::from_raw(narrow(div_toward_zero(x as i128 * (sc * extra), divisor))));
            i = i + 1;
        }
        assert(out@ =~= unit_seq(a));
        Ok(Vector(out))
    }

    /// The length of the projection of `self` onto `other`.
    pub fn scalar_projection(&self, other: &Self) -> (r: Result<Real, LinalgError>)
        ensures
            self.0@.len() != other.0@.len() ==> r == Err::<Real, LinalgError>(LinalgError::LengthMismatch),
            self.0@.len() == other.0@.len() && other.0@.len() == 0 ==> r == Err::<Real, LinalgError>(LinalgError::EmptyVector),
            self.0@.len() == other.0@.len() && other.0@.len() > 0 && all_zero(other.0@)
                ==> r == Err::<Real, LinalgError>(LinalgError::ZeroVectorNormalization),
            self.0@.len() == other.0@.len() && other.0@.len() > 0 && !all_zero(other.0@)
                ==> r == Ok::<Real, LinalgError>(Real { raw: dot_raw(self.0@, unit_seq(other.0@)) as i64 }),
    {
        if self.0.len() != other.0.len() {
            return Err(LinalgError::LengthMismatch);
        }
        let b_unit = match other.unit_vect() {
            Ok(u) => u,
            Err(e) => return Err(e),
        };
        self.dot_product(&b_unit)
    }

    /// The cosine of the angle between `self` and `other`.
    pub fn cosine_similarity(&self, other: &Self) -> (r: Result<Real, LinalgError>)
        ensures
            self.0@.len() != other.0@.len() ==> r == Err::<Real, LinalgError>(LinalgError::LengthMismatch),
            self.0@.len() == other.0@.len() && self.0@.len() == 0 ==> r == Err::<Real, LinalgError>(LinalgError::EmptyVector),
            self.0@.len() == other.0@.len() && self.0@.len() > 0 && (all_zero(self.0@) || all_zero(other.0@))
                ==> r == Err::<Real, LinalgError>(LinalgError::ZeroVectorSimilarity),
            self.0@.len() == other.0@.len() && self.0@.len() > 0 && !all_zero(self.0@) && !all_zero(other.0@)
                ==> r == Ok::<Real, LinalgError>(Real { raw: cosine_of(self.0@, other.0@) as i64 }),
    {
        if self.0.len() != other.0.len() {
            return Err(LinalgError::LengthMismatch);
        }
        if self.0.len() == 0 {
            return Err(LinalgError::EmptyVector);
        }
        let d: i128 = dot_wide(self.0.as_slice(), other.0.as_slice());
        let qa: i128 = dot_wide(self.0.as_slice(), self.0.as_slice());
        let qb: i128 = dot_wide(other.0.as_slice(), other.0.as_slice());
        proof {
            lemma_sum_sq(self.0@, self.0@.len() as int);
            lemma_sum_sq(other.0@, other.0@.len() as int);
        }
        if qa == 0 || qb == 0 {
            return Err(LinalgError::ZeroVectorSimilarity);
        }
        let (ra, ha) = reduce(qa as u128);
        let (rb, hb) = reduce(qb as u128);
        assert(ra * rb < 0x1_0000_0000_0000_0000_0000_0000_0000_0000) by (nonlinear_arith)
            requires
                ra < 0x4000_0000_0000_0000,
                rb < 0x4000_0000_0000_0000,
        ;
        let m: u64 = floor_sqrt(ra * rb);
        proof {
            assert(ra * rb >= 1) by (nonlinear_arith)
                requires
                    ra >= 1,
                    rb >= 1,
            ;
            if m == 0 {
                assert((m + 1) * (m + 1) == 1) by (nonlinear_arith)
                    requires
                        m == 0,
                ;
            }
            if m >= 0x4000_0000_0000_0000 {
                assert(m * m >= 0x4000_0000_0000_0000 * 0x4000_0000_0000_0000) by (nonlinear_arith)
                    requires
                        m >= 0x4000_0000_0000_0000,
                ;
                assert(ra * rb < 0x4000_0000_0000_0000 * 0x4000_0000_0000_0000) by (nonlinear_arith)
                    requires
                        ra < 0x4000_0000_0000_0000,
                        rb < 0x4000_0000_0000_0000,
                ;
            }
            let c = floor_root(ra * rb);
            assert(is_floor_sqrt(m as int, ra * rb));
            lemma_floor_sqrt_unique(ra * rb, m as int, c);
        }
        let dh: i128 = halve_wide(d, ha + hb);
        let num: i128 = scale_wide(dh);
        Ok(Real::from_raw(narrow(div_toward_zero(num, m as i128))))
    }
}


proof fn lemma_floor_sqrt_exists(q: int)
    requires
        q >= 0,
    ensures
        exists|r: int| #[trigger] is_floor_sqrt(r, q),
    decreases q,
{
    if q == 0 {
        assert(is_floor_sqrt(0, 0));
    } else {
        lemma_floor_sqrt_exists(q - 1);
        let r = choose|r: int| #[trigger] is_floor_sqrt(r, q - 1);
        if (r + 1) * (r + 1) <= q {
            assert(q < (r + 2) * (r + 2)) by (nonlinear_arith)
                requires
                    q - 1 < (r + 1) * (r + 1),
                    r >= 0,
            ;
            assert(is_floor_sqrt(r + 1, q));
        } else {
            assert(is_floor_sqrt(r, q));
        }
    }
}

proof fn lemma_norm_exists(a: Seq<Real>)
    ensures
        is_norm(a, norm_val(a)),
{
    let q = sum_sq(a);
    lemma_sum_sq(a, a.len() as int);
    if i64::MAX * i64::MAX <= q {
        assert(is_norm(a, i64::MAX as int));
    } else {
        lemma_floor_sqrt_exists(q);
        let r = choose|r: int| #[trigger] is_floor_sqrt(r, q);
        assert(r <= i64::MAX) by (nonlinear_arith)
            requires
                r >= 0,
                r * r <= q,
                q < i64::MAX * i64::MAX,
        ;
        assert(is_norm(a, r));
    }
}

/// The dot product of a vector with itself is its squared norm, up to
/// rounding: with `d` the raw dot product and `v` the raw norm,
/// `v * v < (d + 1) * SCALE` and `d * SCALE < (v + 1) * (v + 1)`.
/// This holds wherever neither value reaches the largest `i64`.
pub proof fn lemma_dot_self_is_norm_squared(a: Seq<Real>)
    requires
        dot_raw(a, a) < i64::MAX,
        norm_val(a) < i64::MAX,
    ensures
        norm_val(a) * norm_val(a) < (dot_raw(a, a) + 1) * SCALE,
        dot_raw(a, a) * SCALE < (norm_val(a) + 1) * (norm_val(a) + 1),
{
    let q = sum_sq(a);
    lemma_sum_sq(a, a.len() as int);
    lemma_norm_exists(a);
    let v = norm_val(a);
    let d = dot_raw(a, a);
    assert(tdiv(q, SCALE as int) == q / (SCALE as int));
    assert(q / (SCALE as int) >= 0) by (nonlinear_arith)
        requires
            q >= 0,
    ;
    assert(d == q / (SCALE as int));
    assert(d * SCALE <= q && q < (d + 1) * SCALE) by (nonlinear_arith)
        requires
            d == q / (SCALE as int),
            q >= 0,
            SCALE == 1_000_000,
    ;
    assert(is_floor_sqrt(v, q));
}


proof fn lemma_div_bounds(x: int, d: int)
    requires
        x >= 0,
        d > 0,
    ensures
        x / d >= 0,
        (x / d) * d <= x,
        x < (x / d) * d + d,
{
    lemma_fundamental_div_mod(x, d);
    lemma_mod_bound(x, d);
    assert((x / d) * d == d * (x / d)) by (nonlinear_arith);
    if x / d < 0 {
        assert(d * (x / d) <= -d) by (nonlinear_arith)
            requires
                x / d < 0,
                d > 0,
        ;
    }
}

proof fn lemma_unit_entry(x: int, d: int, m: int, y: int)
    requires
        d >= 1,
        m >= 1,
        y == sat(tdiv(x * m, d)),
    ensures
        y * y * (d * d) <= x * x * (m * m),
{
    let ax = abs(x);
    assert(abs(x * m) == ax * m) by (nonlinear_arith)
        requires
            ax == abs(x),
            m > 0,
    ;
    assert(ax * m >= 0) by (nonlinear_arith)
        requires
            ax >= 0,
            m > 0,
    ;
    lemma_div_bounds(ax * m, d);
    let t = (ax * m) / d;
    assert(abs(tdiv(x * m, d)) == t);
    assert(abs(y) <= t);
    assert(abs(y) * d <= ax * m) by (nonlinear_arith)
        requires
            abs(y) <= t,
            t * d <= ax * m,
            d >= 1,
            abs(y) >= 0,
    ;
    assert(y * y * (d * d) == (abs(y) * d) * (abs(y) * d)) by (nonlinear_arith);
    assert(x * x * (m * m) == (ax * m) * (ax * m)) by (nonlinear_arith)
        requires
            ax == abs(x),
    ;
    assert((abs(y) * d) * (abs(y) * d) <= (ax * m) * (ax * m)) by (nonlinear_arith)
        requires
            0 <= abs(y) * d <= ax * m,
    ;
}

proof fn lemma_unit_entry_lower(x: int, d: int, m: int, y: int)
    requires
        d >= 1,
        m >= 1,
        abs(x) * m <= d * SCALE,
        y == sat(tdiv(x * m, d)),
    ensures
        abs(y) <= SCALE,
        x * x * (m * m) <= (y * y + 2 * SCALE + 1) * (d * d),
{
    let sc = SCALE as int;
    let ax = abs(x);
    assert(abs(x * m) == ax * m) by (nonlinear_arith)
        requires
            ax == abs(x),
            m > 0,
    ;
    assert(ax * m >= 0) by (nonlinear_arith)
        requires
            ax >= 0,
            m > 0,
    ;
    lemma_div_bounds(ax * m, d);
    let t = (ax * m) / d;
    assert(t <= sc) by (nonlinear_arith)
        requires
            t * d <= ax * m,
            ax * m <= d * sc,
            ax * m < t * d + d,
            d >= 1,
    ;
    assert(abs(tdiv(x * m, d)) == t);
    assert(abs(y) == t);
    assert(ax * m < (t + 1) * d) by (nonlinear_arith)
        requires
            ax * m < t * d + d,
    ;
    assert((ax * m) * (ax * m) <= ((t + 1) * d) * ((t + 1) * d)) by (nonlinear_arith)
        requires
            0 <= ax * m < (t + 1) * d,
    ;
    assert(x * x * (m * m) == (ax * m) * (ax * m)) by (nonlinear_arith)
        requires
            ax == abs(x),
    ;
    assert(y * y == t * t) by (nonlinear_arith)
        requires
            abs(y) == t,
    ;
    assert((t + 1) * (t + 1) <= t * t + 2 * sc + 1) by (nonlinear_arith)
        requires
            0 <= t <= sc,
    ;
    assert(((t + 1) * d) * ((t + 1) * d) == (t + 1) * (t + 1) * (d * d)) by (nonlinear_arith);
    assert((t + 1) * (t + 1) * (d * d) <= (t * t + 2 * sc + 1) * (d * d)) by (nonlinear_arith)
        requires
            (t + 1) * (t + 1) <= t * t + 2 * sc + 1,
    ;
}

/// What the scaling of a non-zero vector rests on: the divisor is the
/// floor square root of the sum of squares times `unit_extra` squared, and
/// it is at least `SCALE`.
proof fn lemma_unit_divisor(a: Seq<Real>)
    requires
        0 < norm_val(a) < i64::MAX,
    ensures
        is_floor_sqrt(unit_divisor(a), sum_sq(a) * (unit_extra(a) * unit_extra(a))),
        unit_divisor(a) >= SCALE,
        1 <= unit_extra(a) <= SCALE,
        1 <= sum_sq(a) < WIDE_MAX,
{
    let q = sum_sq(a);
    let v = norm_val(a);
    let sc = SCALE as int;
    lemma_norm_exists(a);
    lemma_sum_sq(a, a.len() as int);
    assert(q < WIDE_MAX) by (nonlinear_arith)
        requires
            q < (v + 1) * (v + 1),
            0 <= v < i64::MAX,
    ;
    assert(is_floor_sqrt(v, q));
    if q < 1 {
        assert(v * v < 1);
        assert(v == 0) by (nonlinear_arith)
            requires
                v * v < 1,
                v >= 0,
        ;
    }
    if unit_fine(a) {
        assert(q * (sc * sc) == q * (unit_extra(a) * unit_extra(a)));
        lemma_floor_sqrt_exists(q * (sc * sc));
        let d = unit_divisor(a);
        assert(is_floor_sqrt(d, q * (sc * sc)));
        if d < sc {
            assert((d + 1) * (d + 1) <= sc * sc) by (nonlinear_arith)
                requires
                    0 <= d,
                    d + 1 <= sc,
            ;
            assert(sc * sc <= q * (sc * sc)) by (nonlinear_arith)
                requires
                    q >= 1,
            ;
        }
    } else {
        assert(unit_extra(a) == 1);
        assert(q * (unit_extra(a) * unit_extra(a)) == q) by (nonlinear_arith)
            requires
                unit_extra(a) == 1,
        ;
        if v < sc {
            assert((v + 1) * (v + 1) <= sc * sc) by (nonlinear_arith)
                requires
                    0 <= v,
                    v + 1 <= sc,
            ;
        }
    }
}

proof fn lemma_unit_sum(a: Seq<Real>, k: int)
    requires
        0 <= k <= a.len(),
        0 < norm_val(a) < i64::MAX,
        dot_acc(a, a, k) <= sum_sq(a),
    ensures
        dot_acc(unit_seq(a), unit_seq(a), k) >= 0,
        dot_acc(unit_seq(a), unit_seq(a), k) <= k * (SCALE * SCALE),
        dot_acc(unit_seq(a), unit_seq(a), k) * (unit_divisor(a) * unit_divisor(a))
            <= dot_acc(a, a, k) * ((SCALE * unit_extra(a)) * (SCALE * unit_extra(a))),
        k < SCALE ==> dot_acc(a, a, k) * ((SCALE * unit_extra(a)) * (SCALE * unit_extra(a)))
            <= (dot_acc(unit_seq(a), unit_seq(a), k) + (2 * SCALE + 1) * k) * (unit_divisor(a) * unit_divisor(a)),
    decreases k,
{
    let u = unit_seq(a);
    let sc = SCALE as int;
    lemma_unit_divisor(a);
    let d = unit_divisor(a);
    let e = unit_extra(a);
    let m = sc * e;
    let q = sum_sq(a);
    assert(m >= 1) by (nonlinear_arith)
        requires
            e >= 1,
            sc >= 1,
            m == sc * e,
    ;
    if k > 0 {
        lemma_sum_sq(a, k - 1);
        let x = a[k - 1].raw as int;
        let y = u[k - 1].raw as int;
        assert(x * x >= 0) by (nonlinear_arith);
        let pa = dot_acc(a, a, k - 1);
        assert(dot_acc(a, a, k) == pa + x * x);
        lemma_unit_sum(a, k - 1);
        let pu = dot_acc(u, u, k - 1);
        assert(abs(x) * e <= d) by (nonlinear_arith)
            requires
                x * x <= q,
                q * (e * e) < (d + 1) * (d + 1),
                e >= 1,
                d >= 0,
        ;
        assert(abs(x) * m <= d * sc) by (nonlinear_arith)
            requires
                abs(x) * e <= d,
                m == sc * e,
                sc >= 1,
        ;
        lemma_unit_entry(x, d, m, y);
        lemma_unit_entry_lower(x, d, m, y);
        assert(y * y <= sc * sc) by (nonlinear_arith)
            requires
                abs(y) <= sc,
        ;
        assert(0 <= y * y) by (nonlinear_arith);
        assert((k - 1) * (sc * sc) + sc * sc == k * (sc * sc)) by (nonlinear_arith);
        assert(dot_acc(u, u, k) <= pu + y * y);
        assert(dot_acc(u, u, k) >= 0);
        if pu + y * y <= WIDE_MAX {
            assert(dot_acc(u, u, k) == pu + y * y);
        }
        assert(dot_acc(u, u, k) * (d * d) <= (pu + y * y) * (d * d)) by (nonlinear_arith)
            requires
                dot_acc(u, u, k) <= pu + y * y,
        ;
        assert((pu + y * y) * (d * d) == pu * (d * d) + y * y * (d * d)) by (nonlinear_arith);
        assert((pa + x * x) * (m * m) == pa * (m * m) + x * x * (m * m)) by (nonlinear_arith);
        let t = 2 * sc + 1;
        assert((pu + y * y + t * k) * (d * d) == (pu + t * (k - 1)) * (d * d) + (y * y + t) * (d * d)) by (nonlinear_arith);
        if k < sc {
            assert(k * (sc * sc) < WIDE_MAX) by (nonlinear_arith)
                requires
                    k < sc,
                    sc == 1_000_000,
            ;
            assert(dot_acc(u, u, k) == pu + y * y);
            assert(pa * (m * m) <= (pu + t * (k - 1)) * (d * d));
            assert(x * x * (m * m) <= (y * y + t) * (d * d));
            assert(t * (k - 1) + t == t * k) by (nonlinear_arith);
        }
    }
}

/// A vector scaled to unit length has norm at most one, for every non-zero
/// vector whose norm is below the largest `i64`.
pub proof fn lemma_unit_norm_at_most_one(a: Seq<Real>)
    requires
        0 < norm_val(a) < i64::MAX,
    ensures
        norm_val(unit_seq(a)) <= SCALE,
{
    let sc = SCALE as int;
    lemma_unit_divisor(a);
    let d = unit_divisor(a);
    let e = unit_extra(a);
    let m = sc * e;
    let q = sum_sq(a);
    let u = unit_seq(a);
    lemma_unit_sum(a, a.len() as int);
    let uq = sum_sq(u);
    assert(uq == dot_acc(u, u, a.len() as int));
    lemma_norm_exists(u);
    let w = norm_val(u);
    assert(w * w <= uq) by (nonlinear_arith)
        requires
            is_norm(u, w),
            uq == sum_sq(u),
    ;
    assert(w >= 0);
    assert(w * w * (d * d) <= uq * (d * d)) by (nonlinear_arith)
        requires
            w * w <= uq,
    ;
    assert(q * (m * m) == (q * (e * e)) * (sc * sc)) by (nonlinear_arith)
        requires
            m == sc * e,
    ;
    assert((q * (e * e)) * (sc * sc) < (d + 1) * (d + 1) * (sc * sc)) by (nonlinear_arith)
        requires
            q * (e * e) < (d + 1) * (d + 1),
            sc > 0,
    ;
    assert((w * d) * (w * d) < ((d + 1) * sc) * ((d + 1) * sc)) by (nonlinear_arith)
        requires
            w * w * (d * d) <= uq * (d * d),
            uq * (d * d) <= q * (m * m),
            q * (m * m) < (d + 1) * (d + 1) * (sc * sc),
    ;
    assert(w * d < (d + 1) * sc) by (nonlinear_arith)
        requires
            (w * d) * (w * d) < ((d + 1) * sc) * ((d + 1) * sc),
            w >= 0,
            d >= 1,
            sc > 0,
    ;
    assert((d + 1) * sc == d * sc + sc) by (nonlinear_arith);
    assert((sc + 1) * d == d * sc + d) by (nonlinear_arith);
    assert(w * d < (sc + 1) * d);
    assert(w <= sc) by (nonlinear_arith)
        requires
            w * d < (sc + 1) * d,
            d >= 1,
    ;
}

/// A vector scaled to unit length has norm near one from below: with `w` the
/// raw norm of the scaled vector and `n` its length,
/// `(w + 1) * (w + 1) > SCALE * SCALE - (2 * SCALE + 1) * n`, so the norm
/// falls short of one by about `n` units of the last place at most. This holds
/// for every non-zero vector whose norm is below the largest `i64`.
pub proof fn lemma_unit_norm_near_one(a: Seq<Real>)
    requires
        0 < norm_val(a) < i64::MAX,
    ensures
        (norm_val(unit_seq(a)) + 1) * (norm_val(unit_seq(a)) + 1) > SCALE * SCALE - (2 * SCALE + 1) * a.len(),
{
    let u = unit_seq(a);
    let w = norm_val(u);
    let sc = SCALE as int;
    let n = a.len() as int;
    lemma_norm_exists(u);
    lemma_sum_sq(u, u.len() as int);
    assert(w >= 0);
    assert((w + 1) * (w + 1) > 0) by (nonlinear_arith)
        requires
            w >= 0,
    ;
    if n < sc {
        lemma_unit_divisor(a);
        let d = unit_divisor(a);
        let e = unit_extra(a);
        let m = sc * e;
        let q = sum_sq(a);
        lemma_unit_sum(a, n);
        let uq = sum_sq(u);
        assert(uq == dot_acc(u, u, n));
        assert(q * (m * m) == (q * (e * e)) * (sc * sc)) by (nonlinear_arith)
            requires
                m == sc * e,
        ;
        assert(d * d * (sc * sc) <= (q * (e * e)) * (sc * sc)) by (nonlinear_arith)
            requires
                d * d <= q * (e * e),
        ;
        assert(sc * sc <= uq + (2 * sc + 1) * n) by (nonlinear_arith)
            requires
                d * d * (sc * sc) <= (uq + (2 * sc + 1) * n) * (d * d),
                d >= 1,
        ;
        assert(uq < i64::MAX * i64::MAX) by (nonlinear_arith)
            requires
                uq <= n * (sc * sc),
                n < sc,
                sc == 1_000_000,
        ;
        assert(is_floor_sqrt(w, uq)) by (nonlinear_arith)
            requires
                is_norm(u, w),
                uq == sum_sq(u),
                uq < i64::MAX * i64::MAX,
        ;
    } else {
        assert((2 * sc + 1) * n >= sc * sc) by (nonlinear_arith)
            requires
                n >= sc,
                sc > 0,
        ;
    }
}

proof fn lemma_dot_commutes(a: Seq<Real>, b: Seq<Real>, k: int)
    requires
        0 <= k <= a.len(),
        k <= b.len(),
    ensures
        dot_acc(a, b, k) == dot_acc(b, a, k),
    decreases k,
{
    if k > 0 {
        lemma_dot_commutes(a, b, k - 1);
        assert(a[k - 1].raw * b[k - 1].raw == b[k - 1].raw * a[k - 1].raw) by (nonlinear_arith);
    }
}

/// Cosine similarity is symmetric: `a` against `b` gives what `b` against
/// `a` gives.
pub proof fn lemma_cosine_symmetric(a: Seq<Real>, b: Seq<Real>)
    requires
        a.len() == b.len(),
    ensures
        cosine_of(a, b) == cosine_of(b, a),
{
    lemma_dot_commutes(a, b, a.len() as int);
    let pa = reduced(sum_sq(a));
    let pb = reduced(sum_sq(b));
    assert(pa.0 * pb.0 == pb.0 * pa.0) by (nonlinear_arith);
    assert(pa.1 + pb.1 == pb.1 + pa.1);
}

proof fn lemma_reduced_halve(q: int)
    requires
        q >= 0,
    ensures
        halve(q, 2 * reduced(q).1) == reduced(q).0,
        reduced(q).0 >= 0,
        q >= 1 ==> reduced(q).0 >= 1,
        reduced(q).0 < 0x4000_0000_0000_0000,
    decreases q,
{
    if q >= 0x4000_0000_0000_0000 {
        lemma_reduced_halve(q / 4);
        let h = reduced(q / 4).1;
        assert(tdiv(q, 2) == q / 2);
        assert(tdiv(q / 2, 2) == (q / 2) / 2);
        assert((q / 2) / 2 == q / 4);
        assert(halve(q, 2 * (h + 1)) == halve(q / 2, (2 * h + 1) as nat));
        assert(halve(q / 2, (2 * h + 1) as nat) == halve(q / 4, 2 * h));
    }
}

/// The cosine similarity of a non-zero vector with itself is exactly one.
pub proof fn lemma_cosine_self_is_one(a: Seq<Real>)
    requires
        !all_zero(a),
    ensures
        cosine_of(a, a) == SCALE,
{
    let q = sum_sq(a);
    lemma_sum_sq(a, a.len() as int);
    if q == 0 {
        assert(all_zero(a));
    }
    lemma_reduced_halve(q);
    let p = reduced(q);
    let r = p.0;
    assert(p.1 + p.1 == 2 * p.1);
    assert(is_floor_sqrt(r, r * r)) by (nonlinear_arith)
        requires
            r >= 0,
    ;
    let c = floor_root(r * r);
    lemma_floor_sqrt_unique(r * r, r, c);
    assert(r * SCALE <= WIDE_MAX) by (nonlinear_arith)
        requires
            0 <= r < 0x4000_0000_0000_0000,
    ;
    assert((r * SCALE) / r == SCALE as int) by (nonlinear_arith)
        requires
            r >= 1,
    ;
    assert(tdiv(r * SCALE, r) == SCALE);
}

} // verus!
