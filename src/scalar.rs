use vstd::prelude::*;

verus! {

/// Raw units per whole number: a `Real` stores its value times `SCALE`.
pub const SCALE: i64 = 1_000_000;

/// The largest magnitude of a wide accumulator.
pub const WIDE_MAX: i128 = 170141183460469231731687303715884105727;

/// Clamps an integer into the range of `i64`: results that leave the range
/// stick at its ends, as floating-point results go to infinity.
pub open spec fn sat(x: int) -> int {
    if x > i64::MAX {
        i64::MAX as int
    } else if x < i64::MIN {
        i64::MIN as int
    } else {
        x
    }
}

/// Clamps an integer into the symmetric range of a wide accumulator.
pub open spec fn sat_wide(x: int) -> int {
    if x > WIDE_MAX {
        WIDE_MAX as int
    } else if x < -WIDE_MAX {
        -WIDE_MAX
    } else {
        x
    }
}

/// The magnitude of `x`.
pub open spec fn abs(x: int) -> int {
    if x < 0 {
        -x
    } else {
        x
    }
}

/// Integer division rounding toward zero.
pub open spec fn tdiv(p: int, d: int) -> int {
    let q = abs(p) / abs(d);
    if (p < 0) != (d < 0) {
        -q
    } else {
        q
    }
}

/// Raw value of the product of two reals with raw values `x` and `y`.
pub open spec fn times_raw(x: int, y: int) -> int {
    sat(tdiv(x * y, SCALE as int))
}

/// `r` is the square root of `n`, rounded down.
pub open spec fn is_floor_sqrt(r: int, n: int) -> bool {
    0 <= r && r * r <= n && n < (r + 1) * (r + 1)
}

/// Raw value of the square root of a real with raw value `x`, rounded down;
/// zero for a value that is not positive.
pub open spec fn root_raw(x: int) -> int {
    if x <= 0 {
        0
    } else {
        choose|r: int| #[trigger] is_floor_sqrt(r, x * SCALE)
    }
}

/// A floor square root is unique.
pub(crate) proof fn lemma_floor_sqrt_unique(q: int, x: int, y: int)
    requires
        is_floor_sqrt(x, q),
        is_floor_sqrt(y, q),
    ensures
        x == y,
{
    if x < y {
        assert((x + 1) * (x + 1) <= y * y) by (nonlinear_arith)
            requires
                0 <= x,
                x + 1 <= y,
        ;
    }
    if y < x {
        assert((y + 1) * (y + 1) <= x * x) by (nonlinear_arith)
            requires
                0 <= y,
                y + 1 <= x,
        ;
    }
}

/// The exact sum of the first `k` raw products of `a` and `b`, at scale
/// `SCALE * SCALE`, clamped after each step to the wide range.
pub open spec fn dot_acc(a: Seq<Real>, b: Seq<Real>, k: int) -> int
    decreases k,
{
    if k <= 0 {
        0
    } else {
        sat_wide(dot_acc(a, b, k - 1) + a[k - 1].raw * b[k - 1].raw)
    }
}

/// Raw value of the dot product of `a` and `b`: the exact sum of products,
/// rounded once toward zero to the scale of a `Real`.
pub open spec fn dot_raw(a: Seq<Real>, b: Seq<Real>) -> int {
    sat(tdiv(dot_acc(a, b, a.len() as int), SCALE as int))
}

/// A fixed-point real number with six decimal places: the value is
/// `raw / SCALE`. Arithmetic rounds toward zero and saturates at the ends of
/// the `i64` range.
#[derive(Clone, Copy, Debug, PartialEq, Eq, Structural)]
pub struct Real {
    pub raw: i64,
}

/// Clamps a wide value into `i64`.
pub(crate) fn narrow(x: i128) -> (r: i64)
    ensures
        r == sat(x as int),
{
    if x > i64::MAX as i128 {
        i64::MAX
    } else if x < i64::MIN as i128 {
        i64::MIN
    } else {
        x as i64
    }
}

/// Division rounding toward zero on wide integers.
pub(crate) fn div_toward_zero(p: i128, d: i128) -> (q: i128)
    requires
        d != 0,
        p >= -WIDE_MAX,
        d >= -WIDE_MAX,
    ensures
        q == tdiv(p as int, d as int),
{
    let pa: i128 = if p < 0 {
        -p
    } else {
        p
    };
    let da: i128 = if d < 0 {
        -d
    } else {
        d
    };
    let q: i128 = pa / da;
    assert(q <= pa) by (nonlinear_arith)
        requires
            q == pa / da,
            pa >= 0,
            da >= 1,
    ;
    if (p < 0) != (d < 0) {
        -q
    } else {
        q
    }
}

/// Adds a wide value and clamps the sum to the wide range.
fn add_wide(acc: i128, x: i128) -> (r: i128)
    requires
        -WIDE_MAX <= acc <= WIDE_MAX,
        -WIDE_MAX <= x <= WIDE_MAX,
    ensures
        r == sat_wide(acc + x),
{
    if x >= 0 {
        if acc > WIDE_MAX - x {
            WIDE_MAX
        } else {
            acc + x
        }
    } else {
        if acc < -WIDE_MAX - x {
            -WIDE_MAX
        } else {
            acc + x
        }
    }
}

/// Square root rounded down, by bisection.
pub fn floor_sqrt(n: u128) -> (r: u64)
    ensures
        is_floor_sqrt(r as int, n as int),
{
    let mut lo: u128 = 0;
    let mut hi: u128 = 0x1_0000_0000_0000_0000;
    assert(n < hi * hi) by (nonlinear_arith)
        requires
            hi == 0x1_0000_0000_0000_0000u128,
            n <= u128::MAX,
    ;
    while hi - lo > 1
        invariant
            lo < hi,
            hi <= 0x1_0000_0000_0000_0000u128,
            lo * lo <= n,
            n < hi * hi,
        decreases hi - lo,
    {
        let mid: u128 = lo + (hi - lo) / 2;
        assert(mid * mid < 0x1_0000_0000_0000_0000_0000_0000_0000_0000) by (nonlinear_arith)
            requires
                mid < 0x1_0000_0000_0000_0000u128,
        ;
        if mid * mid <= n {
            lo = mid;
        } else {
            hi = mid;
        }
    }
    assert(hi == lo + 1);
    lo as u64
}

/// The exact sum of the products of two equal-length sequences, at scale
/// `SCALE * SCALE`.
pub fn dot_wide(a: &[Real], b: &[Real]) -> (r: i128)
    requires
        a@.len() == b@.len(),
    ensures
        r == dot_acc(a@, b@, a@.len() as int),
        -WIDE_MAX <= r <= WIDE_MAX,
{
    let mut acc: i128 = 0;
    let mut i: usize = 0;
    while i < a.len()
        invariant
            a@.len() == b@.len(),
            0 <= i <= a@.len(),
            acc == dot_acc(a@, b@, i as int),
            -WIDE_MAX <= acc <= WIDE_MAX,
        decreases a@.len() - i,
    {
        let x: i64 = a[i].raw;
        let y: i64 = b[i].raw;
        assert(-WIDE_MAX <= x * y <= WIDE_MAX) by (nonlinear_arith)
            requires
                i64::MIN <= x <= i64::MAX,
                i64::MIN <= y <= i64::MAX,
        ;
        acc = add_wide(acc, x as i128 * y as i128);
        i = i + 1;
    }
    acc
}

/// The dot product of two equal-length sequences: products summed exactly,
/// then rounded once.
pub fn dot_slices(a: &[Real], b: &[Real]) -> (r: Real)
    requires
        a@.len() == b@.len(),
    ensures
        r.raw == dot_raw(a@, b@),
{
    Real { raw: narrow(div_toward_zero(dot_wide(a, b), SCALE as i128)) }
}

impl Real {
    /// The number zero.
    pub fn zero() -> (r: Real)
        ensures
            r.raw == 0,
    {
        Real { raw: 0 }
    }

    /// The number one.
    pub fn one() -> (r: Real)
        ensures
            r.raw == SCALE,
    {
        Real { raw: SCALE }
    }

    /// The real `raw / SCALE`.
    pub fn from_raw(raw: i64) -> (r: Real)
        ensures
            r.raw == raw,
    {
        Real { raw }
    }

    /// The whole number `n`.
    pub fn from_int(n: i64) -> (r: Real)
        ensures
            r.raw == sat(n * SCALE),
    {
        Real { raw: narrow(n as i128 * SCALE as i128) }
    }

    /// The fraction `num / den`, rounded toward zero.
    pub fn from_ratio(num: i64, den: i64) -> (r: Real)
        requires
            den != 0,
        ensures
            r.raw == sat(tdiv(num * SCALE, den as int)),
    {
        assert(-WIDE_MAX <= num * SCALE <= WIDE_MAX) by (nonlinear_arith)
            requires
                i64::MIN <= num <= i64::MAX,
        ;
        Real { raw: narrow(div_toward_zero(num as i128 * SCALE as i128, den as i128)) }
    }

    /// Whether the value is zero.
    pub fn is_zero(self) -> (r: bool)
        ensures
            r == (self.raw == 0),
    {
        self.raw == 0
    }

    /// The sum.
    pub fn plus(self, o: Real) -> (r: Real)
        ensures
            r.raw == sat(self.raw + o.raw),
    {
        Real { raw: narrow(self.raw as i128 + o.raw as i128) }
    }

    /// The difference.
    pub fn minus(self, o: Real) -> (r: Real)
        ensures
            r.raw == sat(self.raw - o.raw),
    {
        Real { raw: narrow(self.raw as i128 - o.raw as i128) }
    }

    /// The product, rounded toward zero.
    pub fn times(self, o: Real) -> (r: Real)
        ensures
            r.raw == times_raw(self.raw as int, o.raw as int),
    {
        let x: i64 = self.raw;
        let y: i64 = o.raw;
        assert(-WIDE_MAX <= x * y <= WIDE_MAX) by (nonlinear_arith)
            requires
                i64::MIN <= x <= i64::MAX,
                i64::MIN <= y <= i64::MAX,
        ;
        Real { raw: narrow(div_toward_zero(x as i128 * y as i128, SCALE as i128)) }
    }

    /// The quotient, rounded toward zero.
    pub fn over(self, o: Real) -> (r: Real)
        requires
            o.raw != 0,
        ensures
            r.raw == sat(tdiv(self.raw * SCALE, o.raw as int)),
    {
        let x: i64 = self.raw;
        assert(-WIDE_MAX <= x * SCALE <= WIDE_MAX) by (nonlinear_arith)
            requires
                i64::MIN <= x <= i64::MAX,
        ;
        Real { raw: narrow(div_toward_zero(x as i128 * SCALE as i128, o.raw as i128)) }
    }

    /// The absolute value.
    pub fn magnitude(self) -> (r: Real)
        ensures
            r.raw == sat(abs(self.raw as int)),
    {
        Real { raw: narrow(if self.raw < 0 { -(self.raw as i128) } else { self.raw as i128 }) }
    }

    /// The square root, rounded down; a negative value has root zero.
    pub fn sqrt(self) -> (r: Real)
        ensures
            r.raw == root_raw(self.raw as int),
            self.raw > 0 ==> is_floor_sqrt(r.raw as int, self.raw * SCALE),
    {
        if self.raw <= 0 {
            return Real { raw: 0 };
        }
        let n: u128 = self.raw as u128 * SCALE as u128;
        let s: u64 = floor_sqrt(n);
        assert(s < 0x8000_0000_0000_0000) by (nonlinear_arith)
            requires
                s * s <= n,
                n < 0x8000_0000_0000_0000_0000_0000_0000,
        ;
        proof {
            let c = choose|c: int| #[trigger] is_floor_sqrt(c, self.raw * SCALE);
            assert(is_floor_sqrt(s as int, self.raw * SCALE));
            lemma_floor_sqrt_unique(self.raw * SCALE, s as int, c);
        }
        Real { raw: s as i64 }
    }
}


/// The square root of `n`, rounded down.
pub open spec fn floor_root(n: int) -> int {
    choose|r: int| #[trigger] is_floor_sqrt(r, n)
}

/// `q` divided by four, rounding down, until it is below `2^62`, and the
/// number of divisions made.
pub open spec fn reduced(q: int) -> (int, nat)
    decreases q,
{
    if q < 0x4000_0000_0000_0000 {
        (q, 0)
    } else {
        let p = reduced(q / 4);
        (p.0, p.1 + 1)
    }
}

/// `d` halved `k` times, each time rounding toward zero.
pub open spec fn halve(d: int, k: nat) -> int
    decreases k,
{
    if k == 0 {
        d
    } else {
        halve(tdiv(d, 2), (k - 1) as nat)
    }
}

/// Reduces a non-negative wide value as `reduced` describes.
pub(crate) fn reduce(q: u128) -> (r: (u128, u128))
    requires
        q <= WIDE_MAX,
    ensures
        r.0 as int == reduced(q as int).0,
        r.1 as int == reduced(q as int).1,
        r.0 < 0x4000_0000_0000_0000,
        q >= 1 ==> r.0 >= 1,
        r.1 <= q,
{
    let mut x: u128 = q;
    let mut h: u128 = 0;
    while x >= 0x4000_0000_0000_0000
        invariant
            reduced(q as int).0 == reduced(x as int).0,
            reduced(q as int).1 == reduced(x as int).1 + h,
            h + x <= q,
            q >= 1 ==> x >= 1,
        decreases x,
    {
        x = x / 4;
        h = h + 1;
    }
    (x, h)
}

/// Halves a wide value `k` times as `halve` describes.
pub(crate) fn halve_wide(d: i128, k: u128) -> (r: i128)
    requires
        -WIDE_MAX <= d <= WIDE_MAX,
    ensures
        r == halve(d as int, k as nat),
        -WIDE_MAX <= r <= WIDE_MAX,
{
    let mut x: i128 = d;
    let mut i: u128 = 0;
    while i < k
        invariant
            i <= k,
            -WIDE_MAX <= x <= WIDE_MAX,
            halve(d as int, k as nat) == halve(x as int, (k - i) as nat),
        decreases k - i,
    {
        let y: i128 = div_toward_zero(x, 2);
        assert(-WIDE_MAX <= y <= WIDE_MAX) by {
            assert(abs(x as int) / 2 <= abs(x as int));
        }
        x = y;
        i = i + 1;
    }
    x
}

/// Multiplies a wide value by `SCALE`, clamped to the wide range.
pub(crate) fn scale_wide(d: i128) -> (r: i128)
    requires
        -WIDE_MAX <= d <= WIDE_MAX,
    ensures
        r == sat_wide(d * SCALE),
{
    let lim: i128 = WIDE_MAX / SCALE as i128;
    if d > lim {
        WIDE_MAX
    } else if d < -lim {
        -WIDE_MAX
    } else {
        d * SCALE as i128
    }
}

/// The decimal digit `d`.
pub open spec fn digit_char(d: int) -> char {
    if d == 0 {
        '0'
    } else if d == 1 {
        '1'
    } else if d == 2 {
        '2'
    } else if d == 3 {
        '3'
    } else if d == 4 {
        '4'
    } else if d == 5 {
        '5'
    } else if d == 6 {
        '6'
    } else if d == 7 {
        '7'
    } else if d == 8 {
        '8'
    } else {
        '9'
    }
}

/// The decimal digits of `n`, without leading zeros.
pub open spec fn decimal(n: nat) -> Seq<char>
    decreases n,
{
    if n < 10 {
        seq![digit_char(n as int)]
    } else {
        decimal(n / 10).push(digit_char((n % 10) as int))
    }
}

/// The last `k` decimal digits of `n`, padded with zeros on the left.
pub open spec fn padded(n: nat, k: nat) -> Seq<char>
    decreases k,
{
    if k == 0 {
        Seq::empty()
    } else {
        padded(n / 10, (k - 1) as nat).push(digit_char((n % 10) as int))
    }
}

/// The `k` fractional digits of `f`, with trailing zeros dropped.
pub open spec fn fraction_digits(f: nat, k: nat) -> Seq<char>
    decreases k,
{
    if k > 0 && f % 10 == 0 {
        fraction_digits(f / 10, (k - 1) as nat)
    } else {
        padded(f, k)
    }
}

/// A real written in decimal: an optional minus sign, the whole part, and
/// the fractional part without trailing zeros (left out when it is zero).
pub open spec fn real_text(raw: int) -> Seq<char> {
    let m = abs(raw);
    let whole = m / (SCALE as int);
    let frac = m % (SCALE as int);
    (if raw < 0 { seq!['-'] } else { Seq::empty() }) + decimal(whole as nat) + (if frac == 0 {
        Seq::empty()
    } else {
        seq!['.'] + fraction_digits(frac as nat, 6)
    })
}

fn digit_str(d: u64) -> (r: &'static str)
    requires
        d < 10,
    ensures
        r@ == seq![digit_char(d as int)],
{
    if d == 0 {
        proof { reveal_strlit("0"); }
        "0"
    } else if d == 1 {
        proof { reveal_strlit("1"); }
        "1"
    } else if d == 2 {
        proof { reveal_strlit("2"); }
        "2"
    } else if d == 3 {
        proof { reveal_strlit("3"); }
        "3"
    } else if d == 4 {
        proof { reveal_strlit("4"); }
        "4"
    } else if d == 5 {
        proof { reveal_strlit("5"); }
        "5"
    } else if d == 6 {
        proof { reveal_strlit("6"); }
        "6"
    } else if d == 7 {
        proof { reveal_strlit("7"); }
        "7"
    } else if d == 8 {
        proof { reveal_strlit("8"); }
        "8"
    } else {
        proof { reveal_strlit("9"); }
        "9"
    }
}

pub(crate) fn push_decimal(s: &mut String, n: u64)
    ensures
        final(s)@ == old(s)@ + decimal(n as nat),
    decreases n,
{
    if n >= 10 {
        push_decimal(s, n / 10);
    }
    s.append(digit_str(n % 10));
    assert(final(s)@ =~= old(s)@ + decimal(n as nat));
}

fn push_padded(s: &mut String, n: u64, k: u64)
    ensures
        final(s)@ == old(s)@ + padded(n as nat, k as nat),
    decreases k,
{
    if k == 0 {
        assert(final(s)@ =~= old(s)@ + padded(n as nat, k as nat));
        return;
    }
    push_padded(s, n / 10, k - 1);
    s.append(digit_str(n % 10));
    assert(final(s)@ =~= old(s)@ + padded(n as nat, k as nat));
}

impl Real {
    /// The value in decimal, as `real_text` describes.
    pub fn to_text(self) -> (r: String)
        ensures
            r@ == real_text(self.raw as int),
    {
        let mut s = String::new();
        if self.raw < 0 {
            proof { reveal_strlit("-"); }
            s.append("-");
        }
        let m: u64 = if self.raw < 0 {
            (-(self.raw as i128)) as u64
        } else {
            self.raw as u64
        };
        let scale: u64 = SCALE as u64;
        push_decimal(&mut s, m / scale);
        let mut f: u64 = m % scale;
        if f != 0 {
            proof { reveal_strlit("."); }
            s.append(".");
            let ghost f0 = f;
            let mut k: u64 = 6;
            while k > 0 && f % 10 == 0
                invariant
                    k <= 6,
                    fraction_digits(f as nat, k as nat) == fraction_digits(f0 as nat, 6),
                decreases k,
            {
                f = f / 10;
                k = k - 1;
            }
            push_padded(&mut s, f, k);
        }
        assert(s@ =~= real_text(self.raw as int));
        s
    }
}


/// A real rounded half away from zero to four decimals, in units of 1/10000.
pub open spec fn ten_thousandths(raw: int) -> int {
    (abs(raw) + 50) / 100
}

/// A real written with exactly four decimals: an optional minus sign, the
/// whole part, a point, and four digits.
pub open spec fn fixed_body(raw: int) -> Seq<char> {
    let q = ten_thousandths(raw);
    (if raw < 0 { seq!['-'] } else { Seq::empty() }) + decimal((q / 10000) as nat) + seq!['.'] + padded(
        (q % 10000) as nat,
        4,
    )
}

/// `fixed_body` right-aligned in a field eight characters wide.
pub open spec fn fixed_text(raw: int) -> Seq<char> {
    let b = fixed_body(raw);
    if b.len() < 8 {
        Seq::new((8 - b.len()) as nat, |i: int| ' ') + b
    } else {
        b
    }
}

impl Real {
    /// The value with four decimals, right-aligned in eight characters.
    pub fn to_fixed_text(self) -> (r: String)
        ensures
            r@ == fixed_text(self.raw as int),
    {
        let mut body = String::new();
        if self.raw < 0 {
            proof { reveal_strlit("-"); }
            body.append("-");
        }
        let m: u64 = if self.raw < 0 {
            (-(self.raw as i128)) as u64
        } else {
            self.raw as u64
        };
        let q: u64 = (m as u128 + 50) as u64 / 100;
        assert(q == ten_thousandths(self.raw as int));
        push_decimal(&mut body, q / 10000);
        proof { reveal_strlit("."); }
        body.append(".");
        push_padded(&mut body, q % 10000, 4);
        assert(body@ =~= fixed_body(self.raw as int));
        let len: usize = body.as_str().unicode_len();
        let mut out = String::new();
        let mut k: usize = len;
        while k < 8
            invariant
                len <= k <= 8 || (len > 8 && k == len),
                len == body@.len(),
                out@ =~= Seq::new((k - len) as nat, |i: int| ' '),
            decreases 8 - k,
        {
            proof { reveal_strlit(" "); }
            out.append(" ");
            k = k + 1;
        }
        out.append(body.as_str());
        assert(out@ =~= fixed_text(self.raw as int));
        out
    }
}

} // verus!
