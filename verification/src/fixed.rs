//! Q32.32 fixed-point numbers: integer arithmetic gives the same bits on every platform.
use core::ops::{Add, Div, Mul, Sub};
use vstd::arithmetic::div_mod::{
    lemma_div_by_multiple, lemma_div_denominator, lemma_div_is_ordered, lemma_fundamental_div_mod,
};
use vstd::arithmetic::mul::{
    lemma_mul_inequality, lemma_mul_is_associative, lemma_mul_is_commutative,
    lemma_mul_upper_bound,
};
use vstd::prelude::*;

verus! {

/// Raw value of the number one: `2^32`.
pub open spec fn fx_one() -> int {
    0x1_0000_0000
}

pub open spec fn fits_i64(v: int) -> bool {
    i64::MIN <= v <= i64::MAX
}

/// Quotient rounded toward zero, as Rust's `/` computes it on signed integers.
pub open spec fn trunc_div(a: int, b: int) -> int {
    let q = abs(a) / abs(b);
    if (a >= 0) == (b >= 0) {
        q
    } else {
        -q
    }
}

pub open spec fn abs(a: int) -> int {
    if a >= 0 {
        a
    } else {
        -a
    }
}

/// Raw value of the product of two raw values: the exact product rounded down to a
/// multiple of `2^-32`, then wrapped to 64 bits.
pub open spec fn fx_mul(a: int, b: int) -> int {
    ((a * b) / fx_one()) as i64 as int
}

/// Raw value of the quotient of two raw values: rounded toward zero, then wrapped to 64 bits.
pub open spec fn fx_div(a: int, b: int) -> int {
    trunc_div(a * fx_one(), b) as i64 as int
}

/// `r` is the square root of `n`, rounded down.
pub open spec fn is_floor_sqrt(r: int, n: int) -> bool {
    0 <= r && r * r <= n < (r + 1) * (r + 1)
}

/// The square root of `n`, rounded down (meaningful for `n >= 0`).
pub closed spec fn floor_sqrt(n: int) -> int {
    choose|r: int| is_floor_sqrt(r, n)
}

/// A non-negative integer whose square is at least `n`, for `n >= 0`.
pub open spec fn floor_sqrt_witness(n: int) -> int
    decreases n,
{
    if n <= 0 {
        0
    } else {
        let r = floor_sqrt_witness(n - 1);
        if (r + 1) * (r + 1) <= n {
            r + 1
        } else {
            r
        }
    }
}

/// Every `n >= 0` has a rounded-down square root.
pub proof fn lemma_floor_sqrt_exists(n: int)
    requires
        n >= 0,
    ensures
        is_floor_sqrt(floor_sqrt_witness(n), n),
    decreases n,
{
    if n > 0 {
        lemma_floor_sqrt_exists(n - 1);
        let r = floor_sqrt_witness(n - 1);
        if (r + 1) * (r + 1) <= n {
            assert(n < (r + 2) * (r + 2)) by (nonlinear_arith)
                requires
                    n - 1 < (r + 1) * (r + 1),
                    r >= 0,
            ;
        }
    }
}

/// There is one rounded-down square root.
pub proof fn lemma_floor_sqrt_unique(r: int, n: int)
    requires
        is_floor_sqrt(r, n),
    ensures
        floor_sqrt(n) == r,
{
    let s = floor_sqrt(n);
    assert(is_floor_sqrt(s, n));
    if s < r {
        lemma_mul_upper_bound(s + 1, r, s + 1, r);
    } else if r < s {
        lemma_mul_upper_bound(r + 1, s, r + 1, s);
    }
}

/// A rounded-down square root is no larger than any bound whose square bounds `n`.
pub proof fn lemma_floor_sqrt_bound(r: int, n: int, b: int)
    requires
        is_floor_sqrt(r, n),
        0 <= b,
        n <= b * b,
    ensures
        r <= b,
{
    if r > b {
        lemma_mul_upper_bound(b + 1, r, b + 1, r);
        assert(b * b < (b + 1) * (b + 1)) by (nonlinear_arith)
            requires
                0 <= b,
        ;
    }
}

pub proof fn lemma_shr_is_floor_i128(p: i128)
    ensures
        p >> 32u32 == p / 0x1_0000_0000,
{
    assert(p >> 32u32 == p / 0x1_0000_0000) by (bit_vector);
}

pub proof fn lemma_shr_is_floor_i64(p: i64)
    ensures
        p >> 32u32 == p / 0x1_0000_0000,
{
    assert(p >> 32u32 == p / 0x1_0000_0000) by (bit_vector);
}

/// The product of two 64-bit values fits in 127 bits.
pub proof fn lemma_i64_product_bound(a: int, b: int)
    requires
        fits_i64(a),
        fits_i64(b),
    ensures
        -0x4000_0000_0000_0000_0000_0000_0000_0000 <= a * b <= 0x4000_0000_0000_0000_0000_0000_0000_0000,
{
    let m = 0x8000_0000_0000_0000int;
    let x = if a >= 0 { a } else { -a };
    let y = if b >= 0 { b } else { -b };
    lemma_mul_upper_bound(x, m, y, m);
    assert(x * y == a * b || x * y == -(a * b)) by (nonlinear_arith)
        requires
            x == a || x == -a,
            y == b || y == -b,
    ;
    assert(m * m == 0x4000_0000_0000_0000_0000_0000_0000_0000);
}

/// Bounds of a rounded-down quotient by a positive divisor.
pub proof fn lemma_floor_div_bounds(v: int, lo: int, hi: int, d: int)
    requires
        d > 0,
        lo * d <= v < (hi + 1) * d,
    ensures
        lo <= v / d <= hi,
{
    lemma_fundamental_div_mod(v, d);
    let q = v / d;
    let r = v % d;
    assert(lo <= q <= hi) by (nonlinear_arith)
        requires
            v == d * q + r,
            0 <= r < d,
            lo * d <= v < (hi + 1) * d,
            d > 0,
    ;
}

/// `(k * d) / d == k` for any integer `k`.
pub proof fn lemma_div_multiples(k: int, d: int)
    requires
        d > 0,
    ensures
        (k * d) / d == k,
{
    lemma_fundamental_div_mod(k * d, d);
    let q = (k * d) / d;
    let r = (k * d) % d;
    assert(q == k) by (nonlinear_arith)
        requires
            k * d == d * q + r,
            0 <= r < d,
    ;
}

/// A quotient by a positive divisor is no larger than the dividend.
pub proof fn lemma_div_le_self(v: int, d: int)
    requires
        v >= 0,
        d >= 1,
    ensures
        0 <= v / d <= v,
{
    assert(v < (v + 1) * d) by (nonlinear_arith)
        requires
            v >= 0,
            d >= 1,
    ;
    lemma_floor_div_bounds(v, 0, v, d);
}

/// Quotient of two 128-bit values rounded toward zero, computed on magnitudes.
fn trunc_div_i128(p: i128, d: i128) -> (r: i128)
    requires
        d != 0,
        -0x4000_0000_0000_0000_0000_0000_0000_0000 <= p <= 0x4000_0000_0000_0000_0000_0000_0000_0000,
        -0x4000_0000_0000_0000_0000_0000_0000_0000 <= d <= 0x4000_0000_0000_0000_0000_0000_0000_0000,
    ensures
        r == trunc_div(p as int, d as int),
{
    let pa: i128 = if p < 0 { -p } else { p };
    let da: i128 = if d < 0 { -d } else { d };
    let q = pa / da;
    proof {
        lemma_div_le_self(pa as int, da as int);
    }
    if (p >= 0) == (d >= 0) {
        q
    } else {
        -q
    }
}

/// Q32.32 fixed-point number: integer arithmetic gives the same bits on every platform.
#[derive(Clone, Copy, Debug, PartialEq, Eq, Structural, PartialOrd, Ord, Hash)]
pub struct Fx(i64);

impl View for Fx {
    type V = int;

    /// The raw 64-bit value; the number is `raw / 2^32`.
    closed spec fn view(&self) -> int {
        self.0 as int
    }
}

impl Fx {
    /// The number whose raw value is `v` wrapped to 64 bits.
    pub closed spec fn of(v: int) -> Fx {
        Fx(v as i64)
    }

    /// Sum, for raw values that fit.
    pub open spec fn plus(self, rhs: Fx) -> Fx {
        Fx::of(self@ + rhs@)
    }

    /// Difference, for raw values that fit.
    pub open spec fn minus(self, rhs: Fx) -> Fx {
        Fx::of(self@ - rhs@)
    }

    /// Product, rounded down to a multiple of `2^-32`.
    pub open spec fn times(self, rhs: Fx) -> Fx {
        Fx::of(fx_mul(self@, rhs@))
    }

    /// Quotient, rounded toward zero.
    pub open spec fn over(self, rhs: Fx) -> Fx {
        Fx::of(fx_div(self@, rhs@))
    }

    pub broadcast proof fn lemma_view_bounds(a: Fx)
        ensures
            fits_i64(#[trigger] a@),
    {
    }

    pub broadcast proof fn lemma_of_view(v: int)
        ensures
            #[trigger] Fx::of(v)@ == v as i64 as int,
    {
    }

    pub broadcast proof fn lemma_of_own_view(a: Fx)
        ensures
            #[trigger] Fx::of(a@) == a,
    {
    }

    /// Two numbers whose raw values have the same 64 bits, read as unsigned, are the same
    /// number.
    pub proof fn lemma_bits_determine(a: Fx, b: Fx)
        ensures
            a@ as u64 == b@ as u64 ==> a == b,
    {
        let x = a.0;
        let y = b.0;
        assert(x as u64 == y as u64 ==> x == y) by (bit_vector);
    }

    pub broadcast proof fn lemma_view_injective(a: Fx, b: Fx)
        ensures
            #![trigger a@, b@]
            a@ == b@ <==> a == b,
    {
    }

    pub fn zero() -> (r: Fx)
        ensures
            r@ == 0,
    {
        Fx(0)
    }

    pub fn from_int(n: i32) -> (r: Fx)
        ensures
            r@ == n * fx_one(),
    {
        Fx(n as i64 * 0x1_0000_0000i64)
    }

    /// `num / den`, rounded toward zero, e.g. `Fx::ratio(1, 5)` is 0.2.
    pub fn ratio(num: i32, den: i32) -> (r: Fx)
        requires
            den != 0,
            !(num == i32::MIN && den == -1),
        ensures
            r@ == trunc_div(num * fx_one(), den as int),
    {
        let p = num as i128 * 0x1_0000_0000i128;
        let q = trunc_div_i128(p, den as i128);
        proof {
            if abs(den as int) >= 2 {
                lemma_floor_div_bounds(abs(p as int), 0, 0x4000_0000_0000_0000, abs(den as int));
            }
        }
        Fx(q as i64)
    }

    pub fn from_raw(raw: i64) -> (r: Fx)
        ensures
            r@ == raw,
    {
        Fx(raw)
    }

    pub fn raw(self) -> (r: i64)
        ensures
            r == self@,
    {
        self.0
    }

    /// Largest integer `<= self`.
    pub fn floor(self) -> (r: i32)
        ensures
            r == self@ / fx_one(),
            r * fx_one() <= self@ < (r + 1) * fx_one(),
    {
        proof {
            lemma_shr_is_floor_i64(self.0);
            lemma_fundamental_div_mod(self@, fx_one());
            lemma_floor_div_bounds(self@, -0x8000_0000, 0x7fff_ffff, fx_one());
            assert(self@ / fx_one() * fx_one() <= self@ < (self@ / fx_one() + 1) * fx_one()) by (nonlinear_arith)
                requires
                    self@ == fx_one() * (self@ / fx_one()) + self@ % fx_one(),
                    0 <= self@ % fx_one() < fx_one(),
            ;
        }
        (self.0 >> 32u32) as i32
    }
}

pub broadcast group group_fx {
    Fx::lemma_view_bounds,
    Fx::lemma_of_view,
    Fx::lemma_of_own_view,
    Fx::lemma_view_injective,
}

impl Default for Fx {
    fn default() -> (r: Fx)
        ensures
            r@ == 0,
    {
        Fx(0)
    }
}

impl Add for Fx {
    type Output = Fx;

    fn add(self, rhs: Fx) -> Fx {
        Fx(self.0 + rhs.0)
    }
}

impl vstd::std_specs::ops::AddSpecImpl for Fx {
    open spec fn obeys_add_spec() -> bool {
        true
    }

    open spec fn add_req(self, rhs: Fx) -> bool {
        fits_i64(self@ + rhs@)
    }

    open spec fn add_spec(self, rhs: Fx) -> Fx {
        self.plus(rhs)
    }
}

impl Sub for Fx {
    type Output = Fx;

    fn sub(self, rhs: Fx) -> Fx {
        Fx(self.0 - rhs.0)
    }
}

impl vstd::std_specs::ops::SubSpecImpl for Fx {
    open spec fn obeys_sub_spec() -> bool {
        true
    }

    open spec fn sub_req(self, rhs: Fx) -> bool {
        fits_i64(self@ - rhs@)
    }

    open spec fn sub_spec(self, rhs: Fx) -> Fx {
        self.minus(rhs)
    }
}

impl Mul for Fx {
    type Output = Fx;

    fn mul(self, rhs: Fx) -> Fx {
        proof {
            lemma_i64_product_bound(self@, rhs@);
        }
        let p = self.0 as i128 * rhs.0 as i128;
        proof {
            lemma_shr_is_floor_i128(p);
        }
        Fx((p >> 32u32) as i64)
    }
}

impl vstd::std_specs::ops::MulSpecImpl for Fx {
    open spec fn obeys_mul_spec() -> bool {
        true
    }

    open spec fn mul_req(self, rhs: Fx) -> bool {
        true
    }

    open spec fn mul_spec(self, rhs: Fx) -> Fx {
        self.times(rhs)
    }
}

impl Div for Fx {
    type Output = Fx;

    fn div(self, rhs: Fx) -> Fx {
        let p = self.0 as i128 * 0x1_0000_0000i128;
        Fx(trunc_div_i128(p, rhs.0 as i128) as i64)
    }
}

impl vstd::std_specs::ops::DivSpecImpl for Fx {
    open spec fn obeys_div_spec() -> bool {
        true
    }

    open spec fn div_req(self, rhs: Fx) -> bool {
        rhs@ != 0
    }

    open spec fn div_spec(self, rhs: Fx) -> Fx {
        self.over(rhs)
    }
}

/// Multiplying by a whole number is exact: `a * Fx::from_int(n)` is `n` times `a`
/// whenever that fits.
pub proof fn lemma_mul_by_whole_number(a: int, n: int)
    requires
        fits_i64(a * n),
    ensures
        fx_mul(a, n * fx_one()) == a * n,
        fx_mul(n * fx_one(), a) == a * n,
{
    assert(a * (n * fx_one()) == (a * n) * fx_one()) by (nonlinear_arith);
    assert((n * fx_one()) * a == (a * n) * fx_one()) by (nonlinear_arith);
    lemma_div_multiples(a * n, fx_one());
}

/// Dividing two whole numbers gives their ratio: `Fx::from_int(a) / Fx::from_int(b)`
/// equals `Fx::ratio(a, b)`.
pub proof fn lemma_div_of_whole_numbers(a: i32, b: i32)
    requires
        b != 0,
        !(a == i32::MIN && b == -1),
    ensures
        fx_div(a * fx_one(), b * fx_one()) == trunc_div(a * fx_one(), b as int),
        fits_i64(trunc_div(a * fx_one(), b as int)),
{
    let x = abs(a * fx_one());
    let y = abs(b as int);
    assert(abs((a * fx_one()) * fx_one()) == x * fx_one()) by (nonlinear_arith)
        requires
            x == abs(a * fx_one()),
    ;
    assert(abs(b * fx_one()) == fx_one() * y) by (nonlinear_arith)
        requires
            y == abs(b as int),
    ;
    lemma_div_denominator(x * fx_one(), fx_one(), y);
    lemma_div_multiples(x, fx_one());
    lemma_div_le_self(x, y);
    if y >= 2 {
        lemma_floor_div_bounds(x, 0, 0x4000_0000_0000_0000, y);
    }
}

/// The floor of a whole number is that number.
pub proof fn lemma_floor_of_whole_number(n: i32)
    ensures
        (n * fx_one()) / fx_one() == n,
{
    lemma_div_multiples(n as int, fx_one());
}

/// `Fx::from_int(a)`, `Fx::from_int(b)`, `Fx::from_int(c)` with `a² + b² = c²`: the
/// vector `(a, b)` has length exactly `c`.
pub proof fn lemma_length_exact_on_integers(a: i32, b: i32, c: i32)
    requires
        a * a + b * b == c * c,
        c >= 0,
    ensures
        (FxVec2 { x: Fx::of(a * fx_one()), z: Fx::of(b * fx_one()) }).length_spec() == Fx::of(
            c * fx_one(),
        ),
{
    let v = FxVec2 { x: Fx::of(a * fx_one()), z: Fx::of(b * fx_one()) };
    let r = c * fx_one();
    assert(v.x@ == a * fx_one());
    assert(v.z@ == b * fx_one());
    assert(v.norm_sq() == r * r) by (nonlinear_arith)
        requires
            v.norm_sq() == (a * fx_one()) * (a * fx_one()) + (b * fx_one()) * (b * fx_one()),
            a * a + b * b == c * c,
            r == c * fx_one(),
    ;
    assert(r * r < (r + 1) * (r + 1)) by (nonlinear_arith)
        requires
            r >= 0,
    ;
    lemma_floor_sqrt_unique(r, v.norm_sq());
}

/// A position or offset on the ground plane. `x`/`z` are the horizontal axes of the
/// 3D view (Y is up).
#[derive(Clone, Copy, Debug, PartialEq, Eq, Structural, Hash)]
pub struct FxVec2 {
    pub x: Fx,
    pub z: Fx,
}

/// `u128::isqrt` from std; its documentation says that it returns the square root of
/// the number, rounded down.
#[verifier::external_body]
fn isqrt_u128(n: u128) -> (r: u128)
    ensures
        is_floor_sqrt(r as int, n as int),
{
    n.isqrt()
}

impl FxVec2 {
    pub open spec fn plus(self, rhs: FxVec2) -> FxVec2 {
        FxVec2 { x: self.x.plus(rhs.x), z: self.z.plus(rhs.z) }
    }

    pub open spec fn minus(self, rhs: FxVec2) -> FxVec2 {
        FxVec2 { x: self.x.minus(rhs.x), z: self.z.minus(rhs.z) }
    }

    pub open spec fn scaled(self, k: Fx) -> FxVec2 {
        FxVec2 { x: self.x.times(k), z: self.z.times(k) }
    }

    /// Square of the Euclidean length, in raw units squared.
    pub open spec fn norm_sq(self) -> int {
        self.x@ * self.x@ + self.z@ * self.z@
    }

    /// Euclidean length, rounded down (and wrapped to 64 bits for lengths beyond the
    /// range of `Fx`).
    pub open spec fn length_spec(self) -> Fx {
        Fx::of(floor_sqrt(self.norm_sq()))
    }

    pub fn new(x: Fx, z: Fx) -> (r: FxVec2)
        ensures
            r == (FxVec2 { x, z }),
    {
        FxVec2 { x, z }
    }

    pub fn length(self) -> (r: Fx)
        ensures
            r == self.length_spec(),
    {
        let xv = self.x.0;
        let zv = self.z.0;
        let x: u128 = if xv < 0 { (-(xv as i128)) as u128 } else { xv as u128 };
        let z: u128 = if zv < 0 { (-(zv as i128)) as u128 } else { zv as u128 };
        proof {
            let m = 0x8000_0000_0000_0000int;
            lemma_mul_upper_bound(x as int, m, x as int, m);
            lemma_mul_upper_bound(z as int, m, z as int, m);
            assert(x * x == xv * xv) by (nonlinear_arith)
                requires
                    x == xv || x == -xv,
            ;
            assert(z * z == zv * zv) by (nonlinear_arith)
                requires
                    z == zv || z == -zv,
            ;
        }
        // x² + z² is in Q64.64, so its integer square root is directly in Q32.32.
        let s = x * x + z * z;
        let root = isqrt_u128(s);
        proof {
            lemma_floor_sqrt_unique(root as int, s as int);
        }
        Fx(root as i64)
    }
}

impl Default for FxVec2 {
    fn default() -> (r: FxVec2)
        ensures
            r.x@ == 0,
            r.z@ == 0,
    {
        FxVec2 { x: Fx(0), z: Fx(0) }
    }
}

impl Add for FxVec2 {
    type Output = FxVec2;

    fn add(self, rhs: FxVec2) -> FxVec2 {
        FxVec2::new(self.x + rhs.x, self.z + rhs.z)
    }
}

impl vstd::std_specs::ops::AddSpecImpl for FxVec2 {
    open spec fn obeys_add_spec() -> bool {
        true
    }

    open spec fn add_req(self, rhs: FxVec2) -> bool {
        fits_i64(self.x@ + rhs.x@) && fits_i64(self.z@ + rhs.z@)
    }

    open spec fn add_spec(self, rhs: FxVec2) -> FxVec2 {
        self.plus(rhs)
    }
}

impl Sub for FxVec2 {
    type Output = FxVec2;

    fn sub(self, rhs: FxVec2) -> FxVec2 {
        FxVec2::new(self.x - rhs.x, self.z - rhs.z)
    }
}

impl vstd::std_specs::ops::SubSpecImpl for FxVec2 {
    open spec fn obeys_sub_spec() -> bool {
        true
    }

    open spec fn sub_req(self, rhs: FxVec2) -> bool {
        fits_i64(self.x@ - rhs.x@) && fits_i64(self.z@ - rhs.z@)
    }

    open spec fn sub_spec(self, rhs: FxVec2) -> FxVec2 {
        self.minus(rhs)
    }
}

impl Mul<Fx> for FxVec2 {
    type Output = FxVec2;

    fn mul(self, rhs: Fx) -> FxVec2 {
        FxVec2::new(self.x * rhs, self.z * rhs)
    }
}

impl vstd::std_specs::ops::MulSpecImpl<Fx> for FxVec2 {
    open spec fn obeys_mul_spec() -> bool {
        true
    }

    open spec fn mul_req(self, rhs: Fx) -> bool {
        true
    }

    open spec fn mul_spec(self, rhs: Fx) -> FxVec2 {
        self.scaled(rhs)
    }
}

} // verus!
