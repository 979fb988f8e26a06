//! Height-field of the map, generated from the match seed.
use crate::fixed::{
    abs, fits_i64, fx_div, fx_mul, fx_one, lemma_div_le_self, lemma_div_multiples,
    lemma_floor_div_bounds, lemma_mul_by_whole_number, trunc_div, Fx, FxVec2,
};
use vstd::arithmetic::div_mod::{lemma_div_denominator, lemma_fundamental_div_mod_converse};
use vstd::arithmetic::mul::lemma_mul_upper_bound;
use vstd::prelude::*;

verus! {

broadcast use crate::fixed::group_fx;

/// Bound on the magnitude of every raw height of a terrain: 4096 m.
pub open spec fn height_bound() -> int {
    0x1000 * fx_one()
}

/// Linear interpolation from `a` (at `t = 0`) to `b` (at `t = 1`), on raw values.
pub open spec fn lerp_raw(a: int, b: int, t: int) -> int {
    a + fx_mul(b - a, t)
}

/// `3t² - 2t³`, on raw values.
pub open spec fn smoothstep_raw(t: int) -> int {
    fx_mul(fx_mul(t, t), 3 * fx_one() - fx_mul(2 * fx_one(), t))
}

/// SplitMix64 finalizer of a lattice point.
pub open spec fn lattice_hash(seed: u64, x: int, z: int) -> u64 {
    let h0 = seed ^ ((((x as u64) << 32u64) | (z as u64)).wrapping_mul(0x9E37_79B9_7F4A_7C15));
    let h1 = (h0 ^ (h0 >> 30u64)).wrapping_mul(0xBF58_476D_1CE4_E5B9);
    let h2 = (h1 ^ (h1 >> 27u64)).wrapping_mul(0x94D0_49BB_1331_11EB);
    h2 ^ (h2 >> 31u64)
}

/// Raw pseudo-random value in `[0, 1)` of a lattice point: the top 32 bits of its hash.
pub open spec fn lattice_raw(seed: u64, x: int, z: int) -> int {
    (lattice_hash(seed, x, z) >> 32u64) as int
}

/// Value noise at vertex `(x, z)`: lattice values every `spacing` vertices, smoothly
/// interpolated.
pub open spec fn noise_raw(seed: u64, x: int, z: int, spacing: int) -> int {
    let cx = x / spacing;
    let cz = z / spacing;
    let tx = smoothstep_raw(trunc_div((x % spacing) * fx_one(), spacing));
    let tz = smoothstep_raw(trunc_div((z % spacing) * fx_one(), spacing));
    let near = lerp_raw(lattice_raw(seed, cx, cz), lattice_raw(seed, cx + 1, cz), tx);
    let far = lerp_raw(lattice_raw(seed, cx, cz + 1), lattice_raw(seed, cx + 1, cz + 1), tx);
    lerp_raw(near, far, tz)
}

/// Lattice spacing, in vertices, of octave `o` of the hills.
pub open spec fn octave_spacing(o: int) -> int {
    if o == 0 {
        32
    } else if o == 1 {
        16
    } else if o == 2 {
        8
    } else {
        4
    }
}

/// Amplitude, in metres, of octave `o` of the hills.
pub open spec fn octave_amplitude(o: int) -> int {
    if o == 0 {
        20
    } else if o == 1 {
        10
    } else if o == 2 {
        4
    } else {
        2
    }
}

pub open spec fn octave_seed(seed: u64, o: u64) -> u64 {
    seed.wrapping_add(o.wrapping_mul(0x9E37_79B9_7F4A_7C15))
}

/// Raw height after the first `o` octaves of the hills at vertex `(x, z)`.
pub open spec fn hills_partial(seed: u64, x: int, z: int, o: nat) -> int
    decreases o,
{
    if o == 0 {
        -12 * fx_one()
    } else {
        let k = (o - 1) as int;
        hills_partial(seed, x, z, (o - 1) as nat) + fx_mul(
            noise_raw(octave_seed(seed, k as u64), x, z, octave_spacing(k)),
            octave_amplitude(k) * fx_one(),
        )
    }
}

/// Raw height of vertex `(x, z)` of the map generated from `seed`: four octaves of value
/// noise, shifted down by 12 m so that the lowest areas dip under the water level.
pub open spec fn hills_raw(seed: u64, x: int, z: int) -> int {
    hills_partial(seed, x, z, 4)
}

/// Sum of the amplitudes, in metres, of the first `o` octaves of the hills.
pub open spec fn amplitude_total(o: int) -> int {
    if o <= 0 {
        0
    } else if o == 1 {
        20
    } else if o == 2 {
        30
    } else if o == 3 {
        34
    } else {
        36
    }
}

/// A raw height of the generated hills: at least 12 m under the water level, under 24 m
/// above it.
pub open spec fn in_height_range(h: int) -> bool {
    -12 * fx_one() <= h < 24 * fx_one()
}

/// `v` held within `[lo, hi]`.
pub open spec fn clamp_raw(v: int, lo: int, hi: int) -> int {
    if v < lo {
        lo
    } else if v > hi {
        hi
    } else {
        v
    }
}

/// A position held within a square map of side `w` (raw units).
pub open spec fn clamp_to_map(w: int, p: FxVec2) -> FxVec2 {
    FxVec2 { x: Fx::of(clamp_raw(p.x@, 0, w)), z: Fx::of(clamp_raw(p.z@, 0, w)) }
}

/// `p` lies on a square map of side `w` (raw units).
pub open spec fn on_map(w: int, p: FxVec2) -> bool {
    0 <= p.x@ <= w && 0 <= p.z@ <= w
}

/// Interpolation of raw values stays within bounds that fit, for `t` in `[0, k]`.
pub proof fn lemma_lerp_bound(a: int, b: int, t: int, m: int, k: int)
    requires
        abs(a) <= m,
        abs(b) <= m,
        0 <= t <= k * fx_one(),
        0 <= m <= 0x2000_0000_0000_0000,
        0 <= k,
        m + 2 * k * m <= 0x4000_0000_0000_0000,
    ensures
        fits_i64(b - a),
        fx_mul(b - a, t) == ((b - a) * t) / fx_one(),
        abs(fx_mul(b - a, t)) <= 2 * k * m,
        fits_i64(lerp_raw(a, b, t)),
        abs(lerp_raw(a, b, t)) <= m + 2 * k * m,
{
    let d = b - a;
    let ad = abs(d);
    lemma_mul_upper_bound(ad, 2 * m, t, k * fx_one());
    assert((2 * m) * (k * fx_one()) == (2 * k * m) * fx_one()) by (nonlinear_arith);
    assert(d * t == ad * t || d * t == -(ad * t)) by (nonlinear_arith)
        requires
            ad == abs(d),
    ;
    lemma_floor_div_bounds(d * t, -(2 * k * m), 2 * k * m, fx_one());
}

/// Pseudo-random value in `[0, 1)` for a lattice point (SplitMix64 finalizer).
fn lattice(seed: u64, x: u32, z: u32) -> (r: Fx)
    ensures
        r@ == lattice_raw(seed, x as int, z as int),
        0 <= r@ < fx_one(),
{
    let mut h = seed ^ ((x as u64) << 32u64 | z as u64).wrapping_mul(0x9E37_79B9_7F4A_7C15);
    h = (h ^ (h >> 30u64)).wrapping_mul(0xBF58_476D_1CE4_E5B9);
    h = (h ^ (h >> 27u64)).wrapping_mul(0x94D0_49BB_1331_11EB);
    h = h ^ (h >> 31u64);
    assert(h >> 32u64 <= 0xffff_ffffu64) by (bit_vector);
    // The top 32 bits become the fractional part.
    Fx::from_raw((h >> 32u64) as i64)
}

fn smoothstep(t: Fx) -> (r: Fx)
    requires
        0 <= t@ < fx_one(),
    ensures
        r@ == smoothstep_raw(t@),
        0 <= r@ < fx_one(),
{
    let ghost tv = t@;
    proof {
        assert(0 <= tv * tv < fx_one() * fx_one()) by (nonlinear_arith)
            requires
                0 <= tv < fx_one(),
        ;
        lemma_floor_div_bounds(tv * tv, 0, fx_one() - 1, fx_one());
        lemma_mul_by_whole_number(tv, 2);
        assert(tv * (2 * fx_one()) == (2 * fx_one()) * tv);
    }
    let tt = t * t;
    let s = Fx::from_int(3) - Fx::from_int(2) * t;
    proof {
        let a = tt@;
        let b = s@;
        let one = fx_one();
        // a <= t² / one and t²(3 one - 2t) < one³, as one³ - 3 one t² + 2t³ = (one - t)²(one + 2t).
        assert(a * one <= tv * tv) by {
            lemma_floor_div_bounds(tv * tv, a, a, one);
            assert(a == (tv * tv) / one);
            vstd::arithmetic::div_mod::lemma_fundamental_div_mod(tv * tv, one);
            assert(tv * tv == one * a + (tv * tv) % one);
        }
        assert(b == 3 * one - 2 * tv);
        assert(0 <= a * b < one * one) by (nonlinear_arith)
            requires
                0 <= a,
                a * one <= tv * tv,
                0 <= tv < one,
                one > 0,
                b == 3 * one - 2 * tv,
                0 < b,
        {
            assert((one - tv) * (one - tv) * (one + 2 * tv) > 0);
            assert(tv * tv * b < one * one * one);
            assert(a * one * b <= tv * tv * b);
            assert((a * b) * one < (one * one) * one);
        }
        lemma_floor_div_bounds(a * b, 0, one - 1, one);
    }
    tt * s
}

fn lerp(a: Fx, b: Fx, t: Fx) -> (r: Fx)
    requires
        fits_i64(b@ - a@),
        fits_i64(lerp_raw(a@, b@, t@)),
    ensures
        r@ == lerp_raw(a@, b@, t@),
{
    a + (b - a) * t
}

/// `i / spacing`, as `Fx::ratio` computes it, lies in `[0, 1)` for `i < spacing`.
proof fn lemma_fraction_of_cell(i: int, spacing: int)
    requires
        0 <= i < spacing,
    ensures
        0 <= trunc_div(i * fx_one(), spacing) < fx_one(),
{
    assert(i * fx_one() < fx_one() * spacing) by (nonlinear_arith)
        requires
            0 <= i < spacing,
    ;
    lemma_floor_div_bounds(i * fx_one(), 0, fx_one() - 1, spacing);
}

/// Interpolating between two values of `[0, 1)`, for `t` in `[0, 1)`, gives a value
/// between them, so in `[0, 1)` too.
proof fn lemma_lerp_unit(a: int, b: int, t: int)
    requires
        0 <= a < fx_one(),
        0 <= b < fx_one(),
        0 <= t < fx_one(),
    ensures
        0 <= lerp_raw(a, b, t) < fx_one(),
{
    lemma_lerp_bound(a, b, t, fx_one(), 1);
    let d = b - a;
    let one = fx_one();
    if d >= 0 {
        assert(0 <= d * t <= d * one) by (nonlinear_arith)
            requires
                d >= 0,
                0 <= t < one,
        ;
        lemma_floor_div_bounds(d * t, 0, d, one);
    } else {
        assert(d * one <= d * t <= 0) by (nonlinear_arith)
            requires
                d < 0,
                0 <= t < one,
        ;
        lemma_floor_div_bounds(d * t, d, 0, one);
    }
}

/// The smoothing curve starts flat at 0, passes through the middle at one half, and stays
/// in `[0, 1)` on `[0, 1)`.
pub proof fn lemma_smoothstep_shape(t: int)
    requires
        0 <= t < fx_one(),
    ensures
        smoothstep_raw(0) == 0,
        smoothstep_raw(fx_one() / 2) == fx_one() / 2,
        0 <= smoothstep_raw(t) < fx_one(),
{
    lemma_smoothstep_unit(t);
    assert(smoothstep_raw(0) == 0) by {
        assert(fx_mul(0, 0) == 0);
        assert(0 * (3 * fx_one() - fx_mul(2 * fx_one(), 0)) == 0);
    }
    assert(fx_mul(0x8000_0000, 0x8000_0000) == 0x4000_0000) by {
        assert(0x8000_0000int * 0x8000_0000int == 0x4000_0000int * fx_one());
        lemma_div_multiples(0x4000_0000, fx_one());
    }
    assert(fx_mul(2 * fx_one(), 0x8000_0000) == fx_one()) by {
        assert((2 * fx_one()) * 0x8000_0000int == fx_one() * fx_one());
        lemma_div_multiples(fx_one(), fx_one());
    }
    assert(fx_mul(0x4000_0000, 2 * fx_one()) == 0x8000_0000) by {
        assert(0x4000_0000int * (2 * fx_one()) == 0x8000_0000int * fx_one());
        lemma_div_multiples(0x8000_0000, fx_one());
    }
}

/// `smoothstep_raw` keeps `[0, 1)`.
proof fn lemma_smoothstep_unit(t: int)
    requires
        0 <= t < fx_one(),
    ensures
        0 <= smoothstep_raw(t) < fx_one(),
{
    let one = fx_one();
    assert(0 <= t * t < one * one) by (nonlinear_arith)
        requires
            0 <= t < one,
    ;
    lemma_floor_div_bounds(t * t, 0, one - 1, one);
    let a = (t * t) / one;
    lemma_mul_by_whole_number(t, 2);
    assert(t * (2 * one) == (2 * one) * t);
    assert(fx_mul(t, t) == a);
    let b = 3 * one - 2 * t;
    assert(fx_mul(2 * one, t) == 2 * t);
    assert(a * one <= t * t) by {
        vstd::arithmetic::div_mod::lemma_fundamental_div_mod(t * t, one);
    }
    assert(0 <= a * b < one * one) by (nonlinear_arith)
        requires
            0 <= a,
            a * one <= t * t,
            0 <= t < one,
            one > 0,
            b == 3 * one - 2 * t,
    {
        assert((one - t) * (one - t) * (one + 2 * t) > 0);
        assert(t * t * b < one * one * one);
        assert(a * one * b <= t * t * b);
        assert((a * b) * one < (one * one) * one);
    }
    lemma_floor_div_bounds(a * b, 0, one - 1, one);
}

/// Interpolation at `t = 0` gives the start value.
proof fn lemma_lerp_at_zero(a: int, b: int)
    ensures
        lerp_raw(a, b, 0) == a,
{
    assert((b - a) * 0 == 0);
}

/// At a lattice point the noise is the lattice value of that point.
pub proof fn lemma_noise_at_lattice_point(seed: u64, x: int, z: int, spacing: int)
    requires
        spacing > 0,
        x >= 0,
        z >= 0,
        x % spacing == 0,
        z % spacing == 0,
    ensures
        noise_raw(seed, x, z, spacing) == lattice_raw(seed, x / spacing, z / spacing),
{
    let cx = x / spacing;
    let cz = z / spacing;
    assert(trunc_div(0 * fx_one(), spacing) == 0);
    assert(smoothstep_raw(0) == 0) by {
        assert(fx_mul(0, 0) == 0);
        assert(0 * (3 * fx_one() - fx_mul(2 * fx_one(), 0)) == 0);
    }
    lemma_lerp_at_zero(lattice_raw(seed, cx, cz), lattice_raw(seed, cx + 1, cz));
    lemma_lerp_at_zero(lattice_raw(seed, cx, cz + 1), lattice_raw(seed, cx + 1, cz + 1));
    lemma_lerp_at_zero(lattice_raw(seed, cx, cz), lattice_raw(seed, cx, cz + 1));
}

/// Along a lattice column the noise goes from the value at one lattice row to the value
/// at the next, by the smoothed fraction of the way between them: it is continuous
/// across the rows.
pub proof fn lemma_noise_along_column(seed: u64, x: int, z: int, spacing: int)
    requires
        spacing > 0,
        x >= 0,
        z >= 0,
        x % spacing == 0,
    ensures
        noise_raw(seed, x, z, spacing) == lerp_raw(
            noise_raw(seed, x, (z / spacing) * spacing, spacing),
            noise_raw(seed, x, (z / spacing + 1) * spacing, spacing),
            smoothstep_raw(trunc_div((z % spacing) * fx_one(), spacing)),
        ),
{
    let cz = z / spacing;
    vstd::arithmetic::div_mod::lemma_fundamental_div_mod(z, spacing);
    assert(cz >= 0) by {
        lemma_div_le_self(z, spacing);
    }
    lemma_div_multiples(cz, spacing);
    lemma_div_multiples(cz + 1, spacing);
    vstd::arithmetic::div_mod::lemma_mod_multiples_basic(cz, spacing);
    vstd::arithmetic::div_mod::lemma_mod_multiples_basic(cz + 1, spacing);
    assert(cz * spacing >= 0 && (cz + 1) * spacing >= 0) by (nonlinear_arith)
        requires
            cz >= 0,
            spacing > 0,
    ;
    lemma_noise_at_lattice_point(seed, x, cz * spacing, spacing);
    lemma_noise_at_lattice_point(seed, x, (cz + 1) * spacing, spacing);
    let cx = x / spacing;
    assert(trunc_div(0 * fx_one(), spacing) == 0);
    assert(smoothstep_raw(0) == 0) by {
        assert(fx_mul(0, 0) == 0);
        assert(0 * (3 * fx_one() - fx_mul(2 * fx_one(), 0)) == 0);
    }
    lemma_lerp_at_zero(lattice_raw(seed, cx, cz), lattice_raw(seed, cx + 1, cz));
    lemma_lerp_at_zero(lattice_raw(seed, cx, cz + 1), lattice_raw(seed, cx + 1, cz + 1));
}

/// Along a lattice row the noise goes from the value at one lattice column to the value
/// at the next, by the smoothed fraction of the way between them: it is continuous
/// across the columns.
pub proof fn lemma_noise_along_row(seed: u64, x: int, z: int, spacing: int)
    requires
        spacing > 0,
        x >= 0,
        z >= 0,
        z % spacing == 0,
    ensures
        noise_raw(seed, x, z, spacing) == lerp_raw(
            noise_raw(seed, (x / spacing) * spacing, z, spacing),
            noise_raw(seed, (x / spacing + 1) * spacing, z, spacing),
            smoothstep_raw(trunc_div((x % spacing) * fx_one(), spacing)),
        ),
{
    let cx = x / spacing;
    vstd::arithmetic::div_mod::lemma_fundamental_div_mod(x, spacing);
    assert(cx >= 0) by {
        lemma_div_le_self(x, spacing);
    }
    lemma_div_multiples(cx, spacing);
    lemma_div_multiples(cx + 1, spacing);
    vstd::arithmetic::div_mod::lemma_mod_multiples_basic(cx, spacing);
    vstd::arithmetic::div_mod::lemma_mod_multiples_basic(cx + 1, spacing);
    assert(cx * spacing >= 0 && (cx + 1) * spacing >= 0) by (nonlinear_arith)
        requires
            cx >= 0,
            spacing > 0,
    ;
    lemma_noise_at_lattice_point(seed, cx * spacing, z, spacing);
    lemma_noise_at_lattice_point(seed, (cx + 1) * spacing, z, spacing);
    let cz = z / spacing;
    assert(trunc_div(0 * fx_one(), spacing) == 0);
    assert(smoothstep_raw(0) == 0) by {
        assert(fx_mul(0, 0) == 0);
        assert(0 * (3 * fx_one() - fx_mul(2 * fx_one(), 0)) == 0);
    }
    let tx = smoothstep_raw(trunc_div((x % spacing) * fx_one(), spacing));
    lemma_lerp_at_zero(
        lerp_raw(lattice_raw(seed, cx, cz), lattice_raw(seed, cx + 1, cz), tx),
        lerp_raw(lattice_raw(seed, cx, cz + 1), lattice_raw(seed, cx + 1, cz + 1), tx),
    );
    lemma_lerp_at_zero(lattice_raw(seed, cx, cz), lattice_raw(seed, cx, cz + 1));
    lemma_lerp_at_zero(lattice_raw(seed, cx + 1, cz), lattice_raw(seed, cx + 1, cz + 1));
}

/// Random values in `[0, 1)` on a lattice of `spacing` vertices, smoothly interpolated.
fn value_noise(seed: u64, x: u32, z: u32, spacing: u32) -> (r: Fx)
    requires
        0 < spacing <= i32::MAX,
        x / spacing < u32::MAX,
        z / spacing < u32::MAX,
    ensures
        r@ == noise_raw(seed, x as int, z as int, spacing as int),
        0 <= r@ < fx_one(),
{
    let cx = x / spacing;
    let cz = z / spacing;
    proof {
        lemma_fraction_of_cell((x % spacing) as int, spacing as int);
        lemma_fraction_of_cell((z % spacing) as int, spacing as int);
    }
    let tx = smoothstep(Fx::ratio((x % spacing) as i32, spacing as i32));
    let tz = smoothstep(Fx::ratio((z % spacing) as i32, spacing as i32));
    let l00 = lattice(seed, cx, cz);
    let l10 = lattice(seed, cx + 1, cz);
    let l01 = lattice(seed, cx, cz + 1);
    let l11 = lattice(seed, cx + 1, cz + 1);
    proof {
        lemma_lerp_bound(l00@, l10@, tx@, fx_one(), 1);
        lemma_lerp_bound(l01@, l11@, tx@, fx_one(), 1);
        lemma_lerp_unit(l00@, l10@, tx@);
        lemma_lerp_unit(l01@, l11@, tx@);
    }
    let near = lerp(l00, l10, tx);
    let far = lerp(l01, l11, tx);
    proof {
        lemma_lerp_bound(near@, far@, tz@, fx_one(), 1);
        lemma_lerp_unit(near@, far@, tz@);
    }
    lerp(near, far, tz)
}

/// Spacing (in vertices) and amplitude (in metres) of octave `o` of the hills.
fn octave(o: u64) -> (r: (u32, i32))
    requires
        o < 4,
    ensures
        r.0 == octave_spacing(o as int),
        r.1 == octave_amplitude(o as int),
{
    if o == 0 {
        (32, 20)
    } else if o == 1 {
        (16, 10)
    } else if o == 2 {
        (8, 4)
    } else {
        (4, 2)
    }
}

/// Rolling hills: octaves of value noise, shifted so that the lowest areas dip under
/// height 0 (the water level drawn by the client).
fn hills(seed: u64, x: u32, z: u32) -> (r: Fx)
    ensures
        r@ == hills_raw(seed, x as int, z as int),
        in_height_range(r@),
{
    let mut height = Fx::from_int(-12);
    let mut o: u64 = 0;
    while o < 4
        invariant
            o <= 4,
            height@ == hills_partial(seed, x as int, z as int, o as nat),
            -12 * fx_one() <= height@ <= (amplitude_total(o as int) - 12) * fx_one(),
            o > 0 ==> height@ < (amplitude_total(o as int) - 12) * fx_one(),
        decreases 4 - o,
    {
        let (spacing, amplitude) = octave(o);
        proof {
            lemma_floor_div_bounds(x as int, 0, 0x7fff_ffff, spacing as int);
            lemma_floor_div_bounds(z as int, 0, 0x7fff_ffff, spacing as int);
        }
        let noise = value_noise(seed.wrapping_add(o.wrapping_mul(0x9E37_79B9_7F4A_7C15)), x, z, spacing);
        proof {
            lemma_mul_by_whole_number(noise@, amplitude as int);
            assert(0 <= noise@ * amplitude < amplitude * fx_one()) by (nonlinear_arith)
                requires
                    0 <= noise@ < fx_one(),
                    0 < amplitude <= 20,
            ;
        }
        height = height + noise * Fx::from_int(amplitude);
        o += 1;
    }
    height
}

/// Height-field of the map, generated from the match seed.
pub struct Terrain {
    /// Cells per side (the map is square).
    size: u32,
    /// `(size + 1)²` vertex heights, row by row along +z.
    heights: Vec<Fx>,
}

impl Terrain {
    /// Cells per side.
    pub closed spec fn spec_size(&self) -> int {
        self.size as int
    }

    /// Vertex heights, row by row along +z.
    pub closed spec fn spec_heights(&self) -> Seq<Fx> {
        self.heights@
    }

    /// Height of vertex `(x, z)`.
    pub open spec fn vertex(&self, x: int, z: int) -> Fx {
        self.spec_heights()[z * (self.spec_size() + 1) + x]
    }

    /// Side of the map, in raw units: two metres per cell.
    pub open spec fn world_raw(&self) -> int {
        self.spec_size() * 2 * fx_one()
    }

    pub open spec fn wf(&self) -> bool {
        &&& 0 <= self.spec_size() <= 0xffff
        &&& self.spec_heights().len() == (self.spec_size() + 1) * (self.spec_size() + 1)
        &&& forall|i: int|
            0 <= i < self.spec_heights().len() ==> abs(#[trigger] self.spec_heights()[i]@)
                <= height_bound()
    }

    /// The terrain of `size` cells per side that `seed` gives.
    pub open spec fn is_generated(&self, seed: u64, size: int) -> bool {
        &&& self.spec_size() == size
        &&& self.spec_heights().len() == (size + 1) * (size + 1)
        &&& forall|i: int|
            0 <= i < self.spec_heights().len() ==> (#[trigger] self.spec_heights()[i])@
                == hills_raw(seed, i % (size + 1), i / (size + 1))
    }

    /// Height at a world position, interpolated between the four vertices of its cell,
    /// once the position is clamped to the map. On the far edges the last cell is used.
    pub open spec fn height_at_spec(&self, p: FxVec2) -> int {
        let c = clamp_to_map(self.world_raw(), p);
        // Position in cells.
        let gx = c.x@ / 2;
        let gz = c.z@ / 2;
        let last = self.spec_size() - 1;
        let i = if gx / fx_one() < last { gx / fx_one() } else { last };
        let j = if gz / fx_one() < last { gz / fx_one() } else { last };
        let tx = gx - i * fx_one();
        let tz = gz - j * fx_one();
        lerp_raw(
            lerp_raw(self.vertex(i, j)@, self.vertex(i + 1, j)@, tx),
            lerp_raw(self.vertex(i, j + 1)@, self.vertex(i + 1, j + 1)@, tx),
            tz,
        )
    }

    /// World-space length of a cell side.
    pub fn cell_size() -> (r: Fx)
        ensures
            r@ == 2 * fx_one(),
    {
        Fx::from_int(2)
    }

    pub fn generate(seed: u64, size: u32) -> (r: Terrain)
        requires
            size <= 0xffff,
        ensures
            r.wf(),
            r.is_generated(seed, size as int),
            forall|i: int|
                0 <= i < r.spec_heights().len() ==> in_height_range(
                    #[trigger] r.spec_heights()[i]@,
                ),
    {
        let ghost n = size as int + 1;
        let mut heights: Vec<Fx> = Vec::new();
        let mut z: u32 = 0;
        while z <= size
            invariant
                z <= size + 1,
                size <= 0xffff,
                n == size + 1,
                heights@.len() == z * n,
                forall|i: int|
                    0 <= i < heights@.len() ==> (#[trigger] heights@[i])@ == hills_raw(
                        seed,
                        i % n,
                        i / n,
                    ) && in_height_range(heights@[i]@),
            decreases size + 1 - z,
        {
            let mut x: u32 = 0;
            while x <= size
                invariant
                    x <= size + 1,
                    z <= size,
                    size <= 0xffff,
                    n == size + 1,
                    heights@.len() == z * n + x,
                    forall|i: int|
                        0 <= i < heights@.len() ==> (#[trigger] heights@[i])@ == hills_raw(
                            seed,
                            i % n,
                            i / n,
                        ) && in_height_range(heights@[i]@),
                decreases size + 1 - x,
            {
                let h = hills(seed, x, z);
                proof {
                    lemma_fundamental_div_mod_converse(z * n + x, n, z as int, x as int);
                }
                heights.push(h);
                x += 1;
            }
            assert((z + 1) * n == z * n + n) by (nonlinear_arith);
            z += 1;
        }
        Terrain { size, heights }
    }

    /// Cells per side.
    pub fn size(&self) -> (r: u32)
        ensures
            r == self.spec_size(),
    {
        self.size
    }

    /// The heights of the grid vertices, row by row along +z.
    pub fn heights(&self) -> (r: &[Fx])
        ensures
            r@ == self.spec_heights(),
    {
        self.heights.as_slice()
    }

    /// World-space length of a map side.
    pub fn world_size(&self) -> (r: Fx)
        requires
            self.wf(),
        ensures
            r@ == self.world_raw(),
    {
        proof {
            lemma_mul_by_whole_number(self.spec_size() * fx_one(), 2);
        }
        Fx::from_int(self.size as i32) * Terrain::cell_size()
    }

    /// Height of grid vertex `(x, z)`, for `x, z` in `0..=size`.
    pub fn vertex_height(&self, x: u32, z: u32) -> (r: Fx)
        requires
            self.wf(),
            x <= self.spec_size(),
            z <= self.spec_size(),
        ensures
            r == self.vertex(x as int, z as int),
    {
        proof {
            let s = self.spec_size();
            assert(z * (s + 1) + x < (s + 1) * (s + 1)) by (nonlinear_arith)
                requires
                    0 <= x <= s,
                    0 <= z <= s,
            ;
            assert((s + 1) * (s + 1) <= 0x1_0000_0000) by (nonlinear_arith)
                requires
                    0 <= s <= 0xffff,
            ;
        }
        self.heights[(z * (self.size + 1) + x) as usize]
    }

    /// Clamps a world position to the map bounds.
    pub fn clamp(&self, p: FxVec2) -> (r: FxVec2)
        requires
            self.wf(),
        ensures
            r == clamp_to_map(self.world_raw(), p),
            on_map(self.world_raw(), r),
    {
        let max = self.world_size();
        FxVec2::new(clamp_fx(p.x, max), clamp_fx(p.z, max))
    }

    /// Height at a world position, interpolated between vertices. Clamped to the map.
    pub fn height_at(&self, p: FxVec2) -> (r: Fx)
        requires
            self.wf(),
            self.spec_size() >= 1,
        ensures
            r@ == self.height_at_spec(p),
    {
        let p = self.clamp(p);
        let cell = Terrain::cell_size();
        let ghost w = self.world_raw();
        let ghost s = self.spec_size();
        proof {
            let cx = p.x@;
            let cz = p.z@;
            lemma_div_denominator(cx * fx_one(), fx_one(), 2);
            lemma_div_denominator(cz * fx_one(), fx_one(), 2);
            lemma_div_multiples(cx, fx_one());
            lemma_div_multiples(cz, fx_one());
            lemma_floor_div_bounds(cx, 0, s * fx_one(), 2);
            lemma_floor_div_bounds(cz, 0, s * fx_one(), 2);
            lemma_div_le_self(cx * fx_one(), 2 * fx_one());
            lemma_div_le_self(cz * fx_one(), 2 * fx_one());
        }
        let gx = p.x / cell;
        let gz = p.z / cell;
        // On the far edges, use the last cell (with t == 1).
        let last = self.size as i32 - 1;
        let fx = gx.floor();
        let fz = gz.floor();
        let x = if fx < last { fx } else { last };
        let z = if fz < last { fz } else { last };
        proof {
            lemma_floor_div_bounds(gx@, 0, s, fx_one());
            lemma_floor_div_bounds(gz@, 0, s, fx_one());
        }
        let tx = gx - Fx::from_int(x);
        let tz = gz - Fx::from_int(z);
        let ux = x as u32;
        let uz = z as u32;
        let h00 = self.vertex_height(ux, uz);
        let h10 = self.vertex_height(ux + 1, uz);
        let h01 = self.vertex_height(ux, uz + 1);
        let h11 = self.vertex_height(ux + 1, uz + 1);
        proof {
            self.lemma_vertex_bound(x as int, z as int);
            self.lemma_vertex_bound(x + 1, z as int);
            self.lemma_vertex_bound(x as int, z + 1);
            self.lemma_vertex_bound(x + 1, z + 1);
            lemma_lerp_bound(h00@, h10@, tx@, height_bound(), 1);
            lemma_lerp_bound(h01@, h11@, tx@, height_bound(), 1);
        }
        let near = lerp(h00, h10, tx);
        let far = lerp(h01, h11, tx);
        proof {
            lemma_lerp_bound(near@, far@, tz@, 3 * height_bound(), 1);
        }
        lerp(near, far, tz)
    }

    proof fn lemma_vertex_bound(&self, x: int, z: int)
        requires
            self.wf(),
            0 <= x <= self.spec_size(),
            0 <= z <= self.spec_size(),
        ensures
            0 <= z * (self.spec_size() + 1) + x < self.spec_heights().len(),
            abs(self.vertex(x, z)@) <= height_bound(),
    {
        let s = self.spec_size();
        assert(z * (s + 1) + x < (s + 1) * (s + 1)) by (nonlinear_arith)
            requires
                0 <= x <= s,
                0 <= z <= s,
        ;
        assert(0 <= z * (s + 1)) by (nonlinear_arith)
            requires
                0 <= z,
                0 <= s,
        ;
    }
}

/// Generation depends only on the seed (and the size): two terrains generated from the
/// same seed hold the same heights.
pub proof fn lemma_generation_depends_only_on_seed(a: &Terrain, b: &Terrain, seed: u64, size: int)
    requires
        a.is_generated(seed, size),
        b.is_generated(seed, size),
    ensures
        a.spec_heights() == b.spec_heights(),
        a.spec_size() == b.spec_size(),
{
    assert(a.spec_heights() =~= b.spec_heights());
}

/// Heights are taken on the map: a position off the map has the height of the nearest
/// position on it.
pub proof fn lemma_height_at_clamps(t: &Terrain, p: FxVec2)
    requires
        t.wf(),
    ensures
        t.height_at_spec(p) == t.height_at_spec(clamp_to_map(t.world_raw(), p)),
{
}

/// Interpolation at the ends of the interval gives the end values.
proof fn lemma_lerp_ends(a: int, b: int)
    requires
        abs(a) <= 3 * height_bound(),
        abs(b) <= 3 * height_bound(),
    ensures
        lerp_raw(a, b, 0) == a,
        lerp_raw(a, b, fx_one()) == b,
{
    lemma_mul_by_whole_number(b - a, 1);
}

/// On a grid vertex, the interpolated height is the vertex height: the vertex `(x, z)`
/// lies at `(2x, 2z)` metres.
pub proof fn lemma_height_at_vertex(t: &Terrain, x: int, z: int)
    requires
        t.wf(),
        t.spec_size() >= 1,
        0 <= x <= t.spec_size(),
        0 <= z <= t.spec_size(),
    ensures
        t.height_at_spec(FxVec2 { x: Fx::of(2 * x * fx_one()), z: Fx::of(2 * z * fx_one()) })
            == t.vertex(x, z)@,
{
    let s = t.spec_size();
    let p = FxVec2 { x: Fx::of(2 * x * fx_one()), z: Fx::of(2 * z * fx_one()) };
    assert(p.x@ == 2 * x * fx_one());
    assert(p.z@ == 2 * z * fx_one());
    let c = clamp_to_map(t.world_raw(), p);
    assert(c.x@ == 2 * x * fx_one());
    assert(c.z@ == 2 * z * fx_one());
    let gx = c.x@ / 2;
    let gz = c.z@ / 2;
    lemma_div_multiples(x * fx_one(), 2);
    lemma_div_multiples(z * fx_one(), 2);
    assert(gx == x * fx_one());
    assert(gz == z * fx_one());
    lemma_div_multiples(x, fx_one());
    lemma_div_multiples(z, fx_one());
    let i = if x < s - 1 { x } else { s - 1 };
    let j = if z < s - 1 { z } else { s - 1 };
    t.lemma_vertex_bound(i, j);
    t.lemma_vertex_bound(i + 1, j);
    t.lemma_vertex_bound(i, j + 1);
    t.lemma_vertex_bound(i + 1, j + 1);
    let tx = gx - i * fx_one();
    let tz = gz - j * fx_one();
    assert(tx == 0 || (tx == fx_one() && x == i + 1));
    assert(tz == 0 || (tz == fx_one() && z == j + 1));
    lemma_lerp_ends(t.vertex(i, j)@, t.vertex(i + 1, j)@);
    lemma_lerp_ends(t.vertex(i, j + 1)@, t.vertex(i + 1, j + 1)@);
    let near = lerp_raw(t.vertex(i, j)@, t.vertex(i + 1, j)@, tx);
    let far = lerp_raw(t.vertex(i, j + 1)@, t.vertex(i + 1, j + 1)@, tx);
    lemma_lerp_ends(near, far);
}

/// `v` held within `[0, max]`.
fn clamp_fx(v: Fx, max: Fx) -> (r: Fx)
    requires
        0 <= max@,
    ensures
        r == Fx::of(clamp_raw(v@, 0, max@)),
{
    if v.raw() < 0 {
        Fx::zero()
    } else if v.raw() > max.raw() {
        max
    } else {
        v
    }
}

} // verus!
