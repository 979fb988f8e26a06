//! Deterministic simulation of a match.
//!
//! Every client runs this simulation in lockstep and must stay bit-identical, on
//! native and on wasm alike: no floating point (see [`Fx`]), no iteration over hash
//! maps, no randomness other than values derived from the match seed, no wall-clock time.
use crate::fixed::{
    abs, fits_i64, floor_sqrt, floor_sqrt_witness, fx_mul, fx_one, is_floor_sqrt, lemma_div_multiples, lemma_floor_sqrt_exists,
    lemma_floor_div_bounds, lemma_floor_sqrt_bound, lemma_floor_sqrt_unique,
    lemma_mul_by_whole_number, trunc_div, Fx, FxVec2,
};
use crate::terrain::{clamp_to_map, on_map, Terrain};
use vstd::arithmetic::div_mod::{lemma_fundamental_div_mod, lemma_fundamental_div_mod_converse};
use vstd::prelude::*;

verus! {

broadcast use crate::fixed::group_fx;

/// Simulation ticks per second (Total Annihilation also ran its game logic at 30 Hz).
pub const TICK_RATE: u32 = 30;

pub const MAX_PLAYERS: u8 = 2;

const MAP_CELLS: u32 = 128;

const UNITS_PER_PLAYER: usize = 6;

pub type PlayerId = u8;

#[derive(Clone, Copy, Debug, PartialEq, Eq, Structural, PartialOrd, Ord, Hash)]
pub struct UnitId(pub u32);

#[derive(Clone, Debug)]
pub struct Unit {
    pub id: UnitId,
    pub owner: PlayerId,
    pub pos: FxVec2,
    /// Destination of the current move order.
    pub target: Option<FxVec2>,
}

/// An order from a player. Commands come from the network, so they are validated.
#[derive(Clone, Debug, PartialEq, Eq)]
pub enum Command {
    Move { units: Vec<UnitId>, target: FxVec2 },
    Stop { units: Vec<UnitId> },
}

/// Raw distance covered per tick: 0.2 m, i.e. 6 m/s.
pub open spec fn unit_speed_raw() -> int {
    trunc_div(fx_one(), 5)
}

/// Distance covered per tick: 0.2 m, i.e. 6 m/s.
fn unit_speed() -> (r: Fx)
    ensures
        r@ == unit_speed_raw(),
{
    Fx::ratio(1, 5)
}

/// Distance between neighbours in a formation.
fn unit_spacing() -> (r: Fx)
    ensures
        r@ == 4 * fx_one(),
{
    Fx::from_int(4)
}

/// Number of entries below which every `Vec<UnitId>` stays: its bytes fit in `isize`.
pub open spec fn id_list_limit() -> int {
    0x2000_0000_0000_0000
}

/// Columns of a formation of `n` units: the smallest square grid that holds them.
pub open spec fn formation_cols(n: int) -> int {
    let c = floor_sqrt(n);
    if c * c < n {
        c + 1
    } else {
        c
    }
}

/// Rows of a formation of `n` units: `n / cols` rounded up.
pub open spec fn formation_rows(n: int) -> int {
    let c = formation_cols(n);
    n / c + if n % c == 0 {
        0int
    } else {
        1int
    }
}

/// Raw offset of slot `k` among `count`, centred on 0, 4 m apart.
pub open spec fn centered_raw(k: int, count: int) -> int {
    fx_mul(k * fx_one() - trunc_div((count - 1) * fx_one(), 2), 4 * fx_one())
}

/// Offset of the `i`-th of `n` units in a square grid centered on the origin.
pub open spec fn formation_offset_spec(i: int, n: int) -> FxVec2 {
    let c = formation_cols(n);
    FxVec2 {
        x: Fx::of(centered_raw(i % c, c)),
        z: Fx::of(centered_raw(i / c, formation_rows(n))),
    }
}

/// Grid of a formation of `n` units: `c` columns and `r` rows hold them all, and
/// each fits the arithmetic of `formation_offset`.
proof fn lemma_formation_grid(n: int, c0: int)
    requires
        1 <= n < id_list_limit(),
        is_floor_sqrt(c0, n),
    ensures
        floor_sqrt(n) == c0,
        1 <= formation_rows(n) <= formation_cols(n) <= 0x7fff_fffe,
        n <= formation_cols(n) * formation_rows(n),
        c0 * c0 <= n,
{
    lemma_floor_sqrt_unique(c0, n);
    lemma_floor_sqrt_bound(c0, n, 0x7fff_fffd);
    let c = formation_cols(n);
    assert(c >= 1) by (nonlinear_arith)
        requires
            c == (if c0 * c0 < n { c0 + 1 } else { c0 }),
            c0 >= 0,
            n >= 1,
            c0 * c0 <= n,
    ;
    assert(n <= c * c) by (nonlinear_arith)
        requires
            c == (if c0 * c0 < n { c0 + 1 } else { c0 }),
            n < (c0 + 1) * (c0 + 1),
    ;
    lemma_fundamental_div_mod(n, c);
    let q = n / c;
    let r = n % c;
    let rows = formation_rows(n);
    assert(n <= c * rows && 1 <= rows <= c) by (nonlinear_arith)
        requires
            n == c * q + r,
            0 <= r < c,
            rows == q + if r == 0 { 0int } else { 1int },
            n <= c * c,
            n >= 1,
    ;
}

/// `usize::isqrt` from std; its documentation says that it returns the square root of
/// the number, rounded down.
#[verifier::external_body]
fn isqrt_usize(n: usize) -> (r: usize)
    ensures
        is_floor_sqrt(r as int, n as int),
{
    n.isqrt()
}

/// Offset of slot `k` among `count`, centred on 0.
fn centered(k: usize, count: usize) -> (r: Fx)
    requires
        k < count <= 0x7fff_fffe,
    ensures
        r == Fx::of(centered_raw(k as int, count as int)),
{
    proof {
        lemma_floor_div_bounds((count - 1) * fx_one(), 0, (count - 1) * fx_one(), 2);
    }
    (Fx::from_int(k as i32) - Fx::ratio(count as i32 - 1, 2)) * unit_spacing()
}

/// Offset of the `i`-th of `n` units in a square grid centered on the origin.
fn formation_offset(i: usize, n: usize) -> (r: FxVec2)
    requires
        i < n < id_list_limit(),
    ensures
        r == formation_offset_spec(i as int, n as int),
{
    let mut cols = isqrt_usize(n);
    proof {
        lemma_formation_grid(n as int, cols as int);
    }
    if cols * cols < n {
        cols += 1;
    }
    // `n.div_ceil(cols)`.
    let rows = n / cols + if n % cols == 0 { 0 } else { 1 };
    proof {
        let c = cols as int;
        let q = rows as int;
        assert(i < q * c) by (nonlinear_arith)
            requires
                i < n <= c * q,
        ;
        lemma_floor_div_bounds(i as int, 0, q - 1, c);
    }
    FxVec2::new(centered(i % cols, cols), centered(i / cols, rows))
}

/// Offset of slot `k` among `count`, for grids of up to 2^30 slots a side: `4 m` times
/// `k - (count - 1) / 2`, exactly.
proof fn lemma_centered_exact(k: int, count: int)
    requires
        0 <= k < count <= 0x4000_0000,
    ensures
        centered_raw(k, count) == (2 * k - count + 1) * 0x2_0000_0000,
{
    assert(trunc_div((count - 1) * fx_one(), 2) == (count - 1) * 0x8000_0000) by {
        lemma_div_multiples((count - 1) * 0x8000_0000, 2);
    }
    let d = k * fx_one() - (count - 1) * 0x8000_0000;
    assert(d == (2 * k - count + 1) * 0x8000_0000);
    lemma_mul_by_whole_number(d, 4);
}

/// The units of a formation get distinct slots (formations of up to 2^60 units, the
/// sizes for which the offsets do not wrap around).
pub proof fn lemma_formation_slots_distinct(i: int, j: int, n: int)
    requires
        1 <= n <= 0x1000_0000_0000_0000,
        0 <= i < n,
        0 <= j < n,
        i != j,
    ensures
        formation_offset_spec(i, n) != formation_offset_spec(j, n),
{
    lemma_floor_sqrt_exists(n);
    let c0 = floor_sqrt_witness(n);
    lemma_formation_grid(n, c0);
    lemma_floor_sqrt_bound(c0, n, 0x4000_0000);
    let c = formation_cols(n);
    let r = formation_rows(n);
    assert(c <= 0x4000_0000) by {
        if c0 == 0x4000_0000 {
            assert(c0 * c0 == 0x1000_0000_0000_0000);
        }
    }
    lemma_fundamental_div_mod(i, c);
    lemma_fundamental_div_mod(j, c);
    assert(i < r * c && j < r * c) by (nonlinear_arith)
        requires
            i < n,
            j < n,
            n <= c * r,
    ;
    lemma_floor_div_bounds(i, 0, r - 1, c);
    lemma_floor_div_bounds(j, 0, r - 1, c);
    lemma_centered_exact(i % c, c);
    lemma_centered_exact(j % c, c);
    lemma_centered_exact(i / c, r);
    lemma_centered_exact(j / c, r);
    let a = formation_offset_spec(i, n);
    let b = formation_offset_spec(j, n);
    if i % c != j % c {
        assert(a.x@ != b.x@);
    } else {
        assert(i / c != j / c) by (nonlinear_arith)
            requires
                i == c * (i / c) + i % c,
                j == c * (j / c) + j % c,
                i % c == j % c,
                i != j,
        ;
        assert(a.z@ != b.z@);
    }
}

/// Sum of the raw offsets of the first `k` slots of a formation of `n` units, along x
/// and along z.
pub open spec fn formation_sum(n: int, k: nat) -> (int, int)
    decreases k,
{
    if k == 0 {
        (0, 0)
    } else {
        let prev = formation_sum(n, (k - 1) as nat);
        let o = formation_offset_spec(k - 1, n);
        (prev.0 + o.x@, prev.1 + o.z@)
    }
}

/// Size of a formation grid, for formations whose offsets do not wrap around.
proof fn lemma_formation_grid_small(n: int)
    requires
        1 <= n <= 0x1000_0000_0000_0000,
    ensures
        1 <= formation_rows(n) <= formation_cols(n) <= 0x4000_0000,
        n <= formation_cols(n) * formation_rows(n),
{
    lemma_floor_sqrt_exists(n);
    let c0 = floor_sqrt_witness(n);
    lemma_formation_grid(n, c0);
    lemma_floor_sqrt_bound(c0, n, 0x4000_0000);
    if c0 == 0x4000_0000 {
        assert(c0 * c0 == 0x1000_0000_0000_0000);
    }
}

/// Partial sums of formation offsets: complete rows sum to zero along x, and the rows
/// before row `q` sum to `c q (q - r)` steps along z.
proof fn lemma_formation_partial_sums(n: int, i: int)
    requires
        1 <= n <= 0x1000_0000_0000_0000,
        0 <= i <= formation_cols(n) * formation_rows(n),
        i <= n,
    ensures
        ({
            let c = formation_cols(n);
            let r = formation_rows(n);
            let q = i / c;
            let k = i % c;
            formation_sum(n, i as nat) == (
                k * (k - c) * 0x2_0000_0000,
                (c * q * (q - r) + k * (2 * q - r + 1)) * 0x2_0000_0000,
            )
        }),
    decreases i,
{
    lemma_formation_grid_small(n);
    let c = formation_cols(n);
    let r = formation_rows(n);
    if i == 0 {
        lemma_fundamental_div_mod_converse(0, c, 0, 0);
        assert(0 * (0 - c) * 0x2_0000_0000int == 0 && (c * 0 * (0 - r) + 0 * (2 * 0 - r + 1))
            * 0x2_0000_0000int == 0) by (nonlinear_arith);
    } else {
        let j = i - 1;
        lemma_formation_partial_sums(n, j);
        lemma_fundamental_div_mod(j, c);
        let q = j / c;
        let k = j % c;
        assert(j < r * c) by (nonlinear_arith)
            requires
                j < i,
                i <= c * r,
        ;
        lemma_floor_div_bounds(j, 0, r - 1, c);
        lemma_centered_exact(k, c);
        lemma_centered_exact(q, r);
        let o = formation_offset_spec(j, n);
        assert(o.x@ == (2 * k - c + 1) * 0x2_0000_0000);
        assert(o.z@ == (2 * q - r + 1) * 0x2_0000_0000);
        let px = formation_sum(n, j as nat).0;
        let pz = formation_sum(n, j as nat).1;
        let big_k = 0x2_0000_0000int;
        if k + 1 < c {
            assert(i == q * c + (k + 1)) by (nonlinear_arith)
                requires
                    j == c * q + k,
                    i == j + 1,
            ;
            lemma_fundamental_div_mod_converse(i, c, q, k + 1);
        } else {
            assert(i == (q + 1) * c + 0) by (nonlinear_arith)
                requires
                    j == c * q + k,
                    k + 1 == c,
                    i == j + 1,
            ;
            lemma_fundamental_div_mod_converse(i, c, q + 1, 0);
        }
        let q1 = i / c;
        let k1 = i % c;
        assert(px + o.x@ == k1 * (k1 - c) * big_k) by (nonlinear_arith)
            requires
                px == k * (k - c) * big_k,
                o.x@ == (2 * k - c + 1) * big_k,
                (k + 1 < c && k1 == k + 1) || (k + 1 == c && k1 == 0),
        ;
        assert(pz + o.z@ == (c * q1 * (q1 - r) + k1 * (2 * q1 - r + 1)) * big_k) by (nonlinear_arith)
            requires
                pz == (c * q * (q - r) + k * (2 * q - r + 1)) * big_k,
                o.z@ == (2 * q - r + 1) * big_k,
                (k + 1 < c && k1 == k + 1 && q1 == q) || (k + 1 == c && k1 == 0 && q1 == q + 1),
        ;
        assert(formation_sum(n, i as nat) == (
            formation_sum(n, j as nat).0 + o.x@,
            formation_sum(n, j as nat).1 + o.z@,
        ));
        assert(formation_sum(n, i as nat) == (
            k1 * (k1 - c) * big_k,
            (c * q1 * (q1 - r) + k1 * (2 * q1 - r + 1)) * big_k,
        ));
    }
}

/// A formation that fills its grid is centred on its target: the offsets of its slots
/// sum to zero (formations of up to 2^60 units).
pub proof fn lemma_full_formation_is_centered(n: int)
    requires
        1 <= n <= 0x1000_0000_0000_0000,
        formation_cols(n) * formation_rows(n) == n,
    ensures
        formation_sum(n, n as nat) == (0int, 0int),
{
    lemma_formation_grid_small(n);
    lemma_formation_partial_sums(n, n);
    let c = formation_cols(n);
    let r = formation_rows(n);
    assert(n == r * c + 0) by (nonlinear_arith)
        requires
            c * r == n,
    ;
    lemma_fundamental_div_mod_converse(n, c, r, 0);
    assert(n / c == r && n % c == 0);
    assert(0 * (0 - c) * 0x2_0000_0000int == 0 && (c * r * (r - r) + 0 * (2 * r - r + 1))
        * 0x2_0000_0000int == 0) by (nonlinear_arith);
}

/// Ids strictly increase along the units.
pub open spec fn ids_sorted(units: Seq<Unit>) -> bool {
    forall|i: int, j: int| 0 <= i < j < units.len() ==> units[i].id.0 < units[j].id.0
}

/// A unit and its destination lie on a square map of side `w`.
pub open spec fn unit_on_map(w: int, u: Unit) -> bool {
    &&& on_map(w, u.pos)
    &&& match u.target {
        Some(t) => on_map(w, t),
        None => true,
    }
}

pub open spec fn units_wf(w: int, units: Seq<Unit>) -> bool {
    &&& ids_sorted(units)
    &&& forall|i: int| 0 <= i < units.len() ==> unit_on_map(w, #[trigger] units[i])
}

/// Index of the unit with id `id`, if there is one.
pub open spec fn index_of_id(units: Seq<Unit>, id: UnitId) -> Option<int> {
    if exists|i: int| 0 <= i < units.len() && units[i].id == id {
        Some(choose|i: int| 0 <= i < units.len() && units[i].id == id)
    } else {
        None
    }
}

/// With sorted ids, the index of an id is the one that holds it.
pub proof fn lemma_index_of_id(units: Seq<Unit>, id: UnitId, i: int)
    requires
        ids_sorted(units),
        0 <= i < units.len(),
        units[i].id == id,
    ensures
        index_of_id(units, id) == Some(i),
{
    let k = choose|k: int| 0 <= k < units.len() && units[k].id == id;
    assert(0 <= k < units.len() && units[k].id == id);
    if k < i {
        assert(units[k].id.0 < units[i].id.0);
    } else if i < k {
        assert(units[i].id.0 < units[k].id.0);
    }
}

/// Position where the army of `owner` starts: on the west side for player 0, on the
/// east side otherwise, half-way along the 256 m map.
pub open spec fn start_position(owner: int) -> FxVec2 {
    let map = 256 * fx_one();
    let x = if owner == 0 {
        trunc_div(fx_one(), 5)
    } else {
        trunc_div(4 * fx_one(), 5)
    };
    FxVec2 { x: Fx::of(fx_mul(map, x)), z: Fx::of(fx_mul(map, trunc_div(fx_one(), 2))) }
}

/// The two start positions, in raw units.
proof fn lemma_start_position(owner: int)
    ensures
        start_position(owner).x@ == if owner == 0 {
            219902325504int
        } else {
            879609302016int
        },
        start_position(owner).z@ == 128 * fx_one(),
{
    lemma_fundamental_div_mod_converse(fx_one(), 5, 858993459, 1);
    lemma_fundamental_div_mod_converse(fx_one(), 2, 2147483648, 0);
    assert(trunc_div(fx_one(), 5) == 858993459);
    assert(trunc_div(4 * fx_one(), 5) == 3435973836);
    assert(trunc_div(fx_one(), 2) == 2147483648);
    lemma_mul_by_whole_number(858993459, 256);
    lemma_mul_by_whole_number(3435973836, 256);
    lemma_mul_by_whole_number(2147483648, 256);
}

/// The `k`-th unit of a new match: six per player, in formation around their start.
pub open spec fn initial_unit(k: int) -> Unit {
    let owner = k / 6;
    Unit {
        id: UnitId(k as u32),
        owner: owner as u8,
        pos: start_position(owner).plus(formation_offset_spec(k % 6, 6)),
        target: None,
    }
}

pub open spec fn initial_units(players: int) -> Seq<Unit> {
    Seq::new((6 * players) as nat, |k: int| initial_unit(k))
}

/// The formation of six units: three columns 4 m apart, two rows 4 m apart.
proof fn lemma_formation_of_six(i: int)
    requires
        0 <= i < 6,
    ensures
        formation_offset_spec(i, 6).x@ == 4 * (i % 3 - 1) * fx_one(),
        formation_offset_spec(i, 6).z@ == (4 * (i / 3) - 2) * fx_one(),
{
    lemma_floor_sqrt_unique(2, 6);
    assert(formation_cols(6) == 3);
    assert(6int / 3 == 2 && 6int % 3 == 0);
    assert(formation_rows(6) == 2);
    lemma_centered_exact(i % 3, 3);
    lemma_centered_exact(i / 3, 2);
}

/// Indices of the units that `player` owns among those listed in `ids`, in the order of
/// the list: ids that no unit has are skipped, and an id listed twice gives its index twice.
pub open spec fn owned_indices_spec(units: Seq<Unit>, player: PlayerId, ids: Seq<UnitId>) -> Seq<int>
    decreases ids.len(),
{
    if ids.len() == 0 {
        Seq::empty()
    } else {
        let prev = owned_indices_spec(units, player, ids.drop_last());
        match index_of_id(units, ids.last()) {
            Some(i) => if units[i].owner == player {
                prev.push(i)
            } else {
                prev
            },
            None => prev,
        }
    }
}

/// Owned indices are indices of units of the player, no more than the listed ids.
pub proof fn lemma_owned_indices(units: Seq<Unit>, player: PlayerId, ids: Seq<UnitId>)
    ensures
        owned_indices_spec(units, player, ids).len() <= ids.len(),
        forall|k: int|
            0 <= k < owned_indices_spec(units, player, ids).len() ==> {
                let i = #[trigger] owned_indices_spec(units, player, ids)[k];
                0 <= i < units.len() && units[i].owner == player
            },
    decreases ids.len(),
{
    if ids.len() > 0 {
        lemma_owned_indices(units, player, ids.drop_last());
        if exists|i: int| 0 <= i < units.len() && units[i].id == ids.last() {
            let i = choose|i: int| 0 <= i < units.len() && units[i].id == ids.last();
            assert(index_of_id(units, ids.last()) == Some(i));
        }
    }
}

/// A unit is among the owned indices exactly when the player owns it and its id is listed.
pub proof fn lemma_owned_indices_contains(units: Seq<Unit>, player: PlayerId, ids: Seq<UnitId>, i: int)
    requires
        ids_sorted(units),
    ensures
        owned_indices_spec(units, player, ids).contains(i) <==> (0 <= i < units.len()
            && units[i].owner == player && ids.contains(units[i].id)),
    decreases ids.len(),
{
    if ids.len() > 0 {
        let prev = ids.drop_last();
        lemma_owned_indices_contains(units, player, prev, i);
        lemma_owned_indices(units, player, prev);
        let owned = owned_indices_spec(units, player, ids);
        let owned_prev = owned_indices_spec(units, player, prev);
        let v = units[i].id;
        assert(ids.contains(v) <==> (prev.contains(v) || ids.last() == v)) by {
            if ids.contains(v) {
                let m = choose|m: int| 0 <= m < ids.len() && ids[m] == v;
                if m < ids.len() - 1 {
                    assert(prev[m] == v);
                }
            }
            if prev.contains(v) {
                let m = choose|m: int| 0 <= m < prev.len() && prev[m] == v;
                assert(ids[m] == v);
            }
            if ids.last() == v {
                assert(ids[ids.len() - 1] == v);
            }
        }
        match index_of_id(units, ids.last()) {
            Some(j) => {
                if units[j].owner == player {
                    assert(owned == owned_prev.push(j));
                    assert(owned.contains(i) <==> (owned_prev.contains(i) || i == j)) by {
                        if owned.contains(i) && !owned_prev.contains(i) {
                            let m = choose|m: int| 0 <= m < owned.len() && owned[m] == i;
                            if m < owned_prev.len() {
                                assert(owned_prev[m] == i);
                            }
                        }
                        if i == j {
                            assert(owned[owned_prev.len() as int] == j);
                        }
                        if owned_prev.contains(i) {
                            let m = choose|m: int| 0 <= m < owned_prev.len() && owned_prev[m] == i;
                            assert(owned[m] == i);
                        }
                    }
                } else {
                    assert(owned == owned_prev);
                }
            },
            None => {
                assert(owned == owned_prev);
            },
        }
        if 0 <= i < units.len() && units[i].id == ids.last() {
            lemma_index_of_id(units, ids.last(), i);
        }
        if exists|j: int| 0 <= j < units.len() && units[j].id == ids.last() {
            let j = choose|j: int| 0 <= j < units.len() && units[j].id == ids.last();
            assert(index_of_id(units, ids.last()) == Some(j));
        }
        if 0 <= i < units.len() && ids.contains(units[i].id) {
            let m = choose|m: int| 0 <= m < ids.len() && ids[m] == units[i].id;
            if m < ids.len() - 1 {
                assert(prev[m] == units[i].id);
            }
        }
        if 0 <= i < units.len() && prev.contains(units[i].id) {
            let m = choose|m: int| 0 <= m < prev.len() && prev[m] == units[i].id;
            assert(ids[m] == units[i].id);
        }
        assert(owned_prev.contains(i) ==> owned.contains(i)) by {
            if owned_prev.contains(i) {
                let m = choose|m: int| 0 <= m < owned_prev.len() && owned_prev[m] == i;
                assert(owned[m] == i);
            }
        }
    }
}

/// Position of the last entry equal to `i` among the first `k` entries of `idx`, or -1.
pub open spec fn last_occurrence(idx: Seq<int>, i: int, k: int) -> int
    decreases k,
{
    if k <= 0 {
        -1
    } else if idx[k - 1] == i {
        k - 1
    } else {
        last_occurrence(idx, i, k - 1)
    }
}

proof fn lemma_last_occurrence(idx: Seq<int>, i: int, k: int)
    requires
        0 <= k <= idx.len(),
    ensures
        -1 <= last_occurrence(idx, i, k) < k,
        last_occurrence(idx, i, k) >= 0 ==> idx[last_occurrence(idx, i, k)] == i,
        last_occurrence(idx, i, k) >= 0 <==> idx.subrange(0, k).contains(i),
    decreases k,
{
    if k > 0 {
        lemma_last_occurrence(idx, i, k - 1);
        if idx.subrange(0, k - 1).contains(i) {
            let m = choose|m: int| 0 <= m < k - 1 && #[trigger] idx.subrange(0, k - 1)[m] == i;
            assert(idx.subrange(0, k)[m] == i);
        }
        if idx.subrange(0, k).contains(i) && idx[k - 1] != i {
            let m = choose|m: int| 0 <= m < k && #[trigger] idx.subrange(0, k)[m] == i;
            assert(idx.subrange(0, k - 1)[m] == i);
        }
        if idx[k - 1] == i {
            assert(idx.subrange(0, k)[k - 1] == i);
        }
    }
}

/// Destination of the `j`-th of `n` units ordered to `target`: its slot in the formation,
/// held on the map.
pub open spec fn move_dest(w: int, target: FxVec2, j: int, n: int) -> FxVec2 {
    clamp_to_map(w, target.plus(formation_offset_spec(j, n)))
}

/// `u` with destination `dest`.
pub open spec fn with_target(u: Unit, dest: Option<FxVec2>) -> Unit {
    Unit { id: u.id, owner: u.owner, pos: u.pos, target: dest }
}

/// The units after `player` issues `command`, on a map of side `w`.
pub open spec fn applied_units(w: int, units: Seq<Unit>, player: PlayerId, command: Command) -> Seq<Unit> {
    match command {
        Command::Move { units: ids, target } => {
            let idx = owned_indices_spec(units, player, ids@);
            Seq::new(
                units.len(),
                |i: int|
                    {
                        let j = last_occurrence(idx, i, idx.len() as int);
                        if j >= 0 {
                            with_target(units[i], Some(move_dest(w, target, j, idx.len() as int)))
                        } else {
                            units[i]
                        }
                    },
            )
        },
        Command::Stop { units: ids } => {
            let idx = owned_indices_spec(units, player, ids@);
            Seq::new(
                units.len(),
                |i: int|
                    if idx.contains(i) {
                        with_target(units[i], None)
                    } else {
                        units[i]
                    },
            )
        },
    }
}

/// What an order does and does not change: units keep their ids, owners and positions;
/// units that `player` does not own, or that the order does not list, keep their
/// destination; a move gives a destination to every listed unit of `player`, a stop takes
/// it away.
pub proof fn lemma_applied_units(w: int, units: Seq<Unit>, player: PlayerId, command: Command)
    requires
        ids_sorted(units),
    ensures
        applied_units(w, units, player, command).len() == units.len(),
        forall|i: int|
            0 <= i < units.len() ==> {
                let u = #[trigger] applied_units(w, units, player, command)[i];
                &&& u.id == units[i].id
                &&& u.owner == units[i].owner
                &&& u.pos == units[i].pos
                &&& units[i].owner != player ==> u == units[i]
                &&& match command {
                    Command::Move { units: ids, target } => if ids@.contains(units[i].id) && units[i].owner
                        == player {
                        u.target is Some
                    } else {
                        u == units[i]
                    },
                    Command::Stop { units: ids } => if ids@.contains(units[i].id) && units[i].owner
                        == player {
                        u.target is None
                    } else {
                        u == units[i]
                    },
                }
            },
{
    let ids = match command {
        Command::Move { units: ids, .. } => ids@,
        Command::Stop { units: ids } => ids@,
    };
    let idx = owned_indices_spec(units, player, ids);
    let after = applied_units(w, units, player, command);
    assert forall|i: int| 0 <= i < units.len() implies {
        let u = #[trigger] after[i];
        &&& u.id == units[i].id
        &&& u.owner == units[i].owner
        &&& u.pos == units[i].pos
        &&& units[i].owner != player ==> u == units[i]
        &&& (ids.contains(units[i].id) && units[i].owner == player) ==> match command {
            Command::Move { .. } => u.target is Some,
            Command::Stop { .. } => u.target is None,
        }
        &&& !(ids.contains(units[i].id) && units[i].owner == player) ==> u == units[i]
    } by {
        lemma_owned_indices_contains(units, player, ids, i);
        lemma_last_occurrence(idx, i, idx.len() as int);
        assert(idx.subrange(0, idx.len() as int) =~= idx);
    }
}

/// Two lists of units with the same ids and owners, in the same order.
pub open spec fn same_roster(a: Seq<Unit>, b: Seq<Unit>) -> bool {
    &&& a.len() == b.len()
    &&& forall|i: int| 0 <= i < a.len() ==> #[trigger] a[i].id == b[i].id && a[i].owner == b[i].owner
}

/// Which units an order reaches depends only on the ids and owners of the units.
pub proof fn lemma_owned_indices_same_roster(a: Seq<Unit>, b: Seq<Unit>, player: PlayerId, ids: Seq<UnitId>)
    requires
        ids_sorted(a),
        same_roster(a, b),
    ensures
        owned_indices_spec(a, player, ids) == owned_indices_spec(b, player, ids),
    decreases ids.len(),
{
    if ids.len() > 0 {
        lemma_owned_indices_same_roster(a, b, player, ids.drop_last());
        let id = ids.last();
        assert(ids_sorted(b)) by {
            assert forall|i: int, j: int| 0 <= i < j < b.len() implies b[i].id.0 < b[j].id.0 by {
                assert(a[i].id == b[i].id);
                assert(a[j].id == b[j].id);
            }
        }
        if exists|i: int| 0 <= i < a.len() && a[i].id == id {
            let i = choose|i: int| 0 <= i < a.len() && a[i].id == id;
            lemma_index_of_id(a, id, i);
            assert(b[i].id == id);
            lemma_index_of_id(b, id, i);
        } else {
            assert forall|i: int| 0 <= i < b.len() implies b[i].id != id by {
                assert(a[i].id == b[i].id);
            }
        }
    }
}

/// An order keeps the ids and owners of the units.
pub proof fn lemma_applied_units_roster(w: int, units: Seq<Unit>, player: PlayerId, command: Command)
    requires
        ids_sorted(units),
    ensures
        same_roster(units, applied_units(w, units, player, command)),
        ids_sorted(applied_units(w, units, player, command)),
{
    lemma_applied_units(w, units, player, command);
    let after = applied_units(w, units, player, command);
    assert forall|i: int| 0 <= i < units.len() implies #[trigger] units[i].id == after[i].id
        && units[i].owner == after[i].owner by {
        assert(after[i].id == units[i].id);
    }
    assert forall|i: int, j: int| 0 <= i < j < after.len() implies after[i].id.0 < after[j].id.0 by {
        assert(after[i].id == units[i].id);
        assert(after[j].id == units[j].id);
    }
}

/// The destinations of a move order fit the arithmetic: the offset of every slot can be
/// added to the target, and the units fit in a list of ids.
pub open spec fn move_fits(target: FxVec2, n: int) -> bool {
    &&& n < id_list_limit()
    &&& forall|j: int|
        0 <= j < n ==> fits_i64(target.x@ + (#[trigger] formation_offset_spec(j, n)).x@) && fits_i64(
            target.z@ + formation_offset_spec(j, n).z@,
        )
}

/// `command` from `player` can be applied to `units` without overflow.
pub open spec fn command_fits(units: Seq<Unit>, player: PlayerId, command: Command) -> bool {
    match command {
        Command::Move { units: ids, target } => move_fits(
            target,
            owned_indices_spec(units, player, ids@).len() as int,
        ),
        Command::Stop { .. } => true,
    }
}

/// A unit after one tick: a unit closer to its destination than one tick of travel
/// arrives and stops; one further away moves one tick of travel towards it.
pub open spec fn stepped_unit(u: Unit) -> Unit {
    match u.target {
        None => u,
        Some(t) => {
            let delta = t.minus(u.pos);
            let distance = delta.length_spec();
            if distance@ <= unit_speed_raw() {
                Unit { id: u.id, owner: u.owner, pos: t, target: None }
            } else {
                Unit {
                    id: u.id,
                    owner: u.owner,
                    pos: u.pos.plus(delta.scaled(Fx::of(unit_speed_raw()).over(distance))),
                    target: u.target,
                }
            }
        },
    }
}

pub open spec fn stepped_units(units: Seq<Unit>) -> Seq<Unit> {
    units.map_values(|u: Unit| stepped_unit(u))
}

/// Scaling by a factor in `[0, 1]` moves a raw value towards 0, without passing it.
pub proof fn lemma_scale_between(d: int, f: int)
    requires
        abs(d) <= 0x4000_0000_0000_0000,
        0 <= f <= fx_one(),
    ensures
        fx_mul(d, f) == (d * f) / fx_one(),
        d >= 0 ==> 0 <= fx_mul(d, f) <= d,
        d < 0 ==> d <= fx_mul(d, f) <= 0,
{
    if d >= 0 {
        assert(0 <= d * f <= d * fx_one()) by (nonlinear_arith)
            requires
                d >= 0,
                0 <= f <= fx_one(),
        ;
        lemma_floor_div_bounds(d * f, 0, d, fx_one());
    } else {
        assert(d * fx_one() <= d * f <= 0) by (nonlinear_arith)
            requires
                d < 0,
                0 <= f <= fx_one(),
        ;
        lemma_floor_div_bounds(d * f, d, 0, fx_one());
    }
}

/// One tick of a unit keeps it, and its destination, on the map.
proof fn lemma_stepped_unit_on_map(w: int, u: Unit)
    requires
        0 <= w <= 0x2_0000_0000_0000,
        unit_on_map(w, u),
    ensures
        unit_on_map(w, stepped_unit(u)),
        stepped_unit(u).id == u.id,
        stepped_unit(u).owner == u.owner,
        u.target matches Some(t) ==> {
            let delta = t.minus(u.pos);
            &&& fits_i64(t.x@ - u.pos.x@)
            &&& fits_i64(t.z@ - u.pos.z@)
            &&& delta.length_spec()@ == floor_sqrt(delta.norm_sq())
            &&& 0 <= delta.length_spec()@
            &&& delta.length_spec()@ > unit_speed_raw() ==> {
                let f = Fx::of(unit_speed_raw()).over(delta.length_spec());
                &&& 0 <= f@ <= fx_one()
                &&& fits_i64(u.pos.x@ + delta.scaled(f).x@)
                &&& fits_i64(u.pos.z@ + delta.scaled(f).z@)
            }
        },
{
    if let Some(t) = u.target {
        let delta = t.minus(u.pos);
        assert(delta.x@ == t.x@ - u.pos.x@);
        assert(delta.z@ == t.z@ - u.pos.z@);
        let n = delta.norm_sq();
        let b = 0x4_0000_0000_0000int;
        assert(0 <= n <= b * b) by (nonlinear_arith)
            requires
                n == delta.x@ * delta.x@ + delta.z@ * delta.z@,
                abs(delta.x@) <= 0x2_0000_0000_0000,
                abs(delta.z@) <= 0x2_0000_0000_0000,
                b == 0x4_0000_0000_0000int,
        ;
        lemma_floor_sqrt_exists(n);
        lemma_floor_sqrt_unique(floor_sqrt_witness(n), n);
        lemma_floor_sqrt_bound(floor_sqrt(n), n, b);
        let d = floor_sqrt(n);
        assert(delta.length_spec()@ == d);
        if d > unit_speed_raw() {
            let s = unit_speed_raw();
            assert(s == 858993459) by {
                lemma_fundamental_div_mod_converse(fx_one(), 5, 858993459, 1);
            }
            assert(Fx::of(s)@ == s);
            // s / d, rounded toward zero, lies in [0, 1).
            assert(0 <= s * fx_one() < fx_one() * d) by (nonlinear_arith)
                requires
                    0 < s < d,
            ;
            lemma_floor_div_bounds(s * fx_one(), 0, fx_one() - 1, d);
            let f = Fx::of(s).over(delta.length_spec());
            assert(f@ == (s * fx_one()) / d);
            lemma_scale_between(delta.x@, f@);
            lemma_scale_between(delta.z@, f@);
        }
    }
}

/// Each tick, a unit with a destination arrives there, or gets strictly closer to it: the
/// square of its distance, a whole number of raw units, decreases. So every move order
/// ends with the unit at its destination.
pub proof fn lemma_step_approaches_target(w: int, u: Unit)
    requires
        0 <= w <= 0x2_0000_0000_0000,
        unit_on_map(w, u),
        u.target is Some,
    ensures
        ({
            let t = u.target->0;
            let u1 = stepped_unit(u);
            &&& u1.target is None ==> u1.pos == t
            &&& u1.target is Some ==> u1.target == u.target && t.minus(u1.pos).norm_sq() < t.minus(
                u.pos,
            ).norm_sq()
        }),
{
    lemma_stepped_unit_on_map(w, u);
    let t = u.target->0;
    let delta = t.minus(u.pos);
    let d = delta.length_spec()@;
    let s = unit_speed_raw();
    if d > s {
        let dx = delta.x@;
        let dz = delta.z@;
        assert(s == 858993459) by {
            lemma_fundamental_div_mod_converse(fx_one(), 5, 858993459, 1);
        }
        let f = Fx::of(s).over(delta.length_spec())@;
        assert(f == (s * fx_one()) / d);
        lemma_fundamental_div_mod(s * fx_one(), d);
        let rem = (s * fx_one()) % d;
        assert(f * d <= s * fx_one() < (f + 1) * d) by (nonlinear_arith)
            requires
                s * fx_one() == d * f + rem,
                0 <= rem < d,
        ;
        let n = delta.norm_sq();
        assert(n >= 0) by (nonlinear_arith)
            requires
                n == dx * dx + dz * dz,
        ;
        lemma_floor_sqrt_exists(n);
        lemma_floor_sqrt_unique(floor_sqrt_witness(n), n);
        assert(d * d <= n);
        lemma_scale_between(dx, f);
        lemma_scale_between(dz, f);
        let mx = fx_mul(dx, f);
        let mz = fx_mul(dz, f);
        let m = if abs(dx) >= abs(dz) { abs(dx) } else { abs(dz) };
        // The distance is at most twice the larger coordinate...
        assert(d <= 2 * m) by (nonlinear_arith)
            requires
                d * d <= dx * dx + dz * dz,
                m == abs(dx) || m == abs(dz),
                abs(dx) <= m,
                abs(dz) <= m,
                d >= 0,
                m >= 0,
        ;
        // ... so that coordinate moves by at least one raw unit.
        assert(m * f >= fx_one()) by (nonlinear_arith)
            requires
                s * fx_one() < (f + 1) * d,
                d <= 2 * m,
                d <= 0x4_0000_0000_0000,
                f >= 0,
                m >= 0,
                s == 858993459,
        ;
        let u1 = stepped_unit(u);
        assert(t.minus(u1.pos).x@ == dx - mx);
        assert(t.minus(u1.pos).z@ == dz - mz);
        if abs(dx) >= abs(dz) {
            lemma_floor_div_bounds_strict_move(dx, f);
        } else {
            lemma_floor_div_bounds_strict_move(dz, f);
        }
        assert((dx - mx) * (dx - mx) <= dx * dx) by (nonlinear_arith)
            requires
                dx >= 0 ==> 0 <= mx <= dx,
                dx < 0 ==> dx <= mx <= 0,
        ;
        assert((dz - mz) * (dz - mz) <= dz * dz) by (nonlinear_arith)
            requires
                dz >= 0 ==> 0 <= mz <= dz,
                dz < 0 ==> dz <= mz <= 0,
        ;
        if abs(dx) >= abs(dz) {
            assert((dx - mx) * (dx - mx) < dx * dx) by (nonlinear_arith)
                requires
                    dx > 0 ==> 1 <= mx <= dx,
                    dx < 0 ==> dx <= mx <= -1,
                    dx != 0,
            ;
        } else {
            assert((dz - mz) * (dz - mz) < dz * dz) by (nonlinear_arith)
                requires
                    dz > 0 ==> 1 <= mz <= dz,
                    dz < 0 ==> dz <= mz <= -1,
                    dz != 0,
            ;
        }
    }
}

/// A coordinate `v` scaled by `f` with `|v| f >= 1` (in raw units) moves by at least one
/// raw unit.
proof fn lemma_floor_div_bounds_strict_move(v: int, f: int)
    requires
        abs(v) <= 0x4000_0000_0000_0000,
        0 <= f <= fx_one(),
        abs(v) * f >= fx_one(),
    ensures
        v != 0,
        v > 0 ==> 1 <= fx_mul(v, f) <= v,
        v < 0 ==> v <= fx_mul(v, f) <= -1,
{
    lemma_scale_between(v, f);
    if v > 0 {
        lemma_floor_div_bounds(v * f, 1, v, fx_one());
    } else if v < 0 {
        assert(v * f <= -fx_one()) by (nonlinear_arith)
            requires
                v < 0,
                (-v) * f >= fx_one(),
        ;
        assert(v * f >= v * fx_one()) by (nonlinear_arith)
            requires
                v < 0,
                f <= fx_one(),
        ;
        lemma_floor_div_bounds(v * f, v, -1, fx_one());
    } else {
        assert(abs(v) * f == 0);
    }
}

/// `v` lies between `a` and `b`, both included.
pub open spec fn between(a: int, b: int, v: int) -> bool {
    if a <= b {
        a <= v <= b
    } else {
        b <= v <= a
    }
}

/// A unit never overshoots its destination: each coordinate of its position after a tick
/// lies between the one before and the destination's.
pub proof fn lemma_step_never_overshoots(w: int, u: Unit)
    requires
        0 <= w <= 0x2_0000_0000_0000,
        unit_on_map(w, u),
        u.target is Some,
    ensures
        between(u.pos.x@, u.target->0.x@, stepped_unit(u).pos.x@),
        between(u.pos.z@, u.target->0.z@, stepped_unit(u).pos.z@),
{
    lemma_stepped_unit_on_map(w, u);
    let t = u.target->0;
    let delta = t.minus(u.pos);
    let distance = delta.length_spec();
    if distance@ > unit_speed_raw() {
        let f = Fx::of(unit_speed_raw()).over(distance);
        assert(delta.x@ == t.x@ - u.pos.x@);
        assert(delta.z@ == t.z@ - u.pos.z@);
        lemma_scale_between(delta.x@, f@);
        lemma_scale_between(delta.z@, f@);
    }
}

/// Distance from a unit to its destination, in raw units (0 without one), as a tick
/// computes it.
pub open spec fn distance_to_target(u: Unit) -> int {
    match u.target {
        Some(t) => t.minus(u.pos).length_spec()@,
        None => 0,
    }
}

/// How much rounding can shorten a tick of travel, in raw units, at distance `d`.
pub open spec fn step_slack(d: int) -> int {
    d / fx_one() + 3
}

proof fn lemma_square_of_sum(x: int, y: int)
    ensures
        (x + y) * (x + y) == x * x + 2 * (x * y) + y * y,
{
    assert((x + y) * (x + y) == x * x + 2 * (x * y) + y * y) by (nonlinear_arith);
}

proof fn lemma_square_of_product(x: int, y: int)
    ensures
        (x * y) * (x * y) == (y * y) * (x * x),
{
    assert((x * y) * (x * y) == (y * y) * (x * x)) by (nonlinear_arith);
}

proof fn lemma_product_rotate(x: int, y: int, z: int)
    ensures
        (x * y) * z == (y * z) * x,
{
    assert((x * y) * z == (y * z) * x) by (nonlinear_arith);
}

/// After moving by `dx * f` (rounded down), what is left of a coordinate `dx` is at most
/// `|dx| (1 - f)`, plus one raw unit.
proof fn lemma_left_after_move(dx: int, f: int)
    requires
        abs(dx) <= 0x4000_0000_0000_0000,
        0 <= f <= fx_one(),
    ensures
        abs(dx - fx_mul(dx, f)) * fx_one() <= abs(dx) * (fx_one() - f) + fx_one(),
{
    lemma_scale_between(dx, f);
    let one = fx_one();
    let m = (dx * f) / one;
    lemma_fundamental_div_mod(dx * f, one);
    let r = (dx * f) % one;
    assert(dx * f == one * m + r);
    if dx >= 0 {
        assert((dx - m) * one <= dx * (one - f) + one) by (nonlinear_arith)
            requires
                dx * f == one * m + r,
                0 <= r < one,
        ;
    } else {
        assert((m - dx) * one <= (-dx) * (one - f) + one) by (nonlinear_arith)
            requires
                dx * f == one * m + r,
                0 <= r < one,
        ;
    }
}

/// A unit further from its destination than a tick of travel gets closer by a tick of
/// travel, less a rounding slack, and keeps its destination.
pub proof fn lemma_step_covers_speed(w: int, u: Unit)
    requires
        0 <= w <= 0x2_0000_0000_0000,
        unit_on_map(w, u),
        u.target is Some,
        distance_to_target(u) > unit_speed_raw(),
    ensures
        stepped_unit(u).target == u.target,
        unit_on_map(w, stepped_unit(u)),
        0 <= distance_to_target(stepped_unit(u)) <= distance_to_target(u) - unit_speed_raw()
            + step_slack(distance_to_target(u)),
{
    lemma_stepped_unit_on_map(w, u);
    let t = u.target->0;
    let delta = t.minus(u.pos);
    let d = delta.length_spec()@;
    let s = unit_speed_raw();
    let one = fx_one();
    let dx = delta.x@;
    let dz = delta.z@;
    assert(s == 858993459) by {
        lemma_fundamental_div_mod_converse(fx_one(), 5, 858993459, 1);
    }
    let f = Fx::of(s).over(delta.length_spec())@;
    assert(f == (s * fx_one()) / d);
    lemma_fundamental_div_mod(s * fx_one(), d);
    let rem = (s * fx_one()) % d;
    assert(f * d <= s * one < (f + 1) * d) by (nonlinear_arith)
        requires
            s * one == d * f + rem,
            0 <= rem < d,
    ;
    let n = delta.norm_sq();
    assert(n >= 0) by (nonlinear_arith)
        requires
            n == dx * dx + dz * dz,
    ;
    lemma_floor_sqrt_exists(n);
    lemma_floor_sqrt_unique(floor_sqrt_witness(n), n);
    assert(d * d <= n < (d + 1) * (d + 1));
    let u1 = stepped_unit(u);
    lemma_stepped_unit_on_map(w, u1);
    let delta1 = t.minus(u1.pos);
    let dx1 = delta1.x@;
    let dz1 = delta1.z@;
    assert(dx1 == dx - fx_mul(dx, f));
    assert(dz1 == dz - fx_mul(dz, f));
    lemma_left_after_move(dx, f);
    lemma_left_after_move(dz, f);
    let a = abs(dx);
    let b = abs(dz);
    let aa = abs(dx1);
    let bb = abs(dz1);
    let g = one - f;
    let n1 = delta1.norm_sq();
    assert(n1 == aa * aa + bb * bb) by (nonlinear_arith)
        requires
            n1 == dx1 * dx1 + dz1 * dz1,
            aa == abs(dx1),
            bb == abs(dz1),
    ;
    assert(n == a * a + b * b) by (nonlinear_arith)
        requires
            n == dx * dx + dz * dz,
            a == abs(dx),
            b == abs(dz),
    ;
    // Each coordinate is at most the distance.
    assert(a <= d && b <= d) by (nonlinear_arith)
        requires
            a * a + b * b < (d + 1) * (d + 1),
            a >= 0,
            b >= 0,
            d >= 0,
    ;
    assert((aa * one) * (aa * one) <= (a * g + one) * (a * g + one)) by (nonlinear_arith)
        requires
            0 <= aa * one <= a * g + one,
            aa >= 0,
    ;
    assert((bb * one) * (bb * one) <= (b * g + one) * (b * g + one)) by (nonlinear_arith)
        requires
            0 <= bb * one <= b * g + one,
            bb >= 0,
    ;
    let c = g * (d + 1) + 2 * one;
    let xx = aa * one;
    let yy = bb * one;
    let pp = a * g + one;
    let qq = b * g + one;
    assert(n1 * (one * one) == xx * xx + yy * yy) by (nonlinear_arith)
        requires
            n1 == aa * aa + bb * bb,
            xx == aa * one,
            yy == bb * one,
    ;
    assert(pp * pp + qq * qq == (g * g) * (a * a + b * b) + 2 * ((g * one) * (a + b)) + 2 * (
    one * one)) by {
        lemma_square_of_sum(a * g, one);
        lemma_square_of_sum(b * g, one);
        lemma_square_of_product(a, g);
        lemma_square_of_product(b, g);
        lemma_product_rotate(a, g, one);
        lemma_product_rotate(b, g, one);
        assert((g * g) * (a * a + b * b) == (g * g) * (a * a) + (g * g) * (b * b)) by (nonlinear_arith);
        assert((g * one) * (a + b) == (g * one) * a + (g * one) * b) by (nonlinear_arith);
    }
    let gg = g * g;
    let nn = a * a + b * b;
    let dd = (d + 1) * (d + 1);
    assert(gg * nn <= gg * dd) by (nonlinear_arith)
        requires
            nn < dd,
            gg >= 0,
    ;
    assert(gg >= 0) by (nonlinear_arith)
        requires
            gg == g * g,
    ;
    let go = g * one;
    assert(go >= 0) by (nonlinear_arith)
        requires
            go == g * one,
            g >= 0,
            one > 0,
    ;
    assert(2 * (go * (a + b)) <= 4 * (go * (d + 1))) by (nonlinear_arith)
        requires
            go >= 0,
            0 <= a <= d,
            0 <= b <= d,
    ;
    assert(c * c == gg * dd + 4 * (go * (d + 1)) + 4 * (one * one)) by (nonlinear_arith)
        requires
            c == g * (d + 1) + 2 * one,
            gg == g * g,
            dd == (d + 1) * (d + 1),
            go == g * one,
    ;
    assert(n1 * (one * one) < c * c);
    let q = d / one;
    lemma_fundamental_div_mod(d, one);
    let k = d - s + step_slack(d) + 1;
    assert(c < k * one) by (nonlinear_arith)
        requires
            c == g * (d + 1) + 2 * one,
            g == one - f,
            s * one < (f + 1) * d,
            0 <= f <= one,
            d == one * q + d % one,
            0 <= d % one < one,
            k == d - s + q + 4,
            one > 0,
    {
        assert(g * d < one * d - s * one + d);
        assert(g * (d + 1) <= g * d + one);
        assert(d < one * (q + 1));
    }
    assert(k > 0);
    assert(n1 < k * k) by (nonlinear_arith)
        requires
            n1 * (one * one) < c * c,
            0 <= c < k * one,
            one > 0,
            k > 0,
            n1 >= 0,
    {
        assert(c * c < (k * one) * (k * one));
        assert((k * one) * (k * one) == (k * k) * (one * one));
    }
    lemma_floor_sqrt_exists(n1);
    lemma_floor_sqrt_unique(floor_sqrt_witness(n1), n1);
    let d1 = floor_sqrt(n1);
    assert(d1 < k) by (nonlinear_arith)
        requires
            d1 * d1 <= n1 < k * k,
            d1 >= 0,
            k > 0,
    ;
}

/// The unit after `k` ticks with no order in between.
pub open spec fn stepped_unit_n(u: Unit, k: nat) -> Unit
    decreases k,
{
    if k == 0 {
        u
    } else {
        stepped_unit_n(stepped_unit(u), (k - 1) as nat)
    }
}

/// One more tick after `k` ticks is the tick of the unit after `k` ticks.
pub proof fn lemma_stepped_unit_n_last(u: Unit, k: nat)
    ensures
        stepped_unit_n(u, k + 1) == stepped_unit(stepped_unit_n(u, k)),
    decreases k,
{
    let u1 = stepped_unit(u);
    assert(stepped_unit_n(u, k + 1) == stepped_unit_n(u1, k));
    if k > 0 {
        lemma_stepped_unit_n_last(u1, (k - 1) as nat);
        assert(stepped_unit_n(u, k) == stepped_unit_n(u1, (k - 1) as nat));
    } else {
        assert(stepped_unit_n(u1, 0) == u1);
    }
}

/// A unit without destination stays where it is.
proof fn lemma_stopped_stays(u: Unit, k: nat)
    requires
        u.target is None,
    ensures
        stepped_unit_n(u, k) == u,
    decreases k,
{
    if k > 0 {
        lemma_stopped_stays(stepped_unit(u), (k - 1) as nat);
    }
}

/// With a rounding slack of at most `e` per tick, `k` ticks bring the unit to its
/// destination when `k - 1` ticks of travel, less that slack, cover the distance beyond
/// the last tick.
proof fn lemma_arrives_with_slack(w: int, u: Unit, k: nat, e: int)
    requires
        0 <= w <= 0x2_0000_0000_0000,
        unit_on_map(w, u),
        u.target is Some,
        step_slack(distance_to_target(u)) <= e < unit_speed_raw(),
        k >= 1,
        (k - 1) * (unit_speed_raw() - e) >= distance_to_target(u) - unit_speed_raw(),
    ensures
        stepped_unit_n(u, k).pos == u.target->0,
        stepped_unit_n(u, k).target is None,
    decreases k,
{
    lemma_stepped_unit_on_map(w, u);
    let d = distance_to_target(u);
    let s = unit_speed_raw();
    let u1 = stepped_unit(u);
    if d <= s {
        lemma_stopped_stays(u1, (k - 1) as nat);
    } else {
        lemma_step_covers_speed(w, u);
        let d1 = distance_to_target(u1);
        assert(k >= 2) by (nonlinear_arith)
            requires
                (k - 1) * (s - e) >= d - s,
                d > s,
                e < s,
                k >= 1,
        ;
        vstd::arithmetic::div_mod::lemma_div_is_ordered(d1, d, fx_one());
        assert((k - 2) * (s - e) == (k - 1) * (s - e) - (s - e)) by (nonlinear_arith);
        lemma_arrives_with_slack(w, u1, (k - 1) as nat, e);
    }
}

/// Every move order ends: a unit at distance `d` from its destination stands there,
/// stopped, after any number of ticks from `d / speed + 2` on, on maps up to 256 m wide.
pub proof fn lemma_move_arrives(w: int, u: Unit, k: nat)
    requires
        0 <= w <= 0x100_0000_0000,
        unit_on_map(w, u),
        u.target is Some,
        k >= distance_to_target(u) / unit_speed_raw() + 2,
    ensures
        stepped_unit_n(u, k).pos == u.target->0,
        stepped_unit_n(u, k).target is None,
{
    lemma_stepped_unit_on_map(w, u);
    let t = u.target->0;
    let delta = t.minus(u.pos);
    let dx = delta.x@;
    let dz = delta.z@;
    let n = delta.norm_sq();
    let d = distance_to_target(u);
    let s = unit_speed_raw();
    assert(s == 858993459) by {
        lemma_fundamental_div_mod_converse(fx_one(), 5, 858993459, 1);
    }
    assert(0 <= n <= 0x200_0000_0000 * 0x200_0000_0000) by (nonlinear_arith)
        requires
            n == dx * dx + dz * dz,
            -0x100_0000_0000 <= dx <= 0x100_0000_0000,
            -0x100_0000_0000 <= dz <= 0x100_0000_0000,
    ;
    lemma_floor_sqrt_exists(n);
    lemma_floor_sqrt_unique(floor_sqrt_witness(n), n);
    lemma_floor_sqrt_bound(d, n, 0x200_0000_0000);
    let e = 515int;
    lemma_floor_div_bounds(d, 0, 0x200, fx_one());
    let q = d / s;
    lemma_fundamental_div_mod(d, s);
    lemma_floor_div_bounds(d, 0, 2561, s);
    assert((k - 1) * (s - e) >= d - s) by (nonlinear_arith)
        requires
            k >= q + 2,
            d == s * q + d % s,
            0 <= d % s < s,
            0 <= q <= 2561,
            s == 858993459,
            e == 515,
    {
        assert((k - 1) * (s - e) >= (q + 1) * (s - e));
        assert((q + 1) * e <= 2562 * 515);
    }
    lemma_arrives_with_slack(w, u, k, e);
}

/// Ticks with no order in between move every unit as that many ticks of its own.
/// `states` are the simulation after each tick, as [`Sim::step`] states it.
pub proof fn lemma_ticks_move_each_unit(states: Seq<Sim>, k: nat)
    requires
        states.len() == k + 1,
        forall|i: int| #![trigger states[i]] 0 <= i < k ==> states[i].moved_by(states[i + 1], None),
    ensures
        states[k as int].spec_units().len() == states[0].spec_units().len(),
        forall|j: int|
            0 <= j < states[0].spec_units().len() ==> #[trigger] states[k as int].spec_units()[j]
                == stepped_unit_n(states[0].spec_units()[j], k),
    decreases k,
{
    if k > 0 {
        let head = states.subrange(0, k as int);
        assert forall|i: int| #![trigger head[i]] 0 <= i < k - 1 implies head[i].moved_by(
            head[i + 1],
            None,
        ) by {
            assert(head[i] == states[i]);
            assert(states[i].moved_by(states[i + 1], None));
        }
        lemma_ticks_move_each_unit(head, (k - 1) as nat);
        assert(head[k - 1] == states[k - 1]);
        assert(head[0] == states[0]);
        assert(states[k - 1].moved_by(states[k as int], None));
        assert forall|j: int| 0 <= j < states[0].spec_units().len() implies #[trigger] states[
            k as int].spec_units()[j] == stepped_unit_n(states[0].spec_units()[j], k) by {
            lemma_stepped_unit_n_last(states[0].spec_units()[j], (k - 1) as nat);
            assert(head[k - 1].spec_units()[j] == stepped_unit_n(
                states[0].spec_units()[j],
                (k - 1) as nat,
            ));
        }
    }
}

/// Every move order ends: after `d / speed + 2` ticks or more with no order in between,
/// a unit that was at distance `d` from its destination stands there, stopped. `states`
/// are the simulation after each tick, starting from one that every simulation of the
/// game's map can be.
pub proof fn lemma_ticks_bring_unit_home(states: Seq<Sim>, k: nat, j: int)
    requires
        states.len() == k + 1,
        states[0].wf(),
        states[0].world_raw() <= 0x100_0000_0000,
        forall|i: int| #![trigger states[i]] 0 <= i < k ==> states[i].moved_by(states[i + 1], None),
        0 <= j < states[0].spec_units().len(),
        states[0].spec_units()[j].target is Some,
        k >= distance_to_target(states[0].spec_units()[j]) / unit_speed_raw() + 2,
    ensures
        states[k as int].spec_units()[j].pos == states[0].spec_units()[j].target->0,
        states[k as int].spec_units()[j].target is None,
{
    lemma_ticks_move_each_unit(states, k);
    let u = states[0].spec_units()[j];
    assert(unit_on_map(states[0].world_raw(), u));
    lemma_move_arrives(states[0].world_raw(), u, k);
}

/// The units of an order's or a tick's result stay in id order, with their ids and owners.
proof fn lemma_stepped_units_roster(units: Seq<Unit>)
    requires
        ids_sorted(units),
    ensures
        same_roster(units, stepped_units(units)),
        ids_sorted(stepped_units(units)),
{
    let after = stepped_units(units);
    assert forall|i: int| 0 <= i < units.len() implies #[trigger] units[i].id == after[i].id
        && units[i].owner == after[i].owner by {
        assert(after[i] == stepped_unit(units[i]));
    }
    assert forall|i: int, j: int| 0 <= i < j < after.len() implies after[i].id.0 < after[j].id.0 by {
        assert(after[i] == stepped_unit(units[i]));
        assert(after[j] == stepped_unit(units[j]));
    }
}

/// The map never changes during a game, and neither does the roster: the same units, with
/// the same ids and owners, in id order. `states` are the simulation after each of
/// `moves`, an order (`Some`, as [`Sim::apply`] states it) or a tick (`None`, as
/// [`Sim::step`] states it).
pub proof fn lemma_map_and_roster_never_change(states: Seq<Sim>, moves: Seq<Option<(PlayerId, Command)>>)
    requires
        states.len() == moves.len() + 1,
        ids_sorted(states[0].spec_units()),
        forall|i: int|
            #![trigger moves[i]]
            0 <= i < moves.len() ==> states[i].moved_by(states[i + 1], moves[i]),
    ensures
        forall|i: int|
            0 <= i < states.len() ==> {
                &&& (#[trigger] states[i]).spec_terrain() == states[0].spec_terrain()
                &&& same_roster(states[0].spec_units(), states[i].spec_units())
                &&& ids_sorted(states[i].spec_units())
            },
    decreases moves.len(),
{
    if moves.len() > 0 {
        let n = moves.len() - 1;
        let head = states.subrange(0, n + 1);
        let head_moves = moves.subrange(0, n);
        assert forall|i: int|
            #![trigger head_moves[i]]
            0 <= i < head_moves.len() implies head[i].moved_by(head[i + 1], head_moves[i]) by {
            assert(moves[i] == head_moves[i]);
        }
        lemma_map_and_roster_never_change(head, head_moves);
        let before = states[n];
        let after = states[n + 1];
        assert(head[n] == before);
        assert(moves[n] == moves[n]);
        assert(before.moved_by(after, moves[n]));
        match moves[n] {
            Some((p, c)) => lemma_applied_units_roster(
                before.world_raw(),
                before.spec_units(),
                p,
                c,
            ),
            None => lemma_stepped_units_roster(before.spec_units()),
        }
        assert forall|i: int| 0 <= i < states.len() implies {
            &&& (#[trigger] states[i]).spec_terrain() == states[0].spec_terrain()
            &&& same_roster(states[0].spec_units(), states[i].spec_units())
            &&& ids_sorted(states[i].spec_units())
        } by {
            if i <= n {
                assert(head[i] == states[i]);
            } else {
                assert(states[0] == head[0]);
                let u0 = states[0].spec_units();
                assert forall|k: int| 0 <= k < u0.len() implies #[trigger] u0[k].id
                    == after.spec_units()[k].id && u0[k].owner == after.spec_units()[k].owner by {
                    assert(u0[k].id == before.spec_units()[k].id);
                }
            }
        }
    }
}

pub open spec fn fnv_offset_basis() -> u64 {
    0xcbf2_9ce4_8422_2325
}

pub open spec fn fnv_prime() -> u64 {
    0x0000_0100_0000_01b3
}

/// FNV-1a state after hashing the first `k` little-endian bytes of `w` into `h`.
pub open spec fn fnv_bytes(h: u64, w: u64, k: nat) -> u64
    decreases k,
{
    if k == 0 {
        h
    } else {
        let prev = fnv_bytes(h, w, (k - 1) as nat);
        (prev ^ ((w >> (8 * (k - 1)) as u64) & 0xff)).wrapping_mul(fnv_prime())
    }
}

/// FNV-1a state after hashing the words `ws`, each as 8 little-endian bytes.
pub open spec fn fnv_words(h: u64, ws: Seq<u64>) -> u64
    decreases ws.len(),
{
    if ws.len() == 0 {
        h
    } else {
        fnv_bytes(fnv_words(h, ws.drop_last()), ws.last(), 8)
    }
}

/// The words that stand for a unit in the checksum.
pub open spec fn unit_words(u: Unit) -> Seq<u64> {
    seq![u.id.0 as u64, u.owner as u64, u.pos.x@ as u64, u.pos.z@ as u64] + match u.target {
        None => seq![0u64],
        Some(t) => seq![1u64, t.x@ as u64, t.z@ as u64],
    }
}

pub open spec fn units_words(units: Seq<Unit>) -> Seq<u64>
    decreases units.len(),
{
    if units.len() == 0 {
        Seq::empty()
    } else {
        units_words(units.drop_last()) + unit_words(units.last())
    }
}

/// The words that stand for the map in the checksum: its size, then every vertex
/// height, row by row.
pub open spec fn terrain_words(terrain: Terrain) -> Seq<u64> {
    seq![terrain.spec_size() as u64] + terrain.spec_heights().map_values(|h: Fx| h@ as u64)
}

/// The words hashed for a simulation state: the tick, every field of every unit, in
/// order, and the map.
pub open spec fn state_words(tick: int, units: Seq<Unit>, terrain: Terrain) -> Seq<u64> {
    seq![tick as u64] + units_words(units) + terrain_words(terrain)
}

/// FNV-1a hash of the whole simulation state: the tick, every field of every unit, in
/// order, and the map.
pub open spec fn checksum_spec(tick: int, units: Seq<Unit>, terrain: Terrain) -> u64 {
    fnv_words(fnv_offset_basis(), state_words(tick, units, terrain))
}

/// The words of a list of units are those of its first unit, then those of the rest.
proof fn lemma_units_words_front(units: Seq<Unit>)
    requires
        units.len() > 0,
    ensures
        units_words(units) == unit_words(units[0]) + units_words(units.drop_first()),
    decreases units.len(),
{
    if units.len() == 1 {
        assert(units.drop_last() =~= Seq::<Unit>::empty());
        assert(units.drop_first() =~= Seq::<Unit>::empty());
        assert(units_words(Seq::<Unit>::empty()) =~= Seq::<u64>::empty());
        assert(units.last() == units[0]);
        assert(unit_words(units[0]) + Seq::<u64>::empty() =~= unit_words(units[0]));
        assert(Seq::<u64>::empty() + unit_words(units[0]) =~= unit_words(units[0]));
    } else {
        let prev = units.drop_last();
        lemma_units_words_front(prev);
        assert(prev[0] == units[0]);
        assert(units.drop_first().drop_last() =~= prev.drop_first());
        assert(units.drop_first().last() == units.last());
        assert(units_words(units.drop_first()) == units_words(prev.drop_first()) + unit_words(
            units.last(),
        ));
        assert(units_words(units) =~= unit_words(units[0]) + units_words(units.drop_first()));
    }
}

/// The words of a unit, followed by anything, give the unit back, and what follows.
proof fn lemma_unit_words_decode(u: Unit, v: Unit, ru: Seq<u64>, rv: Seq<u64>)
    requires
        unit_words(u) + ru == unit_words(v) + rv,
    ensures
        u == v,
        ru == rv,
{
    let w = unit_words(u) + ru;
    let wv = unit_words(v) + rv;
    assert(w[0] == u.id.0 as u64 && wv[0] == v.id.0 as u64);
    assert(w[1] == u.owner as u64 && wv[1] == v.owner as u64);
    assert(w[2] == u.pos.x@ as u64 && wv[2] == v.pos.x@ as u64);
    assert(w[3] == u.pos.z@ as u64 && wv[3] == v.pos.z@ as u64);
    Fx::lemma_bits_determine(u.pos.x, v.pos.x);
    Fx::lemma_bits_determine(u.pos.z, v.pos.z);
    assert(u.id == v.id);
    assert(u.pos == v.pos);
    match u.target {
        None => {
            assert(w[4] == 0u64);
            match v.target {
                None => {},
                Some(_) => {
                    assert(wv[4] == 1u64);
                },
            }
        },
        Some(tu) => {
            assert(w[4] == 1u64);
            match v.target {
                None => {
                    assert(wv[4] == 0u64);
                },
                Some(tv) => {
                    assert(w[5] == tu.x@ as u64 && wv[5] == tv.x@ as u64);
                    assert(w[6] == tu.z@ as u64 && wv[6] == tv.z@ as u64);
                    Fx::lemma_bits_determine(tu.x, tv.x);
                    Fx::lemma_bits_determine(tu.z, tv.z);
                    assert(tu == tv);
                },
            }
        },
    }
    assert(u == v);
    let n = unit_words(u).len() as int;
    assert(ru =~= w.subrange(n, w.len() as int));
    assert(rv =~= wv.subrange(n, wv.len() as int));
}

/// The words of equally many units, followed by anything, give the units back, and what
/// follows.
proof fn lemma_units_words_decode(a: Seq<Unit>, b: Seq<Unit>, ra: Seq<u64>, rb: Seq<u64>)
    requires
        a.len() == b.len(),
        units_words(a) + ra == units_words(b) + rb,
    ensures
        a == b,
        ra == rb,
    decreases a.len(),
{
    if a.len() == 0 {
        assert(units_words(a) =~= Seq::<u64>::empty());
        assert(units_words(b) =~= Seq::<u64>::empty());
        assert(units_words(a) + ra =~= ra);
        assert(units_words(b) + rb =~= rb);
        assert(a =~= b);
    } else {
        lemma_units_words_front(a);
        lemma_units_words_front(b);
        assert(units_words(a) + ra =~= unit_words(a[0]) + (units_words(a.drop_first()) + ra));
        assert(units_words(b) + rb =~= unit_words(b[0]) + (units_words(b.drop_first()) + rb));
        lemma_unit_words_decode(
            a[0],
            b[0],
            units_words(a.drop_first()) + ra,
            units_words(b.drop_first()) + rb,
        );
        lemma_units_words_decode(a.drop_first(), b.drop_first(), ra, rb);
        assert forall|i: int| 0 <= i < a.len() implies a[i] == b[i] by {
            if i > 0 {
                assert(a[i] == a.drop_first()[i - 1]);
                assert(b[i] == b.drop_first()[i - 1]);
            }
        }
        assert(a =~= b);
    }
}

/// The checksum hashes words from which the whole state can be read back: two states
/// with as many units whose words agree have the same tick, the same units, with the same
/// ids, owners, positions and destinations, and the same map. So a difference anywhere
/// in the state changes what is hashed.
pub proof fn lemma_checksum_words_determine_state(
    t1: int,
    u1: Seq<Unit>,
    m1: Terrain,
    t2: int,
    u2: Seq<Unit>,
    m2: Terrain,
)
    requires
        0 <= t1 <= u64::MAX,
        0 <= t2 <= u64::MAX,
        m1.wf(),
        m2.wf(),
        u1.len() == u2.len(),
        state_words(t1, u1, m1) == state_words(t2, u2, m2),
    ensures
        checksum_spec(t1, u1, m1) == fnv_words(fnv_offset_basis(), state_words(t1, u1, m1)),
        t1 == t2,
        u1 == u2,
        m1.spec_size() == m2.spec_size(),
        m1.spec_heights() == m2.spec_heights(),
{
    let w1 = state_words(t1, u1, m1);
    let w2 = state_words(t2, u2, m2);
    assert(w1[0] == t1 as u64 && w2[0] == t2 as u64);
    let r1 = terrain_words(m1);
    let r2 = terrain_words(m2);
    assert(units_words(u1) + r1 =~= w1.subrange(1, w1.len() as int));
    assert(units_words(u2) + r2 =~= w2.subrange(1, w2.len() as int));
    lemma_units_words_decode(u1, u2, r1, r2);
    assert(r1[0] == m1.spec_size() as u64 && r2[0] == m2.spec_size() as u64);
    let h1 = m1.spec_heights();
    let h2 = m2.spec_heights();
    assert(h1.len() == h2.len());
    assert forall|i: int| 0 <= i < h1.len() implies h1[i] == h2[i] by {
        assert(r1[i + 1] == h1[i]@ as u64);
        assert(r2[i + 1] == h2[i]@ as u64);
        Fx::lemma_bits_determine(h1[i], h2[i]);
    }
    assert(h1 =~= h2);
}

/// Hashing two lists of words in turn hashes their concatenation.
pub proof fn lemma_fnv_words_append(h: u64, a: Seq<u64>, b: Seq<u64>)
    ensures
        fnv_words(fnv_words(h, a), b) == fnv_words(h, a + b),
    decreases b.len(),
{
    if b.len() == 0 {
        assert(a + b =~= a);
    } else {
        lemma_fnv_words_append(h, a, b.drop_last());
        assert((a + b).drop_last() =~= a + b.drop_last());
        assert((a + b).last() == b.last());
    }
}

/// FNV-1a: stable across platforms and Rust versions, unlike `DefaultHasher`.
struct Fnv(u64);

impl Fnv {
    /// Hasher at the FNV-1a offset basis.
    fn new() -> (r: Fnv)
        ensures
            r.0 == fnv_offset_basis(),
    {
        Fnv(0xcbf2_9ce4_8422_2325)
    }

    fn write(&mut self, value: u64)
        ensures
            final(self).0 == fnv_bytes(old(self).0, value, 8),
    {
        // The bytes of `value.to_le_bytes()`, in order.
        let mut k: u64 = 0;
        while k < 8
            invariant
                k <= 8,
                self.0 == fnv_bytes(old(self).0, value, k as nat),
            decreases 8 - k,
        {
            let byte = (value >> (8 * k)) & 0xff;
            self.0 = (self.0 ^ byte).wrapping_mul(0x0000_0100_0000_01b3);
            k += 1;
        }
    }

    /// Hashes the fields of `unit`, in order.
    fn write_unit(&mut self, unit: &Unit)
        ensures
            final(self).0 == fnv_words(old(self).0, unit_words(*unit)),
    {
        let ghost h = self.0;
        let ghost mut words: Seq<u64> = Seq::empty();
        self.write(unit.id.0 as u64);
        proof {
            words = words.push(unit.id.0 as u64);
            assert(words.drop_last() =~= Seq::<u64>::empty());
            assert(fnv_words(h, Seq::<u64>::empty()) == h);
            assert(words.last() == unit.id.0 as u64);
            assert(self.0 == fnv_words(h, words));
        }
        let ghost before = words;
        self.write(unit.owner as u64);
        proof {
            words = words.push(unit.owner as u64);
            assert(words.drop_last() =~= before);
            assert(self.0 == fnv_words(h, words));
        }
        let ghost before = words;
        self.write(unit.pos.x.raw() as u64);
        proof {
            words = words.push(unit.pos.x@ as u64);
            assert(words.drop_last() =~= before);
            assert(self.0 == fnv_words(h, words));
        }
        let ghost before = words;
        self.write(unit.pos.z.raw() as u64);
        proof {
            words = words.push(unit.pos.z@ as u64);
            assert(words.drop_last() =~= before);
            assert(self.0 == fnv_words(h, words));
        }
        match unit.target {
            None => {
                let ghost before = words;
                self.write(0);
                proof {
                    words = words.push(0u64);
                    assert(words.drop_last() =~= before);
                    assert(self.0 == fnv_words(h, words));
                }
            },
            Some(target) => {
                let ghost before = words;
                self.write(1);
                proof {
                    words = words.push(1u64);
                    assert(words.drop_last() =~= before);
                    assert(self.0 == fnv_words(h, words));
                }
                let ghost before = words;
                self.write(target.x.raw() as u64);
                proof {
                    words = words.push(target.x@ as u64);
                    assert(words.drop_last() =~= before);
                    assert(self.0 == fnv_words(h, words));
                }
                let ghost before = words;
                self.write(target.z.raw() as u64);
                proof {
                    words = words.push(target.z@ as u64);
                    assert(words.drop_last() =~= before);
                    assert(self.0 == fnv_words(h, words));
                }
            },
        }
        proof {
            assert(words =~= unit_words(*unit));
        }
    }
}

pub struct Sim {
    tick: u64,
    terrain: Terrain,
    /// Sorted by id.
    units: Vec<Unit>,
}

impl Sim {
    pub closed spec fn spec_tick(&self) -> int {
        self.tick as int
    }

    pub closed spec fn spec_terrain(&self) -> Terrain {
        self.terrain
    }

    pub closed spec fn spec_units(&self) -> Seq<Unit> {
        self.units@
    }

    /// Side of the map, in raw units.
    pub open spec fn world_raw(&self) -> int {
        self.spec_terrain().world_raw()
    }

    /// `next` is this simulation after `m`: the order `Some((player, command))` applied as
    /// [`Sim::apply`] states it, or a tick (`None`) as [`Sim::step`] states it.
    pub open spec fn moved_by(&self, next: Sim, m: Option<(PlayerId, Command)>) -> bool {
        &&& next.spec_terrain() == self.spec_terrain()
        &&& match m {
            Some((player, command)) => {
                &&& command_fits(self.spec_units(), player, command)
                &&& next.spec_tick() == self.spec_tick()
                &&& next.spec_units() == applied_units(
                    self.world_raw(),
                    self.spec_units(),
                    player,
                    command,
                )
            },
            None => {
                &&& next.spec_tick() == self.spec_tick() + 1
                &&& next.spec_units() == stepped_units(self.spec_units())
            },
        }
    }

    pub open spec fn wf(&self) -> bool {
        &&& self.spec_terrain().wf()
        &&& units_wf(self.world_raw(), self.spec_units())
    }

    pub fn new(seed: u64, players: u8) -> (r: Sim)
        requires
            1 <= players <= MAX_PLAYERS,
        ensures
            r.wf(),
            r.spec_tick() == 0,
            r.spec_terrain().is_generated(seed, 128),
            r.spec_units() == initial_units(players as int),
    {
        let terrain = Terrain::generate(seed, MAP_CELLS);
        let map = terrain.world_size();
        assert(map@ == 256 * fx_one());
        let mut units: Vec<Unit> = Vec::new();
        let mut owner: u8 = 0;
        while owner < players
            invariant
                owner <= players <= MAX_PLAYERS,
                map@ == 256 * fx_one(),
                units@.len() == 6 * owner,
                forall|k: int| 0 <= k < units@.len() ==> #[trigger] units@[k] == initial_unit(k),
            decreases players - owner,
        {
            // Armies start on the west and east sides of the map.
            let x = if owner == 0 {
                Fx::ratio(1, 5)
            } else {
                Fx::ratio(4, 5)
            };
            let start = FxVec2::new(map * x, map * Fx::ratio(1, 2));
            proof {
                assert(start == start_position(owner as int));
                lemma_start_position(owner as int);
            }
            let mut i: usize = 0;
            while i < UNITS_PER_PLAYER
                invariant
                    owner < players <= MAX_PLAYERS,
                    i <= UNITS_PER_PLAYER,
                    start == start_position(owner as int),
                    units@.len() == 6 * owner + i,
                    forall|k: int| 0 <= k < units@.len() ==> #[trigger] units@[k] == initial_unit(k),
                decreases UNITS_PER_PLAYER - i,
            {
                let offset = formation_offset(i, UNITS_PER_PLAYER);
                proof {
                    lemma_formation_of_six(i as int);
                    lemma_start_position(owner as int);
                }
                let k = units.len();
                let unit = Unit { id: UnitId(k as u32), owner, pos: start + offset, target: None };
                proof {
                    assert(k / 6 == owner as int);
                    assert(k % 6 == i as int);
                    assert(unit == initial_unit(k as int));
                }
                units.push(unit);
                i += 1;
            }
            owner += 1;
        }
        let sim = Sim { tick: 0, terrain, units };
        proof {
            assert(units@ =~= initial_units(players as int));
            assert forall|k: int| 0 <= k < units@.len() implies unit_on_map(
                256 * fx_one(),
                #[trigger] units@[k],
            ) by {
                lemma_formation_of_six(k % 6);
                lemma_start_position(k / 6);
            }
        }
        sim
    }

    /// Advances the simulation by one tick.
    pub fn step(&mut self)
        requires
            old(self).wf(),
            old(self).spec_tick() < u64::MAX,
        ensures
            final(self).wf(),
            final(self).spec_tick() == old(self).spec_tick() + 1,
            final(self).spec_terrain() == old(self).spec_terrain(),
            final(self).spec_units() == stepped_units(old(self).spec_units()),
            old(self).moved_by(*final(self), None),
    {
        let ghost w = old(self).world_raw();
        let ghost units0 = old(self).spec_units();
        let speed = unit_speed();
        let mut i: usize = 0;
        while i < self.units.len()
            invariant
                self.spec_terrain() == old(self).spec_terrain(),
                self.spec_tick() == old(self).spec_tick(),
                self.spec_terrain().wf(),
                w == self.world_raw(),
                units0 == old(self).spec_units(),
                units_wf(w, units0),
                speed@ == unit_speed_raw(),
                i <= units0.len(),
                self.spec_units().len() == units0.len(),
                forall|k: int| 0 <= k < i ==> #[trigger] self.spec_units()[k] == stepped_unit(units0[k]),
                forall|k: int| i <= k < units0.len() ==> #[trigger] self.spec_units()[k] == units0[k],
            decreases units0.len() - i,
        {
            let id = self.units[i].id;
            let owner = self.units[i].owner;
            let pos = self.units[i].pos;
            let goal = self.units[i].target;
            proof {
                lemma_stepped_unit_on_map(w, units0[i as int]);
            }
            match goal {
                None => {},
                Some(target) => {
                    let delta = target - pos;
                    let distance = delta.length();
                    if distance.raw() <= speed.raw() {
                        self.units.set(i, Unit { id, owner, pos: target, target: None });
                    } else {
                        let next = pos + delta * (speed / distance);
                        self.units.set(i, Unit { id, owner, pos: next, target: Some(target) });
                    }
                },
            }
            i += 1;
        }
        proof {
            assert(self.spec_units() =~= stepped_units(units0));
            assert forall|k: int| 0 <= k < self.spec_units().len() implies unit_on_map(
                w,
                #[trigger] self.spec_units()[k],
            ) by {
                lemma_stepped_unit_on_map(w, units0[k]);
            }
        }
        self.tick = self.tick + 1;
    }

    /// Hash of the whole simulation state, map included. Clients compare it to detect
    /// desyncs.
    pub fn checksum(&self) -> (r: u64)
        ensures
            r == checksum_spec(self.spec_tick(), self.spec_units(), self.spec_terrain()),
    {
        let mut hash = Fnv::new();
        hash.write(self.tick);
        proof {
            let words = seq![self.tick];
            assert(words.drop_last() =~= Seq::<u64>::empty());
            assert(self.units@.subrange(0, 0) =~= Seq::<Unit>::empty());
            assert(units_words(Seq::<Unit>::empty()) =~= Seq::<u64>::empty());
            assert(words + units_words(self.units@.subrange(0, 0)) =~= words);
            assert(fnv_words(fnv_offset_basis(), Seq::<u64>::empty()) == fnv_offset_basis());
            assert(words.last() == self.tick);
            assert(fnv_words(fnv_offset_basis(), words) == fnv_bytes(fnv_offset_basis(), self.tick, 8));
        }
        let mut i: usize = 0;
        while i < self.units.len()
            invariant
                i <= self.units@.len(),
                hash.0 == fnv_words(
                    fnv_offset_basis(),
                    seq![self.tick] + units_words(self.units@.subrange(0, i as int)),
                ),
            decreases self.units@.len() - i,
        {
            let ghost words = seq![self.tick] + units_words(self.units@.subrange(0, i as int));
            hash.write_unit(&self.units[i]);
            proof {
                let prefix = self.units@.subrange(0, i + 1);
                assert(prefix.drop_last() =~= self.units@.subrange(0, i as int));
                assert(prefix.last() == self.units@[i as int]);
                lemma_fnv_words_append(fnv_offset_basis(), words, unit_words(self.units@[i as int]));
                assert(words + unit_words(self.units@[i as int]) =~= seq![self.tick] + units_words(
                    prefix,
                ));
            }
            i += 1;
        }
        proof {
            assert(self.units@.subrange(0, self.units@.len() as int) =~= self.units@);
        }
        let ghost before = seq![self.tick] + units_words(self.units@);
        let size = self.terrain.size();
        hash.write(size as u64);
        let heights = self.terrain.heights();
        let ghost hw = heights@.map_values(|h: Fx| h@ as u64);
        proof {
            let words = before.push(size as u64);
            assert(words.drop_last() =~= before);
            assert(words.last() == size as u64);
            assert(words =~= before + seq![size as u64] + hw.subrange(0, 0));
        }
        let mut j: usize = 0;
        while j < heights.len()
            invariant
                j <= heights@.len(),
                hw == heights@.map_values(|h: Fx| h@ as u64),
                hash.0 == fnv_words(
                    fnv_offset_basis(),
                    before + seq![size as u64] + hw.subrange(0, j as int),
                ),
            decreases heights@.len() - j,
        {
            let ghost words = before + seq![size as u64] + hw.subrange(0, j as int);
            let raw = heights[j].raw();
            hash.write(raw as u64);
            proof {
                let next = before + seq![size as u64] + hw.subrange(0, j + 1);
                assert(hw[j as int] == raw as u64);
                assert(next.drop_last() =~= words);
                assert(next.last() == raw as u64);
            }
            j += 1;
        }
        proof {
            assert(hw.subrange(0, hw.len() as int) =~= hw);
            assert(before + seq![size as u64] + hw =~= seq![self.tick] + units_words(self.units@)
                + terrain_words(self.terrain));
        }
        hash.0
    }

    pub fn tick(&self) -> (r: u64)
        ensures
            r == self.spec_tick(),
    {
        self.tick
    }

    pub fn terrain(&self) -> (r: &Terrain)
        ensures
            *r == self.spec_terrain(),
    {
        &self.terrain
    }

    pub fn units(&self) -> (r: &[Unit])
        ensures
            r@ == self.spec_units(),
    {
        self.units.as_slice()
    }

    /// Index of the unit with id `id`, by binary search over the sorted ids.
    fn find(&self, id: UnitId) -> (r: Option<usize>)
        requires
            ids_sorted(self.spec_units()),
        ensures
            match r {
                Some(i) => index_of_id(self.spec_units(), id) == Some(i as int),
                None => index_of_id(self.spec_units(), id) is None,
            },
    {
        let mut lo: usize = 0;
        let mut hi: usize = self.units.len();
        while lo < hi
            invariant
                ids_sorted(self.spec_units()),
                lo <= hi <= self.units@.len(),
                forall|k: int| 0 <= k < lo ==> (#[trigger] self.units@[k]).id.0 < id.0,
                forall|k: int| hi <= k < self.units@.len() ==> (#[trigger] self.units@[k]).id.0 > id.0,
            decreases hi - lo,
        {
            let mid = lo + (hi - lo) / 2;
            let mid_id = self.units[mid].id.0;
            if mid_id == id.0 {
                proof {
                    lemma_index_of_id(self.spec_units(), id, mid as int);
                }
                return Some(mid);
            } else if mid_id < id.0 {
                lo = mid + 1;
            } else {
                hi = mid;
            }
        }
        proof {
            assert forall|k: int| 0 <= k < self.units@.len() implies self.units@[k].id != id by {
                if k < lo {
                    assert(self.units@[k].id.0 < id.0);
                } else {
                    assert(self.units@[k].id.0 > id.0);
                }
            }
        }
        None
    }

    /// Indices of the units that `player` owns among `ids`.
    fn owned_indices(&self, player: PlayerId, ids: &Vec<UnitId>) -> (r: Vec<usize>)
        requires
            self.wf(),
        ensures
            r@.map_values(|i: usize| i as int) == owned_indices_spec(self.spec_units(), player, ids@),
    {
        let ghost units = self.spec_units();
        let mut out: Vec<usize> = Vec::new();
        let mut k: usize = 0;
        while k < ids.len()
            invariant
                self.wf(),
                units == self.spec_units(),
                k <= ids@.len(),
                out@.map_values(|i: usize| i as int) =~= owned_indices_spec(units, player, ids@.subrange(0, k as int)),
            decreases ids@.len() - k,
        {
            proof {
                assert(ids@.subrange(0, k + 1).drop_last() =~= ids@.subrange(0, k as int));
                assert(ids@.subrange(0, k + 1).last() == ids@[k as int]);
            }
            match self.find(ids[k]) {
                Some(index) => {
                    if self.units[index].owner == player {
                        out.push(index);
                    }
                },
                None => {},
            }
            k += 1;
        }
        proof {
            assert(ids@.subrange(0, ids@.len() as int) =~= ids@);
        }
        out
    }

    /// Whether `command` from `player` can be applied (see [`Sim::apply`]): the offsets of a
    /// move order must fit next to its target.
    pub fn accepts(&self, player: PlayerId, command: &Command) -> (r: bool)
        requires
            self.wf(),
        ensures
            r == command_fits(self.spec_units(), player, *command),
    {
        match command {
            Command::Move { units, target } => {
                let indices = self.owned_indices(player, units);
                let n = indices.len();
                proof {
                    lemma_owned_indices(self.spec_units(), player, units@);
                    assert(indices@.map_values(|i: usize| i as int).len() == n);
                }
                if n as u64 >= 0x2000_0000_0000_0000u64 {
                    return false;
                }
                let mut j: usize = 0;
                while j < n
                    invariant
                        n < id_list_limit(),
                        j <= n,
                        command_fits(self.spec_units(), player, *command) == move_fits(*target, n as int),
                        forall|m: int|
                            0 <= m < j ==> fits_i64(
                                target.x@ + (#[trigger] formation_offset_spec(m, n as int)).x@,
                            ) && fits_i64(target.z@ + formation_offset_spec(m, n as int).z@),
                    decreases n - j,
                {
                    let offset = formation_offset(j, n);
                    if target.x.raw().checked_add(offset.x.raw()).is_none() || target.z.raw().checked_add(
                        offset.z.raw(),
                    ).is_none() {
                        return false;
                    }
                    j += 1;
                }
                true
            },
            Command::Stop { .. } => true,
        }
    }

    /// Applies a command issued by `player`. Units that `player` does not own are
    /// ignored, so a buggy or malicious client cannot move someone else's army.
    pub fn apply(&mut self, player: PlayerId, command: &Command)
        requires
            old(self).wf(),
            command_fits(old(self).spec_units(), player, *command),
        ensures
            final(self).wf(),
            final(self).spec_tick() == old(self).spec_tick(),
            final(self).spec_terrain() == old(self).spec_terrain(),
            final(self).spec_units() == applied_units(
                old(self).world_raw(),
                old(self).spec_units(),
                player,
                *command,
            ),
            old(self).moved_by(*final(self), Some((player, *command))),
            final(self).spec_units().len() == old(self).spec_units().len(),
            // Units keep their ids, owners and positions; other players' units do not change.
            forall|i: int|
                0 <= i < old(self).spec_units().len() ==> {
                    let (u, u0) = (#[trigger] final(self).spec_units()[i], old(self).spec_units()[i]);
                    &&& u.id == u0.id
                    &&& u.owner == u0.owner
                    &&& u.pos == u0.pos
                    &&& u0.owner != player ==> u == u0
                },
    {
        proof {
            lemma_applied_units(old(self).world_raw(), old(self).spec_units(), player, *command);
        }
        let ghost w = old(self).world_raw();
        let ghost units0 = old(self).spec_units();
        match command {
            Command::Move { units, target } => {
                let indices = self.owned_indices(player, units);
                let n = indices.len();
                let ghost idx = owned_indices_spec(units0, player, units@);
                proof {
                    lemma_owned_indices(units0, player, units@);
                    assert(indices@.map_values(|i: usize| i as int).len() == n);
                }
                let mut k: usize = 0;
                while k < n
                    invariant
                        self.spec_terrain() == old(self).spec_terrain(),
                        self.spec_tick() == old(self).spec_tick(),
                        self.spec_terrain().wf(),
                        w == self.world_raw(),
                        units0 == old(self).spec_units(),
                        units_wf(w, units0),
                        idx == owned_indices_spec(units0, player, units@),
                        indices@.map_values(|i: usize| i as int) == idx,
                        n == idx.len(),
                        move_fits(*target, n as int),
                        forall|m: int| 0 <= m < idx.len() ==> 0 <= #[trigger] idx[m] < units0.len(),
                        k <= n,
                        self.spec_units().len() == units0.len(),
                        forall|i: int|
                            0 <= i < units0.len() ==> #[trigger] self.spec_units()[i] == {
                                let j = last_occurrence(idx, i, k as int);
                                if j >= 0 {
                                    with_target(units0[i], Some(move_dest(w, *target, j, n as int)))
                                } else {
                                    units0[i]
                                }
                            },
                    decreases n - k,
                {
                    let index = indices[k];
                    proof {
                        assert(index as int == idx[k as int]);
                    }
                    let offset = formation_offset(k, n);
                    let dest = self.terrain.clamp(*target + offset);
                    let id = self.units[index].id;
                    let owner = self.units[index].owner;
                    let pos = self.units[index].pos;
                    self.units.set(index, Unit { id, owner, pos, target: Some(dest) });
                    k += 1;
                }
                proof {
                    assert(self.spec_units() =~= applied_units(w, units0, player, *command));
                    assert forall|i: int| 0 <= i < self.spec_units().len() implies unit_on_map(
                        w,
                        #[trigger] self.spec_units()[i],
                    ) by {
                        assert(unit_on_map(w, units0[i]));
                    }
                }
            },
            Command::Stop { units } => {
                let indices = self.owned_indices(player, units);
                let n = indices.len();
                let ghost idx = owned_indices_spec(units0, player, units@);
                proof {
                    lemma_owned_indices(units0, player, units@);
                    assert(indices@.map_values(|i: usize| i as int).len() == n);
                }
                let mut k: usize = 0;
                while k < n
                    invariant
                        self.spec_terrain() == old(self).spec_terrain(),
                        self.spec_tick() == old(self).spec_tick(),
                        self.spec_terrain().wf(),
                        w == self.world_raw(),
                        units0 == old(self).spec_units(),
                        units_wf(w, units0),
                        idx == owned_indices_spec(units0, player, units@),
                        indices@.map_values(|i: usize| i as int) == idx,
                        n == idx.len(),
                        forall|m: int| 0 <= m < idx.len() ==> 0 <= #[trigger] idx[m] < units0.len(),
                        k <= n,
                        self.spec_units().len() == units0.len(),
                        forall|i: int|
                            0 <= i < units0.len() ==> #[trigger] self.spec_units()[i] == if idx.subrange(
                                0,
                                k as int,
                            ).contains(i) {
                                with_target(units0[i], None)
                            } else {
                                units0[i]
                            },
                    decreases n - k,
                {
                    let index = indices[k];
                    proof {
                        assert(index as int == idx[k as int]);
                        assert forall|i: int| #[trigger]
                            idx.subrange(0, k + 1).contains(i) == (idx.subrange(0, k as int).contains(i)
                                || i == idx[k as int]) by {
                            lemma_last_occurrence(idx, i, k as int);
                            lemma_last_occurrence(idx, i, k + 1);
                        }
                    }
                    let id = self.units[index].id;
                    let owner = self.units[index].owner;
                    let pos = self.units[index].pos;
                    self.units.set(index, Unit { id, owner, pos, target: None });
                    k += 1;
                }
                proof {
                    assert(idx.subrange(0, n as int) =~= idx);
                    assert(self.spec_units() =~= applied_units(w, units0, player, *command));
                    assert forall|i: int| 0 <= i < self.spec_units().len() implies unit_on_map(
                        w,
                        #[trigger] self.spec_units()[i],
                    ) by {
                        assert(unit_on_map(w, units0[i]));
                    }
                }
            },
        }
    }

    pub fn unit(&self, id: UnitId) -> (r: Option<&Unit>)
        requires
            self.wf(),
        ensures
            match r {
                Some(u) => index_of_id(self.spec_units(), id) matches Some(i) && *u
                    == self.spec_units()[i],
                None => index_of_id(self.spec_units(), id) is None,
            },
    {
        match self.find(id) {
            Some(index) => Some(&self.units[index]),
            None => None,
        }
    }
}

} // verus!
