use ta_reborn::{Fx, FxVec2, Terrain};

#[test]
fn generation_depends_only_on_seed() {
    let a = Terrain::generate(7, 32);
    assert_eq!(a.heights(), Terrain::generate(7, 32).heights());
    assert_ne!(a.heights(), Terrain::generate(8, 32).heights());
}

#[test]
fn height_at_matches_vertices_and_clamps() {
    let t = Terrain::generate(3, 16);
    let at = |x: i32, z: i32| t.height_at(FxVec2::new(Fx::from_int(x), Fx::from_int(z)));
    assert_eq!(at(4, 6), t.vertex_height(2, 3));
    assert_eq!(at(32, 32), t.vertex_height(16, 16));
    assert_eq!(at(-10, 1000), t.vertex_height(0, 16));
}

#[test]
fn map_dimensions() {
    let t = Terrain::generate(5, 4);
    assert_eq!(t.size(), 4);
    assert_eq!(t.heights().len(), 25);
    assert_eq!(t.world_size(), Fx::from_int(8));
    assert_eq!(Terrain::cell_size(), Fx::from_int(2));
}

#[test]
fn clamp_holds_positions_on_the_map() {
    let t = Terrain::generate(5, 4);
    let p = FxVec2::new(Fx::from_int(-1), Fx::from_int(9));
    assert_eq!(t.clamp(p), FxVec2::new(Fx::zero(), Fx::from_int(8)));
    let q = FxVec2::new(Fx::ratio(7, 2), Fx::from_int(8));
    assert_eq!(t.clamp(q), q);
}

#[test]
fn heights_are_vertex_heights_and_stay_in_range() {
    let t = Terrain::generate(11, 8);
    for z in 0..=8u32 {
        for x in 0..=8u32 {
            let h = t.vertex_height(x, z);
            assert_eq!(h, t.heights()[(z * 9 + x) as usize]);
            // Four octaves of [0, 1) noise, shifted by -12 m: within [-12, 24) m.
            assert!(h.raw() >= Fx::from_int(-12).raw() && h.raw() < Fx::from_int(24).raw());
            let at = t.height_at(FxVec2::new(Fx::from_int(2 * x as i32), Fx::from_int(2 * z as i32)));
            assert_eq!(at, h);
        }
    }
}

#[test]
fn height_between_vertices_is_interpolated() {
    let t = Terrain::generate(3, 16);
    let a = t.vertex_height(2, 3);
    let b = t.vertex_height(3, 3);
    // Half-way between vertices (2, 3) and (3, 3), along x.
    let mid = t.height_at(FxVec2::new(Fx::from_int(5), Fx::from_int(6)));
    assert_eq!(mid, a + (b - a) * Fx::ratio(1, 2));
}
