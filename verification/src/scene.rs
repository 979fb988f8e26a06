//! The layout of the terrain's triangle mesh, as the client draws it. The vertex
//! positions and colours are the client program's (they are floating point).
use vstd::prelude::*;

verus! {

/// Index, in the vertex list of a map of `size` cells per side (vertices row by row along
/// +z), of corner `k` of the two triangles of cell `(x, z)`: `(x, z)`, `(x, z + 1)`,
/// `(x + 1, z)`, then `(x + 1, z)`, `(x, z + 1)`, `(x + 1, z + 1)`, counter-clockwise seen
/// from above.
pub open spec fn cell_corner(size: int, x: int, z: int, k: int) -> int {
    let n = size + 1;
    let i = z * n + x;
    if k == 0 {
        i
    } else if k == 1 {
        i + n
    } else if k == 2 {
        i + 1
    } else if k == 3 {
        i + 1
    } else if k == 4 {
        i + n
    } else {
        i + n + 1
    }
}

/// Cell `(x, z)` comes before cell `(cx, cz)` row by row, so its six corners come first.
proof fn lemma_cell_before(size: int, x: int, z: int, cx: int, cz: int)
    requires
        0 <= x < size,
        0 <= z,
        0 <= cx <= size,
        z < cz || (z == cz && x < cx),
    ensures
        z * size + x < cz * size + cx,
{
    if z < cz {
        assert(z * size + size <= cz * size) by (nonlinear_arith)
            requires
                z < cz,
                size >= 0,
        ;
    }
}

/// The triangle list of the terrain mesh: two triangles per cell, cells row by row.
pub fn mesh_indices(size: u32) -> (r: Vec<u32>)
    requires
        (size + 1) * (size + 1) <= u32::MAX,
    ensures
        r@.len() == 6 * size * size,
        forall|x: int, z: int, k: int|
            0 <= x < size && 0 <= z < size && 0 <= k < 6 ==> #[trigger] r@[6 * (z * size + x) + k]
                == cell_corner(size as int, x, z, k),
{
    proof {
        assert(size <= 0xffff) by (nonlinear_arith)
            requires
                (size + 1) * (size + 1) <= u32::MAX,
        ;
    }
    let n = size + 1;
    let ghost s = size as int;
    let mut indices: Vec<u32> = Vec::new();
    let mut z: u32 = 0;
    while z < size
        invariant
            z <= size <= 0xffff,
            n == size + 1,
            s == size,
            (size + 1) * (size + 1) <= u32::MAX,
            indices@.len() == 6 * (z * s),
            forall|x: int, zz: int, k: int|
                0 <= x < s && 0 <= zz < z && 0 <= k < 6 ==> #[trigger] indices@[6 * (zz * s + x)
                    + k] == cell_corner(s, x, zz, k),
        decreases size - z,
    {
        let mut x: u32 = 0;
        while x < size
            invariant
                x <= size,
                z < size <= 0xffff,
                n == size + 1,
                s == size,
                (size + 1) * (size + 1) <= u32::MAX,
                indices@.len() == 6 * (z * s + x),
                forall|cx: int, zz: int, k: int|
                    0 <= cx < s && 0 <= zz <= z && (zz < z || cx < x) && 0 <= k < 6
                        ==> #[trigger] indices@[6 * (zz * s + cx) + k] == cell_corner(s, cx, zz, k),
            decreases size - x,
        {
            proof {
                assert(z * n + x + n + 1 <= n * n) by (nonlinear_arith)
                    requires
                        z < size,
                        x < size,
                        n == size + 1,
                ;
            }
            let i = z * n + x;
            let ghost before = indices@;
            let ghost base = 6 * (z * s + x);
            indices.push(i);
            indices.push(i + n);
            indices.push(i + 1);
            indices.push(i + 1);
            indices.push(i + n);
            indices.push(i + n + 1);
            proof {
                assert forall|cx: int, zz: int, k: int|
                    0 <= cx < s && 0 <= zz <= z && (zz < z || cx < x + 1) && 0 <= k < 6
                        implies #[trigger] indices@[6 * (zz * s + cx) + k] == cell_corner(
                    s,
                    cx,
                    zz,
                    k,
                ) by {
                    if zz < z || cx < x {
                        lemma_cell_before(s, cx, zz, x as int, z as int);
                        assert(indices@[6 * (zz * s + cx) + k] == before[6 * (zz * s + cx) + k]);
                    } else {
                        assert(6 * (zz * s + cx) + k == base + k);
                    }
                }
            }
            x += 1;
        }
        proof {
            assert(z * s + s == (z + 1) * s) by (nonlinear_arith);
        }
        z += 1;
    }
    proof {
        assert(6 * (z * s) == 6 * size * size) by (nonlinear_arith)
            requires
                z == size,
                s == size,
        ;
    }
    indices
}

} // verus!
