//! Grid keys for streamable content and the spatial measures on them.

use vstd::prelude::*;

verus! {

/// Width of one grid cell in world units.
pub const CELL_SIZE: i32 = 32;

/// Largest radius (in cells) a manager may be configured with.  The bound
/// keeps every cell of the scan window, `center +/- radius`, inside the
/// `i32` grid-coordinate range, since centers derived from `i32` world
/// coordinates lie within `i32::MAX / CELL_SIZE` of the origin.
pub const MAX_RADIUS: i32 = 1000000;

/// Identifies one streamable unit of content by its grid coordinates.
/// Two keys are equal exactly when both coordinates are equal.
#[derive(Clone, Copy, PartialEq, Eq, Structural, Hash, Debug)]
pub struct MeshId(pub i32, pub i32);

/// Squared Euclidean distance between two grid keys.
pub open spec fn dist2(a: MeshId, b: MeshId) -> int {
    (a.0 - b.0) * (a.0 - b.0) + (a.1 - b.1) * (a.1 - b.1)
}

/// Whether key `k` lies within `r` cells of center `c`: the wanted set of a
/// viewpoint at `c` with radius `r` is exactly the keys satisfying this.
pub open spec fn in_radius(k: MeshId, c: MeshId, r: int) -> bool {
    dist2(k, c) <= r * r
}

/// Quotient of truncating division by a positive divisor, the rounding the
/// `/` operator of the executable code performs.
pub open spec fn trunc_div(a: int, b: int) -> int {
    if a >= 0 {
        a / b
    } else {
        -((-a) / b)
    }
}

/// The grid cell that contains a world position.
pub open spec fn cell_of(wx: int, wz: int) -> MeshId {
    MeshId(trunc_div(wx, CELL_SIZE as int) as i32, trunc_div(wz, CELL_SIZE as int) as i32)
}

/// How far from the grid origin a cell computed by `cell_of` can lie.
pub open spec fn cell_bound() -> int {
    0x8000_0000int / (CELL_SIZE as int)
}

/// A center cell the manager can scan a radius window around.
pub open spec fn center_in_bounds(c: MeshId) -> bool {
    &&& -cell_bound() <= c.0 <= cell_bound()
    &&& -cell_bound() <= c.1 <= cell_bound()
}

impl MeshId {
    /// Squared distance to another key, the measure that orders dispatch.
    pub fn squared_distance(self, other: MeshId) -> (d: i128)
        ensures
            d == dist2(self, other),
    {
        let dx: i128 = self.0 as i128 - other.0 as i128;
        let dz: i128 = self.1 as i128 - other.1 as i128;
        proof {
            assert(dx * dx <= 0x1_0000_0000_0000_0000i128 && dx * dx >= 0) by (nonlinear_arith)
                requires
                    -0x1_0000_0000i128 <= dx <= 0x1_0000_0000i128,
            ;
            assert(dz * dz <= 0x1_0000_0000_0000_0000i128 && dz * dz >= 0) by (nonlinear_arith)
                requires
                    -0x1_0000_0000i128 <= dz <= 0x1_0000_0000i128,
            ;
        }
        dx * dx + dz * dz
    }
}

/// Whether key `k` lies within `r` cells of center `c`.
pub fn key_in_radius(k: MeshId, c: MeshId, r: i32) -> (b: bool)
    requires
        0 <= r,
    ensures
        b == in_radius(k, c, r as int),
{
    let d = k.squared_distance(c);
    proof {
        assert((r as i128) * (r as i128) <= 0x1_0000_0000_0000_0000i128 && (r as i128) * (
        r as i128) >= 0) by (nonlinear_arith)
            requires
                0 <= r as i128 <= 0x1_0000_0000i128,
        ;
    }
    let rr: i128 = (r as i128) * (r as i128);
    d <= rr
}

/// A key within radius `r` of `c` lies in the square window of half-width
/// `r` around `c`.
pub proof fn lemma_in_radius_box(k: MeshId, c: MeshId, r: int)
    requires
        0 <= r,
        in_radius(k, c, r),
    ensures
        -r <= k.0 - c.0 <= r,
        -r <= k.1 - c.1 <= r,
{
    assert(-r <= k.0 - c.0 <= r && -r <= k.1 - c.1 <= r) by (nonlinear_arith)
        requires
            (k.0 - c.0) * (k.0 - c.0) + (k.1 - c.1) * (k.1 - c.1) <= r * r,
            0 <= r,
    ;
}

/// Quotient of truncating division of a world coordinate by the cell width.
fn div_cell(a: i32) -> (q: i32)
    ensures
        q == trunc_div(a as int, CELL_SIZE as int),
        -cell_bound() <= q <= cell_bound(),
{
    if a >= 0 {
        a / CELL_SIZE
    } else {
        let m: i64 = -(a as i64);
        let q64: i64 = m / (CELL_SIZE as i64);
        assert(0 <= q64 <= cell_bound());
        -(q64 as i32)
    }
}

/// The grid cell that contains a world position given in world units.
pub fn world_to_chunk_space(wx: i32, wz: i32) -> (c: MeshId)
    ensures
        c == cell_of(wx as int, wz as int),
        center_in_bounds(c),
{
    MeshId(div_cell(wx), div_cell(wz))
}

} // verus!
