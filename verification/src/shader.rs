//! Shadow-map addressing for percentage-closer filtering: the four depth
//! texels around a shadow-map sample.
use vstd::prelude::*;
use crate::texture::clamped;

verus! {

/// Depth-buffer positions of the 2 x 2 texels a filtered shadow lookup
/// compares against: `(u0, v0)`, `(u1, v0)`, `(u0, v1)`, `(u1, v1)`.
#[derive(Clone, Copy, PartialEq, Eq, Debug, Structural)]
pub struct PcfTexels {
    pub i00: usize,
    pub i10: usize,
    pub i01: usize,
    pub i11: usize,
}

/// The neighbour after texel `t` in a map `res` texels across, kept on the
/// last texel at the edge.
pub open spec fn next_texel(t: int, res: int) -> int {
    if t + 1 < res - 1 {
        t + 1
    } else {
        res - 1
    }
}

/// The texels around a sample whose texel coordinates round down to
/// `(u_floor, v_floor)` in a `res` x `res` shadow map stored row by row:
/// the lower neighbours are the coordinates clamped to the map, the upper
/// ones the next texel, kept on the last one at the edge.
pub fn pcf_texels(u_floor: i32, v_floor: i32, res: u32) -> (r: PcfTexels)
    requires
        1 <= res <= i32::MAX,
        res * res <= usize::MAX,
    ensures
        ({
            let n = res as int;
            let u0 = clamped(u_floor as int, n);
            let v0 = clamped(v_floor as int, n);
            let u1 = next_texel(u0, n);
            let v1 = next_texel(v0, n);
            &&& r.i00 == v0 * n + u0
            &&& r.i10 == v0 * n + u1
            &&& r.i01 == v1 * n + u0
            &&& r.i11 == v1 * n + u1
        }),
        r.i00 < res * res,
        r.i10 < res * res,
        r.i01 < res * res,
        r.i11 < res * res,
{
    let res_u = res as usize;
    let last: i32 = res as i32 - 1;
    let u0: usize = (if u_floor < 0 { 0 } else if u_floor > last { last } else { u_floor }) as usize;
    let v0: usize = (if v_floor < 0 { 0 } else if v_floor > last { last } else { v_floor }) as usize;
    let u1: usize = if u0 + 1 < res_u - 1 { u0 + 1 } else { res_u - 1 };
    let v1: usize = if v0 + 1 < res_u - 1 { v0 + 1 } else { res_u - 1 };
    proof {
        assert(v0 * res_u + u0 < res_u * res_u) by (nonlinear_arith)
            requires v0 < res_u, u0 < res_u;
        assert(v0 * res_u + u1 < res_u * res_u) by (nonlinear_arith)
            requires v0 < res_u, u1 < res_u;
        assert(v1 * res_u + u0 < res_u * res_u) by (nonlinear_arith)
            requires v1 < res_u, u0 < res_u;
        assert(v1 * res_u + u1 < res_u * res_u) by (nonlinear_arith)
            requires v1 < res_u, u1 < res_u;
        assert(v1 * res_u >= 0) by (nonlinear_arith)
            requires v1 >= 0, res_u >= 0;
    }
    PcfTexels {
        i00: v0 * res_u + u0,
        i10: v0 * res_u + u1,
        i01: v1 * res_u + u0,
        i11: v1 * res_u + u1,
    }
}

} // verus!
