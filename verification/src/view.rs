//! View tracking: enumerate the regions a view observes and diff two views,
//! so that each tick only the newly entered and newly left regions are
//! handled instead of rescanning the whole view.

use vstd::prelude::*;

use vstd::arithmetic::div_mod::{
    lemma_fundamental_div_mod, lemma_fundamental_div_mod_converse, lemma_mod_bound,
};
use vstd::arithmetic::mul::lemma_mul_inequality;

use crate::coord::{RegionCoordinate, RegionView};

verus! {

/// Whether `c` lies in the (optional) view `e`.
pub open spec fn spec_excluded(e: Option<RegionView>, c: RegionCoordinate) -> bool {
    e is Some && e.unwrap().spec_contains(c)
}

/// Region number `k` of a view really lies in the view, at the coordinates
/// the row-major order gives it.
pub proof fn lemma_region_at_coords(v: RegionView, k: int)
    requires
        v.in_bounds(),
        0 <= k < v.side() * v.side(),
    ensures
        0 <= k / v.side() < v.side(),
        0 <= k % v.side() < v.side(),
        v.region_at(k).x == v.center.x - v.distance + k / v.side(),
        v.region_at(k).z == v.center.z - v.distance + k % v.side(),
        v.spec_contains(v.region_at(k)),
{
    let s = v.side();
    lemma_fundamental_div_mod(k, s);
    lemma_mod_bound(k, s);
    if k / s >= s {
        lemma_mul_inequality(s, k / s, s);
        assert(s * s <= (k / s) * s);
        assert(false);
    }
    if k / s < 0 {
        lemma_mul_inequality(k / s + 1, 0, s);
        assert(false);
    }
}

/// Different region numbers of a view give different regions.
pub proof fn lemma_region_at_injective(v: RegionView, k1: int, k2: int)
    requires
        v.in_bounds(),
        0 <= k1 < v.side() * v.side(),
        0 <= k2 < v.side() * v.side(),
        k1 != k2,
    ensures
        v.region_at(k1) != v.region_at(k2),
{
    let s = v.side();
    lemma_region_at_coords(v, k1);
    lemma_region_at_coords(v, k2);
    if v.region_at(k1) == v.region_at(k2) {
        assert(k1 / s == k2 / s && k1 % s == k2 % s);
        lemma_fundamental_div_mod(k1, s);
        lemma_fundamental_div_mod(k2, s);
        assert(false);
    }
}

/// Every region a view contains has a region number.
pub proof fn lemma_region_at_complete(v: RegionView, c: RegionCoordinate)
    requires
        v.in_bounds(),
        v.spec_contains(c),
    ensures
        exists|k: int|
            0 <= k < v.side() * v.side() && #[trigger] v.region_at(k) == c,
{
    let s = v.side();
    let dx = c.x - (v.center.x - v.distance);
    let dz = c.z - (v.center.z - v.distance);
    let k = dx * s + dz;
    lemma_fundamental_div_mod_converse(k, s, dx, dz);
    assert(0 <= k) by {
        lemma_mul_inequality(0, dx, s);
    }
    assert(k < s * s) by {
        lemma_mul_inequality(dx + 1, s, s);
        assert((dx + 1) * s == dx * s + s) by (nonlinear_arith);
    }
    assert(v.region_at(k) == c);
}

/// Every region of `view`, in row-major order.
pub fn view_regions(view: RegionView) -> (r: Vec<RegionCoordinate>)
    requires
        view.in_bounds(),
    ensures
        r@.len() == view.side() * view.side(),
        forall|k: int| 0 <= k < r@.len() ==> (#[trigger] r@[k]) == view.region_at(k),
{
    let side: usize = 2 * (view.distance as usize) + 1;
    let base_x: i64 = view.center.x as i64 - view.distance as i64;
    let base_z: i64 = view.center.z as i64 - view.distance as i64;
    let mut r: Vec<RegionCoordinate> = Vec::new();
    let mut dx: usize = 0;
    while dx < side
        invariant
            view.in_bounds(),
            side == view.side(),
            base_x == view.center.x - view.distance,
            base_z == view.center.z - view.distance,
            dx <= side,
            r@.len() == dx * side,
            forall|k: int| 0 <= k < r@.len() ==> (#[trigger] r@[k]) == view.region_at(k),
        decreases side - dx,
    {
        let mut dz: usize = 0;
        while dz < side
            invariant
                view.in_bounds(),
                side == view.side(),
                base_x == view.center.x - view.distance,
                base_z == view.center.z - view.distance,
                dx < side,
                dz <= side,
                r@.len() == dx * side + dz,
                forall|k: int| 0 <= k < r@.len() ==> (#[trigger] r@[k]) == view.region_at(k),
            decreases side - dz,
        {
            let c = RegionCoordinate { x: (base_x + dx as i64) as i32, z: (base_z + dz as i64) as i32 };
            proof {
                let ghost k = dx * side + dz;
                lemma_fundamental_div_mod_converse(k as int, side as int, dx as int, dz as int);
                assert(k < side * side) by {
                    lemma_mul_inequality(dx as int + 1, side as int, side as int);
                    assert((dx as int + 1) * (side as int) == dx as int * side as int
                        + side as int) by (nonlinear_arith);
                }
                assert(c == view.region_at(k as int));
            }
            r.push(c);
            proof {
                assert(dx * side + (dz + 1) == dx * side + dz + 1);
            }
            dz = dz + 1;
        }
        proof {
            assert((dx + 1) * side == dx * side + side) by (nonlinear_arith);
        }
        dx = dx + 1;
    }
    r
}

/// The regions of `scan` that `exclude` does not contain: with `exclude` the
/// previous view this is the set of newly entered regions, with the roles
/// swapped the set of regions left. On a first tick `exclude` is `None` and
/// the whole view counts as newly entered. Pure set computation: the result
/// holds each such region exactly once.
pub fn diff_regions(scan: RegionView, exclude: Option<RegionView>) -> (r: Vec<RegionCoordinate>)
    requires
        scan.in_bounds(),
    ensures
        forall|c: RegionCoordinate|
            #[trigger] r@.contains(c) <==> scan.spec_contains(c) && !spec_excluded(exclude, c),
        forall|k: int, l: int| 0 <= k < l < r@.len() ==> r@[k] != r@[l],
{
    let all = view_regions(scan);
    proof {
        assert forall|k: int, l: int| 0 <= k < l < all@.len() implies all@[k] != all@[l] by {
            lemma_region_at_injective(scan, k, l);
        }
        assert forall|k: int| 0 <= k < all@.len() implies scan.spec_contains(
            #[trigger] all@[k],
        ) by {
            lemma_region_at_coords(scan, k);
        }
    }
    let mut out: Vec<RegionCoordinate> = Vec::new();
    let mut i: usize = 0;
    while i < all.len()
        invariant
            i <= all@.len(),
            forall|k: int, l: int| 0 <= k < l < all@.len() ==> all@[k] != all@[l],
            forall|k: int| 0 <= k < all@.len() ==> scan.spec_contains(#[trigger] all@[k]),
            forall|k: int, l: int| 0 <= k < l < out@.len() ==> out@[k] != out@[l],
            forall|k: int|
                0 <= k < out@.len() ==> exists|j: int|
                    0 <= j < i && all@[j] == (#[trigger] out@[k]),
            forall|k: int|
                0 <= k < out@.len() ==> scan.spec_contains(#[trigger] out@[k]) && !spec_excluded(
                    exclude,
                    out@[k],
                ),
            forall|j: int|
                0 <= j < i && !spec_excluded(exclude, #[trigger] all@[j]) ==> out@.contains(
                    all@[j],
                ),
        decreases all@.len() - i,
    {
        let c = all[i];
        let keep = match exclude {
            Some(e) => !e.contains(c),
            None => true,
        };
        let ghost out0 = out@;
        if keep {
            proof {
                assert forall|k: int| 0 <= k < out0.len() implies (#[trigger] out0[k]) != c by {
                    let j = choose|j: int| 0 <= j < i && all@[j] == (#[trigger] out0[k]);
                }
            }
            out.push(c);
        }
        proof {
            assert forall|k: int| 0 <= k < out@.len() implies exists|j: int|
                0 <= j < i + 1 && all@[j] == (#[trigger] out@[k]) by {
                if k < out0.len() {
                    assert(out@[k] == out0[k]);
                    let j = choose|j: int| 0 <= j < i && all@[j] == (#[trigger] out0[k]);
                } else {
                    assert(out@[k] == all@[i as int]);
                }
            }
            assert forall|j: int|
                0 <= j < i + 1 && !spec_excluded(exclude, #[trigger] all@[j]) implies
            out@.contains(all@[j]) by {
                if j < i {
                    let k = choose|k: int| 0 <= k < out0.len() && #[trigger] out0[k] == all@[j];
                    assert(out@[k] == all@[j]);
                } else {
                    assert(out@[out0.len() as int] == all@[j]);
                }
            }
        }
        i = i + 1;
    }
    proof {
        assert forall|c: RegionCoordinate| #[trigger] out@.contains(c) implies scan.spec_contains(
            c,
        ) && !spec_excluded(exclude, c) by {
            let k = choose|k: int| 0 <= k < out@.len() && #[trigger] out@[k] == c;
        }
        assert forall|c: RegionCoordinate|
            scan.spec_contains(c) && !spec_excluded(exclude, c) implies #[trigger] out@.contains(
            c,
        ) by {
            lemma_region_at_complete(scan, c);
            let k = choose|k: int|
                0 <= k < scan.side() * scan.side() && #[trigger] scan.region_at(k) == c;
            assert(all@[k] == c);
        }
    }
    out
}

} // verus!
