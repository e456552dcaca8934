//! The energy-splatting footprint. A sample spreads its contribution over
//! the first `n` points of the square spiral around its center pixel; the
//! points that fall outside the grid are dropped, not clamped. This module
//! computes exactly which cells receive a contribution, and for which
//! spiral step, in step order; the caller scales the contribution of step
//! `i` by its own falloff and adds it into the grid.

use vstd::prelude::*;

use crate::spiral::lemma_ring_start_base;
use crate::spiral::lemma_spiral_distance;
use crate::spiral::lemma_spiral_origin;
use crate::spiral::ring_of;
use crate::spiral::spiral;
use crate::spiral::spiral_spec;

verus! {

/// The point of spiral step `i` translated to center `(cx, cy)`.
pub open spec fn splat_point(cx: int, cy: int, i: int) -> (int, int) {
    (cx + spiral_spec(i).0, cy + spiral_spec(i).1)
}

/// Whether the point of step `i` around `(cx, cy)` lands inside a
/// `width x height` grid.
pub open spec fn splat_in_bounds(width: int, height: int, cx: int, cy: int, i: int) -> bool {
    0 <= splat_point(cx, cy, i).0 < width && 0 <= splat_point(cx, cy, i).1 < height
}

/// The cells written by a splat of `n` steps centered on `(cx, cy)`: one
/// entry `(x, y, i)` per step `i < n` whose spiral point lands inside the
/// grid, in increasing step order. A splat of zero steps writes nothing;
/// one of any positive count writes the center cell first, at step 0.
pub fn splat_targets(width: usize, height: usize, cx: usize, cy: usize, n: u32) -> (r: Vec<
    (usize, usize, u32),
>)
    requires
        cx < width,
        cy < height,
        n <= 0x7fff_ffff,
    ensures
        forall|t: int|
            0 <= t < r@.len() ==> (#[trigger] r@[t]).2 < n && splat_in_bounds(
                width as int,
                height as int,
                cx as int,
                cy as int,
                r@[t].2 as int,
            ) && r@[t].0 == splat_point(cx as int, cy as int, r@[t].2 as int).0 && r@[t].1
                == splat_point(cx as int, cy as int, r@[t].2 as int).1,
        forall|t1: int, t2: int|
            0 <= t1 < t2 < r@.len() ==> (#[trigger] r@[t1]).2 < (#[trigger] r@[t2]).2,
        forall|i: int|
            0 <= i < n && #[trigger] splat_in_bounds(
                width as int,
                height as int,
                cx as int,
                cy as int,
                i,
            ) ==> exists|t: int| 0 <= t < r@.len() && (#[trigger] r@[t]).2 == i,
        r@.len() <= n,
        n == 0 ==> r@.len() == 0,
        n > 0 ==> r@.len() >= 1 && r@[0].0 == cx && r@[0].1 == cy && r@[0].2 == 0,
{
    let mut r: Vec<(usize, usize, u32)> = Vec::new();
    let mut i: u32 = 0;
    while i < n
        invariant
            cx < width,
            cy < height,
            n <= 0x7fff_ffff,
            i <= n,
            r@.len() <= i,
            forall|t: int|
                0 <= t < r@.len() ==> (#[trigger] r@[t]).2 < i && splat_in_bounds(
                    width as int,
                    height as int,
                    cx as int,
                    cy as int,
                    r@[t].2 as int,
                ) && r@[t].0 == splat_point(cx as int, cy as int, r@[t].2 as int).0 && r@[t].1
                    == splat_point(cx as int, cy as int, r@[t].2 as int).1,
            forall|t1: int, t2: int|
                0 <= t1 < t2 < r@.len() ==> (#[trigger] r@[t1]).2 < (#[trigger] r@[t2]).2,
            forall|ii: int|
                0 <= ii < i && #[trigger] splat_in_bounds(
                    width as int,
                    height as int,
                    cx as int,
                    cy as int,
                    ii,
                ) ==> exists|t: int| 0 <= t < r@.len() && (#[trigger] r@[t]).2 == ii,
            i > 0 ==> r@.len() >= 1 && r@[0].0 == cx && r@[0].1 == cy && r@[0].2 == 0,
        decreases n - i,
    {
        proof {
            if i == 0 {
                lemma_spiral_origin();
                if r@.len() > 0 {
                    assert(r@[0].2 < 0);
                }
            }
            lemma_spiral_distance(i as int);
            lemma_ring_start_base(ring_of(i as int));
        }
        let (dx, dy) = spiral(i as i32);
        let xo: Option<usize> = if dx >= 0 {
            let d: usize = dx as usize;
            if d < width - cx {
                Some(cx + d)
            } else {
                None
            }
        } else {
            let d: usize = (-dx) as usize;
            if d <= cx {
                Some(cx - d)
            } else {
                None
            }
        };
        let yo: Option<usize> = if dy >= 0 {
            let d: usize = dy as usize;
            if d < height - cy {
                Some(cy + d)
            } else {
                None
            }
        } else {
            let d: usize = (-dy) as usize;
            if d <= cy {
                Some(cy - d)
            } else {
                None
            }
        };
        let ghost pre: Seq<(usize, usize, u32)> = r@;
        if let (Some(x), Some(y)) = (xo, yo) {
            r.push((x, y, i));
        }
        proof {
            assert forall|ii: int|
                0 <= ii < i + 1 && #[trigger] splat_in_bounds(
                    width as int,
                    height as int,
                    cx as int,
                    cy as int,
                    ii,
                ) implies exists|t: int| 0 <= t < r@.len() && (#[trigger] r@[t]).2 == ii by {
                if ii < i {
                    let t0: int = choose|t: int| 0 <= t < pre.len() && (#[trigger] pre[t]).2 == ii;
                    assert(r@[t0].2 == ii);
                } else {
                    assert(r@[r@.len() - 1].2 == i);
                }
            }
        }
        i = i + 1;
    }
    r
}

} // verus!
