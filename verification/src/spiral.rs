//! The square-spiral indexer: a pure, total map from a step index to an
//! (dx, dy) offset that traces an outward square spiral from the origin.
//!
//! Step 0 is the origin. Ring `k >= 1` holds the `8k` lattice points at
//! Chebyshev distance `k`, visited starting one step right of the previous
//! ring's end: up the right side, left along the top, down the left side,
//! then right along the bottom. Consecutive rings cover the plane with no
//! repeats and no gaps.

use vstd::prelude::*;

verus! {

/// First step index of ring `k`: ring 0 starts at 0, ring `k >= 1` at
/// `(2k - 1)^2`, so ring `k` has `(2k + 1)^2 - (2k - 1)^2 = 8k` steps.
pub open spec fn ring_start(k: int) -> int {
    if k <= 0 {
        0
    } else {
        (2 * k - 1) * (2 * k - 1)
    }
}

/// Step `n` lies in ring `k`.
pub open spec fn in_ring(n: int, k: int) -> bool {
    0 <= k && ring_start(k) <= n < ring_start(k + 1)
}

/// The ring that step `n` lies in.
pub open spec fn ring_of(n: int) -> int {
    choose|k: int| #[trigger] in_ring(n, k)
}

/// The `j`-th point of ring `k` (for ring 0, the origin): up the right
/// side, left along the top, down the left side, right along the bottom.
pub open spec fn spiral_at(k: int, j: int) -> (int, int) {
    if k <= 0 {
        (0, 0)
    } else if j <= 2 * k - 2 {
        (k, j + 1 - k)
    } else if j <= 4 * k - 2 {
        (3 * k - 1 - j, k)
    } else if j <= 6 * k - 2 {
        (-k, 5 * k - 1 - j)
    } else {
        (j - 7 * k + 1, -k)
    }
}

/// The offset of step `n` of the spiral.
pub open spec fn spiral_spec(n: int) -> (int, int) {
    spiral_at(ring_of(n), n - ring_start(ring_of(n)))
}

/// Chebyshev distance of `(x, y)` from the origin.
pub open spec fn cheb(x: int, y: int) -> int {
    let ax: int = if x < 0 {
        -x
    } else {
        x
    };
    let ay: int = if y < 0 {
        -y
    } else {
        y
    };
    if ax >= ay {
        ax
    } else {
        ay
    }
}

/// The step index at which the spiral visits `(x, y)`: the inverse of
/// `spiral_spec`.
pub open spec fn spiral_index_of(x: int, y: int) -> int {
    let k: int = cheb(x, y);
    if k == 0 {
        0
    } else if x == k && -k < y && y < k {
        ring_start(k) + y + k - 1
    } else if y == k && -k < x {
        ring_start(k) + 3 * k - 1 - x
    } else if x == -k && -k < y {
        ring_start(k) + 5 * k - 1 - y
    } else {
        ring_start(k) + x + 7 * k - 1
    }
}

/// Ring starts are non-decreasing in the ring index, strictly from ring 1 on.
proof fn lemma_ring_start_monotone(k1: int, k2: int)
    by (nonlinear_arith)
    requires
        0 <= k1 <= k2,
    ensures
        ring_start(k1) <= ring_start(k2),
        1 <= k1 < k2 ==> ring_start(k1) < ring_start(k2),
{
}

/// Ring `k >= 1` has exactly `8k` steps.
pub proof fn lemma_ring_len(k: int)
    by (nonlinear_arith)
    requires
        k >= 1,
    ensures
        ring_start(k + 1) == ring_start(k) + 8 * k,
{
}

/// The first ring past the origin starts at step 1, and no ring starts
/// before its own index.
pub proof fn lemma_ring_start_base(k: int)
    by (nonlinear_arith)
    requires
        k >= 0,
    ensures
        ring_start(1) == 1,
        ring_start(k) >= k,
{
}

/// A step lies in at most one ring.
proof fn lemma_in_ring_unique(n: int, k1: int, k2: int)
    requires
        in_ring(n, k1),
        in_ring(n, k2),
    ensures
        k1 == k2,
{
    if k1 < k2 {
        lemma_ring_start_monotone(k1 + 1, k2);
        assert(n < ring_start(k1 + 1) <= ring_start(k2));
    }
    if k2 < k1 {
        lemma_ring_start_monotone(k2 + 1, k1);
        assert(n < ring_start(k2 + 1) <= ring_start(k1));
    }
}

/// Every non-negative step lies in some ring.
proof fn lemma_in_ring_exists(n: int)
    requires
        n >= 0,
    ensures
        exists|k: int| #[trigger] in_ring(n, k),
    decreases n,
{
    if n == 0 {
        lemma_ring_start_base(0);
        assert(in_ring(0, 0));
    } else {
        lemma_in_ring_exists(n - 1);
        let k: int = choose|k: int| #[trigger] in_ring(n - 1, k);
        if n < ring_start(k + 1) {
            assert(in_ring(n, k));
        } else {
            lemma_ring_start_monotone(k + 1, k + 2);
            assert(in_ring(n, k + 1));
        }
    }
}

/// `ring_of` returns the one ring that contains the step.
pub proof fn lemma_ring_of_is(n: int, k: int)
    requires
        in_ring(n, k),
    ensures
        ring_of(n) == k,
{
    assert(exists|k2: int| #[trigger] in_ring(n, k2));
    lemma_in_ring_unique(n, k, choose|k2: int| #[trigger] in_ring(n, k2));
}

/// Step 0 of the spiral is the origin.
pub proof fn lemma_spiral_origin()
    ensures
        spiral_spec(0).0 == 0,
        spiral_spec(0).1 == 0,
{
    lemma_ring_start_base(0);
    assert(in_ring(0, 0));
    lemma_ring_of_is(0, 0);
}

/// Every point of ring `k` lies at Chebyshev distance exactly `k`.
proof fn lemma_spiral_at_cheb(k: int, j: int)
    requires
        k >= 0,
        0 <= j,
        k == 0 ==> j == 0,
        k >= 1 ==> j < 8 * k,
    ensures
        cheb(spiral_at(k, j).0, spiral_at(k, j).1) == k,
{
}

/// `spiral_index_of` recovers the step index of each point of ring `k`.
proof fn lemma_index_at(k: int, j: int)
    requires
        k >= 0,
        0 <= j,
        k == 0 ==> j == 0,
        k >= 1 ==> j < 8 * k,
    ensures
        spiral_index_of(spiral_at(k, j).0, spiral_at(k, j).1) == ring_start(k) + j,
{
    lemma_spiral_at_cheb(k, j);
}

/// `spiral_at` takes the step index of a point back to that point, and the
/// index lies in the ring of the point's Chebyshev distance.
proof fn lemma_at_index(x: int, y: int)
    ensures
        in_ring(spiral_index_of(x, y), cheb(x, y)),
        spiral_at(cheb(x, y), spiral_index_of(x, y) - ring_start(cheb(x, y))).0 == x,
        spiral_at(cheb(x, y), spiral_index_of(x, y) - ring_start(cheb(x, y))).1 == y,
{
    let k: int = cheb(x, y);
    lemma_ring_start_base(0);
    if k >= 1 {
        lemma_ring_len(k);
    }
}

/// No repeats: the visiting index recovers the step, so two distinct steps
/// never land on the same point.
pub proof fn lemma_spiral_no_repeats(n: int)
    requires
        n >= 0,
    ensures
        spiral_index_of(spiral_spec(n).0, spiral_spec(n).1) == n,
{
    lemma_in_ring_exists(n);
    let k: int = choose|k: int| #[trigger] in_ring(n, k);
    lemma_ring_of_is(n, k);
    lemma_ring_start_base(0);
    if k >= 1 {
        lemma_ring_len(k);
    }
    lemma_index_at(k, n - ring_start(k));
}

/// No gaps: every lattice point is visited, within the ring of its
/// Chebyshev distance.
pub proof fn lemma_spiral_reaches(x: int, y: int)
    ensures
        in_ring(spiral_index_of(x, y), cheb(x, y)),
        ring_of(spiral_index_of(x, y)) == cheb(x, y),
        spiral_spec(spiral_index_of(x, y)).0 == x,
        spiral_spec(spiral_index_of(x, y)).1 == y,
{
    lemma_at_index(x, y);
    lemma_ring_of_is(spiral_index_of(x, y), cheb(x, y));
}

/// The Chebyshev distance of step `n` from the origin is its ring index.
pub proof fn lemma_spiral_distance(n: int)
    requires
        n >= 0,
    ensures
        cheb(spiral_spec(n).0, spiral_spec(n).1) == ring_of(n),
        in_ring(n, ring_of(n)),
{
    lemma_in_ring_exists(n);
    let k: int = choose|k: int| #[trigger] in_ring(n, k);
    lemma_ring_of_is(n, k);
    lemma_ring_start_base(0);
    if k >= 1 {
        lemma_ring_len(k);
    }
    lemma_spiral_at_cheb(k, n - ring_start(k));
}

/// Rings are visited outward: the distance of the visited point from the
/// origin never decreases from one step to a later one.
pub proof fn lemma_spiral_distance_monotone(n1: int, n2: int)
    requires
        0 <= n1 <= n2,
    ensures
        cheb(spiral_spec(n1).0, spiral_spec(n1).1) <= cheb(spiral_spec(n2).0, spiral_spec(n2).1),
{
    lemma_spiral_distance(n1);
    lemma_spiral_distance(n2);
    if ring_of(n2) < ring_of(n1) {
        lemma_ring_start_monotone(ring_of(n2) + 1, ring_of(n1));
        assert(n2 < ring_start(ring_of(n2) + 1) <= ring_start(ring_of(n1)) <= n1);
    }
}

/// The first `(2k+1)^2` steps of the spiral visit every lattice point
/// within Chebyshev distance `k` of the origin exactly once: no two steps
/// land on the same point, every point of the disk is hit by a step before
/// `ring_start(k + 1) == (2k+1)^2`, and no step before that bound leaves
/// the disk.
pub proof fn lemma_spiral_covers_disk(k: int)
    requires
        k >= 0,
    ensures
        forall|n1: int, n2: int|
            0 <= n1 < n2 ==> #[trigger] spiral_spec(n1) != #[trigger] spiral_spec(n2),
        forall|x: int, y: int|
            cheb(x, y) <= k ==> 0 <= #[trigger] spiral_index_of(x, y) < ring_start(k + 1)
                && spiral_spec(spiral_index_of(x, y)).0 == x
                && spiral_spec(spiral_index_of(x, y)).1 == y,
        forall|n: int|
            0 <= n < ring_start(k + 1) ==> cheb(
                #[trigger] spiral_spec(n).0,
                spiral_spec(n).1,
            ) <= k,
{
    assert forall|n1: int, n2: int|
        0 <= n1 < n2 implies #[trigger] spiral_spec(n1) != #[trigger] spiral_spec(n2) by {
        lemma_spiral_no_repeats(n1);
        lemma_spiral_no_repeats(n2);
    }
    assert forall|x: int, y: int|
        cheb(x, y) <= k implies 0 <= #[trigger] spiral_index_of(x, y) < ring_start(k + 1)
            && spiral_spec(spiral_index_of(x, y)).0 == x
            && spiral_spec(spiral_index_of(x, y)).1 == y by {
        lemma_spiral_reaches(x, y);
        lemma_ring_start_monotone(cheb(x, y) + 1, k + 1);
    }
    assert forall|n: int|
        0 <= n < ring_start(k + 1) implies cheb(
        #[trigger] spiral_spec(n).0,
        spiral_spec(n).1,
    ) <= k by {
        lemma_spiral_distance(n);
        if ring_of(n) > k {
            lemma_ring_start_monotone(k + 1, ring_of(n));
        }
    }
}

/// The offset of step `n` of the square spiral, as executable code.
pub fn spiral(n: i32) -> (r: (i32, i32))
    requires
        n >= 0,
    ensures
        r.0 == spiral_spec(n as int).0,
        r.1 == spiral_spec(n as int).1,
{
    let nn: i64 = n as i64;
    proof {
        lemma_ring_start_base(0);
    }
    let mut k: i64 = 0;
    let mut cur: i64 = 0;
    let mut next: i64 = 1;
    while next <= nn
        invariant
            0 <= k <= nn,
            nn == n as int,
            cur == ring_start(k as int),
            next == ring_start(k as int + 1),
            cur <= nn,
        decreases nn - k,
    {
        proof {
            lemma_ring_len(k as int + 1);
            lemma_ring_start_base(k as int + 1);
        }
        k = k + 1;
        cur = next;
        next = next + 8 * k;
    }
    let j: i64 = nn - cur;
    proof {
        assert(in_ring(nn as int, k as int));
        lemma_ring_of_is(nn as int, k as int);
        if k >= 1 {
            lemma_ring_len(k as int);
        }
    }
    if k == 0 {
        (0, 0)
    } else if j <= 2 * k - 2 {
        ((k) as i32, (j + 1 - k) as i32)
    } else if j <= 4 * k - 2 {
        ((3 * k - 1 - j) as i32, (k) as i32)
    } else if j <= 6 * k - 2 {
        ((-k) as i32, (5 * k - 1 - j) as i32)
    } else {
        ((j - 7 * k + 1) as i32, (-k) as i32)
    }
}

} // verus!
