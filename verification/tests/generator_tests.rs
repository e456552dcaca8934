//! Runtime checks of the spiral indexer, the splat footprint, the
//! coordinate reduction, the iteration budget and the grid.

use degenerate::{euclid_rem, iteration_count, spiral, splat_targets, FieldError, Grid};

#[test]
fn spiral_step_zero_is_origin() {
    assert_eq!(spiral(0), (0, 0));
}

#[test]
fn spiral_first_ring_in_order() {
    let expected: [(i32, i32); 8] =
        [(1, 0), (1, 1), (0, 1), (-1, 1), (-1, 0), (-1, -1), (0, -1), (1, -1)];
    for (step, want) in expected.iter().enumerate() {
        assert_eq!(spiral(1 + step as i32), *want);
    }
}

#[test]
fn spiral_second_ring_boundaries() {
    // Ring 2 runs from step 9 to step 24.
    assert_eq!(spiral(8), (1, -1));
    assert_eq!(spiral(9), (2, -1));
    assert_eq!(spiral(10), (2, 0));
    assert_eq!(spiral(24), (2, -2));
    assert_eq!(spiral(25), (3, -2));
}

#[test]
fn spiral_covers_disk_exactly_once() {
    // The first 25 steps visit each point with Chebyshev distance <= 2 once.
    let mut seen: Vec<(i32, i32)> = Vec::new();
    for n in 0..25 {
        let p = spiral(n);
        assert!(p.0.abs() <= 2 && p.1.abs() <= 2);
        assert!(!seen.contains(&p), "step {} repeats {:?}", n, p);
        seen.push(p);
    }
    for x in -2..=2 {
        for y in -2..=2 {
            assert!(seen.contains(&(x, y)), "({}, {}) never visited", x, y);
        }
    }
}

#[test]
fn spiral_distance_never_decreases() {
    let mut last: i32 = 0;
    for n in 0..300 {
        let (x, y) = spiral(n);
        let d = x.abs().max(y.abs());
        assert!(d >= last, "distance dropped at step {}", n);
        last = d;
    }
}

#[test]
fn euclid_rem_is_true_modulo() {
    assert_eq!(euclid_rem(7, 3), 1);
    assert_eq!(euclid_rem(-7, 3), 2);
    assert_eq!(euclid_rem(-3, 3), 0);
    assert_eq!(euclid_rem(-1, 10), 9);
    assert_eq!(euclid_rem(0, 4000), 0);
    assert_eq!(euclid_rem(-123456789, 4000), 3211);
    assert_eq!(euclid_rem(i64::MIN, 2), 0);
    assert_eq!(euclid_rem(i64::MIN, 3), 1);
}

#[test]
fn euclid_rem_by_one_always_lands_at_zero() {
    // A one-by-one grid: every reduced coordinate is 0.
    for v in [-1000, -3, -1, 0, 1, 7, 123456] {
        assert_eq!(euclid_rem(v, 1), 0);
    }
}

#[test]
fn iteration_count_is_area_times_64() {
    assert_eq!(iteration_count(4, 4), Ok(1024));
    assert_eq!(iteration_count(1, 1), Ok(64));
    assert_eq!(iteration_count(4000, 4000), Ok(1_024_000_000));
}

#[test]
fn iteration_count_rejects_zero_dimensions() {
    assert_eq!(iteration_count(0, 5), Err(FieldError::InvalidDimensions));
    assert_eq!(iteration_count(5, 0), Err(FieldError::InvalidDimensions));
    assert_eq!(iteration_count(0, 0), Err(FieldError::InvalidDimensions));
}

#[test]
fn iteration_count_rejects_unrepresentable_budget() {
    assert_eq!(
        iteration_count(u32::MAX, u32::MAX),
        Err(FieldError::InvalidDimensions)
    );
}

#[test]
fn grid_new_has_exact_dimensions_and_fill() {
    let g: Grid<f64> = Grid::new(3, 2, 0.0);
    assert_eq!(g.width(), 3);
    assert_eq!(g.height(), 2);
    for x in 0..3 {
        for y in 0..2 {
            assert_eq!(g.get(x, y), 0.0);
        }
    }
}

#[test]
fn grid_set_changes_one_cell_only() {
    let mut g: Grid<f64> = Grid::new(4, 4, 0.0);
    g.set(1, 2, 5.5);
    for x in 0..4 {
        for y in 0..4 {
            let want = if (x, y) == (1, 2) { 5.5 } else { 0.0 };
            assert_eq!(g.get(x, y), want);
        }
    }
}

#[test]
fn splat_zero_steps_writes_nothing() {
    let targets = splat_targets(10, 10, 5, 5, 0);
    assert!(targets.is_empty());
}

#[test]
fn splat_writes_center_first() {
    let targets = splat_targets(10, 10, 5, 5, 3);
    assert_eq!(targets[0], (5, 5, 0));
    assert_eq!(targets, vec![(5, 5, 0), (6, 5, 1), (6, 6, 2)]);
}

#[test]
fn splat_drops_out_of_bounds_points() {
    // Centered on a corner of a 3x3 grid, ring 1 is half outside.
    let targets = splat_targets(3, 3, 0, 0, 9);
    assert_eq!(
        targets,
        vec![(0, 0, 0), (1, 0, 1), (1, 1, 2), (0, 1, 3)]
    );
}

#[test]
fn splat_on_one_by_one_grid_hits_only_the_center() {
    let targets = splat_targets(1, 1, 0, 0, 6);
    assert_eq!(targets, vec![(0, 0, 0)]);
}

#[test]
fn splat_accumulation_puts_full_intensity_at_center() {
    // The falloff policy: step 0 gets shade 1, step i > 0 gets n / i.
    let z: f64 = 0.9;
    let n: u32 = (5.0 * z).ceil() as u32;
    let mut g: Grid<f64> = Grid::new(8, 8, 0.0);
    for &(x, y, i) in splat_targets(8, 8, 4, 4, n).iter() {
        let shade: f64 = if i == 0 { 1.0 } else { n as f64 / i as f64 };
        let v = g.get(x, y);
        g.set(x, y, v + z * shade);
    }
    assert_eq!(g.get(4, 4), z);
    assert_eq!(g.get(5, 4), z * n as f64);
    assert_eq!(g.get(5, 5), z * n as f64 / 2.0);
}
