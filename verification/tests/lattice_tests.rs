use board_parser::Point;
use board_parser::assign_lattice;
use board_parser::pick_reference;

const SCALE: i64 = 65536;

/// A 5x5 grid of stone centers around (400, 400) at the given spacing,
/// row-major, so the middle stone sits at index 12.
fn grid_centers(s: u32) -> Vec<Point> {
    let mut centers = Vec::new();
    for j in 0..5u32 {
        for k in 0..5u32 {
            centers.push(Point { x: 400 - 2 * s + k * s, y: 400 - 2 * s + j * s });
        }
    }
    centers
}

#[test]
fn reference_is_closest_to_centroid() {
    let centers = grid_centers(20);
    assert_eq!(pick_reference(&centers), 12);
    // ties go to the earliest stone
    let pair = vec![Point { x: 10, y: 10 }, Point { x: 20, y: 10 }];
    assert_eq!(pick_reference(&pair), 0);
}

#[test]
fn lattice_snapping_on_exact_grid() {
    let centers = grid_centers(20);
    let m = assign_lattice(&centers, 12, 20 * SCALE);
    assert_eq!(m.len(), 25);
    assert_eq!(m.get(0, 0), Some(Point { x: 400, y: 400 }));
    assert_eq!(m.get(2, -1), Some(Point { x: 440, y: 380 }));
    assert_eq!(m.get(-2, -2), Some(Point { x: 360, y: 360 }));
    assert_eq!(m.get(3, 0), None);
}

#[test]
fn far_stone_is_rejected() {
    // a stone 21 spacings out is outside any legal board
    let mut centers = grid_centers(20);
    centers.push(Point { x: 400 + 21 * 20, y: 400 });
    let m = assign_lattice(&centers, 12, 20 * SCALE);
    assert_eq!(m.len(), 25);
    assert_eq!(m.get(21, 0), None);
    // one exactly at 20 spacings is still legal
    centers.push(Point { x: 400 + 20 * 20, y: 400 });
    let m2 = assign_lattice(&centers, 12, 20 * SCALE);
    assert_eq!(m2.len(), 26);
    assert_eq!(m2.get(20, 0), Some(Point { x: 800, y: 400 }));
}

#[test]
fn half_offset_stone_is_rejected() {
    // offset by (0.5 s, 0.5 s): the worst possible fit
    let mut centers = grid_centers(20);
    centers.push(Point { x: 400 + 3 * 20 + 10, y: 400 + 3 * 20 + 10 });
    let m = assign_lattice(&centers, 12, 20 * SCALE);
    assert_eq!(m.len(), 25);
    assert_eq!(m.get(3, 3), None);
    assert_eq!(m.get(4, 4), None);
}

#[test]
fn tenth_offset_stone_is_accepted() {
    // offset by (0.1 s, 0.1 s): a fit error of about one fifth
    let mut centers = grid_centers(20);
    centers.push(Point { x: 400 + 3 * 20 + 2, y: 400 + 3 * 20 + 2 });
    let m = assign_lattice(&centers, 12, 20 * SCALE);
    assert_eq!(m.len(), 26);
    assert_eq!(m.get(3, 3), Some(Point { x: 462, y: 462 }));
}

#[test]
fn collision_keeps_lower_fit_error() {
    // two stones claim (1, 0): the later one fits better and wins
    let mut centers = grid_centers(20);
    centers.push(Point { x: 400 + 20 + 4, y: 400 + 4 });
    let m = assign_lattice(&centers, 12, 20 * SCALE);
    assert_eq!(m.len(), 25);
    assert_eq!(m.get(1, 0), Some(Point { x: 420, y: 400 }));
    // against only the off-grid claimant, it owns the point
    let mut sparse = vec![
        Point { x: 400, y: 400 },
        Point { x: 424, y: 404 },
        Point { x: 400, y: 420 },
    ];
    sparse.push(Point { x: 440, y: 440 });
    let m2 = assign_lattice(&sparse, 0, 20 * SCALE);
    assert_eq!(m2.get(1, 0), Some(Point { x: 424, y: 404 }));
}

#[test]
fn lattice_snapping_covers_eleven_rows() {
    // the whole [-5, 5] x [-5, 5] family of the reference lattice
    let mut centers = Vec::new();
    for j in 0..11u32 {
        for k in 0..11u32 {
            centers.push(Point { x: 400 - 5 * 20 + k * 20, y: 400 - 5 * 20 + j * 20 });
        }
    }
    assert_eq!(pick_reference(&centers), 60);
    let m = assign_lattice(&centers, 60, 20 * SCALE);
    assert_eq!(m.len(), 121);
    for k in -5..=5i8 {
        for j in -5..=5i8 {
            let p = m.get(k, j).unwrap();
            assert_eq!(p.x, (400 + 20 * (k as i32)) as u32);
            assert_eq!(p.y, (400 + 20 * (j as i32)) as u32);
        }
    }
}
