use board_parser::Point;
use board_parser::estimate_spacing;
use board_parser::sample_distances;

const SCALE: i64 = 65536;

#[test]
fn sampler_pairs_and_suppresses() {
    let centers = vec![
        Point { x: 0, y: 0 },
        Point { x: 30, y: 0 },
        Point { x: 60, y: 0 },
        Point { x: 90, y: 0 },
    ];
    // stone size zero: every vertical separation of zero is suppressed,
    // every positive horizontal separation is kept
    let samples = sample_distances(&centers, 0);
    assert_eq!(samples, vec![30, 90, 60, 30, 30, 60]);
}

#[test]
fn sampler_suppresses_under_stone_size() {
    let centers = vec![
        Point { x: 0, y: 0 },
        Point { x: 30, y: 0 },
        Point { x: 60, y: 0 },
        Point { x: 90, y: 0 },
    ];
    // a stone size of 45 pixels suppresses the 30-pixel separations
    let samples = sample_distances(&centers, 45 * SCALE);
    assert_eq!(samples, vec![90, 60, 60]);
}

#[test]
fn estimator_fixed_on_exact_multiples() {
    let distances = vec![100u32, 200, 300];
    assert_eq!(estimate_spacing(&distances, 100 * SCALE), 100 * SCALE);
}

#[test]
fn estimator_converges_on_jittered_multiples() {
    // k * 100 + jitter, |jitter| < 30, for k = 1..10: the estimator lands
    // within one pixel of 100
    let jitter: [i64; 10] = [10, -20, 15, -25, 5, 0, 20, -10, 25, -15];
    let distances: Vec<u32> = (1..=10).map(|k| (100 * k + jitter[(k - 1) as usize]) as u32).collect();
    let spacing = estimate_spacing(&distances, 100 * SCALE);
    assert!((spacing - 100 * SCALE).abs() < SCALE);
    assert_eq!(spacing, 6570868);
}

#[test]
fn estimator_converges_from_rough_start() {
    // the initial estimate is the stone size, a little under the spacing
    let distances = vec![100u32, 100, 200, 100, 300, 100];
    let spacing = estimate_spacing(&distances, 90 * SCALE);
    assert!((spacing - 100 * SCALE).abs() < SCALE);
}
