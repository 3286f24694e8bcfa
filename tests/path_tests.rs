use marble_game::chain::S_ONE;
use marble_game::path::{floor_sqrt, Path};

#[test]
fn floor_sqrt_values() {
    assert_eq!(floor_sqrt(0), 0);
    assert_eq!(floor_sqrt(15), 3);
    assert_eq!(floor_sqrt(16), 4);
    assert_eq!(floor_sqrt(25_000_000_000_000), 5_000_000);
    assert_eq!(floor_sqrt(u64::MAX), 4_294_967_295);
}

#[test]
fn lengths_accumulate() {
    let p = Path::from_points(vec![(0, 0), (3_000_000, 4_000_000), (3_000_000, 4_000_000), (3_000_001, 4_000_001)]);
    assert_eq!(p.cum, vec![0, 5_000_000, 5_000_000, 5_000_001]);
    assert_eq!(p.total, 5_000_001);
    for w in p.cum.windows(2) {
        assert!(w[0] <= w[1]);
    }
    assert_eq!(p.total, *p.cum.last().unwrap());
}

#[test]
fn ends_map_to_first_and_last_points() {
    let p = Path::from_points(vec![(-1_000_000, 2_000_000), (3_000_000, 2_000_000), (3_000_000, -5_000_000)]);
    assert_eq!(p.world_pos(0), (-1_000_000, 2_000_000));
    assert_eq!(p.world_pos(S_ONE), (3_000_000, -5_000_000));
    assert_eq!(p.world_pos(S_ONE + 12_345), (3_000_000, -5_000_000));
}

#[test]
fn interpolates_within_a_segment() {
    let p = Path::from_points(vec![(0, 0), (3_000_000, 4_000_000)]);
    assert_eq!(p.world_pos(500_000), (1_500_000, 2_000_000));
    let q = Path::from_points(vec![(0, 0), (1_000_000, 0), (1_000_000, 1_000_000)]);
    assert_eq!(q.world_pos(750_000), (1_000_000, 500_000));
    assert_eq!(q.world_pos(500_000), (1_000_000, 0));
    assert_eq!(q.world_pos(250_000), (500_000, 0));
}

#[test]
fn empty_and_single_point_paths() {
    let e = Path::from_points(vec![]);
    assert_eq!(e.total, 0);
    assert_eq!(e.world_pos(300_000), (0, 0));
    assert_eq!(e.s_at_length(100), 0);
    let one = Path::from_points(vec![(7, -9)]);
    assert_eq!(one.world_pos(0), (7, -9));
    assert_eq!(one.world_pos(S_ONE), (7, -9));
}

#[test]
fn length_and_parameter_conversions() {
    let p = Path::from_points(vec![(0, 0), (3_000_000, 4_000_000)]);
    assert_eq!(p.arc_length_to(250_000), 1_250_000);
    assert_eq!(p.arc_length_to(2 * S_ONE), 5_000_000);
    assert_eq!(p.s_at_length(1_250_000), 250_000);
    assert_eq!(p.s_at_length(10_000_000), S_ONE);
}

#[test]
fn curve_is_sampled_between_its_end_points() {
    let p = Path::from_curve([(-8_000_000, 6_000_000), (-8_000_000, -4_000_000), (8_000_000, -4_000_000), (8_000_000, 6_000_000)]);
    assert_eq!(p.points.len(), 65);
    assert_eq!(p.points[0], (-8_000_000, 6_000_000));
    assert_eq!(p.points[64], (8_000_000, 6_000_000));
    // the curve is symmetric: its middle sample lies on the x = 0 axis, at
    // 1/8 * 6 + 3/8 * -4 + 3/8 * -4 + 1/8 * 6 = -1.5 m
    assert_eq!(p.points[32], (0, -1_500_000));
    assert!(p.total > 16_000_000);
    assert_eq!(p.world_pos(0), (-8_000_000, 6_000_000));
    assert_eq!(p.world_pos(S_ONE), (8_000_000, 6_000_000));
}

#[test]
fn sampler_moves_no_farther_than_the_arc() {
    let p = Path::from_curve([(-8_000_000, 6_000_000), (-8_000_000, -4_000_000), (8_000_000, -4_000_000), (8_000_000, 6_000_000)]);
    let mut prev_s = 0;
    let mut prev = p.world_pos(0);
    for s in (0..=S_ONE).step_by(997) {
        let cur = p.world_pos(s);
        let d = (p.arc_length_to(s) - p.arc_length_to(prev_s)) as i64;
        assert!((cur.0 - prev.0).abs() <= d + 2);
        assert!((cur.1 - prev.1).abs() <= d + 2);
        prev_s = s;
        prev = cur;
    }
}
