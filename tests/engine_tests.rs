use marble_game::chain::{ChainMarble, Color};
use marble_game::engine::{find_collision_index, insert_s_at, spawn_color_from, trim_isolated_gaps};
use marble_game::path::Path;
use marble_game::spacing::equalize_chain_spacing;

fn marble(id: u64, s: u64, color: Color) -> ChainMarble {
    ChainMarble { id: Some(id), s, color: Some(color) }
}

fn gap(s: u64) -> ChainMarble {
    ChainMarble { id: None, s, color: None }
}

fn straight_path() -> Path {
    Path::from_points(vec![(0, 0), (10_000_000, 0)])
}

#[test]
fn run_is_spaced_back_from_its_head() {
    let path = straight_path();
    let mut c = vec![marble(0, 100_000, Color::Red), marble(1, 300_000, Color::Blue), marble(2, 500_000, Color::Green)];
    equalize_chain_spacing(&mut c, &path, 612_000);
    let s: Vec<u64> = c.iter().map(|m| m.s).collect();
    assert_eq!(s, vec![377_600, 438_800, 500_000]);
    let lengths: Vec<u64> = c.iter().map(|m| path.arc_length_to(m.s)).collect();
    assert_eq!(lengths[1] - lengths[0], 612_000);
    assert_eq!(lengths[2] - lengths[1], 612_000);
}

#[test]
fn runs_are_spaced_separately_and_gaps_stay() {
    let path = straight_path();
    let mut c = vec![marble(0, 100_000, Color::Red), gap(200_000), marble(2, 300_000, Color::Red), marble(3, 400_000, Color::Red)];
    equalize_chain_spacing(&mut c, &path, 612_000);
    let s: Vec<u64> = c.iter().map(|m| m.s).collect();
    assert_eq!(s, vec![100_000, 200_000, 338_800, 400_000]);
    assert_eq!(c[1], gap(200_000));
}

#[test]
fn members_before_the_start_pile_at_zero() {
    let path = straight_path();
    let mut c = vec![marble(0, 10_000, Color::Red), marble(1, 20_000, Color::Red)];
    equalize_chain_spacing(&mut c, &path, 612_000);
    assert_eq!(c[0].s, 0);
    assert_eq!(c[1].s, 20_000);
}

#[test]
fn nearest_marble_captures() {
    let path = straight_path();
    let c = vec![marble(0, 100_000, Color::Red), marble(1, 160_000, Color::Blue)];
    assert_eq!(find_collision_index(&c, &path, 1_050_000, 0), Some(0));
    assert_eq!(find_collision_index(&c, &path, 1_550_000, 0), Some(1));
}

#[test]
fn near_ties_go_to_the_head() {
    let path = straight_path();
    let c = vec![marble(0, 100_000, Color::Red), marble(1, 160_000, Color::Blue)];
    assert_eq!(find_collision_index(&c, &path, 1_300_000, 0), Some(1));
    assert_eq!(find_collision_index(&c, &path, 1_299_000, 0), Some(1));
    assert_eq!(find_collision_index(&c, &path, 1_290_000, 0), Some(0));
}

#[test]
fn gaps_and_far_marbles_never_capture() {
    let path = straight_path();
    let c = vec![gap(100_000), marble(1, 200_000, Color::Blue)];
    assert_eq!(find_collision_index(&c, &path, 1_000_000, 0), None);
    assert_eq!(find_collision_index(&c, &path, 2_000_000, 700_000), Some(1));
    assert_eq!(find_collision_index(&c, &path, 2_000_000, 700_001), None);
    assert_eq!(find_collision_index(&vec![], &path, 0, 0), None);
}

#[test]
fn insertion_point_is_behind_the_hit_marble_or_ahead_of_the_head() {
    let c = vec![marble(0, 100_000, Color::Red), gap(150_000), marble(2, 300_000, Color::Red)];
    assert_eq!(insert_s_at(&c, 0), 50_000);
    let run = vec![marble(0, 100_000, Color::Red), marble(1, 200_000, Color::Red), marble(2, 300_000, Color::Red)];
    assert_eq!(insert_s_at(&run, 1), 150_000);
    assert_eq!(insert_s_at(&run, 2), 310_000);
    let head = vec![marble(0, 500_000, Color::Red)];
    assert_eq!(insert_s_at(&head, 0), 510_000);
    let near_end = vec![marble(0, 990_000, Color::Red)];
    assert_eq!(insert_s_at(&near_end, 0), 994_950);
}

#[test]
fn isolated_end_gaps_are_trimmed() {
    let mut tail = vec![marble(0, 1, Color::Red), marble(1, 2, Color::Red), gap(3)];
    trim_isolated_gaps(&mut tail, 1);
    assert_eq!(tail, vec![marble(0, 1, Color::Red), marble(1, 2, Color::Red)]);
    let mut front = vec![gap(1), marble(1, 2, Color::Red), marble(2, 3, Color::Red)];
    trim_isolated_gaps(&mut front, 1);
    assert_eq!(front, vec![marble(1, 2, Color::Red), marble(2, 3, Color::Red)]);
    let mut wide = vec![gap(1), gap(2), marble(2, 3, Color::Red), gap(4)];
    let before = wide.clone();
    trim_isolated_gaps(&mut wide, 1);
    assert_eq!(wide, before);
}

#[test]
fn spawn_colour_follows_recent_marbles() {
    let c = vec![
        gap(0),
        marble(1, 1, Color::Blue),
        marble(2, 2, Color::Blue),
        gap(3),
        marble(4, 4, Color::Blue),
        marble(5, 5, Color::Yellow),
        marble(6, 6, Color::Red),
    ];
    assert_eq!(spawn_color_from(&c, 10, 0, 0), Color::Blue);
    assert_eq!(spawn_color_from(&c, 59, 3, 0), Color::Yellow);
    assert_eq!(spawn_color_from(&c, 60, 3, 2), Color::Blue);
    assert_eq!(spawn_color_from(&c, 99, 3, 4), Color::Purple);
    let short = vec![marble(0, 0, Color::Green)];
    assert_eq!(spawn_color_from(&short, 0, 0, 8), Color::Yellow);
}
