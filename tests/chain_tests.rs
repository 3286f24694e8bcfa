use marble_game::chain::{advance_chain, sort_by_s, try_remove_matches, ChainMarble, Color, S_ONE};
use marble_game::engine::insert_into_chain;
use marble_game::path::Path;

fn marble(id: u64, s: u64, color: Color) -> ChainMarble {
    ChainMarble { id: Some(id), s, color: Some(color) }
}

fn gap(s: u64) -> ChainMarble {
    ChainMarble { id: None, s, color: None }
}

fn straight_path() -> Path {
    Path::from_points(vec![(0, 0), (10_000_000, 0)])
}

#[test]
fn run_of_three_becomes_gaps() {
    let mut c = vec![
        marble(0, 100, Color::Blue),
        marble(1, 200, Color::Red),
        marble(2, 300, Color::Red),
        marble(3, 400, Color::Red),
        marble(4, 500, Color::Green),
    ];
    try_remove_matches(&mut c, 2);
    assert_eq!(c.len(), 5);
    assert_eq!(c[0], marble(0, 100, Color::Blue));
    assert_eq!(c[1], gap(200));
    assert_eq!(c[2], gap(300));
    assert_eq!(c[3], gap(400));
    assert_eq!(c[4], marble(4, 500, Color::Green));
}

#[test]
fn run_of_two_is_kept() {
    let mut c = vec![marble(0, 100, Color::Red), marble(1, 200, Color::Red), marble(2, 300, Color::Blue)];
    let before = c.clone();
    try_remove_matches(&mut c, 1);
    assert_eq!(c, before);
}

#[test]
fn gaps_bound_a_run() {
    let mut c = vec![
        marble(0, 100, Color::Red),
        gap(200),
        marble(2, 300, Color::Red),
        marble(3, 400, Color::Red),
        gap(500),
        marble(5, 600, Color::Red),
    ];
    let before = c.clone();
    try_remove_matches(&mut c, 2);
    assert_eq!(c, before);
}

#[test]
fn resolving_twice_changes_nothing_more() {
    let mut c = vec![
        marble(0, 100, Color::Yellow),
        marble(1, 200, Color::Yellow),
        marble(2, 300, Color::Yellow),
        marble(3, 400, Color::Yellow),
    ];
    try_remove_matches(&mut c, 1);
    let once = c.clone();
    try_remove_matches(&mut c, 1);
    assert_eq!(c, once);
    assert!(c.iter().all(|m| m.color.is_none() && m.id.is_none()));
}

#[test]
fn resolving_keeps_length_and_positions() {
    let mut c = vec![
        marble(0, 10, Color::Green),
        marble(1, 20, Color::Purple),
        marble(2, 30, Color::Purple),
        marble(3, 40, Color::Purple),
    ];
    try_remove_matches(&mut c, 3);
    assert_eq!(c.len(), 4);
    let positions: Vec<u64> = c.iter().map(|m| m.s).collect();
    assert_eq!(positions, vec![10, 20, 30, 40]);
    assert_eq!(c[0].color, Some(Color::Green));
    assert_eq!(c[1], gap(20));
}

#[test]
fn resolving_at_a_gap_or_out_of_range_is_a_no_op() {
    let mut c = vec![gap(10), marble(1, 20, Color::Red)];
    let before = c.clone();
    try_remove_matches(&mut c, 0);
    try_remove_matches(&mut c, 7);
    assert_eq!(c, before);
}

#[test]
fn red_shot_completes_red_pair() {
    // chain [red, red, blue]; a red projectile captured at index 1 lands
    // just behind it, forming red, red, red.
    let path = straight_path();
    let mut c = vec![
        marble(0, 100_000, Color::Red),
        marble(1, 200_000, Color::Red),
        marble(2, 300_000, Color::Blue),
    ];
    let p = insert_into_chain(&mut c, &path, 612_000, 9, Color::Red, 1);
    assert_eq!(p, 1);
    assert_eq!(c.len(), 4);
    let gaps = c.iter().filter(|m| m.color.is_none()).count();
    assert_eq!(gaps, 3);
    assert!(c.iter().all(|m| m.id != Some(0) && m.id != Some(1) && m.id != Some(9)));
    assert_eq!(c.iter().filter(|m| m.color == Some(Color::Blue)).count(), 1);
}

#[test]
fn sort_orders_by_position_stably() {
    let mut c = vec![marble(0, 300, Color::Red), gap(100), marble(2, 300, Color::Blue), marble(3, 0, Color::Green)];
    sort_by_s(&mut c);
    assert_eq!(c, vec![marble(3, 0, Color::Green), gap(100), marble(0, 300, Color::Red), marble(2, 300, Color::Blue)]);
}

#[test]
fn marble_reaching_the_end_is_dropped() {
    let mut c = vec![marble(0, 500_000, Color::Red), gap(998_500), marble(2, S_ONE - 1_500, Color::Blue)];
    advance_chain(&mut c, 1_500);
    assert_eq!(c, vec![marble(0, 501_500, Color::Red)]);
}

#[test]
fn colour_names() {
    assert_eq!(Color::Red.name(), "red");
    assert_eq!(Color::Green.name(), "green");
    assert_eq!(Color::Blue.name(), "blue");
    assert_eq!(Color::Yellow.name(), "yellow");
    assert_eq!(Color::Purple.name(), "purple");
    assert_eq!(Color::from_index(3), Color::Yellow);
}

#[test]
fn shot_into_empty_chain_becomes_its_only_slot() {
    let path = straight_path();
    let mut c: Vec<ChainMarble> = vec![];
    let p = insert_into_chain(&mut c, &path, 612_000, 5, Color::Red, 0);
    assert_eq!(p, 0);
    assert_eq!(c, vec![marble(5, 0, Color::Red)]);
}
