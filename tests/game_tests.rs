use marble_game::chain::{ChainMarble, Color, S_ONE};
use marble_game::engine::Marble;
use marble_game::game::GameState;
use marble_game::path::Path;
use marble_game::players::PLAYER_OFFSET;
use marble_game::room::Room;

fn straight_game() -> GameState {
    let mut gs = GameState::with_path(Path::from_points(vec![(0, 0), (10_000_000, 0)]));
    gs.chain.clear();
    gs
}

fn still_marble(id: u64, x: i64, z: i64, life: i64, color: Color) -> Marble {
    Marble { id, x, y: 0, z, vx: 0, vy: 0, vz: 0, life, color, owner: None }
}

#[test]
fn projectile_expires_when_life_reaches_zero() {
    let mut gs = straight_game();
    gs.marbles.push(still_marble(77, 0, 5_000_000, 100, Color::Red));
    gs.update(50);
    assert_eq!(gs.marbles.len(), 1);
    assert_eq!(gs.marbles[0].life, 50);
    gs.update(50);
    assert!(gs.marbles.is_empty());
}

#[test]
fn projectile_flies_and_leaves_the_box() {
    let mut gs = straight_game();
    let mut m = still_marble(5, 199_500_000, 0, 5_000, Color::Red);
    m.vx = 8_000;
    m.vz = -4_000;
    gs.marbles.push(m);
    gs.update(50);
    assert_eq!(gs.marbles[0].x, 199_900_000);
    assert_eq!(gs.marbles[0].z, -200_000);
    gs.update(50);
    assert!(gs.marbles.is_empty());
}

#[test]
fn chain_marble_reaching_the_end_is_removed() {
    let mut gs = straight_game();
    gs.chain.push(ChainMarble { id: Some(1), s: 100_000, color: Some(Color::Red) });
    gs.chain.push(ChainMarble { id: Some(2), s: S_ONE - 1_500, color: Some(Color::Blue) });
    gs.update(50);
    assert_eq!(gs.chain.len(), 1);
    assert_eq!(gs.chain[0].id, Some(1));
    assert_eq!(gs.chain[0].s, 101_500);
}

#[test]
fn spawn_timer_appends_marbles_at_the_start() {
    let mut gs = straight_game();
    gs.update(550);
    assert!(gs.chain.is_empty());
    assert_eq!(gs.spawn_accum, 550);
    gs.update(700);
    assert_eq!(gs.spawn_accum, 50);
    assert_eq!(gs.chain.len(), 2);
    assert!(gs.chain.iter().all(|c| c.color.is_some() && c.s <= 21_000));
    assert_eq!(gs.next_marble_id, 32);
}

#[test]
fn shot_at_marble_with_gap_ahead_misses() {
    let mut gs = straight_game();
    gs.chain.push(ChainMarble { id: Some(1), s: 100_000, color: Some(Color::Red) });
    gs.chain.push(ChainMarble { id: None, s: 200_000, color: None });
    gs.marbles.push(still_marble(50, 1_015_000, 0, 1_000, Color::Red));
    gs.update(50);
    assert_eq!(gs.marbles.len(), 1);
    assert_eq!(gs.chain.len(), 2);
}

#[test]
fn captured_projectile_joins_the_chain() {
    let mut gs = straight_game();
    gs.chain.push(ChainMarble { id: Some(1), s: 100_000, color: Some(Color::Red) });
    gs.chain.push(ChainMarble { id: Some(2), s: 300_000, color: Some(Color::Blue) });
    gs.marbles.push(still_marble(50, 3_015_000, 0, 1_000, Color::Green));
    gs.update(50);
    assert!(gs.marbles.is_empty());
    assert_eq!(gs.chain.len(), 3);
    assert!(gs.chain.iter().any(|c| c.id == Some(50) && c.color == Some(Color::Green)));
    for w in gs.chain.windows(2) {
        assert!(w[0].s <= w[1].s);
    }
}

#[test]
fn first_two_players_stand_left_and_right() {
    let mut gs = straight_game();
    let (_, a) = gs.join_with_token(None, 1);
    let (_, b) = gs.join_with_token(None, 2);
    let (_, c) = gs.join_with_token(None, 3);
    assert_eq!((a.x, a.y, a.z), (-2_000_000, 0, 0));
    assert_eq!((b.x, b.y, b.z), (2_000_000, 0, 0));
    assert_ne!((c.x, c.z), (a.x, a.z));
    assert_ne!((c.x, c.z), (b.x, b.z));
    let r2 = c.x as i128 * c.x as i128 + c.z as i128 * c.z as i128;
    assert!(r2 > (PLAYER_OFFSET as i128 * 7 / 10).pow(2));
    assert!(r2 <= (2 * PLAYER_OFFSET as i128).pow(2));
    assert_eq!((a.id, b.id, c.id), (0, 1, 2));
}

#[test]
fn reconnect_restores_the_player() {
    let mut gs = straight_game();
    let (token, p) = gs.join_with_token(None, 1);
    gs.handle_aim(1, 300, 5_000, -200);
    let shot = gs.handle_shoot(1).unwrap();
    assert_eq!(shot.color, p.loaded_color);
    assert_eq!((shot.vx, shot.vz), (8_000, -1_600));
    let snap = gs.snapshot();
    let before = snap.players[0];
    assert_eq!(before.loaded_color, p.next_color);
    gs.disconnect_by_addr(1);
    assert!(gs.snapshot().players.is_empty());
    assert!(gs.handle_shoot(1).is_none());
    let (token2, again) = gs.join_with_token(Some(token.clone()), 9);
    assert_eq!(token2, token);
    assert_eq!(again, before);
    assert_eq!(again.yaw, 300);
}

#[test]
fn unknown_token_creates_a_new_player() {
    let mut gs = straight_game();
    let (first_token, first) = gs.join_with_token(Some("nope".to_string()), 1);
    assert_ne!(first_token, "nope");
    assert_eq!(first_token.len(), 32);
    assert!(first_token.chars().all(|ch| ch.is_ascii_hexdigit()));
    let (second_token, second) = gs.join_with_token(None, 2);
    assert_ne!(first_token, second_token);
    assert_ne!(first.id, second.id);
}

#[test]
fn shooting_fires_the_loaded_colour() {
    let mut gs = straight_game();
    let (_, p) = gs.join_with_token(None, 4);
    let m = gs.handle_shoot(4).unwrap();
    assert_eq!(m.id, 30);
    assert_eq!(m.color, p.loaded_color);
    assert_eq!((m.x, m.y, m.z), (p.x, 100_000, p.z));
    assert_eq!((m.vx, m.vy, m.vz), (0, 0, 8_000));
    assert_eq!(m.life, 8_000);
    assert_eq!(gs.marbles.len(), 1);
    assert!(gs.handle_shoot(99).is_none());
    assert_eq!(gs.marbles.len(), 1);
}

#[test]
fn snapshot_hides_gaps() {
    let mut gs = straight_game();
    gs.chain.push(ChainMarble { id: None, s: 100_000, color: None });
    gs.chain.push(ChainMarble { id: Some(3), s: 500_000, color: Some(Color::Purple) });
    gs.marbles.push(still_marble(8, 1, 2, 100, Color::Red));
    let snap = gs.snapshot();
    assert_eq!(snap.marbles.len(), 2);
    assert_eq!(snap.marbles[0].id, 8);
    assert_eq!(snap.marbles[1].id, 3);
    assert_eq!((snap.marbles[1].x, snap.marbles[1].y, snap.marbles[1].z), (5_000_000, 500_000, 0));
    assert_eq!(snap.marbles[1].color, Color::Purple);
}

#[test]
fn new_room_starts_with_a_full_chain() {
    let gs = GameState::new();
    assert_eq!(gs.chain.len(), 30);
    for (k, c) in gs.chain.iter().enumerate() {
        assert_eq!(c.id, Some(k as u64));
        assert_eq!(c.s, k as u64 * 1_000_000 / 30);
        assert!(c.color.is_some());
    }
    assert_eq!(gs.path.points.len(), 65);
}

#[test]
fn room_reports_its_state() {
    let mut room = Room::new("room-1".to_string(), "Lobby".to_string(), 1);
    assert!(room.created_at > 1_600_000_000);
    let info = room.info();
    assert_eq!(info.id, "room-1");
    assert_eq!(info.name, "Lobby");
    assert_eq!(info.players, 0);
    assert!(!room.is_full());
    room.game.join_with_token(None, 1);
    assert_eq!(room.player_count(), 1);
    assert!(room.is_full());
}

#[test]
fn initial_colours_are_drawn_from_the_palette() {
    let gs = GameState::new();
    let first = gs.chain[0].color;
    assert!(gs.chain.iter().any(|c| c.color != first));
}

#[test]
fn tick_numbers_spawned_marbles_and_keeps_players() {
    let mut gs = straight_game();
    let (_, p) = gs.join_with_token(None, 1);
    gs.update(1_250);
    let mut ids: Vec<u64> = gs.chain.iter().map(|c| c.id.unwrap()).collect();
    ids.sort();
    assert_eq!(ids, vec![30, 31]);
    assert_eq!(gs.next_marble_id, 32);
    assert_eq!(gs.players.len(), 1);
    assert_eq!(gs.snapshot().players, vec![p]);
}

#[test]
fn projectile_out_of_reach_flies_on() {
    let mut gs = straight_game();
    gs.chain.push(ChainMarble { id: Some(1), s: 100_000, color: Some(Color::Red) });
    gs.marbles.push(still_marble(40, 5_000_000, 3_000_000, 1_000, Color::Red));
    gs.update(50);
    assert_eq!(gs.marbles.len(), 1);
    assert_eq!(gs.marbles[0].id, 40);
    assert_eq!(gs.marbles[0].life, 950);
    assert_eq!(gs.chain.len(), 1);
}

#[test]
fn commands_without_a_player_change_nothing() {
    let mut gs = straight_game();
    gs.join_with_token(None, 1);
    let before = gs.snapshot();
    gs.handle_aim(2, 100, 0, 1000);
    assert!(gs.handle_shoot(2).is_none());
    gs.disconnect_by_addr(2);
    let after = gs.snapshot();
    assert_eq!(after.players, before.players);
    assert_eq!(after.marbles, before.marbles);
    assert_eq!(gs.next_marble_id, 30);
}
