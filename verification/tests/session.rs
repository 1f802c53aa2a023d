//! Tests of the session state machine: identity allocation, join and
//! capacity, broadcast fan-out and ordering, disconnects, and the clock.

use farm_core::handler::Session;
use farm_core::protocol::{ClientMessage, ServerMessage};
use farm_core::world::{CropType, GameState, TileType, MAX_PLAYERS, SPAWN_COORD_CODE};

fn join(s: &mut Session, id: u8, name: &str) -> Vec<(u8, ServerMessage)> {
    s.client_message(id, &ClientMessage::Join { name: name.as_bytes().to_vec() })
}

#[test]
fn two_joins_in_sequence_get_distinct_identities() {
    let mut s = Session::new(GameState::new());
    let a = s.client_connected().unwrap();
    let b = s.client_connected().unwrap();
    assert_ne!(a, b);
    join(&mut s, a, "alice");
    join(&mut s, b, "bob");
    assert_eq!(s.game.players.len(), 2);
    assert_ne!(s.game.players[0].id, s.game.players[1].id);
}

#[test]
fn freed_identity_reused_but_never_collides_with_live_one() {
    let mut s = Session::new(GameState::new());
    let a = s.client_connected().unwrap();
    let b = s.client_connected().unwrap();
    join(&mut s, a, "alice");
    join(&mut s, b, "bob");
    s.client_closed(a);
    // the freed identity may come back; it must not be the live one
    let c = s.client_connected().unwrap();
    assert_eq!(c, a);
    assert_ne!(c, b);
}

#[test]
fn join_sends_welcome_then_snapshot_then_announces_to_others() {
    let mut s = Session::new(GameState::new());
    let a = s.client_connected().unwrap();
    let b = s.client_connected().unwrap();
    join(&mut s, a, "alice");
    let sends = join(&mut s, b, "bob");
    assert_eq!(sends.len(), 3);
    assert_eq!(sends[0].0, b);
    assert!(matches!(sends[0].1, ServerMessage::Welcome { player_id } if player_id == b));
    assert_eq!(sends[1].0, b);
    match &sends[1].1 {
        ServerMessage::GameState(snap) => {
            assert_eq!(snap.players.len(), 2);
        },
        other => panic!("expected a snapshot, got {:?}", other),
    }
    // the announcement goes to the other connection, not back to the joiner
    assert_eq!(sends[2].0, a);
    match &sends[2].1 {
        ServerMessage::PlayerJoined { player } => {
            assert_eq!(player.id, b);
            assert_eq!(player.name, b"bob".to_vec());
            assert_eq!(player.x, SPAWN_COORD_CODE);
            assert_eq!(player.y, SPAWN_COORD_CODE);
            assert_eq!(player.selected_crop, CropType::Wheat);
        },
        other => panic!("expected a join announcement, got {:?}", other),
    }
}

#[test]
fn join_beyond_capacity_returns_error_and_adds_no_player() {
    let mut s = Session::new(GameState::new());
    let mut ids = Vec::new();
    for i in 0..MAX_PLAYERS {
        let id = s.client_connected().unwrap();
        join(&mut s, id, &format!("p{}", i));
        ids.push(id);
    }
    assert_eq!(s.game.players.len(), MAX_PLAYERS);
    // one connection too many: it can connect, but its join is refused
    let extra = s.client_connected().unwrap();
    let sends = join(&mut s, extra, "latecomer");
    assert_eq!(s.game.players.len(), MAX_PLAYERS);
    assert_eq!(sends.len(), 1);
    assert_eq!(sends[0].0, extra);
    match &sends[0].1 {
        ServerMessage::Error { message } => {
            assert_eq!(message, &b"Server is full".to_vec());
        },
        other => panic!("expected the capacity error, got {:?}", other),
    }
    // the refused connection stays open and unjoined; a slot freeing up
    // lets it join later
    s.client_closed(ids[0]);
    let sends = join(&mut s, extra, "latecomer");
    assert_eq!(s.game.players.len(), MAX_PLAYERS);
    assert!(matches!(sends[0].1, ServerMessage::Welcome { .. }));
}

#[test]
fn broadcast_order_till_then_water() {
    let mut s = Session::new(GameState::new());
    let a = s.client_connected().unwrap();
    let b = s.client_connected().unwrap();
    join(&mut s, a, "alice");
    join(&mut s, b, "bob");
    let till_sends = s.client_message(a, &ClientMessage::Till { x: 6, y: 7 });
    let water_sends = s.client_message(a, &ClientMessage::Water { x: 6, y: 7 });
    // deliveries are written out in order: every client, the observer b
    // included, sees the tilled tile strictly before the watered tile
    let all: Vec<&(u8, ServerMessage)> = till_sends.iter().chain(water_sends.iter()).collect();
    let mut b_updates = Vec::new();
    for (id, msg) in all {
        if *id == b {
            if let ServerMessage::TileUpdated { x: 6, y: 7, tile } = msg {
                b_updates.push(tile.tile_type);
            }
        }
    }
    assert_eq!(b_updates, vec![TileType::Soil, TileType::WateredSoil]);
}

#[test]
fn tile_update_broadcasts_resulting_tile_to_everyone() {
    let mut s = Session::new(GameState::new());
    let a = s.client_connected().unwrap();
    let b = s.client_connected().unwrap();
    join(&mut s, a, "alice");
    join(&mut s, b, "bob");
    let sends = s.client_message(a, &ClientMessage::Till { x: 1, y: 2 });
    let recipients: Vec<u8> = sends.iter().map(|(id, _)| *id).collect();
    assert!(recipients.contains(&a));
    assert!(recipients.contains(&b));
    for (_, msg) in &sends {
        match msg {
            ServerMessage::TileUpdated { x: 1, y: 2, tile } => {
                assert_eq!(tile.tile_type, TileType::Soil);
            },
            other => panic!("expected a tile update, got {:?}", other),
        }
    }
}

#[test]
fn rejected_tile_action_broadcasts_nothing() {
    let mut s = Session::new(GameState::new());
    let a = s.client_connected().unwrap();
    join(&mut s, a, "alice");
    // watering grass is a silent no-op
    let sends = s.client_message(a, &ClientMessage::Water { x: 0, y: 0 });
    assert!(sends.is_empty());
}

#[test]
fn requests_before_join_are_silently_ignored() {
    let mut s = Session::new(GameState::new());
    let a = s.client_connected().unwrap();
    let sends = s.client_message(a, &ClientMessage::Till { x: 0, y: 0 });
    assert!(sends.is_empty());
    assert_eq!(s.game.get_tile(0, 0).unwrap().tile_type, TileType::Grass);
    assert!(s.game.players.is_empty());
}

#[test]
fn move_updates_position_and_broadcasts_to_others_only() {
    let mut s = Session::new(GameState::new());
    let a = s.client_connected().unwrap();
    let b = s.client_connected().unwrap();
    join(&mut s, a, "alice");
    join(&mut s, b, "bob");
    let sends = s.client_message(a, &ClientMessage::Move { x: 17, y: 99 });
    let me = s.game.players.iter().find(|p| p.id == a).unwrap();
    assert_eq!((me.x, me.y), (17, 99));
    assert_eq!(sends.len(), 1);
    assert_eq!(sends[0].0, b);
    assert!(matches!(
        sends[0].1,
        ServerMessage::PlayerMoved { player_id, x: 17, y: 99 } if player_id == a
    ));
}

#[test]
fn select_crop_updates_player_silently() {
    let mut s = Session::new(GameState::new());
    let a = s.client_connected().unwrap();
    join(&mut s, a, "alice");
    let sends = s.client_message(a, &ClientMessage::SelectCrop { crop_type: CropType::Tomato });
    assert!(sends.is_empty());
    assert_eq!(s.game.players[0].selected_crop, CropType::Tomato);
}

#[test]
fn disconnect_removes_player_and_tells_the_rest() {
    let mut s = Session::new(GameState::new());
    let a = s.client_connected().unwrap();
    let b = s.client_connected().unwrap();
    join(&mut s, a, "alice");
    join(&mut s, b, "bob");
    let sends = s.client_closed(a);
    assert_eq!(s.game.players.len(), 1);
    assert_eq!(s.game.players[0].id, b);
    assert_eq!(sends.len(), 1);
    assert_eq!(sends[0].0, b);
    assert!(matches!(sends[0].1, ServerMessage::PlayerLeft { player_id } if player_id == a));
}

#[test]
fn clock_tick_advances_every_tile() {
    let mut s = Session::new(GameState::new());
    let a = s.client_connected().unwrap();
    join(&mut s, a, "alice");
    s.client_message(a, &ClientMessage::Till { x: 0, y: 0 });
    s.client_message(a, &ClientMessage::Water { x: 0, y: 0 });
    s.client_message(a, &ClientMessage::Till { x: 2, y: 0 });
    s.client_message(a, &ClientMessage::Water { x: 2, y: 0 });
    s.client_message(a, &ClientMessage::Plant { x: 2, y: 0, crop_type: CropType::Wheat });
    s.clock_tick();
    // bare watered soil dries; soil with a crop stays wet and grows
    assert_eq!(s.game.get_tile(0, 0).unwrap().tile_type, TileType::Soil);
    let kept = s.game.get_tile(2, 0).unwrap();
    assert_eq!(kept.tile_type, TileType::WateredSoil);
    assert_eq!(kept.crop.unwrap().ticks_in_stage, 1);
}

#[test]
fn restored_session_keeps_grid_but_starts_roster_empty() {
    let mut g = GameState::new();
    g.apply_till(0, 0);
    let s = Session::new(g);
    assert_eq!(s.game.get_tile(0, 0).unwrap().tile_type, TileType::Soil);
    assert!(s.game.players.is_empty());
}
