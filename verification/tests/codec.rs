//! Tests of the wire codec: framing, message round trips, snapshot
//! persistence round trips, and rejection of malformed byte strings.

use farm_core::codec::{
    decode_client_message, decode_server_message, encode_client_message, encode_server_message,
    frame_payload, load_snapshot, save_snapshot, take_frame,
};
use farm_core::protocol::{full_error_text, ClientMessage, ServerMessage};
use farm_core::world::{Crop, CropType, GameState, GrowthStage, Player, Tile, TileType};

fn sample_state() -> GameState {
    let mut s = GameState::new();
    s.apply_till(3, 4);
    s.apply_water(3, 4);
    s.apply_plant(3, 4, CropType::Tomato);
    s.apply_till(31, 31);
    s.tick();
    s.players.push(Player::new(0, b"alice".to_vec()));
    let mut bob = Player::new(3, b"bob".to_vec());
    bob.x = 123456;
    bob.y = 7890;
    bob.selected_crop = CropType::Carrot;
    s.players.push(bob);
    s
}

#[test]
fn snapshot_round_trip_reproduces_grid_and_roster() {
    let s = sample_state();
    let bytes = save_snapshot(&s);
    let back = load_snapshot(&bytes).expect("a saved snapshot must load");
    assert_eq!(back, s);
}

#[test]
fn genesis_snapshot_round_trip() {
    let s = GameState::new();
    let back = load_snapshot(&save_snapshot(&s)).unwrap();
    assert_eq!(back, s);
}

#[test]
fn load_rejects_truncated_snapshot() {
    let s = sample_state();
    let mut bytes = save_snapshot(&s);
    bytes.truncate(bytes.len() - 1);
    assert!(load_snapshot(&bytes).is_err());
}

#[test]
fn load_rejects_trailing_garbage() {
    let s = GameState::new();
    let mut bytes = save_snapshot(&s);
    bytes.push(0);
    assert!(load_snapshot(&bytes).is_err());
}

#[test]
fn load_rejects_wrong_dimensions() {
    let s = GameState::new();
    let mut bytes = save_snapshot(&s);
    // the leading little-endian width field
    bytes[0] = 31;
    assert!(load_snapshot(&bytes).is_err());
}

#[test]
fn load_rejects_duplicate_identities() {
    let mut s = GameState::new();
    s.players.push(Player::new(5, b"a".to_vec()));
    s.players.push(Player::new(6, b"b".to_vec()));
    let mut bytes = save_snapshot(&s);
    // every tile is grass with no crop: two bytes each; the roster count
    // follows the 8-byte header and the tile section, then the players,
    // 15 bytes each with these one-byte names; patch the second identity
    // to collide with the first
    let second_id_at = 8 + 2 * 32 * 32 + 4 + 15;
    assert_eq!(bytes[second_id_at], 6);
    bytes[second_id_at] = 5;
    assert!(load_snapshot(&bytes).is_err());
}

#[test]
fn load_rejects_empty_input() {
    assert!(load_snapshot(&Vec::new()).is_err());
}

#[test]
fn client_message_round_trip_every_variant() {
    let msgs = vec![
        ClientMessage::Join { name: b"alice".to_vec() },
        ClientMessage::Join { name: Vec::new() },
        ClientMessage::Move { x: 0, y: u32::MAX },
        ClientMessage::Till { x: 3, y: 4 },
        ClientMessage::Water { x: 31, y: 0 },
        ClientMessage::Plant { x: 9, y: 9, crop_type: CropType::Carrot },
        ClientMessage::Harvest { x: 1, y: 30 },
        ClientMessage::SelectCrop { crop_type: CropType::Tomato },
    ];
    for m in msgs {
        let bytes = encode_client_message(&m);
        let back = decode_client_message(&bytes).expect("an encoded request must decode");
        assert_eq!(back, m);
    }
}

#[test]
fn server_message_round_trip_every_variant() {
    let tile = Tile {
        tile_type: TileType::WateredSoil,
        crop: Some(Crop {
            crop_type: CropType::Wheat,
            growth_stage: GrowthStage::Growing,
            ticks_in_stage: 17,
        }),
    };
    let msgs = vec![
        ServerMessage::Welcome { player_id: 4 },
        ServerMessage::GameState(sample_state()),
        ServerMessage::PlayerJoined { player: Player::new(2, b"carol".to_vec()) },
        ServerMessage::PlayerLeft { player_id: 7 },
        ServerMessage::PlayerMoved { player_id: 1, x: 55, y: 66 },
        ServerMessage::TileUpdated { x: 3, y: 4, tile },
        ServerMessage::Error { message: full_error_text() },
    ];
    for m in msgs {
        let bytes = encode_server_message(&m);
        let back = decode_server_message(&bytes).expect("an encoded event must decode");
        assert_eq!(back, m);
    }
}

#[test]
fn decode_rejects_unknown_tag() {
    assert!(decode_client_message(&vec![7]).is_err());
    assert!(decode_client_message(&vec![200, 1, 2, 3]).is_err());
    assert!(decode_server_message(&vec![9]).is_err());
}

#[test]
fn decode_rejects_unknown_species_code() {
    // a select-species request with a species code past the last one
    assert!(decode_client_message(&vec![6, 3]).is_err());
}

#[test]
fn decode_rejects_truncated_payload() {
    let full = encode_client_message(&ClientMessage::Move { x: 1, y: 2 });
    for cut in 0..full.len() {
        let prefix = full[..cut].to_vec();
        assert!(decode_client_message(&prefix).is_err());
    }
}

#[test]
fn decode_rejects_trailing_bytes() {
    let mut bytes = encode_client_message(&ClientMessage::Harvest { x: 1, y: 2 });
    bytes.push(0);
    assert!(decode_client_message(&bytes).is_err());
}

#[test]
fn frame_round_trip() {
    let payload = encode_client_message(&ClientMessage::Join { name: b"dave".to_vec() });
    let framed = frame_payload(&payload);
    // length prefix, little-endian, then the payload itself
    assert_eq!(framed.len(), payload.len() + 4);
    assert_eq!(framed[0] as usize, payload.len());
    assert_eq!(&framed[4..], &payload[..]);
    let (back, consumed) = take_frame(&framed, 0).expect("a framed payload must deframe");
    assert_eq!(back, payload);
    assert_eq!(consumed, framed.len());
}

#[test]
fn take_frame_on_truncated_input_is_none() {
    let framed = frame_payload(&vec![1, 2, 3]);
    assert!(take_frame(&framed[..6].to_vec(), 0).is_none());
    assert!(take_frame(&vec![1, 0], 0).is_none());
}

#[test]
fn take_frame_reads_consecutive_frames() {
    let p1 = vec![10, 20];
    let p2 = vec![30];
    let mut stream = frame_payload(&p1);
    stream.extend_from_slice(&frame_payload(&p2));
    let (f1, next) = take_frame(&stream, 0).unwrap();
    let (f2, end) = take_frame(&stream, next).unwrap();
    assert_eq!(f1, p1);
    assert_eq!(f2, p2);
    assert_eq!(end, stream.len());
}

#[test]
fn error_text_is_the_capacity_message() {
    assert_eq!(full_error_text(), b"Server is full".to_vec());
}
