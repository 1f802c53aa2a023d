//! The typed messages of the wire protocol: requests a client may send and
//! events the server sends back, together with their mathematical views.
//!
//! Display names and error texts travel as UTF-8 bytes; positions are the
//! opaque 32-bit codes of the world model.

use vstd::prelude::*;
use crate::world::{CropType, GameState, Player, PlayerV, StateV, Tile};

verus! {

/// Requests a client may send once connected.
#[derive(Debug, PartialEq)]
pub enum ClientMessage {
    Join { name: Vec<u8> },
    Move { x: u32, y: u32 },
    Till { x: u32, y: u32 },
    Water { x: u32, y: u32 },
    Plant { x: u32, y: u32, crop_type: CropType },
    Harvest { x: u32, y: u32 },
    SelectCrop { crop_type: CropType },
}

/// The mathematical value of a client request.
#[verifier::ext_equal]
pub ghost enum ClientMessageV {
    Join { name: Seq<u8> },
    Move { x: u32, y: u32 },
    Till { x: u32, y: u32 },
    Water { x: u32, y: u32 },
    Plant { x: u32, y: u32, crop_type: CropType },
    Harvest { x: u32, y: u32 },
    SelectCrop { crop_type: CropType },
}

impl View for ClientMessage {
    type V = ClientMessageV;

    open spec fn view(&self) -> ClientMessageV {
        match *self {
            ClientMessage::Join { ref name } => ClientMessageV::Join { name: name@ },
            ClientMessage::Move { x, y } => ClientMessageV::Move { x, y },
            ClientMessage::Till { x, y } => ClientMessageV::Till { x, y },
            ClientMessage::Water { x, y } => ClientMessageV::Water { x, y },
            ClientMessage::Plant { x, y, crop_type } => ClientMessageV::Plant { x, y, crop_type },
            ClientMessage::Harvest { x, y } => ClientMessageV::Harvest { x, y },
            ClientMessage::SelectCrop { crop_type } => ClientMessageV::SelectCrop { crop_type },
        }
    }
}

impl ClientMessage {
    /// A request is well formed when any name it carries fits the wire
    /// format's length prefix.
    pub open spec fn wf(&self) -> bool {
        match *self {
            ClientMessage::Join { ref name } => name@.len() <= u32::MAX,
            _ => true,
        }
    }
}

/// Events the server sends; every mutation of visible state is reflected by
/// exactly one of these.
#[derive(Debug, PartialEq)]
pub enum ServerMessage {
    Welcome { player_id: u8 },
    GameState(GameState),
    PlayerJoined { player: Player },
    PlayerLeft { player_id: u8 },
    PlayerMoved { player_id: u8, x: u32, y: u32 },
    TileUpdated { x: u32, y: u32, tile: Tile },
    Error { message: Vec<u8> },
}

/// The mathematical value of a server event.
#[verifier::ext_equal]
pub ghost enum ServerMessageV {
    Welcome { player_id: u8 },
    GameState(StateV),
    PlayerJoined { player: PlayerV },
    PlayerLeft { player_id: u8 },
    PlayerMoved { player_id: u8, x: u32, y: u32 },
    TileUpdated { x: u32, y: u32, tile: Tile },
    Error { message: Seq<u8> },
}

impl View for ServerMessage {
    type V = ServerMessageV;

    open spec fn view(&self) -> ServerMessageV {
        match *self {
            ServerMessage::Welcome { player_id } => ServerMessageV::Welcome { player_id },
            ServerMessage::GameState(ref s) => ServerMessageV::GameState(s@),
            ServerMessage::PlayerJoined { ref player } => ServerMessageV::PlayerJoined {
                player: player@,
            },
            ServerMessage::PlayerLeft { player_id } => ServerMessageV::PlayerLeft { player_id },
            ServerMessage::PlayerMoved { player_id, x, y } => ServerMessageV::PlayerMoved {
                player_id,
                x,
                y,
            },
            ServerMessage::TileUpdated { x, y, tile } => ServerMessageV::TileUpdated { x, y, tile },
            ServerMessage::Error { ref message } => ServerMessageV::Error { message: message@ },
        }
    }
}

impl Clone for ServerMessage {
    fn clone(&self) -> (r: Self)
        ensures
            r@ == self@,
    {
        match self {
            ServerMessage::Welcome { player_id } => ServerMessage::Welcome {
                player_id: *player_id,
            },
            ServerMessage::GameState(s) => ServerMessage::GameState(s.clone()),
            ServerMessage::PlayerJoined { player } => ServerMessage::PlayerJoined {
                player: player.clone(),
            },
            ServerMessage::PlayerLeft { player_id } => ServerMessage::PlayerLeft {
                player_id: *player_id,
            },
            ServerMessage::PlayerMoved { player_id, x, y } => ServerMessage::PlayerMoved {
                player_id: *player_id,
                x: *x,
                y: *y,
            },
            ServerMessage::TileUpdated { x, y, tile } => ServerMessage::TileUpdated {
                x: *x,
                y: *y,
                tile: *tile,
            },
            ServerMessage::Error { message } => {
                let m = message.clone();
                proof {
                    assert(m@ =~= message@);
                }
                ServerMessage::Error { message: m }
            },
        }
    }
}

impl ServerMessage {
    /// An event is well formed when every roster, name and text it carries
    /// fits the wire format.
    pub open spec fn wf(&self) -> bool {
        match *self {
            ServerMessage::GameState(ref s) => s.wf(),
            ServerMessage::PlayerJoined { ref player } => player@.name.len() <= u32::MAX,
            ServerMessage::Error { ref message } => message@.len() <= u32::MAX,
            _ => true,
        }
    }
}

/// The one user-visible error text: a join was refused because the roster
/// is at its cap.
pub open spec fn spec_full_error_text() -> Seq<u8> {
    seq![
        83u8, 101u8, 114u8, 118u8, 101u8, 114u8, 32u8, 105u8, 115u8, 32u8, 102u8, 117u8, 108u8,
        108u8,
    ]
}

/// The UTF-8 bytes of "Server is full".
pub fn full_error_text() -> (v: Vec<u8>)
    ensures
        v@ == spec_full_error_text(),
{
    let mut v: Vec<u8> = Vec::new();
    v.push(83);
    v.push(101);
    v.push(114);
    v.push(118);
    v.push(101);
    v.push(114);
    v.push(32);
    v.push(105);
    v.push(115);
    v.push(32);
    v.push(102);
    v.push(117);
    v.push(108);
    v.push(108);
    proof {
        assert(v@ =~= spec_full_error_text());
    }
    v
}

} // verus!
