//! Connection handling: one session owns the world and the registry, and
//! every inbound event — a new connection, a decoded request, a transport
//! close, a clock tick — is a single transition of this state machine.
//!
//! Each transition returns the ordered list of (identity, event) deliveries
//! it produced; the shell around the crate writes them out in that order,
//! which is what makes every client observe the same total order of
//! mutations.

use vstd::prelude::*;
use vstd::std_specs::vec::vec_index_mut;
use crate::protocol::{
    ClientMessage, ClientMessageV, ServerMessage, ServerMessageV, full_error_text,
    spec_full_error_text,
};
use crate::registry::{
    Conn, Registry, spec_conn_joined, spec_conns_distinct, spec_deliveries, spec_has_conn,
    spec_mark_joined, spec_sends_view,
};
use crate::world::{
    CropType, GameState, MAX_PLAYERS, Player, PlayerV, SPAWN_COORD_CODE, StateV, Tile, TileType,
    spec_harvest_result, spec_idx, spec_in_bounds, spec_plant_result, spec_player_index,
    spec_till_result, spec_water_result,
};

verus! {

/// The mathematical value of a session: the world and the live connections.
#[verifier::ext_equal]
pub ghost struct SessionV {
    pub game: StateV,
    pub conns: Seq<Conn>,
}

/// Whether some roster entry carries the given identity.
pub open spec fn spec_roster_has(ps: Seq<PlayerV>, id: u8) -> bool {
    exists|i: int| 0 <= i < ps.len() && ps[i].id == id
}

/// The roster with the given player's position replaced.
pub open spec fn spec_roster_move(ps: Seq<PlayerV>, id: u8, x: u32, y: u32) -> Seq<PlayerV> {
    ps.map_values(
        |p: PlayerV|
            if p.id == id {
                PlayerV { x, y, ..p }
            } else {
                p
            },
    )
}

/// The roster with the given player's selected species replaced.
pub open spec fn spec_roster_select(ps: Seq<PlayerV>, id: u8, species: CropType) -> Seq<PlayerV> {
    ps.map_values(
        |p: PlayerV|
            if p.id == id {
                PlayerV { selected_crop: species, ..p }
            } else {
                p
            },
    )
}

/// A join request from a connection that has not joined yet: refused with
/// the one user-visible error when the roster is full; otherwise the player
/// appears at the spawn point and the joiner receives its identity and a
/// full snapshot while everyone else learns of the new player.
pub open spec fn spec_step_join(s: SessionV, id: u8, name: Seq<u8>) -> (SessionV, Seq<
    (u8, ServerMessageV),
>) {
    if s.game.players.len() >= MAX_PLAYERS {
        (s, seq![(id, ServerMessageV::Error { message: spec_full_error_text() })])
    } else {
        let p = PlayerV {
            id,
            name,
            x: SPAWN_COORD_CODE,
            y: SPAWN_COORD_CODE,
            selected_crop: CropType::Wheat,
        };
        let game = StateV { tiles: s.game.tiles, players: s.game.players.push(p) };
        let conns = spec_mark_joined(s.conns, id);
        (
            SessionV { game, conns },
            seq![
                (id, ServerMessageV::Welcome { player_id: id }),
                (id, ServerMessageV::GameState(game)),
            ] + spec_deliveries(conns, Some(id), ServerMessageV::PlayerJoined { player: p }),
        )
    }
}

/// A position update: recorded for the moving player and forwarded to
/// everyone else.
pub open spec fn spec_step_move(s: SessionV, id: u8, x: u32, y: u32) -> (SessionV, Seq<
    (u8, ServerMessageV),
>) {
    (
        SessionV {
            game: StateV { tiles: s.game.tiles, players: spec_roster_move(s.game.players, id, x, y) },
            conns: s.conns,
        },
        spec_deliveries(s.conns, Some(id), ServerMessageV::PlayerMoved { player_id: id, x, y }),
    )
}

/// A validated tile action: when the world rule yields a new tile, the grid
/// is updated and the resulting tile — not the request — is broadcast to
/// every connection; otherwise the action is a silent no-op.
pub open spec fn spec_step_tile(s: SessionV, x: u32, y: u32, r: Option<Tile>) -> (SessionV, Seq<
    (u8, ServerMessageV),
>) {
    match r {
        Some(t2) => (
            SessionV {
                game: StateV {
                    tiles: s.game.tiles.update(spec_idx(x as usize, y as usize), t2),
                    players: s.game.players,
                },
                conns: s.conns,
            },
            spec_deliveries(s.conns, None, ServerMessageV::TileUpdated { x, y, tile: t2 }),
        ),
        None => (s, Seq::empty()),
    }
}

/// The world rule a tile request falls under, `None` for an out-of-bounds
/// coordinate.
pub open spec fn spec_tile_outcome(s: SessionV, x: u32, y: u32, m: ClientMessageV) -> Option<
    Tile,
> {
    if spec_in_bounds(x as usize, y as usize) {
        let t = s.game.tiles[spec_idx(x as usize, y as usize)];
        match m {
            ClientMessageV::Till { .. } => spec_till_result(t),
            ClientMessageV::Water { .. } => spec_water_result(t),
            ClientMessageV::Plant { crop_type, .. } => spec_plant_result(t, crop_type),
            ClientMessageV::Harvest { .. } => spec_harvest_result(t),
            _ => None,
        }
    } else {
        None
    }
}

/// A species selection: recorded for the player, nothing broadcast.
pub open spec fn spec_step_select(s: SessionV, id: u8, species: CropType) -> (SessionV, Seq<
    (u8, ServerMessageV),
>) {
    (
        SessionV {
            game: StateV {
                tiles: s.game.tiles,
                players: spec_roster_select(s.game.players, id, species),
            },
            conns: s.conns,
        },
        Seq::empty(),
    )
}

/// One decoded request from a live connection. Before a connection has
/// joined, everything but a join is silently ignored; once joined, a
/// repeated join is silently ignored and every other request is validated
/// against the world rules.
pub open spec fn spec_step(s: SessionV, id: u8, m: ClientMessageV) -> (SessionV, Seq<
    (u8, ServerMessageV),
>) {
    if !spec_conn_joined(s.conns, id) {
        match m {
            ClientMessageV::Join { name } => spec_step_join(s, id, name),
            _ => (s, Seq::empty()),
        }
    } else {
        match m {
            ClientMessageV::Join { .. } => (s, Seq::empty()),
            ClientMessageV::Move { x, y } => spec_step_move(s, id, x, y),
            ClientMessageV::Till { x, y } => spec_step_tile(s, x, y, spec_tile_outcome(s, x, y, m)),
            ClientMessageV::Water { x, y } => spec_step_tile(
                s,
                x,
                y,
                spec_tile_outcome(s, x, y, m),
            ),
            ClientMessageV::Plant { x, y, .. } => spec_step_tile(
                s,
                x,
                y,
                spec_tile_outcome(s, x, y, m),
            ),
            ClientMessageV::Harvest { x, y } => spec_step_tile(
                s,
                x,
                y,
                spec_tile_outcome(s, x, y, m),
            ),
            ClientMessageV::SelectCrop { crop_type } => spec_step_select(s, id, crop_type),
        }
    }
}

/// A transport close: the connection and its player disappear, and the
/// remaining connections learn that the player left.
pub open spec fn spec_step_close(s: SessionV, id: u8) -> (SessionV, Seq<(u8, ServerMessageV)>) {
    let conns = if spec_has_conn(s.conns, id) {
        s.conns.remove(crate::registry::spec_conn_index(s.conns, id))
    } else {
        s.conns
    };
    let players = match spec_player_index(s.game.players, id) {
        Some(i) => s.game.players.remove(i),
        None => s.game.players,
    };
    (
        SessionV { game: StateV { tiles: s.game.tiles, players }, conns },
        spec_deliveries(conns, None, ServerMessageV::PlayerLeft { player_id: id }),
    )
}

/// Law: a join beyond the player cap leaves the whole session unchanged and
/// produces exactly one delivery — an error event to the joiner alone.
pub proof fn lemma_join_capacity(s: SessionV, id: u8, name: Seq<u8>)
    requires
        !spec_conn_joined(s.conns, id),
        s.game.players.len() >= MAX_PLAYERS,
    ensures
        spec_step(s, id, ClientMessageV::Join { name }).0 == s,
        spec_step(s, id, ClientMessageV::Join { name }).1 == seq![
            (id, ServerMessageV::Error { message: spec_full_error_text() }),
        ],
{
}

/// Law: when one connection tills and then waters the same grass tile, the
/// first transition broadcasts the tilled tile and the second the watered
/// tile, and every live connection — the deliveries exclude nobody — gets
/// the first strictly before the second in the order the deliveries are
/// written out.
pub proof fn lemma_till_then_water_order(s: SessionV, a: u8, x: u32, y: u32, id: u8)
    requires
        crate::world::spec_state_wf(s.game),
        spec_conn_joined(s.conns, a),
        spec_in_bounds(x as usize, y as usize),
        s.game.tiles[spec_idx(x as usize, y as usize)].tile_type == TileType::Grass,
        spec_has_conn(s.conns, id),
    ensures
        ({
            let t0 = s.game.tiles[spec_idx(x as usize, y as usize)];
            let t1 = Tile { tile_type: TileType::Soil, crop: t0.crop };
            let t2 = Tile { tile_type: TileType::WateredSoil, crop: t0.crop };
            let r1 = spec_step(s, a, ClientMessageV::Till { x, y });
            let r2 = spec_step(r1.0, a, ClientMessageV::Water { x, y });
            let d = r1.1 + r2.1;
            exists|i: int, j: int|
                0 <= i < j < d.len() && d[i] == (
                id,
                ServerMessageV::TileUpdated { x, y, tile: t1 },
                ) && d[j] == (id, ServerMessageV::TileUpdated { x, y, tile: t2 })
        }),
{
    let idx = spec_idx(x as usize, y as usize);
    let t0 = s.game.tiles[idx];
    let t1 = Tile { tile_type: TileType::Soil, crop: t0.crop };
    let t2 = Tile { tile_type: TileType::WateredSoil, crop: t0.crop };
    let r1 = spec_step(s, a, ClientMessageV::Till { x, y });
    let r2 = spec_step(r1.0, a, ClientMessageV::Water { x, y });
    assert(spec_till_result(t0) == Some(t1));
    assert(r1.0.game.tiles[idx] == t1);
    assert(r1.0.conns == s.conns);
    assert(spec_water_result(t1) == Some(t2));
    let m1 = ServerMessageV::TileUpdated { x, y, tile: t1 };
    let m2 = ServerMessageV::TileUpdated { x, y, tile: t2 };
    assert(r1.1 == spec_deliveries(s.conns, None, m1));
    assert(r2.1 == spec_deliveries(s.conns, None, m2));
    crate::registry::lemma_deliveries_reach(s.conns, None, m1, id);
    crate::registry::lemma_deliveries_reach(s.conns, None, m2, id);
    let d = r1.1 + r2.1;
    let i = choose|i: int| 0 <= i < r1.1.len() && r1.1[i] == (id, m1);
    let j0 = choose|j: int| 0 <= j < r2.1.len() && r2.1[j] == (id, m2);
    assert(d[i] == (id, m1));
    assert(d[r1.1.len() + j0] == (id, m2));
}

/// The session: the one structure the shell guards with its exclusive lock
/// and hands to every worker.
#[derive(Debug)]
pub struct Session {
    pub game: GameState,
    pub registry: Registry,
}

impl View for Session {
    type V = SessionV;

    open spec fn view(&self) -> SessionV {
        SessionV { game: self.game@, conns: self.registry.conns@ }
    }
}

impl Session {
    /// Well-formedness: the world and the registry are each well formed,
    /// every roster entry belongs to a joined connection, and every joined
    /// connection has its roster entry.
    pub open spec fn wf(&self) -> bool {
        &&& self.game.wf()
        &&& self.registry.wf()
        &&& forall|i: int|
            0 <= i < self@.game.players.len() ==> spec_conn_joined(
                self@.conns,
                #[trigger] self@.game.players[i].id,
            )
        &&& forall|i: int|
            0 <= i < self@.conns.len() && (#[trigger] self@.conns[i]).joined ==> spec_roster_has(
                self@.game.players,
                self@.conns[i].id,
            )
    }

    /// A session over a given world — genesis, or restored from a
    /// snapshot — with no connections yet. Players exist only for the
    /// lifetime of their connection, and no connection survives a restart,
    /// so the roster starts empty whatever the snapshot carried.
    pub fn new(game: GameState) -> (s: Session)
        requires
            game.wf(),
        ensures
            s.wf(),
            s@.game.tiles == game@.tiles,
            s@.game.players.len() == 0,
            s@.conns.len() == 0,
    {
        let mut game = game;
        game.players = Vec::new();
        proof {
            assert(game@.players =~= Seq::<PlayerV>::empty());
        }
        Session { game, registry: Registry::new() }
    }

    /// A newly accepted connection: hand it the lowest free identity, or
    /// refuse it when the whole identity range is live. A refused
    /// connection never observes or touches the world.
    pub fn client_connected(&mut self) -> (r: Option<u8>)
        requires
            old(self).wf(),
        ensures
            final(self).wf(),
            match r {
                Some(id) => !spec_has_conn(old(self)@.conns, id) && final(self)@.conns == old(
                    self,
                )@.conns.push(Conn { id, joined: false }) && final(self)@.game == old(self)@.game,
                None => final(self)@ == old(self)@ && (forall|j: u8|
                    spec_has_conn(old(self)@.conns, j)),
            },
    {
        let r = self.registry.alloc_id();
        match r {
            Some(id) => {
                self.registry.register(id);
                proof {
                    let cs = self.registry.conns@;
                    assert forall|i: int|
                        0 <= i < self@.game.players.len() implies spec_conn_joined(
                        self@.conns,
                        #[trigger] self@.game.players[i].id,
                    ) by {
                        let pid = self@.game.players[i].id;
                        let k = choose|k: int|
                            0 <= k < old(self)@.conns.len() && old(self)@.conns[k].id == pid && old(
                                self,
                            )@.conns[k].joined;
                        assert(cs[k].id == pid && cs[k].joined);
                    }
                    assert forall|i: int|
                        0 <= i < self@.conns.len() && (#[trigger] self@.conns[i]).joined
                        implies spec_roster_has(self@.game.players, self@.conns[i].id) by {
                        assert(i < old(self)@.conns.len());
                        assert(self@.conns[i] == old(self)@.conns[i]);
                    }
                }
                Some(id)
            },
            None => None,
        }
    }

    /// One decoded request from the connection with the given identity.
    /// Returns the ordered deliveries the transition produced.
    pub fn client_message(&mut self, id: u8, msg: &ClientMessage) -> (sends: Vec<
        (u8, ServerMessage),
    >)
        requires
            old(self).wf(),
            spec_has_conn(old(self)@.conns, id),
            msg.wf(),
        ensures
            final(self).wf(),
            final(self)@ == spec_step(old(self)@, id, msg@).0,
            spec_sends_view(sends@) == spec_step(old(self)@, id, msg@).1,
    {
        let joined = self.registry.is_joined(id);
        if !joined {
            match msg {
                ClientMessage::Join { name } => self.do_join(id, name),
                _ => {
                    let out: Vec<(u8, ServerMessage)> = Vec::new();
                    proof {
                        assert(spec_sends_view(out@) =~~= Seq::<(u8, ServerMessageV)>::empty());
                    }
                    out
                },
            }
        } else {
            match msg {
                ClientMessage::Join { .. } => {
                    let out: Vec<(u8, ServerMessage)> = Vec::new();
                    proof {
                        assert(spec_sends_view(out@) =~~= Seq::<(u8, ServerMessageV)>::empty());
                    }
                    out
                },
                ClientMessage::Move { x, y } => self.do_move(id, *x, *y),
                ClientMessage::Till { x, y } => self.do_till(*x, *y),
                ClientMessage::Water { x, y } => self.do_water(*x, *y),
                ClientMessage::Plant { x, y, crop_type } => self.do_plant(*x, *y, *crop_type),
                ClientMessage::Harvest { x, y } => self.do_harvest(*x, *y),
                ClientMessage::SelectCrop { crop_type } => self.do_select(id, *crop_type),
            }
        }
    }

    /// A transport error or close on the connection with the given
    /// identity: tear it down, drop its player, tell the others.
    pub fn client_closed(&mut self, id: u8) -> (sends: Vec<(u8, ServerMessage)>)
        requires
            old(self).wf(),
        ensures
            final(self).wf(),
            final(self)@ == spec_step_close(old(self)@, id).0,
            spec_sends_view(sends@) == spec_step_close(old(self)@, id).1,
            !spec_has_conn(final(self)@.conns, id),
            !spec_roster_has(final(self)@.game.players, id),
    {
        self.registry.unregister(id);
        self.remove_player(id);
        let msg = ServerMessage::PlayerLeft { player_id: id };
        let out = self.registry.broadcast(&msg, None);
        proof {
            let s2 = spec_step_close(old(self)@, id).0;
            assert(self@.game.tiles =~= s2.game.tiles);
            assert(self@ =~~= s2);
            assert(spec_sends_view(out@) =~~= spec_step_close(old(self)@, id).1);
            self.lemma_close_wf(old(self)@, id);
        }
        out
    }

    /// One firing of the simulation clock: advance every tile once; the
    /// roster, the connections, and the outside world see nothing until the
    /// next snapshot or tile event.
    pub fn clock_tick(&mut self)
        requires
            old(self).wf(),
        ensures
            final(self).wf(),
            final(self)@.conns == old(self)@.conns,
            final(self)@.game.players == old(self)@.game.players,
            final(self)@.game.tiles =~= old(self)@.game.tiles.map_values(
                |t: Tile| crate::world::spec_tile_step(t),
            ),
    {
        self.game.tick();
        proof {
            assert(self@.conns == old(self)@.conns);
            assert(self@.game.players == old(self)@.game.players);
            assert forall|i: int| 0 <= i < self@.game.players.len() implies spec_conn_joined(
                self@.conns,
                #[trigger] self@.game.players[i].id,
            ) by {
                assert(spec_conn_joined(old(self)@.conns, old(self)@.game.players[i].id));
            }
            assert forall|i: int|
                0 <= i < self@.conns.len() && (#[trigger] self@.conns[i]).joined
                implies spec_roster_has(self@.game.players, self@.conns[i].id) by {
                assert(spec_roster_has(old(self)@.game.players, old(self)@.conns[i].id));
            }
        }
    }

    /// The join transition; see `spec_step_join`.
    fn do_join(&mut self, id: u8, name: &Vec<u8>) -> (sends: Vec<(u8, ServerMessage)>)
        requires
            old(self).wf(),
            spec_has_conn(old(self)@.conns, id),
            !spec_conn_joined(old(self)@.conns, id),
            name@.len() <= u32::MAX,
        ensures
            final(self).wf(),
            final(self)@ == spec_step_join(old(self)@, id, name@).0,
            spec_sends_view(sends@) == spec_step_join(old(self)@, id, name@).1,
    {
        if self.game.players.len() >= MAX_PLAYERS {
            let err = ServerMessage::Error { message: full_error_text() };
            let out = self.registry.unicast(id, &err);
            proof {
                assert(spec_sends_view(out@) =~~= spec_step_join(old(self)@, id, name@).1);
            }
            out
        } else {
            proof {
                // the identity is live but not joined, so no roster entry
                // carries it yet
                assert forall|i: int|
                    0 <= i < self@.game.players.len() implies self@.game.players[i].id != id by {
                    if self@.game.players[i].id == id {
                        assert(spec_conn_joined(self@.conns, id));
                    }
                }
            }
            let player = Player::new(id, name.clone());
            let announce = ServerMessage::PlayerJoined { player: player.clone() };
            self.game.players.push(player);
            self.registry.mark_joined(id);
            let mut out: Vec<(u8, ServerMessage)> = Vec::new();
            out.push((id, ServerMessage::Welcome { player_id: id }));
            out.push((id, ServerMessage::GameState(self.game.clone())));
            let mut bc = self.registry.broadcast(&announce, Some(id));
            out.append(&mut bc);
            proof {
                let s0 = old(self)@;
                let s2 = spec_step_join(s0, id, name@).0;
                assert(self@.game.players =~= s2.game.players);
                assert(self@.conns =~= s2.conns);
                assert(self@ =~~= s2);
                assert(spec_sends_view(out@) =~~= spec_step_join(s0, id, name@).1);
                self.lemma_join_wf(s0, id);
            }
            out
        }
    }

    /// The move transition; see `spec_step_move`.
    fn do_move(&mut self, id: u8, x: u32, y: u32) -> (sends: Vec<(u8, ServerMessage)>)
        requires
            old(self).wf(),
            spec_conn_joined(old(self)@.conns, id),
        ensures
            final(self).wf(),
            final(self)@ == spec_step_move(old(self)@, id, x, y).0,
            spec_sends_view(sends@) == spec_step_move(old(self)@, id, x, y).1,
    {
        let n: usize = self.game.players.len();
        let mut i: usize = 0;
        while i < n
            invariant
                i <= n,
                n == self.game.players@.len(),
                self.registry == old(self).registry,
                self.game.tiles == old(self).game.tiles,
                forall|j: int|
                    0 <= j < i as int ==> self.game.players@[j]@ == (if old(
                        self,
                    ).game.players@[j]@.id == id {
                        PlayerV { x, y, ..old(self).game.players@[j]@ }
                    } else {
                        old(self).game.players@[j]@
                    }),
                forall|j: int|
                    i as int <= j < n as int ==> self.game.players@[j] == old(
                        self,
                    ).game.players@[j],
            decreases n - i,
        {
            if self.game.players[i].id == id {
                let p = vec_index_mut(&mut self.game.players, i);
                p.x = x;
                p.y = y;
            }
            i = i + 1;
        }
        let msg = ServerMessage::PlayerMoved { player_id: id, x, y };
        let out = self.registry.broadcast(&msg, Some(id));
        proof {
            let s0 = old(self)@;
            let s2 = spec_step_move(s0, id, x, y).0;
            assert forall|j: int| 0 <= j < n as int implies self@.game.players[j]
                == s2.game.players[j] by {
                assert(s2.game.players[j] == (if s0.game.players[j].id == id {
                    PlayerV { x, y, ..s0.game.players[j] }
                } else {
                    s0.game.players[j]
                }));
                assert(self@.game.players[j] =~~= s2.game.players[j]);
            }
            assert(self@.game.players =~= s2.game.players);
            assert(self@ =~~= s2);
            assert(spec_sends_view(out@) =~~= spec_step_move(s0, id, x, y).1);
            self.lemma_roster_rewrite_wf(s0, id);
        }
        out
    }

    /// The species-selection transition; see `spec_step_select`.
    fn do_select(&mut self, id: u8, species: CropType) -> (sends: Vec<(u8, ServerMessage)>)
        requires
            old(self).wf(),
            spec_conn_joined(old(self)@.conns, id),
        ensures
            final(self).wf(),
            final(self)@ == spec_step_select(old(self)@, id, species).0,
            spec_sends_view(sends@) == spec_step_select(old(self)@, id, species).1,
    {
        let n: usize = self.game.players.len();
        let mut i: usize = 0;
        while i < n
            invariant
                i <= n,
                n == self.game.players@.len(),
                self.registry == old(self).registry,
                self.game.tiles == old(self).game.tiles,
                forall|j: int|
                    0 <= j < i as int ==> self.game.players@[j]@ == (if old(
                        self,
                    ).game.players@[j]@.id == id {
                        PlayerV { selected_crop: species, ..old(self).game.players@[j]@ }
                    } else {
                        old(self).game.players@[j]@
                    }),
                forall|j: int|
                    i as int <= j < n as int ==> self.game.players@[j] == old(
                        self,
                    ).game.players@[j],
            decreases n - i,
        {
            if self.game.players[i].id == id {
                let p = vec_index_mut(&mut self.game.players, i);
                p.selected_crop = species;
            }
            i = i + 1;
        }
        let out: Vec<(u8, ServerMessage)> = Vec::new();
        proof {
            let s0 = old(self)@;
            let s2 = spec_step_select(s0, id, species).0;
            assert forall|j: int| 0 <= j < n as int implies self@.game.players[j]
                == s2.game.players[j] by {
                assert(s2.game.players[j] == (if s0.game.players[j].id == id {
                    PlayerV { selected_crop: species, ..s0.game.players[j] }
                } else {
                    s0.game.players[j]
                }));
                assert(self@.game.players[j] =~~= s2.game.players[j]);
            }
            assert(self@.game.players =~= s2.game.players);
            assert(self@ =~~= s2);
            assert(spec_sends_view(out@) =~~= Seq::<(u8, ServerMessageV)>::empty());
            self.lemma_roster_rewrite_wf(s0, id);
        }
        out
    }

    /// The till transition; see `spec_step_tile` and `spec_till_result`.
    fn do_till(&mut self, x: u32, y: u32) -> (sends: Vec<(u8, ServerMessage)>)
        requires
            old(self).wf(),
        ensures
            final(self).wf(),
            final(self)@ == spec_step_tile(
                old(self)@,
                x,
                y,
                spec_tile_outcome(old(self)@, x, y, ClientMessageV::Till { x, y }),
            ).0,
            spec_sends_view(sends@) == spec_step_tile(
                old(self)@,
                x,
                y,
                spec_tile_outcome(old(self)@, x, y, ClientMessageV::Till { x, y }),
            ).1,
    {
        let changed = self.game.apply_till(x as usize, y as usize);
        self.broadcast_tile_update(x, y, changed)
    }

    /// The water transition; see `spec_step_tile` and `spec_water_result`.
    fn do_water(&mut self, x: u32, y: u32) -> (sends: Vec<(u8, ServerMessage)>)
        requires
            old(self).wf(),
        ensures
            final(self).wf(),
            final(self)@ == spec_step_tile(
                old(self)@,
                x,
                y,
                spec_tile_outcome(old(self)@, x, y, ClientMessageV::Water { x, y }),
            ).0,
            spec_sends_view(sends@) == spec_step_tile(
                old(self)@,
                x,
                y,
                spec_tile_outcome(old(self)@, x, y, ClientMessageV::Water { x, y }),
            ).1,
    {
        let changed = self.game.apply_water(x as usize, y as usize);
        self.broadcast_tile_update(x, y, changed)
    }

    /// The plant transition; see `spec_step_tile` and `spec_plant_result`.
    fn do_plant(&mut self, x: u32, y: u32, species: CropType) -> (sends: Vec<(u8, ServerMessage)>)
        requires
            old(self).wf(),
        ensures
            final(self).wf(),
            final(self)@ == spec_step_tile(
                old(self)@,
                x,
                y,
                spec_tile_outcome(old(self)@, x, y, ClientMessageV::Plant { x, y, crop_type: species }),
            ).0,
            spec_sends_view(sends@) == spec_step_tile(
                old(self)@,
                x,
                y,
                spec_tile_outcome(old(self)@, x, y, ClientMessageV::Plant { x, y, crop_type: species }),
            ).1,
    {
        let changed = self.game.apply_plant(x as usize, y as usize, species);
        self.broadcast_tile_update(x, y, changed)
    }

    /// The harvest transition; see `spec_step_tile` and
    /// `spec_harvest_result`.
    fn do_harvest(&mut self, x: u32, y: u32) -> (sends: Vec<(u8, ServerMessage)>)
        requires
            old(self).wf(),
        ensures
            final(self).wf(),
            final(self)@ == spec_step_tile(
                old(self)@,
                x,
                y,
                spec_tile_outcome(old(self)@, x, y, ClientMessageV::Harvest { x, y }),
            ).0,
            spec_sends_view(sends@) == spec_step_tile(
                old(self)@,
                x,
                y,
                spec_tile_outcome(old(self)@, x, y, ClientMessageV::Harvest { x, y }),
            ).1,
    {
        let changed = self.game.apply_harvest(x as usize, y as usize);
        self.broadcast_tile_update(x, y, changed)
    }

    /// After a successful tile mutation, broadcast the resulting tile to
    /// every connection; after a refused one, stay silent.
    fn broadcast_tile_update(&self, x: u32, y: u32, changed: bool) -> (sends: Vec<
        (u8, ServerMessage),
    >)
        requires
            self.wf(),
            changed ==> spec_in_bounds(x as usize, y as usize),
        ensures
            changed ==> spec_sends_view(sends@) == spec_deliveries(
                self@.conns,
                None,
                ServerMessageV::TileUpdated {
                    x,
                    y,
                    tile: self@.game.tiles[spec_idx(x as usize, y as usize)],
                },
            ),
            !changed ==> spec_sends_view(sends@) == Seq::<(u8, ServerMessageV)>::empty(),
    {
        if changed {
            match self.game.get_tile(x as usize, y as usize) {
                Some(t) => {
                    let tile = *t;
                    let msg = ServerMessage::TileUpdated { x, y, tile };
                    let out = self.registry.broadcast(&msg, None);
                    proof {
                        assert(spec_sends_view(out@) =~~= spec_deliveries(
                            self@.conns,
                            None,
                            ServerMessageV::TileUpdated {
                                x,
                                y,
                                tile: self@.game.tiles[spec_idx(x as usize, y as usize)],
                            },
                        ));
                    }
                    out
                },
                None => {
                    proof {
                        assert(false);
                    }
                    Vec::new()
                },
            }
        } else {
            let out: Vec<(u8, ServerMessage)> = Vec::new();
            proof {
                assert(spec_sends_view(out@) =~~= Seq::<(u8, ServerMessageV)>::empty());
            }
            out
        }
    }

    /// Drop the roster entry with the given identity, if any.
    fn remove_player(&mut self, id: u8)
        requires
            old(self).game.wf(),
        ensures
            final(self).registry == old(self).registry,
            final(self).game.wf(),
            final(self)@.game.tiles == old(self)@.game.tiles,
            final(self)@.game.players == (match spec_player_index(old(self)@.game.players, id) {
                Some(i) => old(self)@.game.players.remove(i),
                None => old(self)@.game.players,
            }),
            !spec_roster_has(final(self)@.game.players, id),
    {
        let n: usize = self.game.players.len();
        let mut i: usize = 0;
        while i < n
            invariant
                i <= n,
                n == self.game.players@.len(),
                self.game == old(self).game,
                self.registry == old(self).registry,
                old(self).game.wf(),
                forall|j: int| 0 <= j < i as int ==> self.game.players@[j].id != id,
            decreases n - i,
        {
            if self.game.players[i].id == id {
                proof {
                    let ps = old(self)@.game.players;
                    assert(ps[i as int].id == id);
                    let k = choose|k: int| 0 <= k < ps.len() && ps[k].id == id;
                    if k < i as int {
                        assert(self.game.players@[k]@.id == id);
                        assert(false);
                    }
                    if k > i as int {
                        assert(ps[i as int].id != ps[k].id);
                        assert(false);
                    }
                    assert(spec_player_index(ps, id) == Some(i as int));
                }
                self.game.players.remove(i);
                proof {
                    let ps = old(self)@.game.players;
                    assert(self@.game.players =~= ps.remove(i as int));
                    assert forall|k: int|
                        0 <= k < self@.game.players.len() implies #[trigger] self@.game.players[k].name.len()
                        <= u32::MAX by {
                        if k < i as int {
                            assert(self@.game.players[k] == ps[k]);
                        } else {
                            assert(self@.game.players[k] == ps[k + 1]);
                        }
                    }
                    assert forall|k: int| 0 <= k < self@.game.players.len() implies self@.game.players[k].id != id by {
                        if k < i as int {
                            assert(self@.game.players[k] == ps[k]);
                        } else {
                            assert(self@.game.players[k] == ps[k + 1]);
                            assert(ps[i as int].id != ps[k + 1].id);
                        }
                    }
                    assert forall|a: int, b: int|
                        0 <= a < b < self@.game.players.len() implies self@.game.players[a].id
                        != self@.game.players[b].id by {
                        let a2 = if a < i as int {
                            a
                        } else {
                            a + 1
                        };
                        let b2 = if b < i as int {
                            b
                        } else {
                            b + 1
                        };
                        assert(self@.game.players[a] == ps[a2]);
                        assert(self@.game.players[b] == ps[b2]);
                        assert(ps[a2].id != ps[b2].id);
                    }
                }
                return ;
            }
            i = i + 1;
        }
        proof {
            let ps = old(self)@.game.players;
            if spec_player_index(ps, id) is Some {
                let k = choose|k: int| 0 <= k < ps.len() && ps[k].id == id;
                assert(self.game.players@[k]@.id == id);
                assert(false);
            }
        }
    }

    /// Joining preserves well-formedness: the fresh roster entry belongs to
    /// the freshly joined connection, and every older pairing survives.
    proof fn lemma_join_wf(&self, s0: SessionV, id: u8)
        requires
            spec_conns_distinct(s0.conns),
            spec_has_conn(s0.conns, id),
            self@.conns == spec_mark_joined(s0.conns, id),
            forall|i: int|
                0 <= i < s0.game.players.len() ==> spec_conn_joined(
                    s0.conns,
                    #[trigger] s0.game.players[i].id,
                ),
            forall|i: int|
                0 <= i < s0.conns.len() && (#[trigger] s0.conns[i]).joined ==> spec_roster_has(
                    s0.game.players,
                    s0.conns[i].id,
                ),
            self@.game.players.len() == s0.game.players.len() + 1,
            forall|i: int|
                0 <= i < s0.game.players.len() ==> #[trigger] self@.game.players[i]
                    == s0.game.players[i],
            self@.game.players.last().id == id,
        ensures
            forall|i: int|
                0 <= i < self@.game.players.len() ==> spec_conn_joined(
                    self@.conns,
                    #[trigger] self@.game.players[i].id,
                ),
            forall|i: int|
                0 <= i < self@.conns.len() && (#[trigger] self@.conns[i]).joined
                    ==> spec_roster_has(self@.game.players, self@.conns[i].id),
    {
        let cs = s0.conns;
        let cs2 = self@.conns;
        let ps = s0.game.players;
        let ps2 = self@.game.players;
        assert(cs2.len() == cs.len());
        assert forall|i: int| 0 <= i < ps2.len() implies spec_conn_joined(
            cs2,
            #[trigger] ps2[i].id,
        ) by {
            if i < ps.len() {
                let k = choose|k: int| 0 <= k < cs.len() && cs[k].id == ps[i].id && cs[k].joined;
                assert(cs2[k].id == ps[i].id && cs2[k].joined);
            } else {
                let k = choose|k: int| 0 <= k < cs.len() && cs[k].id == id;
                assert(cs2[k].id == id && cs2[k].joined);
            }
        }
        assert forall|i: int|
            0 <= i < cs2.len() && (#[trigger] cs2[i]).joined implies spec_roster_has(
            ps2,
            cs2[i].id,
        ) by {
            if cs[i].joined {
                let k = choose|k: int| 0 <= k < ps.len() && ps[k].id == cs[i].id;
                assert(ps2[k].id == cs2[i].id);
            } else {
                // freshly joined: this is the connection with the new identity
                assert(cs2[i].id == id);
                assert(ps2[ps.len() as int].id == id);
            }
        }
    }

    /// Rewriting roster entries in place — positions or selections — never
    /// changes identities, so every pairing between roster and connections
    /// survives.
    proof fn lemma_roster_rewrite_wf(&self, s0: SessionV, id: u8)
        requires
            self@.conns == s0.conns,
            self@.game.players.len() == s0.game.players.len(),
            forall|i: int|
                0 <= i < self@.game.players.len() ==> #[trigger] self@.game.players[i].id
                    == s0.game.players[i].id,
            forall|i: int|
                0 <= i < s0.game.players.len() ==> spec_conn_joined(
                    s0.conns,
                    #[trigger] s0.game.players[i].id,
                ),
            forall|i: int|
                0 <= i < s0.conns.len() && (#[trigger] s0.conns[i]).joined ==> spec_roster_has(
                    s0.game.players,
                    s0.conns[i].id,
                ),
        ensures
            forall|i: int|
                0 <= i < self@.game.players.len() ==> spec_conn_joined(
                    self@.conns,
                    #[trigger] self@.game.players[i].id,
                ),
            forall|i: int|
                0 <= i < self@.conns.len() && (#[trigger] self@.conns[i]).joined
                    ==> spec_roster_has(self@.game.players, self@.conns[i].id),
    {
        let ps = s0.game.players;
        let ps2 = self@.game.players;
        assert forall|i: int|
            0 <= i < self@.conns.len() && (#[trigger] self@.conns[i]).joined implies spec_roster_has(
            ps2,
            self@.conns[i].id,
        ) by {
            let k = choose|k: int| 0 <= k < ps.len() && ps[k].id == s0.conns[i].id;
            assert(ps2[k].id == self@.conns[i].id);
        }
    }

    /// Closing a connection preserves well-formedness: the departed
    /// identity is gone from both sides, and every other pairing survives.
    proof fn lemma_close_wf(&self, s0: SessionV, id: u8)
        requires
            spec_conns_distinct(s0.conns),
            forall|i: int, j: int|
                0 <= i < j < s0.game.players.len() ==> s0.game.players[i].id
                    != s0.game.players[j].id,
            forall|i: int|
                0 <= i < s0.game.players.len() ==> spec_conn_joined(
                    s0.conns,
                    #[trigger] s0.game.players[i].id,
                ),
            forall|i: int|
                0 <= i < s0.conns.len() && (#[trigger] s0.conns[i]).joined ==> spec_roster_has(
                    s0.game.players,
                    s0.conns[i].id,
                ),
            self@.conns == spec_step_close(s0, id).0.conns,
            self@.game.players == spec_step_close(s0, id).0.game.players,
        ensures
            forall|i: int|
                0 <= i < self@.game.players.len() ==> spec_conn_joined(
                    self@.conns,
                    #[trigger] self@.game.players[i].id,
                ),
            forall|i: int|
                0 <= i < self@.conns.len() && (#[trigger] self@.conns[i]).joined
                    ==> spec_roster_has(self@.game.players, self@.conns[i].id),
    {
        let cs = s0.conns;
        let ps = s0.game.players;
        let cs2 = self@.conns;
        let ps2 = self@.game.players;
        assert forall|i: int| 0 <= i < ps2.len() implies spec_conn_joined(
            cs2,
            #[trigger] ps2[i].id,
        ) by {
            // position of this entry in the old roster
            let i2 = (match spec_player_index(ps, id) {
                Some(r) => if i < r {
                    i
                } else {
                    i + 1
                },
                None => i,
            });
            assert(ps2[i].id == ps[i2].id);
            assert(ps[i2].id != id) by {
                if ps[i2].id == id {
                    let r = choose|r: int| 0 <= r < ps.len() && ps[r].id == id;
                    assert(spec_player_index(ps, id) == Some(r));
                    assert(i2 != r);
                    assert(ps[r].id == ps[i2].id);
                    assert(false);
                }
            }
            let k = choose|k: int| 0 <= k < cs.len() && cs[k].id == ps[i2].id && cs[k].joined;
            if spec_has_conn(cs, id) {
                let r = crate::registry::spec_conn_index(cs, id);
                assert(0 <= r < cs.len() && cs[r].id == id);
                assert(k != r);
                let k2 = if k < r {
                    k
                } else {
                    k - 1
                };
                assert(cs2[k2] == cs[k]);
            } else {
                assert(cs2[k] == cs[k]);
            }
        }
        assert forall|i: int|
            0 <= i < cs2.len() && (#[trigger] cs2[i]).joined implies spec_roster_has(
            ps2,
            cs2[i].id,
        ) by {
            let i2 = (if spec_has_conn(cs, id) {
                let r = crate::registry::spec_conn_index(cs, id);
                if i < r {
                    i
                } else {
                    i + 1
                }
            } else {
                i
            });
            assert(cs2[i] == cs[i2]);
            assert(cs[i2].id != id) by {
                if spec_has_conn(cs, id) {
                    let r = crate::registry::spec_conn_index(cs, id);
                    assert(0 <= r < cs.len() && cs[r].id == id);
                    assert(i2 != r);
                    assert(cs[r].id != cs[i2].id);
                }
            }
            let k = choose|k: int| 0 <= k < ps.len() && ps[k].id == cs[i2].id;
            match spec_player_index(ps, id) {
                Some(r) => {
                    assert(0 <= r < ps.len() && ps[r].id == id);
                    assert(k != r);
                    let k2 = if k < r {
                        k
                    } else {
                        k - 1
                    };
                    assert(ps2[k2] == ps[k]);
                },
                None => {
                    assert(ps2[k] == ps[k]);
                },
            }
        }
    }
}

} // verus!
