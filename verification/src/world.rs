//! World model: the tile grid, the crop lifecycle, and the player roster,
//! together with the deterministic rules that advance them once per
//! simulation tick and validate every player action.

use vstd::prelude::*;
use vstd::std_specs::vec::vec_index_mut;

verus! {

/// Maximum number of simultaneous players.
pub const MAX_PLAYERS: usize = 8;

/// World width, in tiles.
pub const WORLD_WIDTH: usize = 32;

/// World height, in tiles.
pub const WORLD_HEIGHT: usize = 32;

/// Ticks a crop needs to pass through all of its growth stages.
pub const CROP_GROWTH_TIME: u32 = 200;

/// Ticks spent in one growth stage; the remainder of the division is
/// deliberately dropped, so a crop matures after four full stage durations.
pub const STAGE_TICKS: u32 = CROP_GROWTH_TIME / 4;

/// Positions are opaque 32-bit codes chosen by the front-end, which clamps
/// them to the world bounds before sending; the server stores and forwards
/// them without interpreting them. Every new player starts at this fixed
/// code, the front-end's code for the centre of the world.
pub const SPAWN_COORD_CODE: u32 = 0x4400_0000;

#[derive(Clone, Copy, PartialEq, Eq, Structural, Debug)]
pub enum TileType {
    Grass,
    Soil,
    WateredSoil,
}

#[derive(Clone, Copy, PartialEq, Eq, Structural, Debug)]
pub enum CropType {
    Wheat,
    Carrot,
    Tomato,
}

#[derive(Clone, Copy, PartialEq, Eq, Structural, Debug)]
pub enum GrowthStage {
    Seed,
    Sprout,
    Growing,
    Mature,
}

#[derive(Clone, Copy, PartialEq, Eq, Structural, Debug)]
pub struct Crop {
    pub crop_type: CropType,
    pub growth_stage: GrowthStage,
    pub ticks_in_stage: u32,
}

/// The stage a crop enters when it finishes its current one; `Mature` is
/// terminal.
pub open spec fn spec_stage_next(s: GrowthStage) -> GrowthStage {
    match s {
        GrowthStage::Seed => GrowthStage::Sprout,
        GrowthStage::Sprout => GrowthStage::Growing,
        GrowthStage::Growing => GrowthStage::Mature,
        GrowthStage::Mature => GrowthStage::Mature,
    }
}

/// Stages in their fixed order, as positions on the growth ladder.
pub open spec fn spec_stage_index(s: GrowthStage) -> int {
    match s {
        GrowthStage::Seed => 0,
        GrowthStage::Sprout => 1,
        GrowthStage::Growing => 2,
        GrowthStage::Mature => 3,
    }
}

/// One tick of crop growth: frozen unless the tile is watered; watered, the
/// stage counter advances and the crop moves up one stage each time a full
/// stage duration has elapsed.
pub open spec fn spec_crop_step(c: Crop, watered: bool) -> Crop {
    if !watered {
        c
    } else if c.ticks_in_stage >= STAGE_TICKS - 1 {
        Crop { growth_stage: spec_stage_next(c.growth_stage), ticks_in_stage: 0, ..c }
    } else {
        Crop { ticks_in_stage: (c.ticks_in_stage + 1) as u32, ..c }
    }
}

/// The crop after `n` consecutive ticks on a watered tile.
pub open spec fn spec_crop_after(c: Crop, n: nat) -> Crop
    decreases n,
{
    if n == 0 {
        c
    } else {
        spec_crop_step(spec_crop_after(c, (n - 1) as nat), true)
    }
}

impl Crop {
    /// A crop is created by a successful plant action, in its first stage.
    pub fn new(crop_type: CropType) -> (c: Crop)
        ensures
            c == (Crop { crop_type, growth_stage: GrowthStage::Seed, ticks_in_stage: 0u32 }),
    {
        Crop { crop_type, growth_stage: GrowthStage::Seed, ticks_in_stage: 0 }
    }

    /// Advance the crop by one simulation tick of the owning tile.
    pub fn tick(&mut self, is_watered: bool)
        ensures
            *final(self) == spec_crop_step(*old(self), is_watered),
    {
        if is_watered {
            if self.ticks_in_stage >= STAGE_TICKS - 1 {
                self.ticks_in_stage = 0;
                self.growth_stage = match self.growth_stage {
                    GrowthStage::Seed => GrowthStage::Sprout,
                    GrowthStage::Sprout => GrowthStage::Growing,
                    GrowthStage::Growing => GrowthStage::Mature,
                    GrowthStage::Mature => GrowthStage::Mature,
                };
            } else {
                self.ticks_in_stage = self.ticks_in_stage + 1;
            }
        }
    }

    /// Only a mature crop can be harvested.
    pub fn is_harvestable(&self) -> (r: bool)
        ensures
            r == (self.growth_stage == GrowthStage::Mature),
    {
        self.growth_stage == GrowthStage::Mature
    }
}

/// Law: crop growth is frozen on an unwatered tile, never changes the
/// species, and moves the stage only forward and by at most one step per
/// tick.
pub proof fn lemma_growth_forward(c: Crop, watered: bool)
    ensures
        !watered ==> spec_crop_step(c, watered) == c,
        spec_crop_step(c, watered).crop_type == c.crop_type,
        spec_stage_index(spec_crop_step(c, watered).growth_stage) >= spec_stage_index(
            c.growth_stage,
        ),
        spec_stage_index(spec_crop_step(c, watered).growth_stage) <= spec_stage_index(
            c.growth_stage,
        ) + 1,
{
}

/// Law: starting a stage with a zeroed counter, a crop needs exactly
/// `CROP_GROWTH_TIME / 4` consecutive watered ticks to move up one stage;
/// every earlier tick leaves the stage unchanged.
pub proof fn lemma_stage_duration(c: Crop, n: nat)
    requires
        c.ticks_in_stage == 0,
        n <= STAGE_TICKS,
    ensures
        n < STAGE_TICKS ==> spec_crop_after(c, n) == (Crop { ticks_in_stage: n as u32, ..c }),
        n == STAGE_TICKS ==> spec_crop_after(c, n) == (Crop {
            growth_stage: spec_stage_next(c.growth_stage),
            ticks_in_stage: 0u32,
            ..c
        }),
    decreases n,
{
    if n > 0 {
        lemma_stage_duration(c, (n - 1) as nat);
    }
}

#[derive(Clone, Copy, PartialEq, Eq, Debug)]
pub struct Tile {
    pub tile_type: TileType,
    pub crop: Option<Crop>,
}

/// The tile after `n` simulation ticks.
pub open spec fn spec_tile_after(t: Tile, n: nat) -> Tile
    decreases n,
{
    if n == 0 {
        t
    } else {
        spec_tile_step(spec_tile_after(t, (n - 1) as nat))
    }
}

/// One simulation tick of a single tile: watered soil with no crop dries
/// back to plain soil, and a crop grows exactly when its tile stays watered.
pub open spec fn spec_tile_step(t: Tile) -> Tile {
    match t.crop {
        None => Tile {
            tile_type: if t.tile_type == TileType::WateredSoil {
                TileType::Soil
            } else {
                t.tile_type
            },
            crop: None,
        },
        Some(c) => Tile {
            tile_type: t.tile_type,
            crop: Some(spec_crop_step(c, t.tile_type == TileType::WateredSoil)),
        },
    }
}

/// Tilling succeeds only on grass and turns it to soil, touching nothing
/// else; on any other surface it is a silent no-op.
pub open spec fn spec_till_result(t: Tile) -> Option<Tile> {
    if t.tile_type == TileType::Grass {
        Some(Tile { tile_type: TileType::Soil, crop: t.crop })
    } else {
        None
    }
}

/// Watering succeeds only on plain soil and turns it to watered soil.
pub open spec fn spec_water_result(t: Tile) -> Option<Tile> {
    if t.tile_type == TileType::Soil {
        Some(Tile { tile_type: TileType::WateredSoil, crop: t.crop })
    } else {
        None
    }
}

/// Planting succeeds only on tilled (plain or watered) soil that carries no
/// crop yet, and puts a fresh seed there; the surface is unchanged.
pub open spec fn spec_plant_result(t: Tile, species: CropType) -> Option<Tile> {
    if (t.tile_type == TileType::Soil || t.tile_type == TileType::WateredSoil)
        && t.crop is None {
        Some(
            Tile {
                tile_type: t.tile_type,
                crop: Some(
                    Crop { crop_type: species, growth_stage: GrowthStage::Seed, ticks_in_stage: 0 },
                ),
            },
        )
    } else {
        None
    }
}

/// Harvesting succeeds only on a mature crop and removes it; the surface is
/// unchanged.
pub open spec fn spec_harvest_result(t: Tile) -> Option<Tile> {
    match t.crop {
        Some(c) => if c.growth_stage == GrowthStage::Mature {
            Some(Tile { tile_type: t.tile_type, crop: None })
        } else {
            None
        },
        None => None,
    }
}

impl Tile {
    /// A fresh tile of the given surface, carrying no crop.
    pub fn new(tile_type: TileType) -> (t: Tile)
        ensures
            t == (Tile { tile_type, crop: None::<Crop> }),
    {
        Tile { tile_type, crop: None }
    }

    /// Advance the tile by one simulation tick: drying, then crop growth.
    pub fn tick(&mut self)
        ensures
            *final(self) == spec_tile_step(*old(self)),
    {
        if self.tile_type == TileType::WateredSoil && self.crop.is_none() {
            self.tile_type = TileType::Soil;
        }
        let watered = self.tile_type == TileType::WateredSoil;
        match &mut self.crop {
            Some(c) => c.tick(watered),
            None => (),
        }
    }
}

/// Law: the surface of a tile moves only along the fixed cycle
/// grass -> soil (till) -> watered (water) -> soil (drying out), planting
/// and harvesting never change it, and drying happens exactly on watered
/// soil with no crop.
pub proof fn lemma_surface_cycle(t: Tile, species: CropType)
    ensures
        spec_till_result(t) matches Some(t2) ==> t.tile_type == TileType::Grass
            && t2.tile_type == TileType::Soil && t2.crop == t.crop,
        spec_water_result(t) matches Some(t2) ==> t.tile_type == TileType::Soil
            && t2.tile_type == TileType::WateredSoil && t2.crop == t.crop,
        spec_plant_result(t, species) matches Some(t2) ==> t2.tile_type == t.tile_type,
        spec_harvest_result(t) matches Some(t2) ==> t2.tile_type == t.tile_type,
        spec_tile_step(t).tile_type == (if t.tile_type == TileType::WateredSoil
            && t.crop is None {
            TileType::Soil
        } else {
            t.tile_type
        }),
        t.crop is Some && spec_tile_step(t).tile_type != TileType::WateredSoil
            ==> spec_tile_step(t).crop == t.crop,
{
}

/// Law: a watered tile that carries a crop never dries out on its own, so
/// its crop sees an unbroken watered spell: after `n` ticks it is exactly
/// the crop grown for `n` consecutive watered ticks. With
/// `lemma_stage_duration` this pins the growth timetable of a tended tile.
pub proof fn lemma_watered_tile_growth(t: Tile, n: nat)
    requires
        t.tile_type == TileType::WateredSoil,
        t.crop is Some,
    ensures
        spec_tile_after(t, n).tile_type == TileType::WateredSoil,
        spec_tile_after(t, n).crop == Some(spec_crop_after(t.crop.unwrap(), n)),
    decreases n,
{
    if n > 0 {
        lemma_watered_tile_growth(t, (n - 1) as nat);
    }
}

#[derive(Debug, PartialEq)]
pub struct Player {
    pub id: u8,
    pub name: Vec<u8>,
    pub x: u32,
    pub y: u32,
    pub selected_crop: CropType,
}

/// The mathematical value of a player: identity, display name bytes, the two
/// opaque position codes, and the species the player has selected.
#[verifier::ext_equal]
pub ghost struct PlayerV {
    pub id: u8,
    pub name: Seq<u8>,
    pub x: u32,
    pub y: u32,
    pub selected_crop: CropType,
}

impl View for Player {
    type V = PlayerV;

    open spec fn view(&self) -> PlayerV {
        PlayerV {
            id: self.id,
            name: self.name@,
            x: self.x,
            y: self.y,
            selected_crop: self.selected_crop,
        }
    }
}

impl Clone for Player {
    fn clone(&self) -> (r: Self)
        ensures
            r@ == self@,
    {
        let r = Player {
            id: self.id,
            name: self.name.clone(),
            x: self.x,
            y: self.y,
            selected_crop: self.selected_crop,
        };
        proof {
            assert(r.name@ =~= self.name@);
        }
        r
    }
}

impl Player {
    /// A player as it joins: at the spawn point, with the default species
    /// selected.
    pub fn new(id: u8, name: Vec<u8>) -> (p: Player)
        ensures
            p@ == (PlayerV {
                id,
                name: name@,
                x: SPAWN_COORD_CODE,
                y: SPAWN_COORD_CODE,
                selected_crop: CropType::Wheat,
            }),
    {
        Player {
            id,
            name,
            x: SPAWN_COORD_CODE,
            y: SPAWN_COORD_CODE,
            selected_crop: CropType::Wheat,
        }
    }
}

/// The mathematical value of the whole world: the grid in row-major order
/// and the roster of live players.
#[verifier::ext_equal]
pub ghost struct StateV {
    pub tiles: Seq<Tile>,
    pub players: Seq<PlayerV>,
}

/// The whole shared world: a fixed-size grid of tiles in row-major order,
/// and the roster of currently joined players.
#[derive(Debug, PartialEq)]
pub struct GameState {
    pub tiles: Vec<Tile>,
    pub players: Vec<Player>,
}

impl View for GameState {
    type V = StateV;

    open spec fn view(&self) -> StateV {
        StateV { tiles: self.tiles@, players: self.players@.map_values(|p: Player| p@) }
    }
}

/// Row-major index of the tile at column `x`, row `y`.
pub open spec fn spec_idx(x: usize, y: usize) -> int {
    y * WORLD_WIDTH + x
}

/// Whether a coordinate pair names a tile of the fixed grid.
pub open spec fn spec_in_bounds(x: usize, y: usize) -> bool {
    x < WORLD_WIDTH && y < WORLD_HEIGHT
}

/// Distinct identities across a roster.
pub open spec fn spec_ids_distinct(ps: Seq<PlayerV>) -> bool {
    forall|i: int, j: int| 0 <= i < j < ps.len() ==> ps[i].id != ps[j].id
}

/// The roster position of the player with the given identity, if any.
pub open spec fn spec_player_index(ps: Seq<PlayerV>, id: u8) -> Option<int> {
    if exists|i: int| 0 <= i < ps.len() && ps[i].id == id {
        Some(choose|i: int| 0 <= i < ps.len() && ps[i].id == id)
    } else {
        None
    }
}

/// Well-formedness of a world value: the grid has its genesis size forever,
/// the roster never exceeds the player cap, identities are unique, and
/// every name fits the wire format's length prefix.
pub open spec fn spec_state_wf(s: StateV) -> bool {
    &&& s.tiles.len() == WORLD_WIDTH * WORLD_HEIGHT
    &&& s.players.len() <= MAX_PLAYERS
    &&& spec_ids_distinct(s.players)
    &&& forall|i: int| 0 <= i < s.players.len() ==> #[trigger] s.players[i].name.len() <= u32::MAX
}

impl GameState {
    /// Well-formedness of the world; see `spec_state_wf`.
    pub open spec fn wf(&self) -> bool {
        spec_state_wf(self@)
    }

    /// World genesis: every tile is grass with no crop, nobody has joined.
    pub fn new() -> (s: GameState)
        ensures
            s.wf(),
            s@.players.len() == 0,
            s@.tiles.len() == WORLD_WIDTH * WORLD_HEIGHT,
            forall|i: int|
                0 <= i < s@.tiles.len() ==> s@.tiles[i] == (Tile {
                    tile_type: TileType::Grass,
                    crop: None::<Crop>,
                }),
    {
        let total: usize = WORLD_WIDTH * WORLD_HEIGHT;
        let mut tiles: Vec<Tile> = Vec::new();
        let mut i: usize = 0;
        while i < total
            invariant
                i <= total,
                tiles@.len() == i,
                forall|j: int|
                    0 <= j < i as int ==> tiles@[j] == (Tile {
                        tile_type: TileType::Grass,
                        crop: None::<Crop>,
                    }),
            decreases total - i,
        {
            tiles.push(Tile::new(TileType::Grass));
            i = i + 1;
        }
        let s = GameState { tiles, players: Vec::new() };
        proof {
            assert(s@.players =~= Seq::<PlayerV>::empty());
        }
        s
    }

    /// Advance every tile by one simulation tick, in grid order; tiles do
    /// not interact, and the roster is untouched.
    pub fn tick(&mut self)
        ensures
            final(self)@.players == old(self)@.players,
            final(self)@.tiles =~= old(self)@.tiles.map_values(|t: Tile| spec_tile_step(t)),
            old(self).wf() ==> final(self).wf(),
    {
        let n: usize = self.tiles.len();
        let mut i: usize = 0;
        while i < n
            invariant
                i <= n,
                n == self.tiles@.len(),
                self.players == old(self).players,
                forall|j: int|
                    0 <= j < i as int ==> self.tiles@[j] == spec_tile_step(old(self).tiles@[j]),
                forall|j: int| i as int <= j < n as int ==> self.tiles@[j] == old(self).tiles@[j],
            decreases n - i,
        {
            let t = vec_index_mut(&mut self.tiles, i);
            t.tick();
            i = i + 1;
        }
    }

    /// Read access to a tile; `None` exactly when the coordinate is outside
    /// the grid.
    pub fn get_tile(&self, x: usize, y: usize) -> (r: Option<&Tile>)
        requires
            self.wf(),
        ensures
            match r {
                Some(t) => spec_in_bounds(x, y) && *t == self@.tiles[spec_idx(x, y)],
                None => !spec_in_bounds(x, y),
            },
    {
        if x < WORLD_WIDTH && y < WORLD_HEIGHT {
            let idx: usize = y * WORLD_WIDTH + x;
            Some(&self.tiles[idx])
        } else {
            None
        }
    }

    /// Write access to a tile of the grid; the caller must name a tile that
    /// exists.
    pub fn get_tile_mut(&mut self, x: usize, y: usize) -> (t: &mut Tile)
        requires
            old(self).wf(),
            spec_in_bounds(x, y),
        ensures
            *t == old(self)@.tiles[spec_idx(x, y)],
            final(self)@.tiles == old(self)@.tiles.update(spec_idx(x, y), *final(t)),
            final(self)@.players == old(self)@.players,
            final(self).wf(),
    {
        let idx: usize = y * WORLD_WIDTH + x;
        vec_index_mut(&mut self.tiles, idx)
    }

    /// Till the named tile: grass becomes soil; anything else, including an
    /// out-of-bounds coordinate, is a silent no-op.
    pub fn apply_till(&mut self, x: usize, y: usize) -> (changed: bool)
        requires
            old(self).wf(),
        ensures
            final(self).wf(),
            final(self)@.players == old(self)@.players,
            match (if spec_in_bounds(x, y) {
                spec_till_result(old(self)@.tiles[spec_idx(x, y)])
            } else {
                None
            }) {
                Some(t2) => changed && final(self)@.tiles =~= old(self)@.tiles.update(
                    spec_idx(x, y),
                    t2,
                ),
                None => !changed && final(self)@ == old(self)@,
            },
    {
        if x < WORLD_WIDTH && y < WORLD_HEIGHT {
            let idx: usize = y * WORLD_WIDTH + x;
            if self.tiles[idx].tile_type == TileType::Grass {
                let crop = self.tiles[idx].crop;
                let t = vec_index_mut(&mut self.tiles, idx);
                *t = Tile { tile_type: TileType::Soil, crop };
                return true;
            }
        }
        false
    }

    /// Water the named tile: plain soil becomes watered soil; anything else
    /// is a silent no-op.
    pub fn apply_water(&mut self, x: usize, y: usize) -> (changed: bool)
        requires
            old(self).wf(),
        ensures
            final(self).wf(),
            final(self)@.players == old(self)@.players,
            match (if spec_in_bounds(x, y) {
                spec_water_result(old(self)@.tiles[spec_idx(x, y)])
            } else {
                None
            }) {
                Some(t2) => changed && final(self)@.tiles =~= old(self)@.tiles.update(
                    spec_idx(x, y),
                    t2,
                ),
                None => !changed && final(self)@ == old(self)@,
            },
    {
        if x < WORLD_WIDTH && y < WORLD_HEIGHT {
            let idx: usize = y * WORLD_WIDTH + x;
            if self.tiles[idx].tile_type == TileType::Soil {
                let crop = self.tiles[idx].crop;
                let t = vec_index_mut(&mut self.tiles, idx);
                *t = Tile { tile_type: TileType::WateredSoil, crop };
                return true;
            }
        }
        false
    }

    /// Plant a seed of the given species: allowed only on tilled soil, plain
    /// or watered, with no crop on it yet; anything else is a silent no-op.
    pub fn apply_plant(&mut self, x: usize, y: usize, species: CropType) -> (changed: bool)
        requires
            old(self).wf(),
        ensures
            final(self).wf(),
            final(self)@.players == old(self)@.players,
            match (if spec_in_bounds(x, y) {
                spec_plant_result(old(self)@.tiles[spec_idx(x, y)], species)
            } else {
                None
            }) {
                Some(t2) => changed && final(self)@.tiles =~= old(self)@.tiles.update(
                    spec_idx(x, y),
                    t2,
                ),
                None => !changed && final(self)@ == old(self)@,
            },
    {
        if x < WORLD_WIDTH && y < WORLD_HEIGHT {
            let idx: usize = y * WORLD_WIDTH + x;
            let surface_ok = self.tiles[idx].tile_type == TileType::Soil
                || self.tiles[idx].tile_type == TileType::WateredSoil;
            if surface_ok && self.tiles[idx].crop.is_none() {
                let tile_type = self.tiles[idx].tile_type;
                let t = vec_index_mut(&mut self.tiles, idx);
                *t = Tile { tile_type, crop: Some(Crop::new(species)) };
                return true;
            }
        }
        false
    }

    /// Harvest the named tile: allowed only when it carries a mature crop,
    /// which is removed while the surface stays as it is; anything else is a
    /// silent no-op.
    pub fn apply_harvest(&mut self, x: usize, y: usize) -> (changed: bool)
        requires
            old(self).wf(),
        ensures
            final(self).wf(),
            final(self)@.players == old(self)@.players,
            match (if spec_in_bounds(x, y) {
                spec_harvest_result(old(self)@.tiles[spec_idx(x, y)])
            } else {
                None
            }) {
                Some(t2) => changed && final(self)@.tiles =~= old(self)@.tiles.update(
                    spec_idx(x, y),
                    t2,
                ),
                None => !changed && final(self)@ == old(self)@,
            },
    {
        if x < WORLD_WIDTH && y < WORLD_HEIGHT {
            let idx: usize = y * WORLD_WIDTH + x;
            match self.tiles[idx].crop {
                Some(crop) => {
                    if crop.growth_stage == GrowthStage::Mature {
                        let tile_type = self.tiles[idx].tile_type;
                        let t = vec_index_mut(&mut self.tiles, idx);
                        *t = Tile { tile_type, crop: None };
                        return true;
                    }
                },
                None => (),
            }
        }
        false
    }
}

impl Clone for GameState {
    fn clone(&self) -> (r: Self)
        ensures
            r@ == self@,
    {
        let tiles = self.tiles.clone();
        let mut players: Vec<Player> = Vec::new();
        let n: usize = self.players.len();
        let mut i: usize = 0;
        while i < n
            invariant
                i <= n,
                n == self.players@.len(),
                players@.len() == i,
                forall|j: int| 0 <= j < i as int ==> players@[j]@ == self.players@[j]@,
            decreases n - i,
        {
            players.push(self.players[i].clone());
            i = i + 1;
        }
        let r = GameState { tiles, players };
        proof {
            assert(r.tiles@ =~= self.tiles@);
            assert(r@.players =~= self@.players);
        }
        r
    }
}

impl Default for GameState {
    /// The default world is the genesis world.
    fn default() -> (s: Self)
        ensures
            s.wf(),
            s@.players.len() == 0,
            s@.tiles.len() == WORLD_WIDTH * WORLD_HEIGHT,
            forall|i: int|
                0 <= i < s@.tiles.len() ==> s@.tiles[i] == (Tile {
                    tile_type: TileType::Grass,
                    crop: None::<Crop>,
                }),
    {
        GameState::new()
    }
}

} // verus!
