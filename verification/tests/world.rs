//! Tests of the world model: surface transitions, crop growth timing, and
//! the validation rules of the four tile actions.

use farm_core::world::{
    Crop, CropType, GameState, GrowthStage, Tile, TileType, CROP_GROWTH_TIME, MAX_PLAYERS,
    WORLD_HEIGHT, WORLD_WIDTH,
};

#[test]
fn crop_new_starts_as_seed() {
    let c = Crop::new(CropType::Tomato);
    assert_eq!(c.crop_type, CropType::Tomato);
    assert_eq!(c.growth_stage, GrowthStage::Seed);
    assert_eq!(c.ticks_in_stage, 0);
}

#[test]
fn crop_growth_frozen_without_water() {
    let mut c = Crop::new(CropType::Wheat);
    for _ in 0..1000 {
        c.tick(false);
    }
    assert_eq!(c.growth_stage, GrowthStage::Seed);
    assert_eq!(c.ticks_in_stage, 0);
}

#[test]
fn crop_stage_advances_after_exactly_fifty_watered_ticks() {
    // GrowthTicks = 200, four stages, integer division: 50 ticks per stage
    assert_eq!(CROP_GROWTH_TIME / 4, 50);
    let mut c = Crop::new(CropType::Carrot);
    for _ in 0..49 {
        c.tick(true);
    }
    assert_eq!(c.growth_stage, GrowthStage::Seed);
    assert_eq!(c.ticks_in_stage, 49);
    c.tick(true);
    assert_eq!(c.growth_stage, GrowthStage::Sprout);
    assert_eq!(c.ticks_in_stage, 0);
}

#[test]
fn crop_matures_after_full_growth_time() {
    let mut c = Crop::new(CropType::Wheat);
    for _ in 0..200 {
        c.tick(true);
    }
    assert_eq!(c.growth_stage, GrowthStage::Mature);
    assert!(c.is_harvestable());
}

#[test]
fn mature_crop_stays_mature() {
    let mut c = Crop {
        crop_type: CropType::Wheat,
        growth_stage: GrowthStage::Mature,
        ticks_in_stage: 0,
    };
    for _ in 0..120 {
        c.tick(true);
    }
    assert_eq!(c.growth_stage, GrowthStage::Mature);
}

#[test]
fn stage_order_is_seed_sprout_growing_mature() {
    let mut c = Crop::new(CropType::Wheat);
    let mut seen = vec![c.growth_stage];
    for _ in 0..200 {
        c.tick(true);
        if *seen.last().unwrap() != c.growth_stage {
            seen.push(c.growth_stage);
        }
    }
    assert_eq!(
        seen,
        vec![
            GrowthStage::Seed,
            GrowthStage::Sprout,
            GrowthStage::Growing,
            GrowthStage::Mature
        ]
    );
}

#[test]
fn tile_tick_dries_watered_soil_without_crop() {
    let mut t = Tile::new(TileType::WateredSoil);
    t.tick();
    assert_eq!(t.tile_type, TileType::Soil);
    assert_eq!(t.crop, None);
}

#[test]
fn tile_tick_keeps_watered_soil_with_crop_and_grows_it() {
    let mut t = Tile {
        tile_type: TileType::WateredSoil,
        crop: Some(Crop::new(CropType::Wheat)),
    };
    t.tick();
    assert_eq!(t.tile_type, TileType::WateredSoil);
    assert_eq!(t.crop.unwrap().ticks_in_stage, 1);
}

#[test]
fn tile_tick_leaves_grass_alone() {
    let mut t = Tile::new(TileType::Grass);
    t.tick();
    assert_eq!(t, Tile::new(TileType::Grass));
}

#[test]
fn world_genesis_all_grass_no_players() {
    let s = GameState::new();
    assert_eq!(s.tiles.len(), WORLD_WIDTH * WORLD_HEIGHT);
    assert!(s.tiles.iter().all(|t| t.tile_type == TileType::Grass && t.crop.is_none()));
    assert!(s.players.is_empty());
    assert_eq!(MAX_PLAYERS, 8);
}

#[test]
fn surface_cycle_till_water_dry() {
    let mut s = GameState::new();
    assert_eq!(s.get_tile(3, 4).unwrap().tile_type, TileType::Grass);
    assert!(s.apply_till(3, 4));
    assert_eq!(s.get_tile(3, 4).unwrap().tile_type, TileType::Soil);
    assert!(s.apply_water(3, 4));
    assert_eq!(s.get_tile(3, 4).unwrap().tile_type, TileType::WateredSoil);
    s.tick();
    assert_eq!(s.get_tile(3, 4).unwrap().tile_type, TileType::Soil);
}

#[test]
fn till_succeeds_only_on_grass() {
    let mut s = GameState::new();
    assert!(s.apply_till(0, 0));
    // already soil: a repeated till is a silent no-op
    assert!(!s.apply_till(0, 0));
    assert_eq!(s.get_tile(0, 0).unwrap().tile_type, TileType::Soil);
}

#[test]
fn water_succeeds_only_on_plain_soil() {
    let mut s = GameState::new();
    assert!(!s.apply_water(1, 1));
    assert_eq!(s.get_tile(1, 1).unwrap().tile_type, TileType::Grass);
    s.apply_till(1, 1);
    assert!(s.apply_water(1, 1));
    assert!(!s.apply_water(1, 1));
}

#[test]
fn plant_requires_tilled_surface_and_no_crop() {
    let mut s = GameState::new();
    // grass refuses a plant and the tile is unchanged
    assert!(!s.apply_plant(2, 2, CropType::Wheat));
    assert_eq!(*s.get_tile(2, 2).unwrap(), Tile::new(TileType::Grass));
    s.apply_till(2, 2);
    assert!(s.apply_plant(2, 2, CropType::Wheat));
    let planted = *s.get_tile(2, 2).unwrap();
    assert_eq!(planted.crop, Some(Crop::new(CropType::Wheat)));
    // a second plant on an occupied tile is refused and changes nothing
    assert!(!s.apply_plant(2, 2, CropType::Tomato));
    assert_eq!(*s.get_tile(2, 2).unwrap(), planted);
}

#[test]
fn plant_allowed_on_watered_soil() {
    let mut s = GameState::new();
    s.apply_till(5, 5);
    s.apply_water(5, 5);
    assert!(s.apply_plant(5, 5, CropType::Carrot));
    assert_eq!(s.get_tile(5, 5).unwrap().tile_type, TileType::WateredSoil);
}

#[test]
fn harvest_succeeds_only_on_mature_crop() {
    let mut s = GameState::new();
    s.apply_till(7, 8);
    s.apply_plant(7, 8, CropType::Wheat);
    // immature: refused, tile unchanged
    let before = *s.get_tile(7, 8).unwrap();
    assert!(!s.apply_harvest(7, 8));
    assert_eq!(*s.get_tile(7, 8).unwrap(), before);
    // water it and run the clock until the crop matures
    s.apply_water(7, 8);
    for _ in 0..200 {
        s.tick();
    }
    assert_eq!(s.get_tile(7, 8).unwrap().crop.unwrap().growth_stage, GrowthStage::Mature);
    let surface_before = s.get_tile(7, 8).unwrap().tile_type;
    assert!(s.apply_harvest(7, 8));
    let after = s.get_tile(7, 8).unwrap();
    assert_eq!(after.crop, None);
    assert_eq!(after.tile_type, surface_before);
}

#[test]
fn harvest_on_empty_tile_is_noop() {
    let mut s = GameState::new();
    assert!(!s.apply_harvest(9, 9));
}

#[test]
fn actions_out_of_bounds_are_noops() {
    let mut s = GameState::new();
    assert!(!s.apply_till(WORLD_WIDTH, 0));
    assert!(!s.apply_water(0, WORLD_HEIGHT));
    assert!(!s.apply_plant(1000, 1000, CropType::Wheat));
    assert!(!s.apply_harvest(WORLD_WIDTH, WORLD_HEIGHT));
    assert!(s.get_tile(WORLD_WIDTH, 0).is_none());
    assert!(s.get_tile(0, WORLD_HEIGHT).is_none());
}

#[test]
fn crop_grows_only_while_watered_then_freezes() {
    let mut s = GameState::new();
    s.apply_till(4, 4);
    s.apply_water(4, 4);
    s.apply_plant(4, 4, CropType::Tomato);
    for _ in 0..30 {
        s.tick();
    }
    // still watered: crop is attached, soil stays wet, counter runs
    assert_eq!(s.get_tile(4, 4).unwrap().crop.unwrap().ticks_in_stage, 30);
    // a harvest-less dry spell: replace the surface by hand via the tile
    let t = s.get_tile_mut(4, 4);
    t.tile_type = TileType::Soil;
    for _ in 0..30 {
        s.tick();
    }
    assert_eq!(s.get_tile(4, 4).unwrap().crop.unwrap().ticks_in_stage, 30);
    assert_eq!(s.get_tile(4, 4).unwrap().crop.unwrap().growth_stage, GrowthStage::Seed);
}
