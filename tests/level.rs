use bevy::asset::RenderAssetUsages;
use bevy::image::Image;
use ducky_core::tileset_image::TilesetSource;
use ducky_core::geom::{IVec2, URect, UVec2};
use ducky_core::level::{
    build_tilemap_from_layer, collect_enemy_spawns, flip_rows, known_spawns, level_tiles_layer, get_named_entity, get_named_layer, load_level, tile_layer_fits,
    tileset_path, BuildTilemapError, LdtkEntity, LdtkLayer, LdtkLevel, LdtkTile, LevelError,
};
use ducky_core::level_collision::LevelCollider;
use wgpu_types::{Extent3d, TextureDimension, TextureFormat};

fn layer(identifier: &str, c_wid: i64, c_hei: i64) -> LdtkLayer {
    LdtkLayer {
        identifier: identifier.to_string(),
        c_wid,
        c_hei,
        grid_size: 2,
        px_total_offset_x: 0,
        px_total_offset_y: 0,
        int_grid_csv: vec![],
        entity_instances: vec![],
        grid_tiles: vec![],
        auto_layer_tiles: vec![],
        tileset_rel_path: None,
    }
}

fn tile(t: i64, src: (i64, i64), px: (i64, i64)) -> LdtkTile {
    LdtkTile { t, src, px }
}

fn tiles_layer() -> LdtkLayer {
    let mut tiles = layer("TerrainTiles", 4, 3);
    tiles.tileset_rel_path = Some("tiles.png".to_string());
    tiles.grid_tiles = vec![
        tile(5, (0, 0), (0, 4)),
        tile(5, (0, 0), (2, 4)),
        tile(7, (2, 0), (4, 4)),
        tile(9, (0, 2), (2, 2)),
    ];
    tiles
}

fn tileset_image() -> TilesetSource {
    TilesetSource::from_image(&Image::new(
        Extent3d { width: 4, height: 4, depth_or_array_layers: 1 },
        TextureDimension::D2,
        (1..=16).collect(),
        TextureFormat::R8Unorm,
        RenderAssetUsages::default(),
    ))
}

fn sample_level() -> LdtkLevel {
    let mut entities = layer("Entities", 4, 3);
    entities.entity_instances = vec![
        LdtkEntity { identifier: "Enemy".to_string(), grid: (3, 1) },
        LdtkEntity { identifier: "Player_Spawn".to_string(), grid: (1, 0) },
    ];
    let mut terrain = layer("Terrain", 4, 3);
    terrain.int_grid_csv = vec![0, 0, 0, 0, 0, 1, 1, 0, 1, 1, 1, 1];
    LdtkLevel {
        identifier: "Level_0".to_string(),
        world_x: 32,
        world_y: 16,
        layer_instances: Some(vec![entities, terrain, tiles_layer()]),
    }
}

#[test]
fn level_is_assembled_from_its_layers() {
    let level = load_level(&sample_level(), &tileset_image()).unwrap();
    assert_eq!(level.name, "Level_0");
    assert_eq!(level.grid_offset, IVec2::new(32, -16));
    assert_eq!(level.player_spawn, IVec2::new(1, 2));
    assert_eq!(level.grid_size, UVec2::new(4, 3));
    assert_eq!(
        level.terrain_colliders,
        vec![
            LevelCollider(URect { min: UVec2::new(1, 1), max: UVec2::new(3, 2) }),
            LevelCollider(URect { min: UVec2::new(0, 2), max: UVec2::new(4, 3) }),
        ]
    );
    assert_eq!(level.terrain_tileset.depth, 3);
    assert_eq!(level.terrain_tiledata.len(), 12);
    let b = level.bounds();
    assert_eq!((b.min, b.max), (IVec2::new(32, -16), IVec2::new(36, -13)));
    let image = level.terrain_tileset.into_image();
    assert_eq!(image.texture_descriptor.size.depth_or_array_layers, 3);
}

#[test]
fn tiles_are_deduplicated_and_flipped() {
    let (image, data) = build_tilemap_from_layer(&tiles_layer(), &tileset_image()).unwrap();
    assert_eq!(
        data,
        vec![Some(0), Some(0), Some(1), None, None, Some(2), None, None, None, None, None, None]
    );
    assert_eq!(image.depth, 3);
    assert_eq!(image.data, vec![1, 2, 5, 6, 3, 4, 7, 8, 9, 10, 13, 14]);
}

#[test]
fn automatic_tiles_are_used_when_none_are_placed() {
    let mut tiles = tiles_layer();
    tiles.auto_layer_tiles = vec![tile(1, (2, 2), (0, 0))];
    tiles.grid_tiles.clear();
    let (image, data) = build_tilemap_from_layer(&tiles, &tileset_image()).unwrap();
    assert_eq!(data[8], Some(0));
    assert_eq!(data.iter().filter(|d| d.is_some()).count(), 1);
    assert_eq!(image.data, vec![11, 12, 15, 16]);
}

#[test]
fn tile_layer_without_tileset_is_rejected() {
    let mut tiles = tiles_layer();
    tiles.tileset_rel_path = None;
    assert!(matches!(tileset_path(&tiles), Err(BuildTilemapError::PathNotFound)));
    assert!(matches!(
        build_tilemap_from_layer(&tiles, &tileset_image()),
        Err(BuildTilemapError::PathNotFound)
    ));
    assert_eq!(tileset_path(&tiles_layer()).unwrap(), "tiles.png");
}

#[test]
fn tile_copy_failures_are_reported() {
    let mut tiles = tiles_layer();
    tiles.grid_tiles.push(tile(11, (4, 4), (0, 0)));
    match build_tilemap_from_layer(&tiles, &tileset_image()) {
        Err(BuildTilemapError::AddTile { offset, .. }) => assert_eq!(offset, UVec2::new(4, 4)),
        other => panic!("unexpected {:?}", other.map(|r| r.1)),
    }
}

#[test]
fn tiles_outside_the_layer_do_not_fit() {
    assert!(tile_layer_fits(&tiles_layer()));
    let mut tiles = tiles_layer();
    tiles.grid_tiles.push(tile(3, (0, 0), (0, 6)));
    assert!(!tile_layer_fits(&tiles));
    let mut level = sample_level();
    level.layer_instances.as_mut().unwrap()[2] = tiles;
    assert!(matches!(load_level(&level, &tileset_image()), Err(LevelError::InvalidTileLayer)));
}

#[test]
fn missing_layers_and_entities_are_errors() {
    let mut level = sample_level();
    level.layer_instances.as_mut().unwrap().remove(0);
    match load_level(&level, &tileset_image()) {
        Err(LevelError::MissingLayer { name }) => assert_eq!(name, "Entities"),
        _ => panic!("expected a missing layer"),
    }
    let mut level = sample_level();
    level.layer_instances.as_mut().unwrap()[0].entity_instances.pop();
    assert!(matches!(load_level(&level, &tileset_image()), Err(LevelError::MissingEntity { .. })));
    let mut level = sample_level();
    level.layer_instances.as_mut().unwrap().pop();
    match load_level(&level, &tileset_image()) {
        Err(LevelError::MissingLayer { name }) => assert_eq!(name, "TerrainTiles"),
        _ => panic!("expected a missing layer"),
    }
    let mut level = sample_level();
    level.layer_instances = None;
    assert!(matches!(load_level(&level, &tileset_image()), Err(LevelError::MissingLayer { .. })));
}

#[test]
fn layers_are_checked_before_the_tileset_is_needed() {
    assert_eq!(level_tiles_layer(&sample_level()).unwrap().identifier, "TerrainTiles");
    let mut level = sample_level();
    level.layer_instances.as_mut().unwrap().pop();
    level.layer_instances.as_mut().unwrap().remove(0);
    match level_tiles_layer(&level) {
        Err(LevelError::MissingLayer { name }) => assert_eq!(name, "Entities"),
        _ => panic!("expected a missing layer"),
    }
}

#[test]
fn terrain_values_must_fill_the_layer() {
    let mut level = sample_level();
    level.layer_instances.as_mut().unwrap()[1].int_grid_csv.pop();
    assert!(matches!(load_level(&level, &tileset_image()), Err(LevelError::InvalidTerrainGrid)));
}

#[test]
fn layers_and_entities_are_found_by_name() {
    let level = sample_level();
    assert_eq!(get_named_layer(&level, "Terrain").unwrap().identifier, "Terrain");
    assert!(get_named_layer(&level, "Background").is_none());
    let entities = get_named_layer(&level, "Entities").unwrap();
    assert_eq!(get_named_entity(entities, "Enemy").unwrap().grid, (3, 1));
    assert!(get_named_entity(entities, "Boss").is_none());
}

#[test]
fn rows_are_reversed_in_place() {
    let mut data: Vec<Option<u16>> = (0..6).map(Some).collect();
    flip_rows(&mut data, 2, 3);
    assert_eq!(data, vec![Some(4), Some(5), Some(2), Some(3), Some(0), Some(1)]);
    let mut single: Vec<Option<u16>> = vec![Some(1), None];
    flip_rows(&mut single, 2, 1);
    assert_eq!(single, vec![Some(1), None]);
}

#[test]
fn enemies_are_every_entity_but_the_player() {
    let level = load_level(&sample_level(), &tileset_image()).unwrap();
    assert_eq!(level.enemy_spawns.len(), 1);
    assert_eq!(level.enemy_spawns[0].label, "Enemy");
    assert_eq!(level.enemy_spawns[0].position, IVec2::new(3, 1));
    let ldtk = sample_level();
    let entities = get_named_layer(&ldtk, "Entities").unwrap();
    assert_eq!(collect_enemy_spawns(entities).len(), 1);
}

#[test]
fn spawns_with_unknown_labels_are_skipped() {
    let mut entities = layer("Entities", 4, 4);
    entities.entity_instances = vec![
        LdtkEntity { identifier: "Slime".to_string(), grid: (0, 0) },
        LdtkEntity { identifier: "Ghost".to_string(), grid: (1, 1) },
        LdtkEntity { identifier: "Slime".to_string(), grid: (2, 3) },
    ];
    let spawns = collect_enemy_spawns(&entities);
    let known = known_spawns(&spawns, &vec!["Slime".to_string(), "Bat".to_string()]);
    let cells: Vec<(String, IVec2)> = known.iter().map(|s| (s.label.clone(), s.position)).collect();
    assert_eq!(cells, vec![("Slime".to_string(), IVec2::new(0, 3)), ("Slime".to_string(), IVec2::new(2, 0))]);
    assert!(known_spawns(&spawns, &vec![]).is_empty());
}
