use travelers::coords::{check_view_fits, chunk_coordinate_of, chunk_extent, visible_coordinates, ChunkCoords};
use travelers::lifecycle::{
    spawn_chunk,
    create_chunks, gen_chunk_stitches, get_connected_chunks, get_perimeter_world_coord, neighbor,
    remove_stale_chunks, world_gen_system, Chunk, WorldConfig,
};
use travelers::schematic::{SchematicAsset, TileSchematic};

fn same_on_all_sides(name: &str, allowed: Vec<u8>) -> TileSchematic {
    TileSchematic {
        name: name.to_string(),
        sheet: "terrain".to_string(),
        weight: 1,
        north: allowed.clone(),
        east: allowed.clone(),
        south: allowed.clone(),
        west: allowed,
    }
}

fn shore_rules() -> SchematicAsset {
    SchematicAsset::load(
        2,
        vec![
            ("0".to_string(), same_on_all_sides("grass", vec![0, 2])),
            ("1".to_string(), same_on_all_sides("water", vec![1, 2])),
            ("2".to_string(), same_on_all_sides("sand", vec![0, 1, 2])),
        ],
    )
    .unwrap()
}

fn has_distinct(v: &Vec<ChunkCoords>) -> bool {
    for i in 0..v.len() {
        for j in i + 1..v.len() {
            if v[i] == v[j] {
                return false;
            }
        }
    }
    true
}

#[test]
fn extent_includes_seam() {
    assert_eq!(chunk_extent(32), 288);
    assert_eq!(chunk_extent(1), 9);
}

#[test]
fn coordinates_floor_to_chunk_origin() {
    assert_eq!(chunk_coordinate_of((0, 0), 288), ChunkCoords(0, 0));
    assert_eq!(chunk_coordinate_of((287, 1), 288), ChunkCoords(0, 0));
    assert_eq!(chunk_coordinate_of((288, 575), 288), ChunkCoords(288, 288));
    assert_eq!(chunk_coordinate_of((-1, -288), 288), ChunkCoords(-288, -288));
    assert_eq!(chunk_coordinate_of((-289, -577), 288), ChunkCoords(-576, -864));
}

#[test]
fn radius_one_at_origin_gives_nine_chunks() {
    let v = visible_coordinates((0, 0), 288, 1);
    assert_eq!(v.len(), 9);
    assert!(has_distinct(&v));
    let mut expected = Vec::new();
    for dx in -1i64..=1 {
        for dy in -1i64..=1 {
            expected.push(ChunkCoords(dx * 288, dy * 288));
        }
    }
    assert_eq!(v, expected);
    assert!(v.contains(&ChunkCoords(0, 0)));
}

#[test]
fn visible_square_has_expected_size() {
    for r in 0..4i64 {
        let v = visible_coordinates((1000, -1000), 288, r);
        let side = (2 * r + 1) as usize;
        assert_eq!(v.len(), side * side);
        assert!(has_distinct(&v));
        let c = chunk_coordinate_of((1000, -1000), 288);
        for p in &v {
            assert!((p.0 - c.0).abs() <= r * 288 && (p.1 - c.1).abs() <= r * 288);
            assert_eq!((p.0 - c.0) % 288, 0);
            assert_eq!((p.1 - c.1) % 288, 0);
        }
    }
}

#[test]
fn view_bounds_are_checked() {
    assert!(check_view_fits((0, 0), 288, 2));
    assert!(!check_view_fits((0, 0), 0, 2));
    assert!(!check_view_fits((0, 0), 288, -1));
    assert!(!check_view_fits((i64::MAX, 0), 288, 1));
    assert!(!check_view_fits((0, 0), 288, i64::MAX));
}

#[test]
fn neighbours_of_chunks() {
    let c = ChunkCoords(0, 0);
    assert_eq!(neighbor(&c, 288, 0), Some(ChunkCoords(0, 288)));
    assert_eq!(neighbor(&c, 288, 1), Some(ChunkCoords(288, 0)));
    assert_eq!(neighbor(&c, 288, 2), Some(ChunkCoords(0, -288)));
    assert_eq!(neighbor(&c, 288, 3), Some(ChunkCoords(-288, 0)));
    assert_eq!(neighbor(&ChunkCoords(i64::MAX, 0), 288, 1), None);
}

#[test]
fn perimeter_positions() {
    let c = ChunkCoords(288, 0);
    assert_eq!(get_perimeter_world_coord(&c, 0, 32), (256, 256));
    assert_eq!(get_perimeter_world_coord(&c, 1, 32), (288, 256));
    assert_eq!(get_perimeter_world_coord(&c, 9, 32), (544, 256));
    assert_eq!(get_perimeter_world_coord(&c, 17, 32), (544, 0));
    assert_eq!(get_perimeter_world_coord(&c, 18, 32), (544, -32));
    assert_eq!(get_perimeter_world_coord(&c, 27, 32), (256, -32));
    assert_eq!(get_perimeter_world_coord(&c, 35, 32), (256, 224));
}

#[test]
fn create_skips_present_and_repeated() {
    let s = shore_rules();
    let mut chunks: Vec<Chunk> = Vec::new();
    let wanted = vec![ChunkCoords(0, 0), ChunkCoords(288, 0), ChunkCoords(0, 0)];
    let created = create_chunks(1, &s, &wanted, &mut chunks);
    assert_eq!(created, vec![ChunkCoords(0, 0), ChunkCoords(288, 0)]);
    assert_eq!(chunks.len(), 2);
    assert!(chunks.iter().all(|c| c.dirty));
    let again = create_chunks(1, &s, &wanted, &mut chunks);
    assert!(again.is_empty());
    assert_eq!(chunks.len(), 2);
}

#[test]
fn stale_chunks_are_removed() {
    let s = shore_rules();
    let mut chunks: Vec<Chunk> = Vec::new();
    let all = vec![ChunkCoords(0, 0), ChunkCoords(288, 0), ChunkCoords(576, 0)];
    create_chunks(1, &s, &all, &mut chunks);
    let keep = vec![ChunkCoords(576, 0), ChunkCoords(0, 0)];
    let removed = remove_stale_chunks(&keep, &mut chunks);
    assert_eq!(removed, vec![ChunkCoords(288, 0)]);
    assert_eq!(chunks.len(), 2);
    assert_eq!(chunks[0].coords, ChunkCoords(0, 0));
    assert_eq!(chunks[1].coords, ChunkCoords(576, 0));
}

#[test]
fn connected_chunks_found_by_coordinates() {
    let s = shore_rules();
    let mut chunks: Vec<Chunk> = Vec::new();
    let all = vec![ChunkCoords(0, 0), ChunkCoords(288, 0), ChunkCoords(0, -288)];
    create_chunks(1, &s, &all, &mut chunks);
    let adj = get_connected_chunks(&ChunkCoords(0, 0), &chunks, 288);
    assert!(adj.north.is_none());
    assert_eq!(adj.east.as_ref(), Some(&chunks[1].tiles));
    assert_eq!(adj.south.as_ref(), Some(&chunks[2].tiles));
    assert!(adj.west.is_none());
    gen_chunk_stitches(1, &s, &mut chunks, 288);
    assert!(chunks.iter().all(|c| c.dirty));
    assert!(chunks[0].stitched[10].is_some());
}

#[test]
fn ticks_stream_chunks_around_focus() {
    let s = shore_rules();
    let config = WorldConfig { seed: 42, tile_size: 32, render_distance: 1 };
    let mut chunks: Vec<Chunk> = Vec::new();
    let first = world_gen_system(&config, &s, (10, 10), &mut chunks);
    assert_eq!(first.created.len(), 9);
    assert!(first.removed.is_empty());
    assert_eq!(chunks.len(), 9);
    let centre = chunks.iter().find(|c| c.coords == ChunkCoords(0, 0)).unwrap();
    assert!(!centre.dirty);
    assert!(centre.stitched.iter().all(|t| t.is_some()));
    let corner = chunks.iter().find(|c| c.coords == ChunkCoords(288, 288)).unwrap();
    assert!(corner.dirty);

    let second = world_gen_system(&config, &s, (20, 20), &mut chunks);
    assert!(second.created.is_empty());
    assert!(second.removed.is_empty());

    let before: Vec<Option<u8>> = chunks.iter().find(|c| c.coords == ChunkCoords(288, 0)).unwrap().tiles.clone();
    let third = world_gen_system(&config, &s, (300, 10), &mut chunks);
    assert_eq!(third.created, vec![ChunkCoords(576, -288), ChunkCoords(576, 0), ChunkCoords(576, 288)]);
    assert_eq!(third.removed.len(), 3);
    assert!(third.removed.iter().all(|c| c.0 == -288));
    assert_eq!(chunks.len(), 9);
    let after = &chunks.iter().find(|c| c.coords == ChunkCoords(288, 0)).unwrap().tiles;
    assert_eq!(&before, after);
}

#[test]
fn dirty_marker_follows_flag() {
    let s = shore_rules();
    let mut chunks: Vec<Chunk> = Vec::new();
    create_chunks(1, &s, &vec![ChunkCoords(0, 0)], &mut chunks);
    assert!(chunks[0].dirty_marker().is_some());
    chunks[0].dirty = false;
    assert!(chunks[0].dirty_marker().is_none());
}

#[test]
fn tick_generates_and_stitches_new_chunks() {
    let s = shore_rules();
    let config = WorldConfig { seed: 9, tile_size: 32, render_distance: 1 };
    let mut chunks: Vec<Chunk> = Vec::new();
    let report = world_gen_system(&config, &s, (0, 0), &mut chunks);
    for c in &report.created {
        let live = chunks.iter().find(|ch| ch.coords == *c).unwrap();
        assert_eq!(live.tiles, spawn_chunk(9, &s, *c).tiles);
        assert_eq!(live.stitched.len(), 36);
    }
    let edge = chunks.iter().find(|ch| ch.coords == ChunkCoords(288, 0)).unwrap();
    assert!(edge.dirty);
    assert!(edge.stitched.iter().any(|t| t.is_some()));
}
