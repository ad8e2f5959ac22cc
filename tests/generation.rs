use travelers::components::Direction;
use travelers::coords::ChunkCoords;
use travelers::entropy::{get_hash, pick_from};
use travelers::lifecycle::{resolve_tiles, spawn_chunk};
use travelers::schematic::{SchematicAsset, TileSchematic};
use travelers::wfc::{WaveFunctionCollapse, CHUNK_CELLS, CHUNK_TILE_LENGTH};

fn same_on_all_sides(name: &str, allowed: Vec<u8>) -> TileSchematic {
    TileSchematic {
        name: name.to_string(),
        sheet: "terrain".to_string(),
        weight: 1,
        north: allowed.clone(),
        east: allowed.clone(),
        south: allowed.clone(),
        west: allowed,
    }
}

/// Grass and water meet only through sand.
fn shore_rules() -> SchematicAsset {
    SchematicAsset::load(
        2,
        vec![
            ("0".to_string(), same_on_all_sides("grass", vec![0, 2])),
            ("1".to_string(), same_on_all_sides("water", vec![1, 2])),
            ("2".to_string(), same_on_all_sides("sand", vec![0, 1, 2])),
        ],
    )
    .unwrap()
}

fn idx(x: usize, y: usize) -> usize {
    x * CHUNK_TILE_LENGTH + y
}

fn assert_adjacency(s: &SchematicAsset, grid: &Vec<Option<u8>>) {
    let n = CHUNK_TILE_LENGTH;
    for x in 0..n {
        for y in 0..n {
            if let Some(a) = grid[idx(x, y)] {
                if x + 1 < n {
                    if let Some(b) = grid[idx(x + 1, y)] {
                        assert!(s.permits(a, Direction::Right, b));
                        assert!(s.permits(b, Direction::Left, a));
                    }
                }
                if y + 1 < n {
                    if let Some(b) = grid[idx(x, y + 1)] {
                        assert!(s.permits(a, Direction::Up, b));
                        assert!(s.permits(b, Direction::Down, a));
                    }
                }
            }
        }
    }
}

#[test]
fn generation_is_deterministic() {
    let s = shore_rules();
    let mut first = WaveFunctionCollapse::init(42, &s, ChunkCoords(256, -512));
    let a = first.collapse();
    let again = first.collapse();
    let mut second = WaveFunctionCollapse::init(42, &s, ChunkCoords(256, -512));
    let b = second.collapse();
    assert_eq!(a.len(), CHUNK_CELLS);
    assert_eq!(a, again);
    assert_eq!(a, b);
    assert_eq!(spawn_chunk(42, &s, ChunkCoords(256, -512)).tiles, a);
}

#[test]
fn equal_coordinate_sums_share_interior() {
    let s = shore_rules();
    let a = spawn_chunk(7, &s, ChunkCoords(288, 0)).tiles;
    let b = spawn_chunk(7, &s, ChunkCoords(0, 288)).tiles;
    assert_eq!(a, b);
    assert_eq!(get_hash(7, &ChunkCoords(288, 0)), get_hash(7, &ChunkCoords(0, 288)));
    assert_eq!(get_hash(7, &ChunkCoords(1, 2)), get_hash(5, &ChunkCoords(2, 3)));
}

#[test]
fn hash_depends_on_key() {
    assert_ne!(get_hash(42, &ChunkCoords(0, 0)), get_hash(42, &ChunkCoords(1, 0)));
    assert_eq!(get_hash(42, &ChunkCoords(0, 0)), get_hash(42, &ChunkCoords(0, 0)));
}

#[test]
fn interior_is_complete() {
    let s = shore_rules();
    for c in [ChunkCoords(0, 0), ChunkCoords(288, 0), ChunkCoords(-288, 576)] {
        let grid = spawn_chunk(42, &s, c).tiles;
        assert_eq!(grid.len(), 64);
        let shown = resolve_tiles(&grid, s.fallback_id());
        assert_eq!(shown.len(), 64);
        for t in &shown {
            assert!(s.lookup(t.texture_id).is_some());
        }
    }
}

#[test]
fn interior_respects_adjacency() {
    let s = shore_rules();
    for seed in 0..20u64 {
        let grid = spawn_chunk(seed, &s, ChunkCoords(0, 0)).tiles;
        assert_adjacency(&s, &grid);
    }
}

#[test]
fn exclusive_types_give_monochrome_chunks() {
    let s = SchematicAsset::load(
        0,
        vec![
            ("0".to_string(), same_on_all_sides("grass", vec![0])),
            ("1".to_string(), same_on_all_sides("water", vec![1])),
        ],
    )
    .unwrap();
    for seed in 0..10u64 {
        let grid = spawn_chunk(seed, &s, ChunkCoords(0, 0)).tiles;
        let first = grid[0].unwrap();
        assert!(grid.iter().all(|c| *c == Some(first)));
    }
}

#[test]
fn alternating_types_give_chessboard() {
    let s = SchematicAsset::load(
        0,
        vec![
            ("0".to_string(), same_on_all_sides("light", vec![1])),
            ("1".to_string(), same_on_all_sides("dark", vec![0])),
        ],
    )
    .unwrap();
    let grid = spawn_chunk(3, &s, ChunkCoords(0, 0)).tiles;
    let origin = grid[0].unwrap();
    for x in 0..CHUNK_TILE_LENGTH {
        for y in 0..CHUNK_TILE_LENGTH {
            let expected = if (x + y) % 2 == 0 { origin } else { 1 - origin };
            assert_eq!(grid[idx(x, y)], Some(expected));
        }
    }
}

#[test]
fn contradictions_stay_unresolved_and_show_fallback() {
    // Tile 0 tolerates nothing next to it; tile 1 only itself.
    let s = SchematicAsset::load(
        1,
        vec![
            ("0".to_string(), same_on_all_sides("rock", vec![])),
            ("1".to_string(), same_on_all_sides("dirt", vec![1])),
        ],
    )
    .unwrap();
    for seed in 0..10u64 {
        let grid = spawn_chunk(seed, &s, ChunkCoords(0, 0)).tiles;
        let shown = resolve_tiles(&grid, s.fallback_id());
        if grid[0] == Some(0) {
            assert_eq!(grid[1], None);
            assert_eq!(grid[8], None);
            assert_eq!(shown[1].texture_id, 1);
        } else {
            assert!(grid.iter().all(|c| *c == Some(1)));
        }
    }
}

#[test]
fn draws_stay_in_domain() {
    let dom = vec![5u8, 6, 7];
    for seed in [0u64, 1, 2, 1000, u64::MAX] {
        let v = pick_from(&dom, seed);
        assert!(dom.contains(&v));
        assert_eq!(v, pick_from(&dom, seed));
    }
}

#[test]
fn restriction_never_grows_domain() {
    let s = shore_rules();
    let dom = vec![0u8, 1, 2];
    let by_grass = travelers::entropy::restrict(&dom, &s, 0, Direction::Up);
    assert_eq!(by_grass, vec![0, 2]);
    let twice = travelers::entropy::restrict(&by_grass, &s, 1, Direction::Left);
    assert_eq!(twice, vec![2]);
    assert!(twice.len() <= by_grass.len() && by_grass.len() <= dom.len());
}
