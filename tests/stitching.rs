use travelers::components::Direction;
use travelers::coords::{chunk_extent, ChunkCoords};
use travelers::lifecycle::spawn_chunk;
use travelers::schematic::{SchematicAsset, TileSchematic};
use travelers::stitcher::{Adjacencies, Stitcher, RING_CELLS, SIDE_CELLS};
use travelers::wfc::{CHUNK_CELLS, CHUNK_TILE_LENGTH};

fn same_on_all_sides(name: &str, allowed: Vec<u8>) -> TileSchematic {
    TileSchematic {
        name: name.to_string(),
        sheet: "terrain".to_string(),
        weight: 1,
        north: allowed.clone(),
        east: allowed.clone(),
        south: allowed.clone(),
        west: allowed,
    }
}

fn shore_rules() -> SchematicAsset {
    SchematicAsset::load(
        2,
        vec![
            ("0".to_string(), same_on_all_sides("grass", vec![0, 2])),
            ("1".to_string(), same_on_all_sides("water", vec![1, 2])),
            ("2".to_string(), same_on_all_sides("sand", vec![0, 1, 2])),
        ],
    )
    .unwrap()
}

fn only(east: Option<Vec<Option<u8>>>, west: Option<Vec<Option<u8>>>) -> Adjacencies {
    Adjacencies { north: None, east, south: None, west }
}

fn idx(x: usize, y: usize) -> usize {
    x * CHUNK_TILE_LENGTH + y
}

/// Checks the seam between `a` (west) and `b` (east) against both rings.
fn assert_seam(s: &SchematicAsset, a: &Vec<Option<u8>>, b: &Vec<Option<u8>>, ring_a: &Vec<Option<u8>>, ring_b: &Vec<Option<u8>>) {
    let n = CHUNK_TILE_LENGTH;
    for k in 1..=n {
        let row = n - k;
        let v = ring_a[SIDE_CELLS + k].expect("seam tile resolved");
        if let Some(w) = a[idx(n - 1, row)] {
            assert!(s.permits(w, Direction::Right, v));
        }
        if let Some(e) = b[idx(0, row)] {
            assert!(s.permits(v, Direction::Right, e));
        }
        let row = k - 1;
        let v = ring_b[3 * SIDE_CELLS + k].expect("seam tile resolved");
        if let Some(w) = a[idx(n - 1, row)] {
            assert!(s.permits(w, Direction::Right, v));
        }
        if let Some(e) = b[idx(0, row)] {
            assert!(s.permits(v, Direction::Right, e));
        }
    }
}

#[test]
fn stitching_repairs_mismatched_seam() {
    let s = shore_rules();
    let grass: Vec<Option<u8>> = vec![Some(0); CHUNK_CELLS];
    let water: Vec<Option<u8>> = vec![Some(1); CHUNK_CELLS];
    // Unstitched, grass meets water directly: not allowed.
    assert!(!s.permits(grass[idx(7, 0)].unwrap(), Direction::Right, water[idx(0, 0)].unwrap()));
    let a_at = ChunkCoords(0, 0);
    let b_at = ChunkCoords(chunk_extent(32), 0);
    let adj_a = only(Some(water.clone()), None);
    let adj_b = only(None, Some(grass.clone()));
    let ring_a = Stitcher::init(42, &s, a_at, &grass, &adj_a).stitch();
    let ring_b = Stitcher::init(42, &s, b_at, &water, &adj_b).stitch();
    assert_eq!(ring_a.len(), RING_CELLS);
    for k in 1..=CHUNK_TILE_LENGTH {
        assert_eq!(ring_a[SIDE_CELLS + k], Some(2));
        assert_eq!(ring_b[3 * SIDE_CELLS + k], Some(2));
    }
    assert_seam(&s, &grass, &water, &ring_a, &ring_b);
}

#[test]
fn stitched_seams_of_generated_chunks_fit() {
    let s = shore_rules();
    let e = chunk_extent(32);
    for seed in 0..10u64 {
        let a_at = ChunkCoords(0, 0);
        let b_at = ChunkCoords(e, 0);
        let a = spawn_chunk(seed, &s, a_at).tiles;
        let b = spawn_chunk(seed, &s, b_at).tiles;
        let adj_a = only(Some(b.clone()), None);
        let adj_b = only(None, Some(a.clone()));
        let ring_a = Stitcher::init(seed, &s, a_at, &a, &adj_a).stitch();
        let ring_b = Stitcher::init(seed, &s, b_at, &b, &adj_b).stitch();
        assert_seam(&s, &a, &b, &ring_a, &ring_b);
    }
}

#[test]
fn sides_without_neighbour_stay_open() {
    let s = shore_rules();
    let grass: Vec<Option<u8>> = vec![Some(0); CHUNK_CELLS];
    let adj = only(Some(grass.clone()), None);
    let ring = Stitcher::init(1, &s, ChunkCoords(0, 0), &grass, &adj).stitch();
    // North side, including the north-west corner: no neighbour.
    for i in 0..SIDE_CELLS {
        assert_eq!(ring[i], None);
    }
    // East side and the corners it touches are stitched.
    for i in SIDE_CELLS..=2 * SIDE_CELLS {
        assert!(ring[i].is_some());
    }
    for i in 2 * SIDE_CELLS + 1..RING_CELLS {
        assert_eq!(ring[i], None);
    }
    assert!(!adj.is_complete());
}

#[test]
fn ring_is_consistent_along_itself() {
    let s = shore_rules();
    let grass: Vec<Option<u8>> = vec![Some(0); CHUNK_CELLS];
    let water: Vec<Option<u8>> = vec![Some(1); CHUNK_CELLS];
    let adj = Adjacencies {
        north: Some(water.clone()),
        east: Some(water.clone()),
        south: Some(grass.clone()),
        west: Some(water.clone()),
    };
    assert!(adj.is_complete());
    let ring = Stitcher::init(9, &s, ChunkCoords(0, 0), &grass, &adj).stitch();
    for i in 0..RING_CELLS {
        let v = ring[i].expect("every cell resolvable through sand");
        let next = ring[(i + 1) % RING_CELLS].unwrap();
        assert!(s.permits(v, Direction::Up, next) || s.permits(v, Direction::Right, next));
    }
    // Against water neighbours and a grass interior only sand fits.
    for k in 1..=CHUNK_TILE_LENGTH {
        assert_eq!(ring[k], Some(2));
    }
}

#[test]
fn stitching_is_deterministic() {
    let s = shore_rules();
    let a = spawn_chunk(5, &s, ChunkCoords(0, 0)).tiles;
    let b = spawn_chunk(5, &s, ChunkCoords(0, 288)).tiles;
    let adj = Adjacencies { north: Some(b.clone()), east: None, south: None, west: None };
    let mut st = Stitcher::init(5, &s, ChunkCoords(0, 0), &a, &adj);
    let first = st.stitch();
    let second = st.stitch();
    assert_eq!(first, second);
}
