use travelers::components::Direction;
use travelers::schematic::{parse_tile_id, FormatError, SchematicAsset, TileSchematic};

fn tile(name: &str, n: Vec<u8>, e: Vec<u8>, s: Vec<u8>, w: Vec<u8>) -> TileSchematic {
    TileSchematic {
        name: name.to_string(),
        sheet: "terrain".to_string(),
        weight: 1,
        north: n,
        east: e,
        south: s,
        west: w,
    }
}

fn two_types() -> Vec<(String, TileSchematic)> {
    vec![
        ("0".to_string(), tile("grass", vec![0, 1], vec![0], vec![0, 1], vec![0])),
        ("1".to_string(), tile("water", vec![1], vec![0, 1], vec![1], vec![1])),
    ]
}

#[test]
fn parses_decimal_ids() {
    assert_eq!(parse_tile_id("0"), Some(0));
    assert_eq!(parse_tile_id("7"), Some(7));
    assert_eq!(parse_tile_id("042"), Some(42));
    assert_eq!(parse_tile_id("255"), Some(255));
    assert_eq!(parse_tile_id("+7"), Some(7));
}

#[test]
fn rejects_bad_ids() {
    assert_eq!(parse_tile_id(""), None);
    assert_eq!(parse_tile_id("256"), None);
    assert_eq!(parse_tile_id("99999999999"), None);
    assert_eq!(parse_tile_id("1a"), None);
    assert_eq!(parse_tile_id("-1"), None);
    assert_eq!(parse_tile_id(" 1"), None);
    assert_eq!(parse_tile_id("+"), None);
    assert_eq!(parse_tile_id("++1"), None);
    assert_eq!(parse_tile_id("+256"), None);
}

#[test]
fn loads_valid_schematic() {
    let s = SchematicAsset::load(1, two_types()).unwrap();
    assert_eq!(s.fallback_id(), 1);
    assert_eq!(s.tiles.len(), 2);
    assert_eq!(s.tiles[0].0, 0);
    assert_eq!(s.tiles[1].0, 1);
    assert_eq!(s.lookup(1).unwrap().name, "water");
    assert!(s.lookup(2).is_none());
    assert_eq!(s.position(1), Some(1));
}

#[test]
fn permits_follows_allow_lists() {
    let s = SchematicAsset::load(0, two_types()).unwrap();
    assert!(s.permits(0, Direction::Up, 1));
    assert!(!s.permits(0, Direction::Right, 1));
    assert!(s.permits(1, Direction::Right, 0));
    assert!(!s.permits(1, Direction::Down, 0));
    assert!(!s.permits(5, Direction::Up, 0));
    assert_eq!(s.tiles[0].1.allowed(Direction::Left), &vec![0u8]);
}

#[test]
fn rejects_invalid_key() {
    let mut recs = two_types();
    recs[1].0 = "water".to_string();
    assert_eq!(SchematicAsset::load(0, recs).unwrap_err(), FormatError::InvalidKey);
}

#[test]
fn rejects_duplicate_key() {
    let mut recs = two_types();
    recs[1].0 = "00".to_string();
    assert_eq!(SchematicAsset::load(0, recs).unwrap_err(), FormatError::DuplicateKey);
}

#[test]
fn rejects_missing_fallback() {
    assert_eq!(SchematicAsset::load(9, two_types()).unwrap_err(), FormatError::MissingFallback);
    assert_eq!(SchematicAsset::load(0, Vec::new()).unwrap_err(), FormatError::MissingFallback);
}

#[test]
fn rejects_unknown_neighbor() {
    let mut recs = two_types();
    recs[0].1.west = vec![0, 3];
    assert_eq!(SchematicAsset::load(0, recs).unwrap_err(), FormatError::UnknownNeighbor);
}

#[test]
fn key_errors_come_first() {
    let recs = vec![
        ("x".to_string(), tile("a", vec![7], vec![], vec![], vec![])),
        ("x".to_string(), tile("b", vec![], vec![], vec![], vec![])),
    ];
    assert_eq!(SchematicAsset::load(9, recs).unwrap_err(), FormatError::InvalidKey);
}
