use tilecore::gridtext::parse_i64;
use tilecore::tilemap::{DecodeError, TileSet, Tilemap, Tiles};

fn three_tiles() -> TileSet {
    let doc = br#"{"tiles": [{"image": "grass"}, {"image": "stone"}, {"image": "water"}]}"#;
    TileSet::from_reader(doc).unwrap()
}

#[test]
fn tileset_parse_round_trip() {
    // Three images get codes 0, 1, 2 in document order.
    let ts = three_tiles();
    assert_eq!(ts.get_texture_name(0), Some("grass"));
    assert_eq!(ts.get_texture_name(1), Some("stone"));
    assert_eq!(ts.get_texture_name(2), Some("water"));
    assert_eq!(ts.get_texture_name(3), None);
    let grid = Tiles::from_reader(b"1").unwrap();
    let map = Tilemap::new(&ts, &grid).unwrap();
    assert_eq!(map.get_texture_name_of_tile(0, 0), Some("stone"));
}

#[test]
fn tileset_extra_fields_are_ignored() {
    let doc = br#"{"version": 7, "tiles": [{"image": "a", "weight": 3}], "name": "x"}"#;
    let ts = TileSet::from_reader(doc).unwrap();
    assert_eq!(ts.get_texture_name(0), Some("a"));
}

#[test]
fn tileset_invalid_json_fails() {
    assert_eq!(
        TileSet::from_reader(b"not json at all").err(),
        Some(DecodeError::InvalidDocument)
    );
}

#[test]
fn tileset_missing_tiles_fails() {
    assert_eq!(
        TileSet::from_reader(br#"{"other": []}"#).err(),
        Some(DecodeError::MissingTiles)
    );
    assert_eq!(
        TileSet::from_reader(br#"{"tiles": 5}"#).err(),
        Some(DecodeError::MissingTiles)
    );
}

#[test]
fn tileset_missing_image_fails() {
    assert_eq!(
        TileSet::from_reader(br#"{"tiles": [{"image": "a"}, {"img": "b"}]}"#).err(),
        Some(DecodeError::MissingImage)
    );
    assert_eq!(
        TileSet::from_reader(br#"{"tiles": [{"image": 5}]}"#).err(),
        Some(DecodeError::MissingImage)
    );
}

#[test]
fn negative_tile_type_is_no_tile() {
    let ts = three_tiles();
    assert_eq!(ts.get_texture_name(-1), None);
    assert_eq!(ts.get_texture_name(-7), None);
}

#[test]
fn ragged_grid_pads_with_absence() {
    // Rows of lengths 3, 2, 4: width 4, height 3; the cell beyond the second
    // row's length is no tile, not an error.
    let ts = three_tiles();
    let grid = Tiles::from_reader(b"0,0,0\n1,1\n2,2,2,2").unwrap();
    let map = Tilemap::new(&ts, &grid).unwrap();
    assert_eq!(map.width(), 4);
    assert_eq!(map.height(), 3);
    assert_eq!(map.get_texture_name_of_tile(3, 1), None);
    assert_eq!(map.get_texture_name_of_tile(1, 1), Some("stone"));
    assert_eq!(map.get_texture_name_of_tile(3, 2), Some("water"));
    assert_eq!(map.get_texture_name_of_tile(3, 0), None);
}

#[test]
fn negative_cell_resolves_to_none() {
    // A -1 cell is no tile whatever the tileset holds.
    let ts = three_tiles();
    let grid = Tiles::from_reader(b"-1,0\n1,-1").unwrap();
    let map = Tilemap::new(&ts, &grid).unwrap();
    assert_eq!(map.get_texture_name_of_tile(0, 0), None);
    assert_eq!(map.get_texture_name_of_tile(1, 1), None);
    assert_eq!(map.get_texture_name_of_tile(1, 0), Some("grass"));
    assert_eq!(map.get_texture_name_of_tile(0, 1), Some("stone"));
}

#[test]
fn malformed_grid_fails_closed() {
    // One non-numeric field fails the whole parse; no partial grid.
    assert_eq!(
        Tiles::from_reader(b"1,2\n3,x4\n5").err(),
        Some(DecodeError::InvalidCell)
    );
    assert_eq!(Tiles::from_reader(b"1,,2").err(), Some(DecodeError::InvalidCell));
    assert_eq!(Tiles::from_reader(b"1, 2").err(), Some(DecodeError::InvalidCell));
}

#[test]
fn out_of_bounds_lookup_is_none() {
    let ts = three_tiles();
    let grid = Tiles::from_reader(b"0,1\n2,0").unwrap();
    let map = Tilemap::new(&ts, &grid).unwrap();
    assert_eq!(map.get_texture_name_of_tile(2, 0), None);
    assert_eq!(map.get_texture_name_of_tile(0, 2), None);
    assert_eq!(map.get_texture_name_of_tile(9, 9), None);
}

#[test]
fn code_past_tileset_end_is_none() {
    let ts = three_tiles();
    let grid = Tiles::from_reader(b"7").unwrap();
    let map = Tilemap::new(&ts, &grid).unwrap();
    assert_eq!(map.get_texture_name_of_tile(0, 0), None);
}

#[test]
fn empty_grid_has_no_tilemap() {
    let ts = three_tiles();
    let grid = Tiles::from_reader(b"").unwrap();
    assert!(Tilemap::new(&ts, &grid).is_none());
}

#[test]
fn trailing_newline_adds_no_row() {
    let ts = three_tiles();
    let grid = Tiles::from_reader(b"0,0\n1,1\n").unwrap();
    let map = Tilemap::new(&ts, &grid).unwrap();
    assert_eq!(map.height(), 2);
    assert_eq!(map.width(), 2);
}

#[test]
fn carriage_returns_are_stripped() {
    let ts = three_tiles();
    let grid = Tiles::from_reader(b"0,1\r\n2,0\r\n").unwrap();
    let map = Tilemap::new(&ts, &grid).unwrap();
    assert_eq!(map.height(), 2);
    assert_eq!(map.get_texture_name_of_tile(1, 0), Some("stone"));
    assert_eq!(map.get_texture_name_of_tile(0, 1), Some("water"));
}

#[test]
fn integer_fields_parse_exactly() {
    assert_eq!(parse_i64(b"0"), Some(0));
    assert_eq!(parse_i64(b"-1"), Some(-1));
    assert_eq!(parse_i64(b"+42"), Some(42));
    assert_eq!(parse_i64(b"007"), Some(7));
    assert_eq!(parse_i64(b"9223372036854775807"), Some(i64::MAX));
    assert_eq!(parse_i64(b"-9223372036854775808"), Some(i64::MIN));
    assert_eq!(parse_i64(b"9223372036854775808"), None);
    assert_eq!(parse_i64(b"-9223372036854775809"), None);
    assert_eq!(parse_i64(b""), None);
    assert_eq!(parse_i64(b"+"), None);
    assert_eq!(parse_i64(b"-"), None);
    assert_eq!(parse_i64(b"--1"), None);
    assert_eq!(parse_i64(b"1.5"), None);
    assert_eq!(parse_i64(b" 1"), None);
}
