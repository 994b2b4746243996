use othello_engine::tile::{tiles, RankedTile, Tile};

#[test]
fn tile_text_reads_column_then_row() {
    let t = Tile::from_str("a1").unwrap();
    assert_eq!((t.row, t.col), (0, 0));
    let t = Tile::from_str("h8").unwrap();
    assert_eq!((t.row, t.col), (7, 7));
    let t = Tile::from_str("c5").unwrap();
    assert_eq!((t.row, t.col), (4, 2));
    assert_eq!(t.to_string(), "c5");
}

#[test]
fn tile_text_rejects_bad_input() {
    assert!(Tile::from_str("i1").is_err());
    assert!(Tile::from_str("a9").is_err());
    assert!(Tile::from_str("a0").is_err());
    assert!(Tile::from_str("a").is_err());
    assert!(Tile::from_str("a10").is_err());
    assert!(Tile::from_str("").is_err());
    assert_eq!(
        Tile::from_str("abc").unwrap_err().message(),
        "Tile notation must be 2 characters long"
    );
}

#[test]
fn tile_index_and_bounds() {
    let t = Tile::from_index(13);
    assert_eq!((t.row, t.col), (1, 5));
    assert!(t.in_bounds());
    assert!(!Tile::new(-1, 0).in_bounds());
    assert!(!Tile::new(3, 8).in_bounds());
    let all = tiles();
    assert_eq!(all[0], Tile::new(0, 0));
    assert_eq!(all[63], Tile::new(7, 7));
    assert_eq!(all[9], Tile::new(1, 1));
}

#[test]
fn ranked_tile_from_option() {
    assert!(RankedTile::from_option(None, 5).is_none());
    let r = RankedTile::from_option(Some(Tile::new(2, 3)), 7).unwrap();
    assert_eq!(r.tile, Tile::new(2, 3));
    assert_eq!(r.heuristic, 7);
}
