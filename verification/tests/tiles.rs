//! Tests for the tile catalog and the counted multiset.

use rummikub::tiles::{Color, Tile, Tiles, TilesError};

fn all_tiles() -> Vec<Tile> {
    let mut v = Vec::new();
    let mut it = Tile::all();
    while let Some(t) = it.next() {
        v.push(t);
    }
    v
}

#[test]
fn test_tile_count() {
    assert_eq!(all_tiles().len(), 53)
}

#[test]
fn test_has_joker() {
    assert!(all_tiles().iter().any(|tile| *tile == Tile::Joker))
}

#[test]
fn test_empty_tiles() {
    assert_eq!(Tiles::new().get_total_count(), 0)
}

#[test]
fn test_add_once() {
    let mut tiles = Tiles::new();
    for tile in all_tiles() {
        tiles.add_tile(&tile).unwrap();
    }
    assert_eq!(tiles.get_total_count() as usize, all_tiles().len());
}

#[test]
fn test_add_twice() {
    let mut tiles = Tiles::new();
    for tile in all_tiles() {
        tiles.add_tile(&tile).unwrap();
        tiles.add_tile(&tile).unwrap();
    }
    assert_eq!(tiles.get_total_count() as usize, all_tiles().len() * 2);
}

#[test]
fn test_add_thrice_fails() {
    let mut tiles = Tiles::new();
    let tile = Tile::min_value();
    assert_eq!(tiles.get_count(&tile), 0);
    assert_eq!(tiles.add_tile(&tile), Ok(()));
    assert_eq!(tiles.get_count(&tile), 1);
    assert_eq!(tiles.add_tile(&tile), Ok(()));
    assert_eq!(tiles.get_count(&tile), 2);
    assert_eq!(tiles.add_tile(&tile), Err(TilesError::AlreadyHaveTwo(tile)));
}

#[test]
fn test_tile_index() {
    let mut expected: u8 = 0;
    for tile in all_tiles() {
        assert_eq!(tile.index(), expected);
        expected += 2;
    }
}

#[test]
fn test_parse_empty() {
    assert_eq!("".parse::<Tiles>().unwrap(), Tiles::new());
}

#[test]
fn test_parse_one_joker() {
    let mut tiles = Tiles::new();
    tiles.add_tile(&Tile::Joker).unwrap();
    assert_eq!("J".parse::<Tiles>().unwrap(), tiles);
}

#[test]
fn test_parse_numbers() {
    let mut tiles = Tiles::new();
    tiles.add_tile(&Tile::Number(5, Color::Blue)).unwrap();
    tiles.add_tile(&Tile::Number(6, Color::Black)).unwrap();
    tiles.add_tile(&Tile::Number(6, Color::Black)).unwrap();
    assert_eq!("6B 5U 6B".parse::<Tiles>().unwrap(), tiles);
}

#[test]
fn test_parse_too_many_jokers() {
    assert_eq!(
        "J j J".parse::<Tiles>(),
        Err(TilesError::AlreadyHaveTwo(Tile::Joker))
    );
}

#[test]
fn test_parse_case() {
    let mut tiles = Tiles::new();
    tiles.add_tile(&Tile::Number(5, Color::Blue)).unwrap();
    tiles.add_tile(&Tile::Number(6, Color::Black)).unwrap();
    tiles.add_tile(&Tile::Number(6, Color::Red)).unwrap();
    tiles.add_tile(&Tile::Number(7, Color::Orange)).unwrap();
    tiles.add_tile(&Tile::Number(8, Color::Orange)).unwrap();

    assert_eq!("6b 5U 6r 7o 8O".parse::<Tiles>().unwrap(), tiles);
}

fn roundtrip_helper(tiles: &Tiles) {
    let s = tiles.render();
    assert_eq!(&s.parse::<Tiles>().unwrap(), tiles);
}

#[test]
fn test_parse_display() {
    let mut tiles = Tiles::new();
    roundtrip_helper(&tiles);
    for tile in all_tiles() {
        tiles.add_tile(&tile).unwrap();
        roundtrip_helper(&tiles);
        tiles.add_tile(&tile).unwrap();
        roundtrip_helper(&tiles);
    }
}
