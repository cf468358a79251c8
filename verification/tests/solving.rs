//! Tests for the decomposition search and the board text surfaces.

use rummikub::solve::{solve, Solution};
use rummikub::tiles::{Color, Tile, Tiles, TilesError};

fn board(s: &str) -> Tiles {
    Tiles::parse(s).unwrap()
}

fn solutions(s: &str) -> Vec<Solution> {
    solve(board(s))
}

#[test]
fn test_solve_empty_board() {
    let sols = solve(Tiles::new());
    assert_eq!(sols.len(), 1);
    assert_eq!(sols[0].combos.len(), 0);
    assert_eq!(sols[0].leftover_jokers, 0);
}

#[test]
fn test_single_tile_never_solves() {
    let mut it = Tile::all_no_jokers();
    while let Some(tile) = it.next() {
        let mut tiles = Tiles::new();
        tiles.add_tile(&tile).unwrap();
        assert_eq!(solve(tiles).len(), 0);
    }
}

#[test]
fn test_three_run() {
    let sols = solutions("1R 2R 3R");
    assert_eq!(sols.len(), 1);
    assert_eq!(sols[0].combos.len(), 1);
    assert_eq!(sols[0].leftover_jokers, 0);
}

#[test]
fn test_six_run_splits() {
    assert_eq!(solutions("1R 2R 3R 4R 5r 6r").len(), 2);
}

#[test]
fn test_three_color_groups() {
    assert_eq!(solutions("1R 1b 1u").len(), 1);
    assert_eq!(solutions("1R 1o 1u").len(), 1);
}

#[test]
fn test_group_rejects_repeated_color() {
    assert_eq!(solutions("1R 1r 1u 1o").len(), 0);
}

#[test]
fn test_group_with_joker() {
    let sols = solutions("1R j 1o");
    assert_eq!(sols.len(), 1);
    assert_eq!(sols[0].combos.len(), 1);
    assert_eq!(sols[0].leftover_jokers, 0);
}

#[test]
fn test_two_jokers_one_natural_never_solves() {
    let mut it = Tile::all_no_jokers();
    while let Some(tile) = it.next() {
        let mut tiles = Tiles::new();
        tiles.add_tile(&tile).unwrap();
        tiles.add_tile(&Tile::Joker).unwrap();
        tiles.add_tile(&Tile::Joker).unwrap();
        assert_eq!(solve(tiles).len(), 0);
    }
}

#[test]
fn test_four_color_group() {
    let sols = solutions("4B 4U 4O 4R");
    assert_eq!(sols.len(), 1);
    assert_eq!(sols[0].combos.len(), 1);
}

#[test]
fn test_run_with_joker_and_leftover() {
    // the run of three leaves the joker over; the joker may also extend it
    let sols = solutions("1B 2B 3B J");
    assert_eq!(sols.len(), 2);
    assert_eq!(sols[0].leftover_jokers, 1);
    assert_eq!(sols[0].combos.len(), 1);
    assert_eq!(sols[1].leftover_jokers, 0);
    assert_eq!(sols[1].combos.len(), 1);
}

#[test]
fn test_two_jokers_alone_are_left_over() {
    let sols = solutions("J j");
    assert_eq!(sols.len(), 1);
    assert_eq!(sols[0].combos.len(), 0);
    assert_eq!(sols[0].leftover_jokers, 2);
}

#[test]
fn test_two_copies_make_two_runs() {
    let sols = solutions("1R 1R 2R 2R 3R 3R");
    assert_eq!(sols.len(), 1);
    assert_eq!(sols[0].combos.len(), 2);
}

#[test]
fn test_two_tiles_are_not_a_run() {
    assert_eq!(solutions("1R 2R").len(), 0);
    assert_eq!(solutions("12B 13B").len(), 0);
}

#[test]
fn test_deterministic_enumeration() {
    let a = solutions("1R 2R 3R 4R 5r 6r");
    let b = solutions("1R 2R 3R 4R 5r 6r");
    assert_eq!(a.len(), b.len());
    for (x, y) in a.iter().zip(b.iter()) {
        assert_eq!(x.combos, y.combos);
        assert_eq!(x.leftover_jokers, y.leftover_jokers);
    }
}

#[test]
fn test_set_get_roundtrip() {
    let mut it = Tile::all();
    while let Some(tile) = it.next() {
        for count in 0u8..=2u8 {
            let mut tiles = Tiles::new();
            tiles.set_count(&tile, count);
            assert_eq!(tiles.get_count(&tile), count);
            // no other kind was touched
            let mut it2 = Tile::all();
            while let Some(other) = it2.next() {
                if other != tile {
                    assert_eq!(tiles.get_count(&other), 0);
                }
            }
        }
    }
}

#[test]
fn test_parse_rejects_bad_tokens() {
    assert_eq!(
        Tiles::parse("1X"),
        Err(TilesError::InvalidTileString(String::from("1X")))
    );
    assert_eq!(
        Tiles::parse("14B"),
        Err(TilesError::InvalidTileString(String::from("14B")))
    );
    assert_eq!(
        Tiles::parse("0R"),
        Err(TilesError::InvalidTileString(String::from("0R")))
    );
    assert_eq!(
        Tiles::parse("007B"),
        Err(TilesError::InvalidTileString(String::from("007B")))
    );
    assert_eq!(
        Tiles::parse("B"),
        Err(TilesError::InvalidTileString(String::from("B")))
    );
    assert_eq!(
        Tiles::parse("1B 2B xyz 3B"),
        Err(TilesError::InvalidTileString(String::from("xyz")))
    );
}

#[test]
fn test_parse_rejects_third_copy() {
    assert_eq!(
        Tiles::parse("5U 5u 5U"),
        Err(TilesError::AlreadyHaveTwo(Tile::Number(5, Color::Blue)))
    );
}

#[test]
fn test_parse_skips_blank_stretches() {
    let tiles = Tiles::parse("  1B\t\t2u \n 3O  ").unwrap();
    assert_eq!(tiles.get_total_count(), 3);
    assert_eq!(tiles.get_count(&Tile::Number(1, Color::Black)), 1);
    assert_eq!(tiles.get_count(&Tile::Number(2, Color::Blue)), 1);
    assert_eq!(tiles.get_count(&Tile::Number(3, Color::Orange)), 1);
}

#[test]
fn test_render_exact() {
    assert_eq!(board("3o 1b j 2U").render(), "1B 2U 3O J ");
    assert_eq!(board("10B 13r 11u").render(), "10B 11U 13R ");
    assert_eq!(Tiles::new().render(), "");
}

#[test]
fn test_render_solution_exact() {
    let sols = solutions("1R 2R 3R");
    assert_eq!(sols[0].render(), "(1R 2R 3R ), leftover jokers: 0");
    let sols = solutions("J j");
    assert_eq!(sols[0].render(), "leftover jokers: 2");
}

#[test]
fn test_min_value_and_next_walk_the_catalog() {
    let mut t = Tile::min_value();
    assert_eq!(t, Tile::Number(1, Color::Black));
    let mut steps = 0;
    while let Some(n) = t.next() {
        t = n;
        steps += 1;
    }
    assert_eq!(t, Tile::Joker);
    assert_eq!(steps, 52);
}

#[test]
fn test_all_no_jokers_has_no_joker() {
    let mut it = Tile::all_no_jokers();
    let mut n = 0;
    while let Some(t) = it.next() {
        assert_ne!(t, Tile::Joker);
        n += 1;
    }
    assert_eq!(n, 52);
}

#[test]
fn test_run_and_group_mix() {
    // the only full cover: the black three-run plus the rank-one group
    let sols = solutions("1B 2B 3B 1U 1O 1R");
    assert_eq!(sols.len(), 1);
    assert_eq!(sols[0].combos.len(), 2);
    assert_eq!(sols[0].leftover_jokers, 0);
}

#[test]
fn test_color_walk() {
    assert_eq!(Color::min_value(), Color::Black);
    assert_eq!(Color::Black.next(), Some(Color::Blue));
    assert_eq!(Color::Blue.next(), Some(Color::Orange));
    assert_eq!(Color::Orange.next(), Some(Color::Red));
    assert_eq!(Color::Red.next(), None);
}

#[test]
fn test_is_valid() {
    assert!(Tiles::new().is_valid());
    assert!(board("1B 1B J J").is_valid());
}
