use minesweeper::{
    create_board, mine_counter_color, safe_start, BoardOptions, Coordinates, Tile, TileMap,
};

fn c(x: u16, y: u16) -> Coordinates {
    Coordinates { x, y }
}

fn tile(map: &TileMap, x: u16, y: u16) -> Tile {
    map.tile_at(c(x, y))
}

fn count_mines(map: &TileMap) -> usize {
    let mut n = 0;
    for y in 0..map.height() {
        for x in 0..map.width() {
            if tile(map, x, y) == Tile::Mine {
                n += 1;
            }
        }
    }
    n
}

#[test]
fn offset_saturates_at_zero() {
    assert_eq!(c(0, 0).offset((-1, -1)), c(0, 0));
    assert_eq!(c(3, 0).offset((-1, 1)), c(2, 1));
    assert_eq!(c(65535, 2).offset((1, -1)), c(65535, 1));
    assert_eq!(c(2, 5).saturating_sub(c(3, 1)), c(0, 4));
}

#[test]
fn new_empty_is_all_empty() {
    let map = TileMap::new_empty(4, 3);
    assert_eq!(map.width(), 4);
    assert_eq!(map.height(), 3);
    assert_eq!(map.mine_count(), 0);
    for y in 0..3 {
        for x in 0..4 {
            assert_eq!(tile(&map, x, y), Tile::Empty);
        }
    }
}

#[test]
fn zero_sized_map_is_legal() {
    let map = TileMap::new_empty(0, 0);
    assert_eq!(map.width(), 0);
    assert!(!map.is_mine_at(c(0, 0)));
    assert_eq!(map.mine_count_at(c(0, 0)), 0);
}

#[test]
fn square_order_and_clamping() {
    let map = TileMap::new_empty(5, 5);
    let square = map.safe_square_at(c(2, 2));
    assert_eq!(
        square,
        vec![c(1, 1), c(2, 1), c(3, 1), c(1, 2), c(3, 2), c(1, 3), c(2, 3), c(3, 3)]
    );
    let corner = map.safe_square_at(c(0, 0));
    assert_eq!(
        corner,
        vec![c(0, 0), c(0, 0), c(1, 0), c(0, 0), c(1, 0), c(0, 1), c(0, 1), c(1, 1)]
    );
}

#[test]
fn out_of_range_queries_are_safe() {
    let mut map = TileMap::new_empty(2, 2);
    map.set_mines_at(&vec![c(1, 1)]);
    assert!(map.is_mine_at(c(1, 1)));
    assert!(!map.is_mine_at(c(2, 1)));
    assert!(!map.is_mine_at(c(1, 7)));
    assert_eq!(map.mine_count_at(c(9, 9)), 0);
}

#[test]
fn random_field_has_exact_mine_count_and_counts() {
    for _ in 0..20 {
        let mut map = TileMap::new_empty(9, 7);
        map.set_mines(20);
        assert_eq!(map.mine_count(), 20);
        assert_eq!(count_mines(&map), 20);
        for y in 0..7 {
            for x in 0..9 {
                let t = tile(&map, x, y);
                if t == Tile::Mine {
                    continue;
                }
                let n = map
                    .safe_square_at(c(x, y))
                    .into_iter()
                    .filter(|d| map.is_mine_at(*d))
                    .count() as u8;
                if n == 0 {
                    assert_eq!(t, Tile::Empty);
                } else {
                    assert_eq!(t, Tile::MineNeighbor(n));
                }
                assert_eq!(map.mine_count_at(c(x, y)), n);
            }
        }
    }
}

#[test]
fn full_field_of_mines() {
    let mut map = TileMap::new_empty(3, 2);
    map.set_mines(6);
    assert_eq!(count_mines(&map), 6);
}

#[test]
fn centre_mine_numbers_every_border_cell() {
    let mut map = TileMap::new_empty(3, 3);
    map.set_mines_at(&vec![c(1, 1)]);
    assert_eq!(map.mine_count(), 1);
    for y in 0..3 {
        for x in 0..3 {
            if (x, y) == (1, 1) {
                assert_eq!(tile(&map, x, y), Tile::Mine);
            } else {
                assert_eq!(tile(&map, x, y), Tile::MineNeighbor(1));
            }
        }
    }
    assert_eq!(map.mine_count_at(c(1, 1)), 0);
}

#[test]
fn edge_repeats_are_counted_again() {
    // On a one-row field the clamped squares of both ends name (1, 0) twice.
    let mut map = TileMap::new_empty(3, 1);
    map.set_mines_at(&vec![c(1, 0)]);
    assert_eq!(tile(&map, 0, 0), Tile::MineNeighbor(2));
    assert_eq!(tile(&map, 2, 0), Tile::MineNeighbor(2));
}

#[test]
fn repeated_forced_mine_counts_once() {
    let mut map = TileMap::new_empty(4, 4);
    map.set_mines_at(&vec![c(0, 0), c(0, 0), c(3, 3)]);
    assert_eq!(map.mine_count(), 2);
    assert_eq!(count_mines(&map), 2);
}

#[test]
fn safe_start_is_first_empty_cell() {
    let mut map = TileMap::new_empty(4, 2);
    map.set_mines_at(&vec![c(0, 0)]);
    // (0,0) mine, (1,0) and (0,1), (1,1) numbered; (2,0) is the first empty.
    assert_eq!(safe_start(&map), Some(c(2, 0)));
    let mut crowded = TileMap::new_empty(2, 1);
    crowded.set_mines_at(&vec![c(0, 0)]);
    assert_eq!(safe_start(&crowded), None);
}

#[test]
fn tile_console_output() {
    assert_eq!(Tile::Empty.console_output(), " ");
    assert!(Tile::Mine.console_output().contains('*'));
    assert!(Tile::MineNeighbor(3).console_output().contains('3'));
    assert!(Tile::MineNeighbor(12).console_output().contains("12"));
    assert!(Tile::Mine.is_a_mine());
    assert!(!Tile::MineNeighbor(1).is_a_mine());
    assert!(!Tile::Empty.is_a_mine());
}

#[test]
fn map_console_output_frame() {
    let mut map = TileMap::new_empty(3, 2);
    map.set_mines_at(&vec![c(2, 1)]);
    let out = map.console_output();
    assert!(out.starts_with("Map (3, 2) with 1 mines:\n\n-----\n"));
    assert!(out.ends_with("|\n-----"));
    assert_eq!(out.matches('|').count(), 4);
}

#[test]
fn create_board_rejects_too_many_mines() {
    let mut options = BoardOptions::default();
    options.map_size = (3, 3);
    options.mine_count = 9;
    assert!(create_board(&options, (800, 800)).is_none());
    options.mine_count = 8;
    let setup = create_board(&options, (800, 800)).unwrap();
    assert_eq!(count_mines(&setup.tile_map), 8);
    assert_eq!(setup.safe_start, None);
}

#[test]
fn create_board_safe_start() {
    let mut options = BoardOptions::default();
    options.map_size = (10, 10);
    options.mine_count = 3;
    options.safe_start_enabled = true;
    let setup = create_board(&options, (800, 800)).unwrap();
    let start = setup.safe_start.unwrap();
    assert_eq!(setup.tile_map.tile_at(start), Tile::Empty);
}

#[test]
fn coordinates_text() {
    assert_eq!(c(3, 12).to_text(), "(3, 12)");
    assert_eq!(c(0, 65535).to_text(), "(0, 65535)");
}

#[test]
fn counter_colour_choice() {
    let colors = vec!['w', 'g', 'y'];
    assert_eq!(mine_counter_color(&colors, 1, 'x'), 'w');
    assert_eq!(mine_counter_color(&colors, 0, 'x'), 'w');
    assert_eq!(mine_counter_color(&colors, 3, 'x'), 'y');
    assert_eq!(mine_counter_color(&colors, 8, 'x'), 'y');
    assert_eq!(mine_counter_color(&Vec::new(), 2, 'x'), 'x');
}

/// Removes terminal colour sequences (escape, `[`, digits and `;`, `m`).
fn strip_colors(s: &str) -> String {
    let mut out = String::new();
    let mut chars = s.chars().peekable();
    while let Some(ch) = chars.next() {
        if ch == '\u{1b}' {
            for c2 in chars.by_ref() {
                if c2 == 'm' {
                    break;
                }
            }
        } else {
            out.push(ch);
        }
    }
    out
}

#[test]
fn empty_map_dump_is_exact() {
    let map = TileMap::new_empty(2, 1);
    assert_eq!(map.console_output(), "Map (2, 1) with 0 mines:\n\n----\n|  |\n----");
}

#[test]
fn tile_dump_without_colors() {
    assert_eq!(strip_colors(&Tile::Mine.console_output()), "*");
    assert_eq!(strip_colors(&Tile::MineNeighbor(4).console_output()), "4");
    assert_eq!(strip_colors(&Tile::MineNeighbor(7).console_output()), "7");
    assert_eq!(strip_colors(&Tile::Empty.console_output()), " ");
}

#[test]
fn map_dump_rows_top_first() {
    let mut map = TileMap::new_empty(3, 2);
    map.set_mines_at(&vec![c(0, 0)]);
    let out = strip_colors(&map.console_output());
    // Clamping makes (0, 1) and (1, 0) see the corner mine twice.
    assert_eq!(out, "Map (3, 2) with 1 mines:\n\n-----\n|21 |\n|*2 |\n-----");
}

#[test]
fn decimal_digits() {
    assert_eq!(minesweeper::text::decimal_text(0), "0");
    assert_eq!(minesweeper::text::decimal_text(7), "7");
    assert_eq!(minesweeper::text::decimal_text(10), "10");
    assert_eq!(minesweeper::text::decimal_text(18446744073709551615), "18446744073709551615");
}
