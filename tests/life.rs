use conway::{Cell, GameOfLife, PatternError, PatternFormat};
use std::collections::BTreeSet;

fn cells(game: &GameOfLife) -> BTreeSet<(usize, usize)> {
    game.live_cells().iter().map(|cell: &Cell| (cell.r, cell.c)).collect()
}

fn set(pairs: &[(usize, usize)]) -> BTreeSet<(usize, usize)> {
    pairs.iter().copied().collect()
}

fn coords_text(pairs: &[(usize, usize)]) -> String {
    let mut text = String::from("coords\n");
    for (r, c) in pairs {
        text.push_str(&format!("{},{}\n", r, c));
    }
    text
}

/// A board built from `pairs` by centring, checked against the shift that
/// centring promises; with a pair on the last row and the last column (as in
/// the callers) the shift is zero and the board holds exactly `pairs`.
fn board(rows: usize, cols: usize, pairs: &[(usize, usize)]) -> GameOfLife {
    let game = GameOfLife::from_pattern(&coords_text(pairs), rows, cols).unwrap();
    let max_r = pairs.iter().map(|p| p.0).max().unwrap_or(0);
    let max_c = pairs.iter().map(|p| p.1).max().unwrap_or(0);
    let (dr, dc) = ((rows - max_r) / 2, (cols - max_c) / 2);
    let shifted: BTreeSet<(usize, usize)> = pairs.iter().map(|p| (p.0 + dr, p.1 + dc)).collect();
    assert_eq!(cells(&game), shifted);
    game
}

/// Conway's rule computed cell by cell over the whole board.
fn dense_next(live: &BTreeSet<(usize, usize)>, rows: usize, cols: usize) -> BTreeSet<(usize, usize)> {
    let wrap = |i: usize, n: usize| -> [usize; 3] {
        let prev = if i == 0 { n - 1 } else { i - 1 };
        let next = if i == n - 1 { 0 } else { i + 1 };
        [prev, i, next]
    };
    let mut next = BTreeSet::new();
    for r in 0..rows {
        for c in 0..cols {
            let mut n = 0;
            for rr in wrap(r, rows) {
                for cc in wrap(c, cols) {
                    if (rr, cc) != (r, c) && live.contains(&(rr, cc)) {
                        n += 1;
                    }
                }
            }
            let alive = live.contains(&(r, c));
            if (alive && (n == 2 || n == 3)) || (!alive && n == 3) {
                next.insert((r, c));
            }
        }
    }
    next
}

#[test]
fn block_is_still_life() {
    let block = [(1, 1), (1, 2), (2, 1), (2, 2)];
    let mut game = GameOfLife::from_pattern(&coords_text(&block), 10, 10).unwrap();
    let before = cells(&game);
    assert_eq!(before, set(&[(5, 5), (5, 6), (6, 5), (6, 6)]));
    game.step();
    assert_eq!(cells(&game), before);
}

#[test]
fn blinker_oscillates() {
    // Largest row 3 and column 3 on a 7 by 7 board: a shift of 2 either way.
    let mut game = board(7, 7, &[(1, 1), (1, 2), (1, 3), (3, 3)]);
    let mut game2 = GameOfLife::from_pattern("coords 0,0 0,1 0,2", 5, 5).unwrap();
    // (0,0),(0,1),(0,2) shifted by ((5-0)/2, (5-2)/2) = (2, 1).
    assert_eq!(cells(&game2), set(&[(2, 1), (2, 2), (2, 3)]));
    game2.step();
    assert_eq!(cells(&game2), set(&[(1, 2), (2, 2), (3, 2)]));
    game2.step();
    assert_eq!(cells(&game2), set(&[(2, 1), (2, 2), (2, 3)]));
    game.step();
    assert_eq!(cells(&game), dense_next(&set(&[(3, 3), (3, 4), (3, 5), (5, 5)]), 7, 7));
}

#[test]
fn blinker_perpendicular_form() {
    // Largest row 1 and column 3 on a 6 by 6 board: shifted by (2, 1).
    let mut game = GameOfLife::from_pattern("coords 1,1 1,2 1,3", 6, 6).unwrap();
    assert_eq!(cells(&game), set(&[(3, 2), (3, 3), (3, 4)]));
    game.step();
    assert_eq!(cells(&game), set(&[(2, 3), (3, 3), (4, 3)]));
    game.step();
    assert_eq!(cells(&game), set(&[(3, 2), (3, 3), (3, 4)]));
}

#[test]
fn centering_uses_largest_row_and_column() {
    let game = GameOfLife::from_pattern("coords\n0,0\n0,1\n1,0\n", 10, 10).unwrap();
    assert_eq!(cells(&game), set(&[(4, 4), (4, 5), (5, 4)]));
}

#[test]
fn centering_ignores_smallest_coordinates() {
    // Only the largest coordinates count: (5,5) alone moves by (10-5)/2.
    let game = GameOfLife::from_pattern("coords 5,5", 10, 10).unwrap();
    assert_eq!(cells(&game), set(&[(7, 7)]));
}

#[test]
fn chars_pattern_is_read_row_by_row() {
    let text = "chars\n{.#}\n.#.\n..#\n###\n";
    let game = GameOfLife::from_pattern(text, 10, 10).unwrap();
    // Largest row and column 2: shifted by (10-2)/2 = 4.
    assert_eq!(cells(&game), set(&[(4, 5), (5, 6), (6, 4), (6, 5), (6, 6)]));
}

#[test]
fn chars_pattern_skips_other_lines() {
    let text = "chars\n{ox}\nname: a pair\nxo\n\nox\n";
    let game = GameOfLife::from_pattern(text, 4, 4).unwrap();
    // Pattern rows "xo" and "ox": (0,0) and (1,1), shifted by (4-1)/2 = 1.
    assert_eq!(cells(&game), set(&[(1, 1), (2, 2)]));
}

#[test]
fn chars_without_glyphs_is_an_error() {
    let r = GameOfLife::from_pattern("chars\n.#.\n", 10, 10);
    assert!(matches!(r, Err(PatternError::MissingGlyphs)));
}

#[test]
fn unknown_format_is_an_error() {
    let r = GameOfLife::from_pattern("cells\n1,1\n", 10, 10);
    assert!(matches!(r, Err(PatternError::UnknownFormat)));
    let r = GameOfLife::from_pattern("", 10, 10);
    assert!(matches!(r, Err(PatternError::UnknownFormat)));
}

#[test]
fn format_dispatch() {
    let of = |t: &str| conway::pattern_format(&conway::chars_of(t));
    assert_eq!(of("chars\n{.#}"), Some(PatternFormat::Chars));
    assert_eq!(of("coords 1,2"), Some(PatternFormat::Coords));
    assert_eq!(of("char"), None);
    assert_eq!(of(" coords"), None);
}

#[test]
fn oversized_pattern_is_an_error() {
    let r = GameOfLife::from_pattern("coords 10,0", 10, 10);
    assert!(matches!(r, Err(PatternError::TooLarge)));
    let r = GameOfLife::from_pattern("coords 0,3", 10, 3);
    assert!(matches!(r, Err(PatternError::TooLarge)));
    let r = GameOfLife::from_pattern("coords 123456789012345678901234567890,1", 10, 10);
    assert!(matches!(r, Err(PatternError::TooLarge)));
    let r = GameOfLife::from_pattern("chars {.#}\n####\n", 3, 3);
    assert!(matches!(r, Err(PatternError::TooLarge)));
}

#[test]
fn coords_are_found_anywhere() {
    let v = conway::parse_coords(&conway::chars_of("coords: (1,2) and 3,4,5 then 12,x 7,8"), 100, 100).unwrap();
    assert_eq!(v, vec![(1, 2), (3, 4), (7, 8)]);
}

#[test]
fn parse_chars_gives_local_cells() {
    let v = conway::parse_chars(&conway::chars_of("chars {.#}\n#.\n.#\n")).unwrap();
    assert_eq!(v, vec![(0, 0), (1, 1)]);
    assert_eq!(conway::parse_chars(&conway::chars_of("chars\n")), None);
}

#[test]
fn wraparound_at_the_corners() {
    // On a torus the four corner cells are all neighbours of each other.
    let mut game = board(5, 5, &[(0, 0), (0, 4), (4, 0)]);
    game.step();
    assert_eq!(cells(&game), set(&[(0, 0), (0, 4), (4, 0), (4, 4)]));
}

#[test]
fn wraparound_across_edges() {
    // A blinker lying across the left and right edges.
    let mut game = board(5, 5, &[(2, 4), (2, 0), (2, 1), (4, 4)]);
    let start = cells(&game);
    game.step();
    assert_eq!(cells(&game), dense_next(&start, 5, 5));
}

#[test]
fn empty_board_stays_empty() {
    let mut game = GameOfLife::from_pattern("coords", 6, 8).unwrap();
    assert!(game.live_cells().is_empty());
    game.step();
    assert!(game.live_cells().is_empty());
    assert_eq!(game.dimensions(), (6, 8));
}

#[test]
fn step_matches_rule_on_random_boards() {
    for (rows, cols) in [(1, 1), (1, 5), (2, 2), (2, 7), (3, 3), (12, 9), (30, 40)] {
        let mut game = GameOfLife::random(rows, cols);
        assert_eq!(game.dimensions(), (rows, cols));
        for _ in 0..5 {
            let before = cells(&game);
            assert!(before.iter().all(|&(r, c)| r < rows && c < cols));
            game.step();
            assert_eq!(cells(&game), dense_next(&before, rows, cols));
        }
    }
}

#[test]
fn dead_cell_with_high_fan_in() {
    // The centre (2,2) is dead and reached from eight live neighbours; it is
    // decided once, and stays dead with eight live neighbours.
    let ring = [(1, 1), (1, 2), (1, 3), (2, 1), (2, 3), (3, 1), (3, 2), (3, 3)];
    let mut game = GameOfLife::from_pattern(&coords_text(&ring), 5, 5).unwrap();
    let start = cells(&game);
    game.step();
    let next = cells(&game);
    assert_eq!(next, dense_next(&start, 5, 5));
    // Three live cells around a dead one: it is born exactly once.
    let mut game = board(8, 8, &[(1, 1), (1, 3), (3, 2), (7, 7)]);
    let start = cells(&game);
    game.step();
    assert_eq!(cells(&game), dense_next(&start, 8, 8));
}

#[test]
fn live_cells_lists_each_cell_once() {
    let game = GameOfLife::from_pattern("coords 0,0 0,0 1,1", 4, 4).unwrap();
    let v = game.live_cells();
    assert_eq!(v.len(), 2);
    assert_eq!(cells(&game), set(&[(1, 1), (2, 2)]));
}

#[test]
fn to_string_draws_the_board() {
    let game = GameOfLife::from_pattern("coords 0,0 1,1", 3, 4).unwrap();
    // Shift ((3-1)/2, (4-1)/2) = (1, 1).
    assert_eq!(game.to_string(), "    \n █  \n  █ ");
}

#[test]
fn chars_of_keeps_characters() {
    assert_eq!(conway::chars_of("a█\nb"), vec!['a', '█', '\n', 'b']);
}

#[test]
fn advance_takes_several_generations() {
    let mut a = GameOfLife::from_pattern("coords 0,1 1,2 2,0 2,1 2,2", 12, 12).unwrap();
    let mut b = GameOfLife::from_pattern("coords 0,1 1,2 2,0 2,1 2,2", 12, 12).unwrap();
    a.advance(4);
    for _ in 0..4 {
        b.step();
    }
    assert_eq!(cells(&a), cells(&b));
    // A glider moves one cell down and right every four generations.
    let start: BTreeSet<(usize, usize)> = [(5, 6), (6, 7), (7, 5), (7, 6), (7, 7)].into_iter().collect();
    let moved: BTreeSet<(usize, usize)> = start.iter().map(|&(r, c)| (r + 1, c + 1)).collect();
    assert_eq!(cells(&a), moved);
}

#[test]
fn dimensions_are_read_from_text() {
    let of = |t: &str| conway::parse_dimensions(&conway::chars_of(t));
    assert_eq!(of("80x120"), Some((80, 120)));
    assert_eq!(of("size: 7x9, please"), Some((7, 9)));
    assert_eq!(of("x3 4y 5x6x7"), Some((5, 6)));
    assert_eq!(of("80 by 120"), None);
    assert_eq!(of("99999999999999999999999999x3"), None);
}

#[test]
fn from_draws_keeps_cells_drawn_zero() {
    let draws = vec![vec![0, 3, 9], vec![1, 0, 0]];
    let game = GameOfLife::from_draws(2, 3, &draws);
    assert_eq!(game.dimensions(), (2, 3));
    assert_eq!(cells(&game), set(&[(0, 0), (1, 1), (1, 2)]));
    let none = GameOfLife::from_draws(2, 2, &vec![vec![5, 5], vec![9, 1]]);
    assert!(none.live_cells().is_empty());
    let empty = GameOfLife::from_draws(0, 4, &vec![]);
    assert_eq!(empty.dimensions(), (0, 4));
    assert!(empty.live_cells().is_empty());
    assert!(GameOfLife::random(0, 7).live_cells().is_empty());
    assert!(GameOfLife::random(7, 0).live_cells().is_empty());
}

fn exact_board(rows: usize, cols: usize, pairs: &[(usize, usize)]) -> GameOfLife {
    let mut draws = vec![vec![1u32; cols]; rows];
    for &(r, c) in pairs {
        draws[r][c] = conway::ALIVE_DRAW;
    }
    GameOfLife::from_draws(rows, cols, &draws)
}

#[test]
fn block_across_the_corner_is_still() {
    let block = set(&[(9, 9), (9, 0), (0, 9), (0, 0)]);
    let mut game = exact_board(10, 10, &[(9, 9), (9, 0), (0, 9), (0, 0)]);
    game.step();
    assert_eq!(cells(&game), block);
}

#[test]
fn blinker_exact_example() {
    let mut game = exact_board(5, 5, &[(1, 1), (1, 2), (1, 3)]);
    game.step();
    assert_eq!(cells(&game), set(&[(0, 2), (1, 2), (2, 2)]));
    game.step();
    assert_eq!(cells(&game), set(&[(1, 1), (1, 2), (1, 3)]));
}
