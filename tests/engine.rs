use my_robot::candidates::{grid_candidates, territory_candidates};
use my_robot::distance::{build_distance_map, UNREACHABLE};
use my_robot::engine::{choose_move, estimate_cost, piece_stars};
use my_robot::grid::{get_player_territory, opponent_char};
use my_robot::protocol::{board_matches, board_row, header_dims, parse_count, trim_colons};
use my_robot::placement::{is_valid_placement, placement_score, PENALTY};
use my_robot::select::select_best;

fn rows(lines: &[&str]) -> Vec<String> {
    lines.iter().map(|s| s.to_string()).collect()
}

fn manhattan_nearest(board: &[String], opp: &[char], x: usize, y: usize) -> Option<usize> {
    let mut best: Option<usize> = None;
    for (oy, row) in board.iter().enumerate() {
        for (ox, c) in row.chars().enumerate() {
            if opp.contains(&c) {
                let d = x.abs_diff(ox) + y.abs_diff(oy);
                best = Some(best.map_or(d, |b| b.min(d)));
            }
        }
    }
    best
}

#[test]
fn territory_lists_both_symbols_in_row_major_order() {
    let board = rows(&["@..a", ".$s.", "a..@"]);
    assert_eq!(get_player_territory(&board, '@'), vec![(0, 0), (3, 0), (0, 2), (3, 2)]);
    assert_eq!(get_player_territory(&board, '$'), vec![(1, 1), (2, 1)]);
}

#[test]
fn opponent_char_swaps_sides() {
    assert_eq!(opponent_char('@'), '$');
    assert_eq!(opponent_char('$'), '@');
    assert_eq!(opponent_char(opponent_char('@')), '@');
    assert_eq!(opponent_char(opponent_char('$')), '$');
}

#[test]
fn distance_map_is_distance_to_nearest_opponent() {
    let board = rows(&[".....", "..$..", ".....", "....s", "@...."]);
    let dist = build_distance_map(&board, '$');
    assert_eq!(dist.len(), 5);
    for y in 0..5 {
        assert_eq!(dist[y].len(), 5);
        for x in 0..5 {
            let want = manhattan_nearest(&board, &['$', 's'], x, y).unwrap();
            assert_eq!(dist[y][x] as usize, want, "cell ({}, {})", x, y);
        }
    }
    assert_eq!(dist[1][2], 0);
    assert_eq!(dist[3][4], 0);
    assert_eq!(dist[4][0], 5);
}

#[test]
fn distance_map_without_opponent_is_unreachable() {
    let board = rows(&["@..", "..."]);
    let dist = build_distance_map(&board, '$');
    assert_eq!(dist, vec![vec![UNREACHABLE; 3]; 2]);
}

#[test]
fn distance_map_of_empty_board_is_empty() {
    let board: Vec<String> = Vec::new();
    assert!(build_distance_map(&board, '@').is_empty());
}

#[test]
fn legal_placement_needs_exactly_one_own_cell() {
    let board = rows(&["@@..", "....", "..$."]);
    let single = vec![(0, 0)];
    let pair = vec![(0, 0), (1, 0)];
    assert!(is_valid_placement(&board, &single, 0, 0, '@'));
    assert!(!is_valid_placement(&board, &single, 2, 0, '@'));
    assert!(!is_valid_placement(&board, &pair, 0, 0, '@'));
    assert!(is_valid_placement(&board, &pair, 1, 0, '@'));
    assert!(!is_valid_placement(&board, &single, 2, 2, '@'));
    assert!(is_valid_placement(&board, &single, 2, 2, '$'));
}

#[test]
fn placement_off_board_or_on_other_symbols_is_rejected() {
    let board = rows(&["@.#", "..."]);
    let piece = vec![(0, 0), (1, 0)];
    assert!(!is_valid_placement(&board, &piece, 2, 0, '@'));
    assert!(!is_valid_placement(&board, &piece, 0, 2, '@'));
    assert!(!is_valid_placement(&board, &vec![(0, 0), (2, 0)], 0, 0, '@'));
    assert!(!is_valid_placement(&board, &vec![(0, 0)], usize::MAX, 0, '@'));
}

#[test]
fn score_sums_distances_with_penalty() {
    let dist = vec![vec![0, 1, 2], vec![1, UNREACHABLE, 3]];
    let piece = vec![(0, 0), (1, 0), (1, 1)];
    assert_eq!(placement_score(&piece, 0, 0, 2, 3, &dist), 0 + 1 + PENALTY);
    assert_eq!(placement_score(&piece, 1, 0, 2, 3, &dist), 1 + 2 + 3);
    assert_eq!(placement_score(&piece, 2, 1, 2, 3, &dist), 3 + 2 * PENALTY);
    assert_eq!(PENALTY, 1_000_000);
}

#[test]
fn piece_cells_are_read_from_o_marks() {
    let piece = rows(&[".O.", "OO.", "..O"]);
    assert_eq!(piece_stars(&piece), vec![(1, 0), (0, 1), (1, 1), (2, 2)]);
}

#[test]
fn cost_estimate_multiplies_and_saturates() {
    assert_eq!(estimate_cost(3, 4, 5), 60);
    assert_eq!(estimate_cost(usize::MAX, 2, 1), usize::MAX);
    assert_eq!(estimate_cost(usize::MAX, 2, 0), 0);
}

#[test]
fn grid_candidates_are_row_major() {
    assert_eq!(grid_candidates(4, 3, 3, 2), vec![(0, 0), (1, 0), (0, 1), (1, 1)]);
}

#[test]
fn territory_candidates_are_deduplicated_and_in_bounds() {
    let territory = vec![(1, 1), (2, 1)];
    let stars = vec![(0, 0), (1, 0)];
    let got = territory_candidates(&territory, &stars, 4, 3, 2, 1);
    assert_eq!(got, vec![(1, 1), (0, 1), (2, 1)]);
}

#[test]
fn single_cell_piece_lands_on_own_cell() {
    let board = rows(&["$....", ".....", "..@..", ".....", "....."]);
    let piece = rows(&["O"]);
    assert_eq!(choose_move(&board, 5, 5, &piece, 1, 1, '@'), Some((2, 2)));
}

#[test]
fn piece_larger_than_board_gives_no_move() {
    let board = rows(&["$....", ".....", "..@..", ".....", "....."]);
    let wide = rows(&["OOOOOO"]);
    assert_eq!(choose_move(&board, 5, 5, &wide, 6, 1, '@'), None);
    let tall = rows(&["O", "O", "O", "O", "O", "O"]);
    assert_eq!(choose_move(&board, 5, 5, &tall, 1, 6, '@'), None);
}

#[test]
fn no_own_territory_gives_no_move() {
    let board = rows(&["$....", ".....", ".....", ".....", "....s"]);
    let piece = rows(&["OO"]);
    assert_eq!(choose_move(&board, 5, 5, &piece, 2, 1, '@'), None);
    let stars = piece_stars(&piece);
    let territory = get_player_territory(&board, '@');
    assert!(territory_candidates(&territory, &stars, 5, 5, 2, 1).is_empty());
    let dist = build_distance_map(&board, '$');
    let grid = grid_candidates(5, 5, 2, 1);
    assert_eq!(select_best(&board, &stars, &grid, '@', 5, 5, &dist), None);
}

#[test]
fn cheaper_of_two_anchors_wins_and_strategies_agree() {
    let board = rows(&["$.....", ".@....", "......", "......", "....@.", "......"]);
    let piece = rows(&["O"]);
    let stars = piece_stars(&piece);
    let dist = build_distance_map(&board, '$');
    let territory = get_player_territory(&board, '@');
    let anchored = territory_candidates(&territory, &stars, 6, 6, 1, 1);
    let grid = grid_candidates(6, 6, 1, 1);
    let a = select_best(&board, &stars, &anchored, '@', 6, 6, &dist);
    let g = select_best(&board, &stars, &grid, '@', 6, 6, &dist);
    assert_eq!(a, Some((1, 1)));
    assert_eq!(g, Some((1, 1)));
    assert_eq!(placement_score(&stars, 1, 1, 6, 6, &dist), 2);
    assert_eq!(placement_score(&stars, 4, 4, 6, 6, &dist), 8);
    assert_eq!(choose_move(&board, 6, 6, &piece, 1, 1, '@'), Some((1, 1)));
}

#[test]
fn larger_piece_strategies_agree_on_cost() {
    let board = rows(&[
        "........", "..@@....", "..@.....", "........", ".....$$.", "......$.",
    ]);
    let piece = rows(&["OO", ".O"]);
    let stars = piece_stars(&piece);
    let dist = build_distance_map(&board, '$');
    let territory = get_player_territory(&board, '@');
    let anchored = territory_candidates(&territory, &stars, 8, 6, 2, 2);
    let grid = grid_candidates(8, 6, 2, 2);
    let a = select_best(&board, &stars, &anchored, '@', 6, 8, &dist).unwrap();
    let g = select_best(&board, &stars, &grid, '@', 6, 8, &dist).unwrap();
    assert_eq!(
        placement_score(&stars, a.0, a.1, 6, 8, &dist),
        placement_score(&stars, g.0, g.1, 6, 8, &dist)
    );
    assert!(is_valid_placement(&board, &stars, a.0, a.1, '@'));
}

#[test]
fn repeated_turn_gives_same_move() {
    let board = rows(&["......", ".@@...", "......", "...$..", "......"]);
    let piece = rows(&["O.", "OO"]);
    let first = choose_move(&board, 6, 5, &piece, 2, 2, '@');
    for _ in 0..5 {
        assert_eq!(choose_move(&board, 6, 5, &piece, 2, 2, '@'), first);
    }
    assert!(first.is_some());
}

#[test]
fn empty_piece_gives_no_move() {
    let board = rows(&["@..", "..$"]);
    let piece = rows(&["..", ".."]);
    assert_eq!(choose_move(&board, 3, 2, &piece, 2, 2, '@'), None);
}

#[test]
fn second_player_uses_dollar_symbols() {
    let board = rows(&["@....", ".....", "....s"]);
    let piece = rows(&["O"]);
    assert_eq!(choose_move(&board, 5, 3, &piece, 1, 1, '$'), Some((4, 2)));
}

#[test]
fn header_fields_read_as_counts() {
    assert_eq!(header_dims("17", "15:"), (17, 15));
    assert_eq!(header_dims("17:", "15"), (0, 15));
    assert_eq!(parse_count("+42"), 42);
    assert_eq!(parse_count(""), 0);
    assert_eq!(parse_count("+"), 0);
    assert_eq!(parse_count("4x"), 0);
    assert_eq!(parse_count("-3"), 0);
    assert_eq!(parse_count("18446744073709551615"), usize::MAX);
    assert_eq!(parse_count("18446744073709551616"), 0);
    assert_eq!(trim_colons("8::"), "8");
    assert_eq!(trim_colons(":"), "");
}

#[test]
fn board_rows_drop_their_label() {
    assert_eq!(board_row("000 ..@."), Some("..@.".to_string()));
    assert_eq!(board_row("000 "), Some(String::new()));
    assert_eq!(board_row("00"), None);
}

#[test]
fn board_must_match_its_header() {
    let board = rows(&["...", "..."]);
    assert!(board_matches(&board, 3, 2));
    assert!(!board_matches(&board, 3, 3));
    assert!(!board_matches(&board, 4, 2));
    assert!(!board_matches(&rows(&["...", ".."]), 3, 2));
}
