use igo::board::{Board, BoardDirectionIter, Cell};
use igo::game::Winner;
use igo::scoring::count_area;

fn load(rows: [&str; 9]) -> Board {
    let mut text = String::new();
    for row in rows.iter() {
        text.push_str(row);
        text.push('\n');
    }
    let mut board = Board::new(9);
    board.set_from_str(text);
    board
}

fn ko_shape() -> Board {
    let mut board = Board::new(5);
    assert!(board.put(&0, &1, Cell::Black));
    assert!(board.put(&1, &0, Cell::Black));
    assert!(board.put(&1, &1, Cell::White));
    assert!(board.put(&0, &2, Cell::White));
    assert!(board.put(&1, &3, Cell::White));
    assert!(board.put(&2, &2, Cell::White));
    assert!(board.put(&2, &1, Cell::Black));
    board
}

#[test]
fn is_put() {
    let mut board = Board::new(9);
    assert!(board.is_put(&2, &2, &Cell::Black));
    board.put(&2, &2, Cell::Black);
    assert!(!board.is_put(&2, &2, &Cell::Black));

    board.put(&2, &4, Cell::Black);
    board.put(&1, &3, Cell::Black);
    board.put(&3, &3, Cell::Black);
    assert!(!board.is_put(&2, &3, &Cell::White));
}

#[test]
fn is_put3() {
    let mut board = load([
        "B  WWBW B",
        "WWWBBBWWB",
        "WWBBWB BW",
        "BB BWBBBW",
        "WBB BBBBW",
        "WWWWWWBWB",
        "WWWBBBWB ",
        "W WB WBBW",
        "W WWBB B ",
    ]);
    let before = board.clone();
    let is_put = board.is_put(&0, &7, &Cell::Black);
    let done = board.put(&0, &7, Cell::Black);
    assert!(!is_put);
    assert!(!done);
    assert!(board == before);
    assert_eq!(board.points.len(), 0);
}

#[test]
fn is_put4() {
    let mut board = load([
        " W BW    ",
        "WWWWB BWB",
        "WWWB WBBW",
        "W WWWBW W",
        "WWWWWW WW",
        "WWWBWBWWW",
        "WWWWWWWBW",
        "WBWWWWB B",
        "W WWWBBBB",
    ]);
    let before = board.clone();
    let is_put = board.is_put(&0, &0, &Cell::Black);
    let done = board.put(&0, &0, Cell::Black);
    assert!(!is_put);
    assert!(!done);
    assert!(board == before);
    assert_eq!(board.points.len(), 0);
}

#[test]
fn new_board_is_empty() {
    let board = Board::new(9);
    assert_eq!(board.size, 9);
    assert_eq!(board.cells.len(), 9);
    for row in board.cells.iter() {
        assert_eq!(row.len(), 9);
        for cell in row.iter() {
            assert_eq!(*cell, Cell::Empty);
        }
    }
    assert!(board.points.is_empty());
    assert!(board.taken.is_empty());
}

#[test]
fn placed_stone_matches_request() {
    let mut board = Board::new(9);
    assert!(board.is_put(&2, &2, &Cell::Black));
    assert!(board.put(&2, &2, Cell::Black));
    for x in 0..9 {
        for y in 0..9 {
            let expected = if (x, y) == (2, 2) { Cell::Black } else { Cell::Empty };
            assert_eq!(board.cells[x][y], expected);
        }
    }
    assert_eq!(board.points, vec![Some((2, 2, Cell::Black))]);
    assert!(!board.is_put(&2, &2, &Cell::Black));
    assert!(!board.is_put(&2, &2, &Cell::White));
}

#[test]
fn legality_does_not_change_the_board() {
    let board = ko_shape();
    let before = board.clone();
    for x in 0..5 {
        for y in 0..5 {
            let first = board.is_put(&x, &y, &Cell::White);
            let second = board.is_put(&x, &y, &Cell::White);
            assert_eq!(first, second);
        }
    }
    assert!(board == before);
    assert_eq!(board.points, before.points);
}

#[test]
fn rejects_what_is_off_the_board_or_no_stone() {
    let mut board = Board::new(9);
    assert!(!board.is_put(&9, &0, &Cell::Black));
    assert!(!board.is_put(&0, &9, &Cell::White));
    assert!(!board.is_put(&0, &0, &Cell::Empty));
    assert!(!board.put(&9, &9, Cell::Black));
    assert!(!board.put(&0, &0, Cell::Empty));
    assert!(board.points.is_empty());
}

#[test]
fn surrounded_stone_is_taken() {
    let mut board = Board::new(9);
    assert!(board.put(&2, &3, Cell::White));
    assert!(board.put(&2, &2, Cell::Black));
    assert!(board.put(&2, &4, Cell::Black));
    assert!(board.put(&1, &3, Cell::Black));
    assert_eq!(
        board.calc_removeable_points(&3, &3, &Cell::Black),
        vec![(2, 3)]
    );
    assert!(board.put(&3, &3, Cell::Black));
    assert_eq!(board.cells[2][3], Cell::Empty);
    assert_eq!(board.cells[3][3], Cell::Black);
    assert!(!board.is_put(&2, &3, &Cell::White));
    assert!(!board.put(&2, &3, Cell::White));
    assert_eq!(board.cells[2][3], Cell::Empty);
}

#[test]
fn group_is_taken_whole_and_once() {
    let mut board = Board::new(5);
    // Two white stones in the corner, one liberty left at (0, 2).
    assert!(board.put(&0, &0, Cell::White));
    assert!(board.put(&0, &1, Cell::White));
    assert!(board.put(&1, &0, Cell::Black));
    assert!(board.put(&1, &1, Cell::Black));
    let mut taken = board.calc_removeable_points(&0, &2, &Cell::Black);
    taken.sort();
    assert_eq!(taken, vec![(0, 0), (0, 1)]);
    assert!(board.put(&0, &2, Cell::Black));
    assert_eq!(board.cells[0][0], Cell::Empty);
    assert_eq!(board.cells[0][1], Cell::Empty);
    assert_eq!(board.cells[0][2], Cell::Black);
    assert_eq!(board.cells[1][0], Cell::Black);
    assert_eq!(board.cells[1][1], Cell::Black);
}

#[test]
fn group_reached_from_two_sides_is_listed_once() {
    let mut board = Board::new(5);
    // White stones at (0, 1), (1, 1), (1, 0) wrap around the corner (0, 0).
    assert!(board.put(&0, &1, Cell::White));
    assert!(board.put(&1, &1, Cell::White));
    assert!(board.put(&1, &0, Cell::White));
    assert!(board.put(&0, &2, Cell::Black));
    assert!(board.put(&1, &2, Cell::Black));
    assert!(board.put(&2, &1, Cell::Black));
    assert!(board.put(&2, &0, Cell::Black));
    let mut taken = board.calc_removeable_points(&0, &0, &Cell::Black);
    taken.sort();
    assert_eq!(taken, vec![(0, 1), (1, 0), (1, 1)]);
    assert!(board.is_put(&0, &0, &Cell::Black));
    assert!(!board.is_put(&0, &0, &Cell::White));
}

#[test]
fn nothing_is_taken_from_a_group_with_a_liberty() {
    let mut board = Board::new(5);
    assert!(board.put(&2, &2, Cell::White));
    assert!(board.put(&2, &1, Cell::Black));
    assert!(board.calc_removeable_points(&2, &3, &Cell::Black).is_empty());
}

#[test]
fn suicide_is_refused() {
    let mut board = Board::new(5);
    assert!(board.put(&0, &1, Cell::Black));
    assert!(board.put(&1, &0, Cell::Black));
    let before = board.clone();
    assert!(!board.is_put(&0, &0, &Cell::White));
    assert!(!board.put(&0, &0, Cell::White));
    assert!(board == before);
    assert_eq!(board.points, before.points);
    assert!(board.is_put(&0, &0, &Cell::Black));
}

#[test]
fn capture_makes_a_move_without_liberties_legal() {
    let mut board = Board::new(5);
    assert!(board.put(&0, &1, Cell::Black));
    assert!(board.put(&1, &0, Cell::Black));
    assert!(board.put(&0, &2, Cell::White));
    assert!(board.put(&1, &1, Cell::White));
    assert!(board.put(&2, &0, Cell::White));
    assert!(board.put(&4, &4, Cell::Black));
    // White at the corner has no liberty of its own but takes both stones.
    assert!(board.is_put(&0, &0, &Cell::White));
    assert!(board.put(&0, &0, Cell::White));
    assert_eq!(board.cells[0][1], Cell::Empty);
    assert_eq!(board.cells[1][0], Cell::Empty);
    assert_eq!(board.cells[0][0], Cell::White);
}

#[test]
fn ko_forbids_retaking_at_once() {
    let mut board = ko_shape();
    assert!(board.is_put(&1, &2, &Cell::Black));
    assert!(board.put(&1, &2, Cell::Black));
    assert_eq!(board.cells[1][1], Cell::Empty);
    let before = board.clone();
    assert!(!board.is_put(&1, &1, &Cell::White));
    assert!(!board.put(&1, &1, Cell::White));
    assert!(board == before);
    assert_eq!(board.points, before.points);
}

#[test]
fn ko_lapses_after_a_pass() {
    let mut board = ko_shape();
    assert!(board.put(&1, &2, Cell::Black));
    assert!(!board.is_put(&1, &1, &Cell::White));
    board.pass();
    assert_eq!(board.points.last(), Some(&None));
    assert!(board.is_put(&1, &1, &Cell::White));
    assert!(board.put(&1, &1, Cell::White));
    assert_eq!(board.cells[1][2], Cell::Empty);
    assert_eq!(board.cells[1][1], Cell::White);
}

#[test]
fn ko_lapses_after_moves_elsewhere() {
    let mut board = ko_shape();
    assert!(board.put(&1, &2, Cell::Black));
    assert!(board.put(&4, &4, Cell::White));
    assert!(board.put(&4, &0, Cell::Black));
    assert!(board.is_put(&1, &1, &Cell::White));
}

#[test]
fn pass_only_adds_to_the_record() {
    let mut board = Board::new(3);
    assert!(board.put(&1, &1, Cell::Black));
    let before = board.clone();
    board.pass();
    assert!(board == before);
    assert_eq!(
        board.points,
        vec![Some((1, 1, Cell::Black)), None]
    );
}

#[test]
fn text_is_loaded_row_by_row() {
    let mut board = Board::new(3);
    board.set_from_str("BW.\n W \nxyB\n".to_string());
    assert_eq!(board.cells[0], vec![Cell::Black, Cell::White, Cell::Empty]);
    assert_eq!(board.cells[1], vec![Cell::Empty, Cell::White, Cell::Empty]);
    assert_eq!(board.cells[2], vec![Cell::Empty, Cell::Empty, Cell::Black]);
    assert!(board.points.is_empty());
}

#[test]
fn short_text_leaves_the_rest() {
    let mut board = Board::new(3);
    assert!(board.put(&2, &2, Cell::White));
    assert!(board.put(&0, &0, Cell::White));
    board.set_from_str("B".to_string());
    assert_eq!(board.cells[0][0], Cell::Black);
    assert_eq!(board.cells[2][2], Cell::White);
    board.set_from_str("   \nW".to_string());
    assert_eq!(board.cells[0][0], Cell::Empty);
    assert_eq!(board.cells[1][0], Cell::White);
    assert_eq!(board.cells[2][2], Cell::White);
}

#[test]
fn line_end_character_is_skipped() {
    let mut board = Board::new(2);
    board.set_from_str("BBBWW".to_string());
    assert_eq!(board.cells[0], vec![Cell::Black, Cell::Black]);
    assert_eq!(board.cells[1], vec![Cell::White, Cell::White]);
}

#[test]
fn boards_compare_by_cells() {
    let mut a = Board::new(3);
    let mut b = Board::new(3);
    assert!(a == b);
    assert!(a.put(&1, &1, Cell::Black));
    assert!(a != b);
    b.set_from_str("   \n B \n".to_string());
    assert!(a == b);
    assert!(Board::new(3) != Board::new(4));
}

#[test]
fn clone_keeps_everything() {
    let mut a = Board::new(4);
    assert!(a.put(&1, &2, Cell::White));
    a.pass();
    let b = a.clone();
    assert_eq!(b.size, 4);
    assert_eq!(b.cells, a.cells);
    assert_eq!(b.points, a.points);
}

#[test]
fn enemy_of_each_colour() {
    assert_eq!(Cell::Black.to_enemy_cell(), Cell::White);
    assert_eq!(Cell::White.to_enemy_cell(), Cell::Black);
}

#[test]
fn cells_as_text() {
    assert_eq!(Cell::Black.to_string(), "B");
    assert_eq!(Cell::White.to_string(), "W");
    assert_eq!(Cell::Empty.to_string(), " ");
}

fn walk(x: usize, y: usize, board: &Board) -> Vec<(usize, usize)> {
    let mut it = BoardDirectionIter::new(x, y, board);
    let mut out = Vec::new();
    while let Some(p) = it.next() {
        out.push(p);
    }
    assert_eq!(it.next(), None);
    out
}

#[test]
fn neighbours_in_order() {
    let board = Board::new(9);
    assert_eq!(walk(4, 4, &board), vec![(3, 4), (5, 4), (4, 3), (4, 5)]);
    assert_eq!(walk(0, 0, &board), vec![(1, 0), (0, 1)]);
    assert_eq!(walk(8, 8, &board), vec![(7, 8), (8, 7)]);
    assert_eq!(walk(0, 8, &board), vec![(1, 8), (0, 7)]);
    assert_eq!(walk(0, 0, &Board::new(1)), vec![]);
}

#[test]
fn lone_stone_claims_the_board() {
    let mut board = Board::new(2);
    assert!(board.put(&0, &0, Cell::Black));
    assert_eq!(count_area(&board.cells), (4, 0));
    assert_eq!(board.calc_winner(), Winner::Black);
}

#[test]
fn start_point_is_counted() {
    let mut board = Board::new(1);
    board.set_from_str("B".to_string());
    assert_eq!(count_area(&board.cells), (1, 0));
    assert_eq!(board.calc_winner(), Winner::Black);
}

#[test]
fn board_without_a_stone_is_a_draw() {
    assert_eq!(count_area(&Board::new(9).cells), (0, 0));
    assert_eq!(Board::new(9).calc_winner(), Winner::Draw);
    assert_eq!(Board::new(1).calc_winner(), Winner::Draw);
    assert_eq!(Board::new(0).calc_winner(), Winner::Draw);
}

#[test]
fn count_starts_for_the_first_stone_met() {
    let mut board = Board::new(3);
    assert!(board.put(&0, &1, Cell::White));
    assert_eq!(count_area(&board.cells), (0, 9));
    assert_eq!(board.calc_winner(), Winner::White);
    // Corner and its neighbour are empty: the first stone read is black.
    let mut board = Board::new(3);
    board.set_from_str("   \n  B\nW  \n".to_string());
    // Black claims every point it reaches over empty points: all but (2, 0).
    assert_eq!(count_area(&board.cells), (8, 1));
    assert_eq!(board.calc_winner(), Winner::Black);
}

#[test]
fn split_board_is_counted_for_both() {
    // Black holds the left column, white the two right columns.
    let mut board = Board::new(3);
    board.set_from_str("BWW\nBWW\nBWW\n".to_string());
    assert_eq!(count_area(&board.cells), (3, 6));
    assert_eq!(board.calc_winner(), Winner::White);
    let mut mirror = Board::new(3);
    mirror.set_from_str("WBB\nWBB\nWBB\n".to_string());
    assert_eq!(count_area(&mirror.cells), (6, 3));
    assert_eq!(mirror.calc_winner(), Winner::Black);
}

#[test]
fn every_stone_counts_for_its_colour() {
    let mut board = Board::new(3);
    board.set_from_str("WBW\nWBW\nBBW\n".to_string());
    assert_eq!(count_area(&board.cells), (4, 5));
    assert_eq!(board.calc_winner(), Winner::White);
}

#[test]
fn equal_counts_are_a_draw() {
    let mut board = Board::new(2);
    board.set_from_str("BW\nBW\n".to_string());
    assert_eq!(count_area(&board.cells), (2, 2));
    assert_eq!(board.calc_winner(), Winner::Draw);
    let mut mirror = Board::new(2);
    mirror.set_from_str("WB\nWB\n".to_string());
    assert_eq!(mirror.calc_winner(), Winner::Draw);
}

#[test]
fn capture_of_a_stone_that_took_nothing_is_no_ko() {
    let mut board = Board::new(9);
    assert!(board.put(&1, &2, Cell::Black));
    assert!(board.put(&3, &2, Cell::Black));
    assert!(board.put(&2, &1, Cell::Black));
    assert!(board.put(&2, &2, Cell::White));
    assert!(board.taken.is_empty());
    assert!(board.is_put(&2, &3, &Cell::Black));
    assert!(board.put(&2, &3, Cell::Black));
    assert_eq!(board.cells[2][2], Cell::Empty);
    assert_eq!(board.cells[2][3], Cell::Black);
    assert_eq!(board.taken, vec![(2, 2)]);
    // White may not retake at once: its stone would have no liberty.
    assert!(!board.is_put(&2, &2, &Cell::White));
}

#[test]
fn board_remembers_what_the_last_move_took() {
    let mut board = ko_shape();
    assert!(board.taken.is_empty());
    assert!(board.put(&1, &2, Cell::Black));
    assert_eq!(board.taken, vec![(1, 1)]);
    let copy = board.clone();
    assert_eq!(copy.taken, vec![(1, 1)]);
    assert!(!board.put(&1, &1, Cell::White));
    assert_eq!(board.taken, vec![(1, 1)]);
    board.pass();
    assert!(board.taken.is_empty());
    assert!(board.put(&1, &1, Cell::White));
    assert_eq!(board.taken, vec![(1, 2)]);
    assert!(board.put(&4, &4, Cell::Black));
    assert!(board.taken.is_empty());
}

#[test]
fn stone_played_into_the_shape_may_be_taken() {
    // White plays into the mouth at (1, 1) without taking anything; black
    // takes it with a single stone whose other neighbours are white.
    let mut board = Board::new(5);
    assert!(board.put(&0, &1, Cell::Black));
    assert!(board.put(&1, &0, Cell::Black));
    assert!(board.put(&2, &1, Cell::Black));
    assert!(board.put(&0, &2, Cell::White));
    assert!(board.put(&1, &3, Cell::White));
    assert!(board.put(&2, &2, Cell::White));
    assert!(board.put(&1, &1, Cell::White));
    assert!(board.is_put(&1, &2, &Cell::Black));
    assert!(board.put(&1, &2, Cell::Black));
    assert_eq!(board.cells[1][1], Cell::Empty);
    // Now the retaking is a ko.
    assert!(!board.is_put(&1, &1, &Cell::White));
}

#[test]
fn board_as_text() {
    let mut board = Board::new(3);
    assert_eq!(board.to_string(), "   \n   \n   \n");
    assert!(board.put(&0, &1, Cell::Black));
    assert!(board.put(&2, &2, Cell::White));
    assert_eq!(board.to_string(), " B \n   \n  W\n");
    assert_eq!(Board::new(0).to_string(), "");
    let mut loaded = Board::new(3);
    loaded.set_from_str(board.to_string());
    assert!(loaded == board);
    assert_eq!(Cell::Black.as_str(), "B");
    assert_eq!(Cell::White.as_str(), "W");
    assert_eq!(Cell::Empty.as_str(), " ");
}

#[test]
fn scoring_is_repeatable_and_symmetric() {
    let rows = [
        "B  WWBW B",
        "WWWBBBWWB",
        "WWBBWB BW",
        "BB BWBBBW",
        "WBB BBBBW",
        "WWWWWWBWB",
        "WWWBBBWB ",
        "W WB WBBW",
        "W WWBB B ",
    ];
    let board = load(rows);
    let first = board.calc_winner();
    assert_eq!(board.calc_winner(), first);
    let mut swapped = Board::new(9);
    let mut text = String::new();
    for row in rows.iter() {
        for ch in row.chars() {
            text.push(match ch {
                'B' => 'W',
                'W' => 'B',
                other => other,
            });
        }
        text.push('\n');
    }
    swapped.set_from_str(text);
    let expected = match first {
        Winner::Black => Winner::White,
        Winner::White => Winner::Black,
        Winner::Draw => Winner::Draw,
    };
    assert_eq!(swapped.calc_winner(), expected);
}

#[test]
fn winner_names() {
    assert_eq!(Winner::Black.to_string(), "Black");
    assert_eq!(Winner::White.to_string(), "White");
    assert_eq!(Winner::Draw.to_string(), "None");
}
