use igo::board::{Board, Cell};
use igo::game::{Game, PutFailed, Step, Turn, Winner, MAX_FAILURES, MAX_MOVES};
use igo::players::monte_carlo_ai::{self, live_points, MonteCarloAi};
use igo::players::random_ai::{self, RandomAI};
use igo::players::{legal_points, Player};
use igo::search::{settle, SearchTree, Selector};

/// Names the same child every time.
struct Fixed(usize);

impl Selector for Fixed {
    fn select(&mut self, _wins: &Vec<i32>, _visits: &Vec<i32>) -> usize {
        self.0
    }
}

/// Names the children in turn and remembers what it was shown last.
struct Rotating {
    next: usize,
    seen: Vec<(Vec<i32>, Vec<i32>)>,
}

impl Selector for Rotating {
    fn select(&mut self, wins: &Vec<i32>, visits: &Vec<i32>) -> usize {
        self.seen.push((wins.clone(), visits.clone()));
        self.next += 1;
        self.next % wins.len()
    }
}

/// Answers with the same point whatever the board.
struct Stubborn(Option<(usize, usize)>);

impl Player for Stubborn {
    fn put(&mut self, _board: &Board, _turn: &Turn) -> Option<(usize, usize)> {
        self.0
    }
}

fn board_from(size: usize, text: &str) -> Board {
    let mut board = Board::new(size);
    board.set_from_str(text.to_string());
    board
}

fn all_points(size: usize) -> Vec<(usize, usize)> {
    let mut out = Vec::new();
    for x in 0..size {
        for y in 0..size {
            out.push((x, y));
        }
    }
    out
}

#[test]
fn every_point_of_an_empty_board_is_legal() {
    let board = Board::new(3);
    assert_eq!(legal_points(&board, &Turn::Black), all_points(3));
    assert_eq!(random_ai::calc_puttables(&board, &Turn::White), all_points(3));
    assert_eq!(monte_carlo_ai::calc_puttables(&board, &Turn::Black), all_points(3));
}

#[test]
fn legal_points_leave_out_stones_and_suicide() {
    // Black stands at (0, 1) and (1, 0): the corner is suicide for white.
    let board = board_from(3, " B \nB  \n   \n");
    assert_eq!(
        random_ai::calc_puttables(&board, &Turn::White),
        vec![(0, 2), (1, 1), (1, 2), (2, 0), (2, 1), (2, 2)]
    );
    assert_eq!(
        monte_carlo_ai::calc_puttables(&board, &Turn::Black),
        vec![(0, 0), (0, 2), (1, 1), (1, 2), (2, 0), (2, 1), (2, 2)]
    );
}

#[test]
fn random_player_counts_liberties() {
    let board = Board::new(9);
    assert!(random_ai::is_live(&board, &4, &4, &Turn::Black));
    assert!(random_ai::is_live(&board, &0, &0, &Turn::Black));
    // One neighbour of the corner is white: one liberty is left.
    let board = board_from(3, " W \n   \n   \n");
    assert!(!random_ai::is_live(&board, &0, &0, &Turn::Black));
    // Joined to a stone with liberties of its own.
    let board = board_from(3, " W \nB  \n   \n");
    assert!(random_ai::is_live(&board, &0, &0, &Turn::Black));
    // Taking the white stone frees a second liberty.
    let board = board_from(3, " WB\n B \n   \n");
    assert!(random_ai::is_live(&board, &0, &0, &Turn::Black));
}

#[test]
fn random_player_chooses_a_playable_move() {
    // White may play everywhere but the corner (suicide); at (0, 2) and
    // (2, 0) its stone would keep two liberties, as everywhere else.
    let board = board_from(3, " B \nB  \n   \n");
    let mut player = RandomAI::new();
    let mut seen = Vec::new();
    for _ in 0..200 {
        let m = player.put(&board, &Turn::White).unwrap();
        assert!(board.is_put(&m.0, &m.1, &Cell::White));
        assert!(random_ai::is_live(&board, &m.0, &m.1, &Turn::White));
        if !seen.contains(&m) {
            seen.push(m);
        }
    }
    assert!(seen.len() > 1);
}

#[test]
fn random_player_passes_without_a_playable_move() {
    let mut player = RandomAI::new();
    assert_eq!(player.put(&Board::new(1), &Turn::Black), None);
    assert_eq!(player.put(&Board::new(0), &Turn::Black), None);
    // Every empty point has one liberty at most once a stone stands there.
    let board = board_from(2, "B \n B\n");
    assert_eq!(player.put(&board, &Turn::Black), None);
}

#[test]
fn open_points_are_worth_playing() {
    let board = Board::new(5);
    for (x, y) in all_points(5) {
        if (x, y) != (0, 0) {
            assert!(monte_carlo_ai::is_live(&board, &x, &y, &Turn::Black));
        }
    }
    let board = board_from(5, "     \n  B  \n B W \n  B  \n     \n");
    assert!(monte_carlo_ai::is_live(&board, &2, &2, &Turn::Black));
}

#[test]
fn own_eye_is_left_alone() {
    let board = board_from(5, "     \n  B  \n B B \n  B  \n     \n");
    assert!(!monte_carlo_ai::is_live(&board, &2, &2, &Turn::Black));
    // For white the point is not walled in by white stones.
    assert!(monte_carlo_ai::is_live(&board, &2, &2, &Turn::White));
}

#[test]
fn undermined_eye_is_played() {
    // White holds (1, 1), (3, 1) and (2, 0).
    let board = board_from(5, "     \n WB  \nWB B \n WB  \n     \n");
    assert!(monte_carlo_ai::is_live(&board, &2, &2, &Turn::Black));
    // White holds (1, 1), (1, 3) and (0, 2).
    let board = board_from(5, "  W  \n WBW \n B B \n  B  \n     \n");
    assert!(monte_carlo_ai::is_live(&board, &2, &2, &Turn::Black));
    // White holds (3, 3), (1, 3) and (2, 4).
    let board = board_from(5, "     \n  BW \n B BW\n  BW \n     \n");
    assert!(monte_carlo_ai::is_live(&board, &2, &2, &Turn::Black));
    // White holds (3, 3), (3, 1) and (4, 2).
    let board = board_from(5, "     \n  B  \n B B \n WBW \n  W  \n");
    assert!(monte_carlo_ai::is_live(&board, &2, &2, &Turn::Black));
    // One diagonal alone is not enough.
    let board = board_from(5, "     \n WB  \n B B \n  B  \n     \n");
    assert!(!monte_carlo_ai::is_live(&board, &2, &2, &Turn::Black));
    // Two diagonals without the point between them are not enough.
    let board = board_from(5, "     \n WB  \n B B \n WB  \n     \n");
    assert!(!monte_carlo_ai::is_live(&board, &2, &2, &Turn::Black));
}

#[test]
fn the_edge_undermines_an_eye() {
    let board = board_from(3, " B \nB  \n   \n");
    assert!(monte_carlo_ai::is_live(&board, &0, &0, &Turn::Black));
    assert!(monte_carlo_ai::is_live(&Board::new(1), &0, &0, &Turn::Black));
}

#[test]
fn search_looks_at_legal_points_worth_playing() {
    let board = board_from(5, "     \n  B  \n B B \n  B  \n     \n");
    let mut expected = all_points(5);
    expected.retain(|p| ![(1, 2), (2, 1), (2, 2), (2, 3), (3, 2)].contains(p));
    assert_eq!(live_points(&board, &Turn::Black), expected);
    expected.push((2, 2));
    expected.sort();
    // White may not play into the middle: suicide.
    expected.retain(|p| *p != (2, 2));
    assert_eq!(live_points(&board, &Turn::White), expected);
}

#[test]
fn answers_out_of_range_name_the_first_child() {
    assert_eq!(settle(2, 5), 2);
    assert_eq!(settle(4, 5), 4);
    assert_eq!(settle(5, 5), 0);
    assert_eq!(settle(usize::MAX, 3), 0);
    assert_eq!(settle(0, 0), 0);
}

#[test]
fn planting_adds_an_unopened_node() {
    let mut tree = SearchTree::new();
    assert!(tree.nodes.is_empty());
    let mut board = Board::new(3);
    assert!(board.put(&1, &1, Cell::Black));
    let idx = tree.plant(&board, Turn::White, Some((1, 1)));
    assert_eq!(idx, 0);
    assert_eq!(tree.current, 0);
    assert_eq!(tree.nodes.len(), 1);
    assert!(tree.nodes[0].board == board);
    assert_eq!(tree.nodes[0].board.points, board.points);
    assert_eq!(tree.nodes[0].board.taken, board.taken);
    assert_eq!(tree.nodes[0].turn, Turn::White);
    assert_eq!(tree.nodes[0].point, Some((1, 1)));
    assert_eq!(tree.nodes[0].win_count, 0);
    assert_eq!(tree.nodes[0].simulate_num, 0);
    assert!(tree.nodes[0].nodes.is_none());
    assert!(!tree.fan_known(0));
    assert_eq!(tree.fan(0), 0);
}

#[test]
fn opening_gives_a_child_for_every_move() {
    let board = board_from(3, " B \nB  \n   \n");
    let mut tree = SearchTree::new();
    tree.plant(&board, Turn::White, None);
    tree.expand(0);
    let moves = live_points(&board, &Turn::White);
    assert_eq!(moves, vec![(0, 2), (1, 1), (1, 2), (2, 0), (2, 1), (2, 2)]);
    assert_eq!(tree.nodes.len(), 1 + moves.len());
    assert_eq!(tree.current, 0);
    assert!(tree.fan_known(0));
    assert_eq!(tree.fan(0), moves.len());
    assert_eq!(tree.nodes[0].nodes, Some(vec![1, 2, 3, 4, 5, 6]));
    for (k, m) in moves.iter().enumerate() {
        let c = tree.kid(0, k);
        assert_eq!(c, 1 + k);
        let child = &tree.nodes[c];
        let mut after = board.clone();
        assert!(after.put(&m.0, &m.1, Cell::White));
        assert!(child.board == after);
        assert_eq!(child.board.points, after.points);
        assert_eq!(child.board.taken, after.taken);
        assert_eq!(child.turn, Turn::Black);
        assert_eq!(child.point, Some(*m));
        assert_eq!(child.win_count, 0);
        assert_eq!(child.simulate_num, 0);
        assert!(child.nodes.is_none());
    }
    assert_eq!(tree.tallies(0), (vec![0; 6], vec![0; 6]));
}

#[test]
fn a_node_without_moves_gets_no_child() {
    let mut tree = SearchTree::new();
    tree.plant(&board_from(2, "BW\nWB\n"), Turn::Black, None);
    tree.expand(0);
    assert_eq!(tree.nodes.len(), 1);
    assert_eq!(tree.nodes[0].nodes, Some(vec![]));
}

#[test]
fn a_new_node_is_judged_by_area() {
    let mut tree = SearchTree::new();
    tree.plant(&board_from(3, "BWW\nBWW\nBWW\n"), Turn::Black, None);
    tree.plant(&board_from(2, "BW\nBW\n"), Turn::Black, None);
    tree.plant(&Board::new(3), Turn::White, None);
    assert_eq!(tree.verdict(0), Winner::White);
    assert_eq!(tree.verdict(1), Winner::Draw);
    // Nothing is claimed on an empty board.
    assert_eq!(tree.verdict(2), Winner::Draw);
}

#[test]
fn a_node_seen_before_keeps_its_verdict() {
    let mut tree = SearchTree::new();
    tree.plant(&board_from(3, "BWW\nBWW\nBWW\n"), Turn::Black, None);
    tree.plant(&board_from(3, "BWW\nBWW\nBWW\n"), Turn::White, None);
    tree.credit(&vec![0], Winner::Black);
    assert_eq!(tree.verdict(0), Winner::Black);
    tree.credit(&vec![1], Winner::Black);
    // White is to move at node 1 and has won nothing there.
    assert_eq!(tree.verdict(1), Winner::Black);
    tree.credit(&vec![1], Winner::White);
    assert_eq!(tree.verdict(1), Winner::White);
}

#[test]
fn credit_goes_to_the_nodes_of_the_walk() {
    let mut tree = SearchTree::new();
    tree.plant(&Board::new(2), Turn::Black, None);
    tree.expand(0);
    assert_eq!(tree.nodes.len(), 5);
    tree.credit(&vec![0, 2], Winner::Black);
    tree.credit(&vec![0, 3], Winner::White);
    tree.credit(&vec![0, 2], Winner::Draw);
    let stats: Vec<(i32, i32)> = tree
        .nodes
        .iter()
        .map(|n| (n.win_count, n.simulate_num))
        .collect();
    // Black is to move at node 0, white at the children.
    assert_eq!(stats, vec![(1, 3), (0, 0), (0, 2), (1, 1), (0, 0)]);
    assert_eq!(tree.tallies(0), (vec![0, 0, 1, 0], vec![0, 2, 1, 0]));
    tree.credit(&vec![], Winner::Black);
    assert_eq!(tree.nodes[0].simulate_num, 3);
    assert_eq!(tree.current, 0);
}

#[test]
fn full_count_is_left_alone() {
    let mut tree = SearchTree::new();
    tree.plant(&Board::new(2), Turn::Black, None);
    tree.nodes[0].simulate_num = i32::MAX;
    tree.nodes[0].win_count = 7;
    tree.credit(&vec![0], Winner::Black);
    assert_eq!(tree.nodes[0].simulate_num, i32::MAX);
    assert_eq!(tree.nodes[0].win_count, 7);
}

#[test]
fn playout_walks_down_and_credits_the_walk() {
    let mut tree = SearchTree::new();
    tree.plant(&Board::new(2), Turn::Black, None);
    let mut selector = Fixed(0);
    let (winner, path) = tree.playout(0, 50, &mut selector);
    assert_eq!(path[0], 0);
    assert!(path.len() >= 2 && path.len() <= 51);
    assert_eq!(tree.current, 0);
    for w in path.windows(2) {
        assert!(w[0] < w[1]);
        assert!(tree.nodes[w[0]].nodes.as_ref().unwrap().contains(&w[1]));
        // The selector named the first child.
        assert_eq!(tree.nodes[w[0]].nodes.as_ref().unwrap()[0], w[1]);
    }
    let last = *path.last().unwrap();
    assert!(tree.nodes[last].nodes.as_ref().unwrap().is_empty() || path.len() == 51);
    for (j, node) in tree.nodes.iter().enumerate() {
        if path.contains(&j) {
            assert_eq!(node.simulate_num, 1);
            let won = match node.turn {
                Turn::Black => winner == Winner::Black,
                Turn::White => winner == Winner::White,
            };
            assert_eq!(node.win_count, if won { 1 } else { 0 });
        } else {
            assert_eq!(node.simulate_num, 0);
            assert_eq!(node.win_count, 0);
        }
    }
}

#[test]
fn playout_stops_at_its_cap() {
    let mut tree = SearchTree::new();
    tree.plant(&Board::new(3), Turn::Black, None);
    let mut selector = Fixed(usize::MAX);
    let (_, path) = tree.playout(0, 0, &mut selector);
    assert_eq!(path, vec![0]);
    assert_eq!(tree.nodes.len(), 10);
    assert_eq!(tree.nodes[0].simulate_num, 1);
    let (_, path) = tree.playout(0, 2, &mut selector);
    assert_eq!(path.len(), 3);
    assert_eq!(path[1], 1);
    assert_eq!(tree.nodes[0].simulate_num, 2);
    assert_eq!(tree.nodes[1].simulate_num, 1);
}

#[test]
fn selector_is_shown_the_children_in_order() {
    let mut tree = SearchTree::new();
    tree.plant(&Board::new(2), Turn::Black, None);
    tree.expand(0);
    tree.credit(&vec![0, 2], Winner::White);
    tree.credit(&vec![0, 4], Winner::Black);
    let mut selector = Rotating {
        next: 0,
        seen: Vec::new(),
    };
    let (_, path) = tree.playout(0, 1, &mut selector);
    assert_eq!(selector.seen[0], (vec![0, 1, 0, 0], vec![0, 1, 0, 1]));
    // The first answer names the second child.
    assert_eq!(path, vec![0, 2]);
}

#[test]
fn reply_is_the_child_that_holds_the_stone() {
    let mut tree = SearchTree::new();
    tree.plant(&Board::new(3), Turn::Black, None);
    tree.expand(0);
    assert_eq!(tree.find_reply((1, 1, Cell::Black), Turn::White), Some(5));
    assert_eq!(tree.find_reply((0, 0, Cell::Black), Turn::White), Some(1));
    // No child holds a white stone, none has black to move, none is that wide.
    assert_eq!(tree.find_reply((1, 1, Cell::White), Turn::White), None);
    assert_eq!(tree.find_reply((1, 1, Cell::Black), Turn::Black), None);
    assert_eq!(tree.find_reply((3, 0, Cell::Black), Turn::White), None);
}

#[test]
fn only_move_is_chosen() {
    // Black's one legal move is (1, 0), which takes both white stones.
    let board = board_from(2, "WB\n W\n");
    assert_eq!(legal_points(&board, &Turn::Black), vec![(1, 0)]);
    assert_eq!(
        board.calc_removeable_points(&1, &0, &Cell::Black).len(),
        2
    );
    for budget in [1, 2, 10, 100] {
        for answer in [0, 1, 7, usize::MAX] {
            let mut player = MonteCarloAi::new(budget, Fixed(answer));
            assert_eq!(player.put(&board, &Turn::Black), Some((1, 0)));
            assert!(player.playouts() >= 1);
            assert_eq!(player.last_steps(), budget as i64 + 1);
            assert!(player.playouts() as i64 <= player.last_steps());
            assert_eq!(player.tree().nodes[0].simulate_num, player.playouts());
        }
    }
    let mut player = MonteCarloAi::new(
        30,
        Rotating {
            next: 0,
            seen: Vec::new(),
        },
    );
    assert_eq!(player.put(&board, &Turn::Black), Some((1, 0)));
}

#[test]
fn search_player_plays_a_legal_move() {
    let board = Board::new(3);
    let mut player = MonteCarloAi::new(20, Fixed(4));
    assert!(player.tree().nodes.is_empty());
    let m = player.put(&board, &Turn::Black).unwrap();
    assert_eq!(m, (1, 1));
    let tree = player.tree();
    assert!(tree.nodes[0].board == board);
    assert_eq!(tree.nodes[0].turn, Turn::Black);
    assert_eq!(tree.nodes[tree.current].point, Some(m));
    assert_eq!(tree.nodes[tree.current].turn, Turn::White);
    assert!(tree.nodes[0].nodes.as_ref().unwrap().contains(&tree.current));
    // The playouts stop once their steps exceed the budget.
    assert!(tree.nodes[0].simulate_num >= 1);
    assert_eq!(tree.nodes[0].simulate_num, player.playouts());
}

#[test]
fn search_player_passes_without_a_move() {
    let mut player = MonteCarloAi::new(5, Fixed(0));
    assert_eq!(player.put(&board_from(2, "BW\nWB\n"), &Turn::Black), None);
    let mut player = MonteCarloAi::new(-3, Fixed(0));
    assert_eq!(player.last_steps(), 0);
    assert_eq!(player.put(&Board::new(0), &Turn::White), None);
    assert_eq!(player.playouts(), 1);
    assert_eq!(player.last_steps(), 1);
}

#[test]
fn search_player_takes_up_the_tree_at_the_reply() {
    let mut board = Board::new(3);
    let mut player = MonteCarloAi::new(40, Fixed(0));
    let first = player.put(&board, &Turn::Black).unwrap();
    assert_eq!(first, (0, 0));
    assert!(board.put(&first.0, &first.1, Cell::Black));
    let ours = player.tree().current;
    let known = player.tree().nodes.len();
    // The first child of our move was opened by the playouts: white at (0, 1).
    let replies = player.tree().nodes[ours].nodes.clone().unwrap();
    assert!(board.put(&0, &1, Cell::White));
    let second = player.put(&board, &Turn::Black).unwrap();
    let tree = player.tree();
    let seat = replies[0];
    assert!(seat < known);
    assert_eq!(tree.nodes[seat].point, Some((0, 1)));
    assert!(tree.nodes[seat].board == board);
    assert!(tree.nodes[seat].nodes.as_ref().unwrap().contains(&tree.current));
    assert_eq!(tree.nodes[tree.current].point, Some(second));
    assert!(board.is_put(&second.0, &second.1, &Cell::Black));
}

#[test]
fn search_player_tolerates_an_unexplored_reply() {
    let mut board = Board::new(3);
    let mut player = MonteCarloAi::new(0, Fixed(0));
    let first = player.put(&board, &Turn::Black).unwrap();
    assert!(board.put(&first.0, &first.1, Cell::Black));
    // With no budget our move was never opened: the reply is new to the tree.
    assert!(player.tree().nodes[player.tree().current].nodes.is_none());
    let known = player.tree().nodes.len();
    assert!(board.put(&2, &2, Cell::White));
    let second = player.put(&board, &Turn::Black).unwrap();
    let tree = player.tree();
    assert!(tree.nodes[known].board == board);
    assert_eq!(tree.nodes[known].board.points, board.points);
    assert_eq!(tree.nodes[known].point, Some((2, 2)));
    assert_eq!(tree.nodes[known].turn, Turn::Black);
    assert!(tree.nodes[known].nodes.as_ref().unwrap().contains(&tree.current));
    assert!(board.is_put(&second.0, &second.1, &Cell::Black));
}

#[test]
fn search_player_passes_after_a_pass() {
    let mut board = Board::new(3);
    let mut player = MonteCarloAi::new(40, Fixed(0));
    let first = player.put(&board, &Turn::Black).unwrap();
    assert!(board.put(&first.0, &first.1, Cell::Black));
    board.pass();
    let nodes = player.tree().nodes.len();
    let current = player.tree().current;
    let made = player.playouts();
    assert!(player.tree().fan_known(current));
    assert_eq!(player.put(&board, &Turn::Black), None);
    assert_eq!(player.playouts(), made);
    assert_eq!(player.tree().nodes.len(), nodes);
    assert_eq!(player.tree().current, current);
}

#[test]
fn game_with_the_most_moves_asks_nobody() {
    let mut game = Game::new(Stubborn(Some((9, 9))), Stubborn(Some((9, 9))));
    assert_eq!(game.step(Some((0, 0))), Step::Continue);
    game.moves = MAX_MOVES;
    let before = game.board.clone();
    assert_eq!(game.start(), Ok(Winner::Black));
    assert!(game.board == before);
    assert_eq!(game.board.points, before.points);
    assert_eq!(game.turn, Turn::White);
    assert_eq!(game.failures, 0);
}

#[test]
fn game_starts_empty_with_black_to_move() {
    let game = Game::new(Stubborn(None), Stubborn(None));
    assert_eq!(game.board.size, 9);
    assert!(game.board == Board::new(9));
    assert!(game.board.points.is_empty());
    assert_eq!(game.turn, Turn::Black);
    assert_eq!(game.moves, 0);
    assert_eq!(game.failures, 0);
    assert_eq!(MAX_MOVES, 120);
    assert_eq!(MAX_FAILURES, 3);
}

#[test]
fn legal_answer_is_played() {
    let mut game = Game::new(Stubborn(None), Stubborn(None));
    assert_eq!(game.step(Some((2, 2))), Step::Continue);
    assert_eq!(game.board.cells[2][2], Cell::Black);
    assert_eq!(game.board.points, vec![Some((2, 2, Cell::Black))]);
    assert_eq!(game.turn, Turn::White);
    assert_eq!(game.moves, 1);
    assert_eq!(game.step(Some((2, 3))), Step::Continue);
    assert_eq!(game.board.cells[2][3], Cell::White);
    assert_eq!(game.turn, Turn::Black);
    assert_eq!(game.moves, 2);
}

#[test]
fn third_illegal_answer_in_a_row_ends_the_game() {
    let mut game = Game::new(Stubborn(None), Stubborn(None));
    assert_eq!(game.step(Some((2, 2))), Step::Continue);
    let before = game.board.clone();
    assert_eq!(game.step(Some((2, 2))), Step::Retry);
    assert_eq!(game.step(Some((9, 9))), Step::Retry);
    assert_eq!(game.failures, 2);
    assert_eq!(game.turn, Turn::White);
    assert_eq!(game.moves, 1);
    assert!(game.board == before);
    assert_eq!(game.board.points, before.points);
    assert_eq!(game.step(Some((2, 2))), Step::Aborted);
    assert_eq!(game.failures, 3);
    assert!(game.board == before);
}

#[test]
fn a_legal_answer_forgives_the_illegal_ones() {
    let mut game = Game::new(Stubborn(None), Stubborn(None));
    assert_eq!(game.step(Some((9, 0))), Step::Retry);
    assert_eq!(game.step(Some((9, 0))), Step::Retry);
    assert_eq!(game.step(Some((0, 0))), Step::Continue);
    assert_eq!(game.failures, 0);
    assert_eq!(game.step(Some((0, 0))), Step::Retry);
    assert_eq!(game.step(Some((0, 0))), Step::Retry);
    assert_eq!(game.step(None), Step::Continue);
    assert_eq!(game.failures, 0);
    assert_eq!(game.turn, Turn::Black);
}

#[test]
fn two_passes_in_a_row_end_the_game() {
    let mut game = Game::new(Stubborn(None), Stubborn(None));
    assert_eq!(game.step(None), Step::Continue);
    assert_eq!(game.turn, Turn::White);
    assert_eq!(game.step(Some((4, 4))), Step::Continue);
    // The pass before the move does not count.
    assert_eq!(game.step(None), Step::Continue);
    assert_eq!(game.moves, 3);
    assert_eq!(game.step(None), Step::Finished);
    assert_eq!(game.moves, 3);
    assert_eq!(
        game.board.points,
        vec![None, Some((4, 4, Cell::White)), None, None]
    );
}

#[test]
fn players_that_pass_draw_on_the_empty_board() {
    let mut game = Game::new(Stubborn(None), Stubborn(None));
    assert_eq!(game.start(), Ok(Winner::Draw));
    assert_eq!(game.board.points, vec![None, None]);
    assert_eq!(game.winner(), Winner::Draw);
}

#[test]
fn a_player_that_keeps_failing_ends_the_game() {
    let mut game = Game::new(Stubborn(Some((0, 0))), Stubborn(Some((0, 0))));
    assert_eq!(game.start(), Err(PutFailed { turn: Turn::White }));
    assert_eq!(game.board.points, vec![Some((0, 0, Cell::Black))]);
    assert_eq!(game.failures, 3);
    let mut game = Game::new(Stubborn(Some((9, 9))), Stubborn(None));
    assert_eq!(game.start(), Err(PutFailed { turn: Turn::Black }));
    assert!(game.board.points.is_empty());
}

#[test]
fn a_game_between_the_players_comes_to_an_end() {
    let mut game = Game::new(MonteCarloAi::new(30, Fixed(1)), RandomAI::new());
    let result = game.start();
    assert!(game.moves <= MAX_MOVES);
    assert_eq!(game.board.size, 9);
    let closing_pass = if result.is_ok() && game.moves < MAX_MOVES { 1 } else { 0 };
    assert_eq!(game.board.points.len(), game.moves + closing_pass);
    // Every stone of the record was legal where it was placed.
    let mut replay = Board::new(9);
    for record in game.board.points.iter() {
        match record {
            Some((x, y, cell)) => assert!(replay.put(x, y, *cell)),
            None => replay.pass(),
        }
    }
    assert!(replay == game.board);
    match result {
        Ok(winner) => assert_eq!(winner, game.winner()),
        Err(failed) => assert_eq!(failed.turn, game.turn),
    }
}

#[test]
fn a_game_is_continued_from_where_it_stands() {
    let mut game = Game::new(Stubborn(None), Stubborn(Some((0, 0))));
    assert_eq!(game.step(Some((4, 4))), Step::Continue);
    assert_eq!(game.step(Some((4, 5))), Step::Continue);
    // Black passes, white plays (0, 0), black passes, white fails three times.
    assert_eq!(game.start(), Err(PutFailed { turn: Turn::White }));
    assert_eq!(
        game.board.points,
        vec![
            Some((4, 4, Cell::Black)),
            Some((4, 5, Cell::White)),
            None,
            Some((0, 0, Cell::White)),
            None,
        ]
    );
    assert_eq!(game.moves, 5);
    assert_eq!(game.failures, 3);
}

#[test]
fn turns_alternate() {
    assert_eq!(Turn::Black.get_next_turn(), Turn::White);
    assert_eq!(Turn::White.get_next_turn(), Turn::Black);
    assert_eq!(Turn::Black.to_cell(), Cell::Black);
    assert_eq!(Turn::White.to_cell(), Cell::White);
    assert_eq!(Turn::Black.to_winner(), Winner::Black);
    assert_eq!(Turn::White.to_winner(), Winner::White);
}
