use uttt_rs::BitBoard;
use uttt_rs::Board;
use uttt_rs::MctsEngine;
use uttt_rs::Move;
use uttt_rs::Node;
use uttt_rs::SubBoard;
use uttt_rs::WinBoard;
use uttt_rs::Winner;

#[test]
fn node_new_generates_all_moves() {
    let n = Node::new(None, Board::new(), None);
    assert_eq!(n.unexpanded.len(), 81);
    assert_eq!(n.expanded.len(), 0);
    assert_eq!(n.visits, 0);
    assert_eq!(n.wins, 0);
    assert!(!n.is_terminal);
    assert!(!n.is_fully_expanded());
    assert!(n.parent.is_none());
    assert!(n.previous_move.is_none());
}

#[test]
fn node_new_shuffles_without_losing_moves() {
    let board = Board::new().advance_state(Move::new(4, 4)).unwrap();
    let n = Node::new(None, board, None);
    let mut shuffled: Vec<(u32, u32)> = n.unexpanded.iter().map(|m| (m.major, m.minor)).collect();
    let mut generated: Vec<(u32, u32)> =
        board.generate_moves().iter().map(|m| (m.major, m.minor)).collect();
    shuffled.sort();
    generated.sort();
    // The permuted order may differ, but the multiset of moves may not.
    assert_eq!(shuffled, generated);
}

#[test]
fn rollout_from_terminal_board_is_empty() {
    let mut board = Board::new();
    // X already holds the top row of sub-boards.
    board.sub_wins = WinBoard {
        x: BitBoard(0b000000111),
        o: BitBoard(0),
        tie: BitBoard(0),
    };
    let n = Node::new(None, board, None);
    assert!(n.is_terminal);
    let (winner, plies) = n.rollout();
    assert_eq!(winner, Winner::X);
    assert_eq!(plies, 0);
}

#[test]
fn rollout_always_finishes_the_game() {
    let n = Node::new(None, Board::new(), None);
    for _ in 0..20 {
        let (winner, plies) = n.rollout();
        assert_ne!(winner, Winner::InProgress);
        assert!(plies >= 17, "no game ends before both sides moved often");
        assert!(plies <= 81);
    }
}

#[test]
fn root_visits_equal_iteration_count() {
    let mut engine = MctsEngine::new();
    engine.initialize(Board::new());
    assert_eq!(engine.root_visits(), 0);
    let (iters, _plies) = engine.run_search_iterations(50);
    assert_eq!(iters, 50);
    assert_eq!(engine.root_visits(), 50);
    assert_eq!(engine.nodes[0].visits, 50);
    // Another pass keeps counting on top.
    engine.run_search_iterations(25);
    assert_eq!(engine.root_visits(), 75);
}

#[test]
fn child_visits_sum_to_root_visits_minus_root_rollouts() {
    let mut engine = MctsEngine::new();
    engine.initialize(Board::new());
    engine.run_search_iterations(200);
    // Every rollout passed through the root; each one was launched at
    // exactly one node, so no child can have more visits than the root.
    let root = &engine.nodes[0];
    let mut sum = 0;
    for &c in &root.expanded {
        assert!(engine.nodes[c].visits <= root.visits);
        sum += engine.nodes[c].visits;
    }
    assert!(sum <= root.visits);
    assert_eq!(root.visits, 200);
}

#[test]
fn run_search_reports_its_iterations() {
    let mut engine = MctsEngine::new();
    engine.initialize(Board::new());
    let (iters, plies) = engine.run_search(30);
    assert_eq!(engine.root_visits(), iters as u64);
    assert!(iters >= 1, "a 30 ms budget always allows one iteration");
    assert!(plies as u64 <= 81 * iters as u64, "no rollout exceeds the cell count");
}

/// A position whose only legal move is (4, 4): sub-board 4 is forced and has
/// one free cell, with no three-in-a-row for either side.
fn single_move_board() -> Board {
    let mut board = Board::new();
    board.board[4] = SubBoard {
        x: BitBoard(0b001100011),
        o: BitBoard(0b110001100),
    };
    board.next_sub_board = 4;
    board
}

#[test]
fn single_legal_move_is_selected() {
    let board = single_move_board();
    let moves = board.generate_moves();
    assert_eq!(moves.len(), 1);
    assert_eq!(moves[0], Move::new(4, 4));
    let mut engine = MctsEngine::new();
    engine.initialize(board);
    engine.run_search_iterations(3);
    assert_eq!(engine.best_move(), Move::new(4, 4));
    // The single child lies on every rollout's path.
    assert_eq!(engine.nodes[0].expanded.len(), 1);
    let child = engine.nodes[0].expanded[0];
    assert_eq!(engine.nodes[child].visits, 3);
}

/// X holds sub-boards 0 and 1, is forced into sub-board 2 and can settle it
/// (and with it the whole game) by playing cell 2 there.
fn forced_win_board() -> Board {
    let mut board = Board::new();
    board.sub_wins = WinBoard {
        x: BitBoard(0b000000011),
        o: BitBoard(0),
        tie: BitBoard(0),
    };
    board.board[0] = SubBoard {
        x: BitBoard(0b000000111),
        o: BitBoard(0b000011000),
    };
    board.board[1] = SubBoard {
        x: BitBoard(0b000000111),
        o: BitBoard(0b000011000),
    };
    board.board[2] = SubBoard {
        x: BitBoard(0b000000011),
        o: BitBoard(0b010001000),
    };
    board.next_sub_board = 2;
    board
}

#[test]
fn forced_win_is_found() {
    let board = forced_win_board();
    // The winning transition really wins.
    let won = board.advance_state(Move::new(2, 2)).unwrap();
    assert_eq!(won.winner(), Winner::X);
    let mut engine = MctsEngine::new();
    engine.initialize(board);
    engine.run_search_iterations(5000);
    assert_eq!(engine.best_move(), Move::new(2, 2));
}

#[test]
fn initialize_discards_the_previous_tree() {
    let mut engine = MctsEngine::new();
    engine.initialize(Board::new());
    engine.run_search_iterations(40);
    assert!(engine.nodes.len() > 1);
    engine.initialize(Board::new());
    assert_eq!(engine.nodes.len(), 1);
    assert_eq!(engine.root_visits(), 0);
}

#[test]
fn engine_default_is_uninitialized() {
    let engine = MctsEngine::default();
    assert_eq!(engine.nodes.len(), 0);
}

#[test]
fn expand_adds_one_child() {
    let mut engine = MctsEngine::new();
    engine.initialize(Board::new());
    let c = Node::expand(&mut engine.nodes, 0);
    assert_eq!(c, 1);
    assert_eq!(engine.nodes.len(), 2);
    assert_eq!(engine.nodes[0].expanded, vec![1]);
    assert_eq!(engine.nodes[0].unexpanded.len(), 80);
    assert_eq!(engine.nodes[1].parent, Some(0));
    let m = engine.nodes[1].previous_move.unwrap();
    assert!(Board::new().advance_state(m).is_some());
}

#[test]
fn back_propagate_updates_the_path() {
    let mut engine = MctsEngine::new();
    engine.initialize(Board::new());
    let c = Node::expand(&mut engine.nodes, 0);
    Node::back_propagate(&mut engine.nodes, c, Winner::O);
    // A node is credited when its own side to move is the loser: the root
    // has X to move, so an O win scores two half-points there and none at
    // the child (O to move).
    assert_eq!(engine.nodes[0].visits, 1);
    assert_eq!(engine.nodes[0].wins, 2);
    assert_eq!(engine.nodes[c].visits, 1);
    assert_eq!(engine.nodes[c].wins, 0);
    Node::back_propagate(&mut engine.nodes, c, Winner::Tie);
    assert_eq!(engine.nodes[0].visits, 2);
    assert_eq!(engine.nodes[0].wins, 3);
    assert_eq!(engine.nodes[c].wins, 1);
}

#[test]
fn traverse_stops_at_expandable_node() {
    let mut engine = MctsEngine::new();
    engine.initialize(Board::new());
    // A fresh root still has unexpanded moves, so traversal stays put.
    assert_eq!(engine.traverse(), 0);
}
