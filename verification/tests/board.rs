use uttt_rs::BitBoard;
use uttt_rs::Board;
use uttt_rs::HasWinner;
use uttt_rs::Move;
use uttt_rs::Player;
use uttt_rs::SubBoard;
use uttt_rs::WinBoard;
use uttt_rs::Winner;

#[test]
fn empty_board_has_81_moves() {
    let board = Board::new();
    let moves = board.generate_moves();
    assert_eq!(moves.len(), 81);
    for m in &moves {
        assert!(m.major <= 8 && m.minor <= 8);
    }
    assert_eq!(board.winner(), Winner::InProgress);
    assert_eq!(board.player_to_move, Player::X);
    assert_eq!(board.next_sub_board, 9);
}

#[test]
fn center_move_transition() {
    // X plays the center cell of the center sub-board.
    let board = Board::new();
    let next = board.advance_state(Move::new(4, 4)).unwrap();
    assert_eq!(next.next_sub_board, 4);
    assert_eq!(next.player_to_move, Player::O);
    assert_eq!(next.board[4].x.0, 1 << 4);
    assert_eq!(next.board[4].o.0, 0);
    assert_eq!(next.winner(), Winner::InProgress);
}

#[test]
fn generated_moves_all_succeed() {
    let mut boards = vec![Board::new()];
    boards.push(Board::new().advance_state(Move::new(4, 4)).unwrap());
    boards.push(boards[1].advance_state(Move::new(4, 0)).unwrap());
    for board in boards {
        for m in board.generate_moves() {
            assert!(board.advance_state(m).is_some());
        }
    }
}

#[test]
fn advance_state_is_pure() {
    let board = Board::new();
    let a = board.advance_state(Move::new(4, 4));
    let b = board.advance_state(Move::new(4, 4));
    assert_eq!(a, b);
    // The original board value is untouched.
    assert_eq!(board, Board::new());
}

#[test]
fn replay_reproduces_identical_board() {
    let moves = vec![
        Move::new(4, 4),
        Move::new(4, 0),
        Move::new(0, 4),
        Move::new(4, 8),
        Move::new(8, 4),
    ];
    let a = Board::replay(&moves).unwrap();
    let b = Board::replay(&moves).unwrap();
    assert_eq!(a, b);
    // Folding the moves by hand lands on the same board.
    let mut c = Board::new();
    for m in &moves {
        c = c.advance_state(*m).unwrap();
    }
    assert_eq!(a, c);
}

#[test]
fn replay_rejects_illegal_sequence() {
    // The second move replays the occupied center cell.
    let moves = vec![Move::new(4, 4), Move::new(4, 4)];
    assert!(Board::replay(&moves).is_none());
}

#[test]
fn reject_out_of_range_move() {
    let board = Board::new();
    assert!(board.advance_state(Move { major: 9, minor: 0 }).is_none());
    assert!(board.advance_state(Move { major: 0, minor: 9 }).is_none());
}

#[test]
fn reject_occupied_cell() {
    let board = Board::new().advance_state(Move::new(4, 4)).unwrap();
    assert!(board.advance_state(Move::new(4, 4)).is_none());
}

#[test]
fn reject_wrong_sub_board() {
    // After X plays (4, 4) the next move is forced into sub-board 4.
    let board = Board::new().advance_state(Move::new(4, 4)).unwrap();
    assert!(board.advance_state(Move::new(0, 0)).is_none());
    assert!(board.advance_state(Move::new(4, 0)).is_some());
}

/// X settles sub-board 0 with minors {0, 1, 2}, interleaved with legal O
/// moves as `next_sub_board` forces them.
fn settle_sub_board_0_for_x() -> Board {
    let moves = vec![
        Move::new(4, 1), // X
        Move::new(1, 0), // O
        Move::new(0, 0), // X
        Move::new(0, 4), // O
        Move::new(4, 5), // X
        Move::new(5, 0), // O
        Move::new(0, 1), // X
        Move::new(1, 4), // O
        Move::new(4, 6), // X
        Move::new(6, 0), // O
        Move::new(0, 2), // X wins sub-board 0
    ];
    Board::replay(&moves).unwrap()
}

#[test]
fn settling_a_sub_board_sets_its_win_bit() {
    let board = settle_sub_board_0_for_x();
    assert_ne!(board.sub_wins.x.0 & 1, 0);
    assert_eq!(board.sub_wins.o.0 & 1, 0);
    assert_eq!(board.sub_wins.tie.0 & 1, 0);
    // One settled sub-board is no winning line of sub-boards.
    assert_eq!(board.winner(), Winner::InProgress);
}

#[test]
fn reject_settled_sub_board() {
    let board = settle_sub_board_0_for_x();
    // O's minor 0 would force X into the settled sub-board 0, so the
    // pointer resets to free choice instead.
    let board = board.advance_state(Move::new(2, 0)).unwrap();
    assert_eq!(board.next_sub_board, 9);
    // Sub-board 0 still has a free cell, but it is settled.
    assert!(board.advance_state(Move::new(0, 3)).is_none());
    assert!(board.advance_state(Move::new(3, 0)).is_some());
}

#[test]
fn tie_winner_iff_all_settled_and_no_line() {
    let mut board = Board::new();
    board.sub_wins = WinBoard {
        x: BitBoard(0b000100011),
        o: BitBoard(0b011001100),
        tie: BitBoard(0b100010000),
    };
    assert_eq!(board.winner(), Winner::Tie);
    // One sub-board still open: no tie yet.
    board.sub_wins.tie = BitBoard(0b000010000);
    assert_eq!(board.winner(), Winner::InProgress);
    // A line of sub-boards beats coverage.
    board.sub_wins = WinBoard {
        x: BitBoard(0b000000111),
        o: BitBoard(0b011001000),
        tie: BitBoard(0b100110000),
    };
    assert_eq!(board.winner(), Winner::X);
}

#[test]
fn has_winner_patterns() {
    let wins = [
        0b111000000,
        0b000111000,
        0b000000111,
        0b100100100,
        0b010010010,
        0b001001001,
        0b100010001,
        0b001010100,
    ];
    for w in wins {
        assert_eq!(BitBoard(w).has_winner(), HasWinner::Yes);
    }
    // A full mask always holds a line, so the win check fires first.
    assert_eq!(BitBoard(0b111111111).has_winner(), HasWinner::Yes);
    assert_eq!(BitBoard(0).has_winner(), HasWinner::InProgress);
    assert_eq!(BitBoard(0b000110011).has_winner(), HasWinner::InProgress);
}

#[test]
fn advance_bitfield_state_sets_one_bit() {
    let b = BitBoard(0);
    assert_eq!(b.advance_bitfield_state(3).0, 0b1000);
    assert_eq!(b.0, 0, "original bit board is unchanged");
    assert_eq!(BitBoard(0b1000).advance_bitfield_state(0).0, 0b1001);
}

#[test]
fn sub_board_defaults_empty() {
    let sb = SubBoard::default();
    assert_eq!(sb.x.0, 0);
    assert_eq!(sb.o.0, 0);
    assert_eq!(BitBoard::default().0, 0);
}

#[test]
fn generate_moves_in_place_clears_the_buffer() {
    let board = Board::new().advance_state(Move::new(4, 4)).unwrap();
    let mut buf = vec![Move::new(8, 8); 81];
    board.generate_moves_in_place(&mut buf);
    assert_eq!(buf, board.generate_moves());
    assert_eq!(buf.len(), 8);
}

#[test]
fn render_empty_board() {
    let line = "_ _ _   ".repeat(3) + "\n";
    let block = line.repeat(3) + "\n";
    let expected = block.repeat(3);
    assert_eq!(Board::new().render(), expected);
}

#[test]
fn render_shows_moves() {
    let board = Board::new().advance_state(Move::new(4, 4)).unwrap();
    let r = board.render();
    assert_eq!(r.len(), 228);
    // The center cell of the center sub-board sits in the second block,
    // second line, second sub-board column, second cell.
    assert_eq!(r.as_bytes()[111], b'X');
    let board = board.advance_state(Move::new(4, 0)).unwrap();
    let r = board.render();
    // Cell 0 of sub-board 4: second block, first line, second column.
    assert_eq!(r.as_bytes()[76 + 8], b'O');
}
