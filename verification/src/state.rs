//! Data structures for representing the state of the game.

use vstd::prelude::*;

verus! {

broadcast use vstd::array::group_array_axioms;

/// Mask of the nine cell bits of a sub-board (or of the nine sub-board bits
/// of the meta-board).
pub const FULL_MASK: u16 = 0x1FF;

#[derive(Debug, Clone, Copy, PartialEq, Eq, Structural)]
pub enum Player {
    X,
    O,
}

#[derive(Debug, Clone, Copy, PartialEq, Eq, Structural)]
pub enum HasWinner {
    Yes,
    Tie,
    InProgress,
}

#[derive(Debug, Clone, Copy, PartialEq, Eq, Structural)]
pub enum Winner {
    X,
    O,
    Tie,
    InProgress,
}

/// A `u16` bit board.
///
/// Only the first 9 bits are used for representing the board state.
/// `0` represents an empty cell, `1` represents an occupied one.
///
/// The remaining bits are unused and should always be `0`.
#[derive(Debug, Clone, Copy, PartialEq, Eq, Structural)]
pub struct BitBoard(pub u16);

/// True iff bit `i` of `bits` is set.
pub open spec fn bit_set(bits: u16, i: u32) -> bool
    recommends
        i < 16,
{
    bits & (1u16 << (i as u16)) != 0
}

/// True iff `bits` contains one of the eight three-in-a-row patterns.
pub open spec fn wins_line(bits: u16) -> bool {
    ||| bits & 0b111000000u16 == 0b111000000u16
    ||| bits & 0b000111000u16 == 0b000111000u16
    ||| bits & 0b000000111u16 == 0b000000111u16
    ||| bits & 0b100100100u16 == 0b100100100u16
    ||| bits & 0b010010010u16 == 0b010010010u16
    ||| bits & 0b001001001u16 == 0b001001001u16
    ||| bits & 0b100010001u16 == 0b100010001u16
    ||| bits & 0b001010100u16 == 0b001010100u16
}

impl Default for BitBoard {
    /// Default for a `BitBoard` is `0` (all cells are empty).
    fn default() -> (r: Self)
        ensures
            r.0 == 0,
    {
        Self(0)
    }
}

impl BitBoard {
    /// Check if the bit board has a winning configuration.
    /// This is done by checking if the bit board matches one of the winning patterns.
    pub fn has_winner(self) -> (r: HasWinner)
        ensures
            (r == HasWinner::Yes) == wins_line(self.0),
            (r == HasWinner::Tie) == (!wins_line(self.0) && self.0 == FULL_MASK),
            (r == HasWinner::InProgress) == (!wins_line(self.0) && self.0 != FULL_MASK),
    {
        // Check for win.
        if self.0 & 0b111000000u16 == 0b111000000u16 {
            return HasWinner::Yes;
        }
        if self.0 & 0b000111000u16 == 0b000111000u16 {
            return HasWinner::Yes;
        }
        if self.0 & 0b000000111u16 == 0b000000111u16 {
            return HasWinner::Yes;
        }
        if self.0 & 0b100100100u16 == 0b100100100u16 {
            return HasWinner::Yes;
        }
        if self.0 & 0b010010010u16 == 0b010010010u16 {
            return HasWinner::Yes;
        }
        if self.0 & 0b001001001u16 == 0b001001001u16 {
            return HasWinner::Yes;
        }
        if self.0 & 0b100010001u16 == 0b100010001u16 {
            return HasWinner::Yes;
        }
        if self.0 & 0b001010100u16 == 0b001010100u16 {
            return HasWinner::Yes;
        }
        // Check for tie.
        if self.0 == FULL_MASK {
            return HasWinner::Tie;
        }
        HasWinner::InProgress
    }

    /// Returns the bit board with the position of the move applied onto it. Does not change the
    /// original bit board.
    ///
    /// Internally, this function sets the bit corresponding to the position which should be in the
    /// range from `0` to `8` inclusive.
    #[must_use]
    pub fn advance_bitfield_state(self, pos: u32) -> (r: Self)
        requires
            pos < 16,
        ensures
            r.0 == self.0 | (1u16 << (pos as u16)),
    {
        let bit = 1u16 << (pos as u16);
        Self(self.0 | bit)
    }
}

#[derive(Debug, Default, Clone, Copy, PartialEq, Eq, Structural)]
pub struct SubBoard {
    pub x: BitBoard,
    pub o: BitBoard,
}

impl SubBoard {
    /// Only the nine cell bits are used, and no cell is held by both players.
    pub open spec fn inv(self) -> bool {
        &&& self.x.0 < 0x200
        &&& self.o.0 < 0x200
        &&& self.x.0 & self.o.0 == 0
    }

    /// True iff neither player holds cell `minor`.
    pub open spec fn cell_free(self, minor: u32) -> bool {
        !bit_set(self.x.0, minor) && !bit_set(self.o.0, minor)
    }

    /// True iff every cell is held by one of the players.
    pub open spec fn full(self) -> bool {
        self.x.0 | self.o.0 == FULL_MASK
    }
}

#[derive(Debug, Default, Clone, Copy, PartialEq, Eq, Structural)]
pub struct WinBoard {
    pub x: BitBoard,
    pub o: BitBoard,
    pub tie: BitBoard,
}

impl WinBoard {
    /// Only the nine sub-board bits are used, and no sub-board index is
    /// settled in more than one way.
    pub open spec fn inv(self) -> bool {
        &&& self.x.0 < 0x200
        &&& self.o.0 < 0x200
        &&& self.tie.0 < 0x200
        &&& forall|i: u32|
            i < 9 ==> !(bit_set(self.x.0, i) && bit_set(self.o.0, i)) && !(bit_set(self.x.0, i)
                && bit_set(self.tie.0, i)) && !(bit_set(self.o.0, i) && bit_set(self.tie.0, i))
    }

    /// True iff sub-board `i` has reached a terminal state (won or tied).
    pub open spec fn settled(self, i: u32) -> bool {
        bit_set(self.x.0, i) || bit_set(self.o.0, i) || bit_set(self.tie.0, i)
    }
}

/// Represents a position on the board. Does not store the player who applies the move.
#[derive(Debug, Clone, Copy, PartialEq, Eq, Structural)]
pub struct Move {
    /// The major index (position of the sub-board) of the move.
    /// Range can be assumed to be between 0 and 8 inclusive.
    pub major: u32,
    /// The minor index (position of the cell within a sub-board) of the move.
    /// Range can be assumed to be between 0 and 8 inclusive.
    pub minor: u32,
}

impl Move {
    /// Create a new [`Move`]. Both indices must be between 0 and 8 inclusive.
    pub fn new(major: u32, minor: u32) -> (r: Self)
        requires
            major <= 8,
            minor <= 8,
        ensures
            r.major == major,
            r.minor == minor,
    {
        Self { major, minor }
    }
}

/// Representation of the Ultimate-TicTacToe game board.
#[derive(Debug, Clone, Copy, PartialEq, Eq)]
pub struct Board {
    pub sub_wins: WinBoard,
    pub board: [SubBoard; 9],
    pub player_to_move: Player,
    /// The index of the next sub-board. If next player can only move in a specific sub-board, the
    /// value will be in the range of `0..9`. If next player can move anywhere, the value will be
    /// `9`.
    pub next_sub_board: u32,
}

impl Board {
    /// The empty board: X to move, free choice of sub-board.
    pub open spec fn init() -> Board {
        Board {
            sub_wins: WinBoard { x: BitBoard(0), o: BitBoard(0), tie: BitBoard(0) },
            board: vstd::array::spec_array_fill_for_copy_type(
                SubBoard { x: BitBoard(0), o: BitBoard(0) },
            ),
            player_to_move: Player::X,
            next_sub_board: 9,
        }
    }

    /// The invariant every board of a game satisfies: only the nine low bits
    /// in use everywhere, no doubly-held cell, a full sub-board is settled, a
    /// tied sub-board is full, and a forced sub-board pointer never points at
    /// a settled sub-board.
    pub open spec fn inv(self) -> bool {
        &&& self.sub_wins.inv()
        &&& forall|i: int| 0 <= i < 9 ==> (#[trigger] self.board[i]).inv()
        &&& self.next_sub_board <= 9
        &&& self.next_sub_board < 9 ==> !self.sub_wins.settled(self.next_sub_board)
        &&& forall|i: int|
            0 <= i < 9 ==> ((#[trigger] self.board[i]).full() ==> self.sub_wins.settled(i as u32))
        &&& forall|i: int|
            0 <= i < 9 ==> (bit_set(self.sub_wins.tie.0, i as u32) ==> (
            #[trigger] self.board[i]).full())
    }

    /// The winner read off the meta-board, exactly as `winner` computes it.
    pub open spec fn spec_winner(self) -> Winner {
        if wins_line(self.sub_wins.x.0) {
            Winner::X
        } else if wins_line(self.sub_wins.o.0) {
            Winner::O
        } else if self.sub_wins.x.0 | self.sub_wins.o.0 | self.sub_wins.tie.0 == FULL_MASK {
            Winner::Tie
        } else {
            Winner::InProgress
        }
    }
}

impl Default for Board {
    fn default() -> (r: Self)
        ensures
            r == Board::init(),
            r.inv(),
    {
        let r = Self {
            sub_wins: WinBoard {
                x: BitBoard(0),
                o: BitBoard(0),
                tie: BitBoard(0),
            },
            board: [SubBoard { x: BitBoard(0), o: BitBoard(0) };9],
            // Player X always starts.
            player_to_move: Player::X,
            // Initially can move anywhere.
            next_sub_board: 9,
        };
        proof {
            lemma_zero_bits();
        }
        r
    }
}

impl Board {
    /// Create a new [`Board`].
    pub fn new() -> (r: Self)
        ensures
            r == Board::init(),
            r.inv(),
    {
        Self::default()
    }

    pub fn winner(&self) -> (r: Winner)
        ensures
            r == self.spec_winner(),
    {
        if self.sub_wins.x.has_winner() == HasWinner::Yes {
            Winner::X
        } else if self.sub_wins.o.has_winner() == HasWinner::Yes {
            Winner::O
        } else if self.sub_wins.x.0 | self.sub_wins.o.0 | self.sub_wins.tie.0 == FULL_MASK {
            Winner::Tie
        } else {
            Winner::InProgress
        }
    }
}

impl Board {
    /// The four legality checks of `advance_state`: indices in range, target
    /// cell empty, target sub-board the forced one (or free choice), target
    /// sub-board not already won by either player.
    pub open spec fn move_ok(self, m: Move) -> bool {
        &&& m.major <= 8
        &&& m.minor <= 8
        &&& self.board[m.major as int].cell_free(m.minor)
        &&& self.next_sub_board == 9 || self.next_sub_board == m.major as u32
        &&& !bit_set(self.sub_wins.x.0, m.major)
        &&& !bit_set(self.sub_wins.o.0, m.major)
    }

    /// The unchecked transition: set the mover's bit, re-settle the one
    /// touched sub-board, flip the side to move, and recompute the forced
    /// sub-board pointer from the move's minor index.
    pub open spec fn spec_step(self, m: Move) -> Board {
        let sb = self.board[m.major as int];
        if self.player_to_move == Player::X {
            let nx = BitBoard(sb.x.0 | (1u16 << (m.minor as u16)));
            let new_sub = SubBoard { x: nx, o: sb.o };
            let wins = WinBoard {
                x: if wins_line(nx.0) {
                    BitBoard(self.sub_wins.x.0 | (1u16 << (m.major as u16)))
                } else {
                    self.sub_wins.x
                },
                o: self.sub_wins.o,
                tie: if !wins_line(nx.0) && nx.0 | sb.o.0 == FULL_MASK {
                    BitBoard(self.sub_wins.tie.0 | (1u16 << (m.major as u16)))
                } else {
                    self.sub_wins.tie
                },
            };
            Board {
                sub_wins: wins,
                board: vstd::array::spec_array_update(self.board, m.major as int, new_sub),
                player_to_move: Player::O,
                next_sub_board: if bit_set(wins.o.0 | wins.x.0 | wins.tie.0, m.minor) {
                    9u32
                } else {
                    m.minor
                },
            }
        } else {
            let no = BitBoard(sb.o.0 | (1u16 << (m.minor as u16)));
            let new_sub = SubBoard { x: sb.x, o: no };
            let wins = WinBoard {
                x: self.sub_wins.x,
                o: if wins_line(no.0) {
                    BitBoard(self.sub_wins.o.0 | (1u16 << (m.major as u16)))
                } else {
                    self.sub_wins.o
                },
                tie: if !wins_line(no.0) && sb.x.0 | no.0 == FULL_MASK {
                    BitBoard(self.sub_wins.tie.0 | (1u16 << (m.major as u16)))
                } else {
                    self.sub_wins.tie
                },
            };
            Board {
                sub_wins: wins,
                board: vstd::array::spec_array_update(self.board, m.major as int, new_sub),
                player_to_move: Player::X,
                next_sub_board: if bit_set(wins.o.0 | wins.x.0 | wins.tie.0, m.minor) {
                    9u32
                } else {
                    m.minor
                },
            }
        }
    }

    /// The checked transition: `Some(spec_step)` on a legal move, `None` otherwise.
    pub open spec fn spec_advance(self, m: Move) -> Option<Board> {
        if self.move_ok(m) {
            Some(self.spec_step(m))
        } else {
            None
        }
    }
}

impl Board {
    /// Returns the [`Board`] with the applied [`Move`] onto it. This does not change the original
    /// [`Board`]. This method does not re-check that the move is valid in the context of the game
    /// state: the caller must already know it is (`move_ok`), e.g. because the move came from
    /// `generate_moves`.
    ///
    /// Switches the next player to move.
    #[must_use]
    pub fn advance_state_unsafe(self, m: Move) -> (r: Self)
        requires
            self.move_ok(m),
        ensures
            r == self.spec_step(m),
            self.inv() ==> r.inv(),
    {
        let mut s = self;
        let major_idx = m.major as usize;
        let sub = s.board[major_idx];

        match s.player_to_move {
            Player::X => {
                let nx = sub.x.advance_bitfield_state(m.minor);
                s.board[major_idx] = SubBoard { x: nx, o: sub.o };
                s.player_to_move = Player::O;

                // Update `sub_wins` to keep state in sync.
                // Since we know the major position of the move, we only need to recompute the win
                // state for one of the sub-boards. We also know the player so we only need to
                // re-compute the bitfield of the player.
                if nx.has_winner() == HasWinner::Yes {
                    s.sub_wins.x.0 = s.sub_wins.x.0 | (1u16 << (m.major as u16));
                } else if nx.0 | sub.o.0 == FULL_MASK {
                    s.sub_wins.tie.0 = s.sub_wins.tie.0 | (1u16 << (m.major as u16));
                }
                // Update `next_sub_board` for next turn.
                // The next sub-board index is the same as the minor index for this turn.
                let sub_wins_or = s.sub_wins.o.0 | s.sub_wins.x.0 | s.sub_wins.tie.0;
                if sub_wins_or & (1u16 << (m.minor as u16)) != 0 {
                    // The next sub-board has already been won. Next player can move anywhere.
                    s.next_sub_board = 9;
                } else {
                    // The next sub-board has not been won. Next player can only move in this
                    // sub-board.
                    s.next_sub_board = m.minor;
                }
            },
            Player::O => {
                let no = sub.o.advance_bitfield_state(m.minor);
                s.board[major_idx] = SubBoard { x: sub.x, o: no };
                s.player_to_move = Player::X;

                // Update `sub_wins` to keep state in sync. See above for more details.
                if no.has_winner() == HasWinner::Yes {
                    s.sub_wins.o.0 = s.sub_wins.o.0 | (1u16 << (m.major as u16));
                } else if sub.x.0 | no.0 == FULL_MASK {
                    s.sub_wins.tie.0 = s.sub_wins.tie.0 | (1u16 << (m.major as u16));
                }
                // Update `next_sub_board` for next turn. See above for more details.
                let sub_wins_or = s.sub_wins.o.0 | s.sub_wins.x.0 | s.sub_wins.tie.0;
                if sub_wins_or & (1u16 << (m.minor as u16)) != 0 {
                    s.next_sub_board = 9;
                } else {
                    s.next_sub_board = m.minor;
                }
            },
        }
        proof {
            assert(s.board =~= self.spec_step(m).board);
            if self.inv() {
                lemma_step_preserves_inv(self, m);
            }
        }
        s
    }

    /// Returns the [`Board`] with the applied [`Move`] onto it or `None` if the move is invalid.
    /// This does not change the original [`Board`].
    ///
    /// Switches the next player to move.
    pub fn advance_state(self, m: Move) -> (r: Option<Self>)
        ensures
            r == self.spec_advance(m),
            self.inv() && r is Some ==> r->Some_0.inv(),
    {
        // First, check that Move major and minor indexes are in range 0..9.
        if m.major > 8 || m.minor > 8 {
            return None;
        }
        // Check that cell is open.
        let sub_board = s_index(&self.board, m.major as usize);
        let mask = 1u16 << (m.minor as u16);
        if sub_board.x.0 & mask != 0 || sub_board.o.0 & mask != 0 {
            return None;
        }
        // Check that the sub-board is the one the player is supposed to move in.
        if self.next_sub_board != 9 && self.next_sub_board != m.major {
            return None;
        }
        // Check that the sub-board has not already been won.
        let mask = 1u16 << (m.major as u16);
        if self.sub_wins.x.0 & mask != 0 || self.sub_wins.o.0 & mask != 0 {
            return None;
        }
        // Move is valid, advance the state.
        Some(self.advance_state_unsafe(m))
    }
}

/// The legal moves inside sub-board `major` whose minor index is below
/// `upto`, in increasing minor order.
pub open spec fn sub_moves(sb: SubBoard, major: u32, upto: int) -> Seq<Move>
    decreases upto,
{
    if upto <= 0 {
        Seq::empty()
    } else {
        sub_moves(sb, major, upto - 1) + if sb.cell_free((upto - 1) as u32) {
            seq![Move { major, minor: (upto - 1) as u32 }]
        } else {
            Seq::empty()
        }
    }
}

/// The legal moves of every unsettled sub-board whose major index is below
/// `upto`, in increasing (major, minor) order.
pub open spec fn all_moves(b: Board, upto: int) -> Seq<Move>
    decreases upto,
{
    if upto <= 0 {
        Seq::empty()
    } else {
        all_moves(b, upto - 1) + if !b.sub_wins.settled((upto - 1) as u32) {
            sub_moves(b.board[upto - 1], (upto - 1) as u32, 9)
        } else {
            Seq::empty()
        }
    }
}

impl Board {
    /// The legal moves of this board, in the order `generate_moves` emits
    /// them: if a sub-board is forced, its free cells; otherwise the free
    /// cells of every unsettled sub-board, majors outermost.
    pub open spec fn spec_moves(self) -> Seq<Move> {
        if self.next_sub_board < 9 {
            sub_moves(self.board[self.next_sub_board as int], self.next_sub_board, 9)
        } else {
            all_moves(self, 9)
        }
    }

    /// Clears `moves` and fills it with the legal moves of this board.
    pub fn generate_moves_in_place(&self, moves: &mut Vec<Move>)
        requires
            self.next_sub_board <= 9,
        ensures
            final(moves)@ == self.spec_moves(),
    {
        moves.clear();
        if self.next_sub_board <= 8 {
            // Can only move in a specific sub-board.
            let major = self.next_sub_board;
            let sub = s_index(&self.board, major as usize);
            let or_bits = sub.x.0 | sub.o.0;
            let mut i: u32 = 0;
            while i < 9
                invariant
                    i <= 9,
                    major == self.next_sub_board,
                    major <= 8,
                    sub == self.board[major as int],
                    or_bits == sub.x.0 | sub.o.0,
                    moves@ == sub_moves(sub, major, i as int),
                decreases 9 - i,
            {
                proof {
                    lemma_or2_bit(sub.x.0, sub.o.0);
                }
                if or_bits & (1u16 << (i as u16)) == 0 {
                    moves.push(Move { major, minor: i });
                }
                proof {
                    assert(moves@ =~= sub_moves(sub, major, i as int + 1));
                }
                i = i + 1;
            }
        } else {
            // Can move in any open spot that is not already won.
            let mut i: u32 = 0;
            while i < 9
                invariant
                    i <= 9,
                    self.next_sub_board == 9,
                    moves@ == all_moves(*self, i as int),
                decreases 9 - i,
            {
                let mask = 1u16 << (i as u16);
                if self.sub_wins.x.0 & mask == 0 && self.sub_wins.o.0 & mask == 0
                    && self.sub_wins.tie.0 & mask == 0 {
                    // Sub-board is available. Generate moves for sub-board.
                    let sub = s_index(&self.board, i as usize);
                    let or_bits = sub.x.0 | sub.o.0;
                    let mut j: u32 = 0;
                    while j < 9
                        invariant
                            j <= 9,
                            i < 9,
                            sub == self.board[i as int],
                            or_bits == sub.x.0 | sub.o.0,
                            !self.sub_wins.settled(i),
                            moves@ == all_moves(*self, i as int) + sub_moves(sub, i, j as int),
                        decreases 9 - j,
                    {
                        proof {
                            lemma_or2_bit(sub.x.0, sub.o.0);
                        }
                        if or_bits & (1u16 << (j as u16)) == 0 {
                            moves.push(Move { major: i, minor: j });
                        }
                        proof {
                            assert(moves@ =~= all_moves(*self, i as int) + sub_moves(
                                sub,
                                i,
                                j as int + 1,
                            ));
                        }
                        j = j + 1;
                    }
                }
                proof {
                    assert(moves@ =~= all_moves(*self, i as int + 1));
                }
                i = i + 1;
            }
        }
    }

    pub fn generate_moves(&self) -> (r: Vec<Move>)
        requires
            self.next_sub_board <= 9,
        ensures
            r@ == self.spec_moves(),
    {
        let mut buf = Vec::new();
        self.generate_moves_in_place(&mut buf);
        buf
    }
}

/// Replaying a sequence of moves through the checked transition, from `b`;
/// `None` as soon as one move is illegal.
pub open spec fn spec_replay(b: Board, ms: Seq<Move>) -> Option<Board>
    decreases ms.len(),
{
    if ms.len() == 0 {
        Some(b)
    } else {
        match b.spec_advance(ms[0]) {
            Some(b2) => spec_replay(b2, ms.drop_first()),
            None => None,
        }
    }
}

/// Extending a successful replay by one legal move replays to the stepped
/// board.
pub proof fn lemma_spec_replay_snoc(b0: Board, ms: Seq<Move>, m: Move)
    requires
        spec_replay(b0, ms) matches Some(b) && b.move_ok(m),
    ensures
        spec_replay(b0, ms.push(m)) == Some((spec_replay(b0, ms)->Some_0).spec_step(m)),
    decreases ms.len(),
{
    let b = spec_replay(b0, ms)->Some_0;
    if ms.len() == 0 {
        assert(ms.push(m)[0] == m);
        assert(ms.push(m).drop_first() =~= Seq::<Move>::empty());
        assert(spec_replay(b.spec_step(m), Seq::<Move>::empty()) == Some(b.spec_step(m)));
        assert(spec_replay(b0, ms.push(m)) == spec_replay(
            b.spec_step(m),
            ms.push(m).drop_first(),
        ));
    } else {
        assert(ms.push(m)[0] == ms[0]);
        assert(ms.push(m).drop_first() =~= ms.drop_first().push(m));
        let b1 = b0.spec_advance(ms[0])->Some_0;
        lemma_spec_replay_snoc(b1, ms.drop_first(), m);
        assert(spec_replay(b0, ms.push(m)) == spec_replay(b1, ms.drop_first().push(m)));
    }
}

impl Board {
    /// Apply a recorded sequence of moves, in order, to a fresh board.
    /// Returns `None` as soon as one of the moves is illegal.
    pub fn replay(moves: &Vec<Move>) -> (r: Option<Board>)
        ensures
            r == spec_replay(Board::init(), moves@),
            r matches Some(b) ==> b.inv(),
    {
        let mut board = Board::new();
        proof {
            assert(moves@.skip(0) =~= moves@);
        }
        let mut i: usize = 0;
        while i < moves.len()
            invariant
                i <= moves@.len(),
                board.inv(),
                spec_replay(Board::init(), moves@) == spec_replay(board, moves@.skip(i as int)),
            decreases moves@.len() - i,
        {
            proof {
                assert(moves@.skip(i as int)[0] == moves@[i as int]);
                assert(moves@.skip(i as int).drop_first() =~= moves@.skip(i as int + 1));
            }
            match board.advance_state(moves[i]) {
                Some(b2) => {
                    board = b2;
                },
                None => {
                    return None;
                },
            }
            i = i + 1;
        }
        proof {
            assert(moves@.skip(i as int) =~= Seq::<Move>::empty());
        }
        Some(board)
    }
}

/// How many of the first `upto` cells of a sub-board are free.
pub open spec fn free_in_sub(sb: SubBoard, upto: int) -> int
    decreases upto,
{
    if upto <= 0 {
        0
    } else {
        free_in_sub(sb, upto - 1) + if sb.cell_free((upto - 1) as u32) {
            1int
        } else {
            0
        }
    }
}

/// How many cells are free over the first `upto` sub-boards.
pub open spec fn free_cells(b: Board, upto: int) -> int
    decreases upto,
{
    if upto <= 0 {
        0
    } else {
        free_cells(b, upto - 1) + free_in_sub(b.board[upto - 1], 9)
    }
}

impl Board {
    /// How many cells of the whole board are free. Every transition lowers
    /// this by one, which bounds the length of any playout.
    pub open spec fn spec_free_cells(self) -> int {
        free_cells(self, 9)
    }
}

proof fn lemma_free_in_sub_nonneg(sb: SubBoard, upto: int)
    ensures
        free_in_sub(sb, upto) >= 0,
    decreases upto,
{
    if upto > 0 {
        lemma_free_in_sub_nonneg(sb, upto - 1);
    }
}

/// The free-cell count of the whole board is non-negative.
pub proof fn lemma_free_cells_nonneg(b: Board, upto: int)
    ensures
        free_cells(b, upto) >= 0,
    decreases upto,
{
    if upto > 0 {
        lemma_free_cells_nonneg(b, upto - 1);
        lemma_free_in_sub_nonneg(b.board[upto - 1], 9);
    }
}

proof fn lemma_free_in_sub_at_most(sb: SubBoard, upto: int)
    requires
        0 <= upto,
    ensures
        free_in_sub(sb, upto) <= upto,
    decreases upto,
{
    if upto > 0 {
        lemma_free_in_sub_at_most(sb, upto - 1);
    }
}

/// The whole board has at most `9 * upto` free cells over `upto` sub-boards.
pub proof fn lemma_free_cells_at_most(b: Board, upto: int)
    requires
        0 <= upto,
    ensures
        free_cells(b, upto) <= 9 * upto,
    decreases upto,
{
    if upto > 0 {
        lemma_free_cells_at_most(b, upto - 1);
        lemma_free_in_sub_at_most(b.board[upto - 1], 9);
    }
}

/// Occupying one free cell lowers a sub-board's free count by one.
proof fn lemma_free_in_sub_step(old_sb: SubBoard, new_sb: SubBoard, minor: u32, upto: int)
    requires
        minor < 9,
        old_sb.cell_free(minor),
        forall|j: u32| j < 9 ==> new_sb.cell_free(j) == (j != minor && old_sb.cell_free(j)),
        0 <= upto <= 9,
    ensures
        free_in_sub(new_sb, upto) == free_in_sub(old_sb, upto) - if minor < upto {
            1int
        } else {
            0
        },
    decreases upto,
{
    if upto > 0 {
        lemma_free_in_sub_step(old_sb, new_sb, minor, upto - 1);
    }
}

/// When only one sub-board changes, the whole count moves by that
/// sub-board's difference.
proof fn lemma_free_cells_update(b: Board, r: Board, major: int, upto: int)
    requires
        0 <= major < 9,
        forall|i: int| 0 <= i < 9 && i != major ==> r.board[i] == b.board[i],
        0 <= upto <= 9,
    ensures
        free_cells(r, upto) - free_cells(b, upto) == if major < upto {
            free_in_sub(r.board[major], 9) - free_in_sub(b.board[major], 9)
        } else {
            0
        },
    decreases upto,
{
    if upto > 0 {
        lemma_free_cells_update(b, r, major, upto - 1);
    }
}

/// Every legal transition occupies exactly one cell.
pub proof fn lemma_step_free_cells(b: Board, m: Move)
    requires
        b.move_ok(m),
    ensures
        b.spec_step(m).spec_free_cells() == b.spec_free_cells() - 1,
{
    let r = b.spec_step(m);
    let major = m.major;
    let minor = m.minor;
    let sb = b.board[major as int];
    let nsb = r.board[major as int];
    lemma_or_bit(sb.x.0, minor);
    lemma_or_bit(sb.o.0, minor);
    assert forall|j: u32| j < 9 implies nsb.cell_free(j) == (j != minor && sb.cell_free(j)) by {}
    lemma_free_in_sub_step(sb, nsb, minor, 9);
    lemma_free_cells_update(b, r, major as int, 9);
}

/// The character shown for one cell of the rendered grid.
pub open spec fn cell_char(b: Board, major: u32, minor: u32) -> char {
    if bit_set(b.board[major as int].x.0, minor) {
        'X'
    } else if bit_set(b.board[major as int].o.0, minor) {
        'O'
    } else {
        '_'
    }
}

/// One row of one sub-board: the first `upto` cells of row `minor_row` of
/// sub-board `major`, each followed by a space.
pub open spec fn render_cells(b: Board, major: u32, minor_row: u32, upto: int) -> Seq<char>
    decreases upto,
{
    if upto <= 0 {
        Seq::empty()
    } else {
        render_cells(b, major, minor_row, upto - 1) + seq![
            cell_char(b, major, (minor_row * 3 + (upto - 1)) as u32),
            ' ',
        ]
    }
}

/// One text line: row `minor_row` of the first `upto` sub-boards of
/// meta-row `major_row`, two spaces after each sub-board.
pub open spec fn render_block_row(b: Board, major_row: u32, minor_row: u32, upto: int) -> Seq<char>
    decreases upto,
{
    if upto <= 0 {
        Seq::empty()
    } else {
        render_block_row(b, major_row, minor_row, upto - 1) + render_cells(
            b,
            (major_row * 3 + (upto - 1)) as u32,
            minor_row,
            3,
        ) + seq![' ', ' ']
    }
}

/// The first `upto` text lines of meta-row `major_row`, each ended by a
/// newline.
pub open spec fn render_sub_rows(b: Board, major_row: u32, upto: int) -> Seq<char>
    decreases upto,
{
    if upto <= 0 {
        Seq::empty()
    } else {
        render_sub_rows(b, major_row, upto - 1) + render_block_row(b, major_row, (upto - 1) as u32, 3)
            + seq!['\n']
    }
}

/// The first `upto` meta-rows of the grid, a blank line after each.
pub open spec fn render_rows(b: Board, upto: int) -> Seq<char>
    decreases upto,
{
    if upto <= 0 {
        Seq::empty()
    } else {
        render_rows(b, upto - 1) + render_sub_rows(b, (upto - 1) as u32, 3) + seq!['\n']
    }
}

impl Board {
    /// The human-readable rendering of the board: three blocks of three text
    /// lines, `X`/`O`/`_` per cell, a blank line between blocks.
    pub open spec fn spec_render(self) -> Seq<char> {
        render_rows(self, 3)
    }

    /// Render the 9x9 grid as text.
    pub fn render(&self) -> (r: String)
        ensures
            r@ == self.spec_render(),
    {
        proof {
            reveal_strlit("X ");
            reveal_strlit("O ");
            reveal_strlit("_ ");
            reveal_strlit("  ");
            reveal_strlit("\n");
        }
        let mut s = String::new();
        let mut major_row: u32 = 0;
        while major_row < 3
            invariant
                major_row <= 3,
                s@ == render_rows(*self, major_row as int),
            decreases 3 - major_row,
        {
            let mut minor_row: u32 = 0;
            while minor_row < 3
                invariant
                    major_row < 3,
                    minor_row <= 3,
                    s@ == render_rows(*self, major_row as int) + render_sub_rows(
                        *self,
                        major_row,
                        minor_row as int,
                    ),
                decreases 3 - minor_row,
            {
                let mut major_col: u32 = 0;
                while major_col < 3
                    invariant
                        major_row < 3,
                        minor_row < 3,
                        major_col <= 3,
                        s@ == render_rows(*self, major_row as int) + render_sub_rows(
                            *self,
                            major_row,
                            minor_row as int,
                        ) + render_block_row(*self, major_row, minor_row, major_col as int),
                    decreases 3 - major_col,
                {
                    let major = major_row * 3 + major_col;
                    let sub = s_index(&self.board, major as usize);
                    let mut minor_col: u32 = 0;
                    while minor_col < 3
                        invariant
                            major_row < 3,
                            minor_row < 3,
                            major_col < 3,
                            minor_col <= 3,
                            major == major_row * 3 + major_col,
                            sub == self.board[major as int],
                            s@ == render_rows(*self, major_row as int) + render_sub_rows(
                                *self,
                                major_row,
                                minor_row as int,
                            ) + render_block_row(*self, major_row, minor_row, major_col as int)
                                + render_cells(*self, major, minor_row, minor_col as int),
                        decreases 3 - minor_col,
                    {
                        proof {
                            reveal_strlit("X ");
                            reveal_strlit("O ");
                            reveal_strlit("_ ");
                        }
                        let minor = minor_row * 3 + minor_col;
                        let mask = 1u16 << (minor as u16);
                        if sub.x.0 & mask != 0 {
                            s.append("X ");
                        } else if sub.o.0 & mask != 0 {
                            s.append("O ");
                        } else {
                            s.append("_ ");
                        }
                        proof {
                            assert(s@ =~= render_rows(*self, major_row as int) + render_sub_rows(
                                *self,
                                major_row,
                                minor_row as int,
                            ) + render_block_row(*self, major_row, minor_row, major_col as int)
                                + render_cells(*self, major, minor_row, minor_col as int + 1));
                        }
                        minor_col = minor_col + 1;
                    }
                    proof {
                        reveal_strlit("  ");
                    }
                    s.append("  ");
                    proof {
                        assert(s@ =~= render_rows(*self, major_row as int) + render_sub_rows(
                            *self,
                            major_row,
                            minor_row as int,
                        ) + render_block_row(*self, major_row, minor_row, major_col as int + 1));
                    }
                    major_col = major_col + 1;
                }
                proof {
                    reveal_strlit("\n");
                }
                s.append("\n");
                proof {
                    assert(s@ =~= render_rows(*self, major_row as int) + render_sub_rows(
                        *self,
                        major_row,
                        minor_row as int + 1,
                    ));
                }
                minor_row = minor_row + 1;
            }
            proof {
                reveal_strlit("\n");
            }
            s.append("\n");
            proof {
                assert(s@ =~= render_rows(*self, major_row as int + 1));
            }
            major_row = major_row + 1;
        }
        s
    }
}

/// Every move that `generate_moves` emits for a sub-board is inside that
/// sub-board, below the bound, and lands on a free cell.
proof fn lemma_sub_moves_props(sb: SubBoard, major: u32, upto: int)
    requires
        0 <= upto <= 9,
    ensures
        forall|k: int|
            0 <= k < sub_moves(sb, major, upto).len() ==> (#[trigger] sub_moves(sb, major, upto)[k]).major
                == major && sub_moves(sb, major, upto)[k].minor < upto && sb.cell_free(
                sub_moves(sb, major, upto)[k].minor,
            ),
    decreases upto,
{
    if upto > 0 {
        lemma_sub_moves_props(sb, major, upto - 1);
        let prev = sub_moves(sb, major, upto - 1);
        let cur = sub_moves(sb, major, upto);
        assert forall|k: int|
            0 <= k < cur.len() implies (#[trigger] cur[k]).major == major && cur[k].minor < upto
            && sb.cell_free(cur[k].minor) by {
            if k < prev.len() {
                assert(cur[k] == prev[k]);
            } else {
                assert(cur[k] == Move { major, minor: (upto - 1) as u32 });
            }
        }
    }
}

/// Every move of the free-choice enumeration lands on a free cell of an
/// unsettled sub-board below the bound.
proof fn lemma_all_moves_props(b: Board, upto: int)
    requires
        0 <= upto <= 9,
    ensures
        forall|k: int|
            0 <= k < all_moves(b, upto).len() ==> (#[trigger] all_moves(b, upto)[k]).major < upto
                && all_moves(b, upto)[k].minor < 9 && !b.sub_wins.settled(
                all_moves(b, upto)[k].major,
            ) && b.board[all_moves(b, upto)[k].major as int].cell_free(
                all_moves(b, upto)[k].minor,
            ),
    decreases upto,
{
    if upto > 0 {
        lemma_all_moves_props(b, upto - 1);
        lemma_sub_moves_props(b.board[upto - 1], (upto - 1) as u32, 9);
        let prev = all_moves(b, upto - 1);
        let chunk = sub_moves(b.board[upto - 1], (upto - 1) as u32, 9);
        let cur = all_moves(b, upto);
        assert forall|k: int|
            0 <= k < cur.len() implies (#[trigger] cur[k]).major < upto && cur[k].minor < 9
            && !b.sub_wins.settled(cur[k].major) && b.board[cur[k].major as int].cell_free(
            cur[k].minor,
        ) by {
            if k < prev.len() {
                assert(cur[k] == prev[k]);
            } else {
                assert(cur[k] == chunk[k - prev.len()]);
            }
        }
    }
}

/// Every move returned by `generate_moves` passes the four legality checks
/// of `advance_state`.
pub proof fn lemma_generated_moves_valid(b: Board)
    requires
        b.inv(),
    ensures
        forall|k: int|
            0 <= k < b.spec_moves().len() ==> b.move_ok(#[trigger] b.spec_moves()[k]),
{
    if b.next_sub_board < 9 {
        lemma_sub_moves_props(b.board[b.next_sub_board as int], b.next_sub_board, 9);
    } else {
        lemma_all_moves_props(b, 9);
    }
}

/// A free cell below the bound appears in the sub-board's enumeration.
proof fn lemma_sub_moves_complete(sb: SubBoard, major: u32, j: u32, upto: int)
    requires
        j < upto <= 9,
        sb.cell_free(j),
    ensures
        sub_moves(sb, major, upto).contains(Move { major, minor: j }),
    decreases upto,
{
    let cur = sub_moves(sb, major, upto);
    if j as int + 1 == upto {
        assert(cur[cur.len() - 1] == Move { major, minor: j });
    } else {
        lemma_sub_moves_complete(sb, major, j, upto - 1);
        let prev = sub_moves(sb, major, upto - 1);
        let k = choose|k: int| 0 <= k < prev.len() && prev[k] == Move { major, minor: j };
        assert(cur[k] == prev[k]);
    }
}

/// A free cell of an unsettled sub-board below the bound appears in the
/// free-choice enumeration.
proof fn lemma_all_moves_complete(b: Board, m: Move, upto: int)
    requires
        m.major < upto <= 9,
        m.minor < 9,
        !b.sub_wins.settled(m.major),
        b.board[m.major as int].cell_free(m.minor),
    ensures
        all_moves(b, upto).contains(m),
    decreases upto,
{
    let cur = all_moves(b, upto);
    if m.major as int + 1 == upto {
        lemma_sub_moves_complete(b.board[m.major as int], m.major, m.minor, 9);
        let chunk = sub_moves(b.board[m.major as int], m.major, 9);
        let k = choose|k: int| 0 <= k < chunk.len() && chunk[k] == m;
        let prev = all_moves(b, upto - 1);
        assert(cur[prev.len() + k] == chunk[k]);
    } else {
        lemma_all_moves_complete(b, m, upto - 1);
        let prev = all_moves(b, upto - 1);
        let k = choose|k: int| 0 <= k < prev.len() && prev[k] == m;
        assert(cur[k] == prev[k]);
    }
}

/// Conversely to `lemma_generated_moves_valid`: every move that passes the
/// legality checks is among the generated moves, so `generate_moves` returns
/// exactly the legal moves.
pub proof fn lemma_legal_moves_generated(b: Board, m: Move)
    requires
        b.inv(),
        b.move_ok(m),
    ensures
        b.spec_moves().contains(m),
{
    if b.next_sub_board < 9 {
        lemma_sub_moves_complete(b.board[m.major as int], m.major, m.minor, 9);
    } else {
        let sb = b.board[m.major as int];
        if bit_set(b.sub_wins.tie.0, m.major) {
            // A tied sub-board is full, but the move's target cell is free.
            lemma_free_not_full(sb.x.0, sb.o.0, m.minor);
        }
        lemma_all_moves_complete(b, m, 9);
    }
}

/// A move that `generate_moves` would emit passes the legality checks.
pub proof fn lemma_contained_move_ok(b: Board, m: Move)
    requires
        b.inv(),
        b.spec_moves().contains(m),
    ensures
        b.move_ok(m),
{
    lemma_generated_moves_valid(b);
    let k = choose|k: int| 0 <= k < b.spec_moves().len() && b.spec_moves()[k] == m;
    assert(b.move_ok(b.spec_moves()[k]));
}

/// The enumeration of a sub-board only grows as the bound rises.
proof fn lemma_sub_moves_len_mono(sb: SubBoard, major: u32, a: int, c: int)
    requires
        0 <= a <= c,
    ensures
        sub_moves(sb, major, a).len() <= sub_moves(sb, major, c).len(),
    decreases c,
{
    if a < c {
        lemma_sub_moves_len_mono(sb, major, a, c - 1);
    }
}

/// A sub-board with a free cell contributes at least one move.
proof fn lemma_sub_moves_nonempty(sb: SubBoard, major: u32, j: u32)
    requires
        j < 9,
        sb.cell_free(j),
    ensures
        sub_moves(sb, major, 9).len() >= 1,
{
    assert(sub_moves(sb, major, j as int + 1).len() >= 1);
    lemma_sub_moves_len_mono(sb, major, j as int + 1, 9);
}

/// The free-choice enumeration only grows as the bound rises.
proof fn lemma_all_moves_len_mono(b: Board, a: int, c: int)
    requires
        0 <= a <= c,
    ensures
        all_moves(b, a).len() <= all_moves(b, c).len(),
    decreases c,
{
    if a < c {
        lemma_all_moves_len_mono(b, a, c - 1);
    }
}

/// The free-choice enumeration holds every move of each unsettled sub-board.
proof fn lemma_all_moves_covers(b: Board, i: u32)
    requires
        i < 9,
        !b.sub_wins.settled(i),
    ensures
        all_moves(b, 9).len() >= sub_moves(b.board[i as int], i, 9).len(),
{
    assert(all_moves(b, i as int + 1).len() >= sub_moves(b.board[i as int], i, 9).len());
    lemma_all_moves_len_mono(b, i as int + 1, 9);
}

/// The or of two values below `0x200` stays below `0x200`.
proof fn bv_or_low(a: u16, b: u16)
    by (bit_vector)
    requires
        a < 0x200,
        b < 0x200,
    ensures
        a | b < 0x200,
{
}

/// The nine shift masks, written out.
proof fn bv_shift_values()
    by (bit_vector)
    ensures
        1u16 << 0u16 == 1u16,
        1u16 << 1u16 == 2u16,
        1u16 << 2u16 == 4u16,
        1u16 << 3u16 == 8u16,
        1u16 << 4u16 == 16u16,
        1u16 << 5u16 == 32u16,
        1u16 << 6u16 == 64u16,
        1u16 << 7u16 == 128u16,
        1u16 << 8u16 == 256u16,
{
}

/// A nine-bit value short of full has one of the nine masks clear.
proof fn bv_nonfull_free_mask(v: u16)
    by (bit_vector)
    requires
        v < 0x200,
        v != 0x1FFu16,
    ensures
        (v & 1u16 == 0) || (v & 2u16 == 0) || (v & 4u16 == 0) || (v & 8u16 == 0) || (v & 16u16 == 0)
            || (v & 32u16 == 0) || (v & 64u16 == 0) || (v & 128u16 == 0) || (v & 256u16 == 0),
{
}

/// A nine-bit value short of full has a clear bit among the nine.
proof fn lemma_nonfull_has_free(v: u16)
    requires
        v < 0x200,
        v != 0x1FFu16,
    ensures
        exists|i: u32| i < 9 && !(#[trigger] bit_set(v, i)),
{
    bv_shift_values();
    bv_nonfull_free_mask(v);
    if v & 1u16 == 0 {
        assert(!bit_set(v, 0u32));
    } else if v & 2u16 == 0 {
        assert(!bit_set(v, 1u32));
    } else if v & 4u16 == 0 {
        assert(!bit_set(v, 2u32));
    } else if v & 8u16 == 0 {
        assert(!bit_set(v, 3u32));
    } else if v & 16u16 == 0 {
        assert(!bit_set(v, 4u32));
    } else if v & 32u16 == 0 {
        assert(!bit_set(v, 5u32));
    } else if v & 64u16 == 0 {
        assert(!bit_set(v, 6u32));
    } else {
        assert(!bit_set(v, 7u32) || !bit_set(v, 8u32));
    }
}

/// A game that is still in progress always offers at least one legal move.
pub proof fn lemma_in_progress_has_moves(b: Board)
    requires
        b.inv(),
        b.spec_winner() == Winner::InProgress,
    ensures
        b.spec_moves().len() > 0,
{
    if b.next_sub_board < 9 {
        let major = b.next_sub_board;
        let sb = b.board[major as int];
        // The forced sub-board is not settled, hence not full, hence has a
        // free cell.
        bv_or_low(sb.x.0, sb.o.0);
        lemma_nonfull_has_free(sb.x.0 | sb.o.0);
        let j = choose|j: u32| j < 9 && !bit_set(sb.x.0 | sb.o.0, j);
        lemma_or2_bit(sb.x.0, sb.o.0);
        lemma_sub_moves_nonempty(sb, major, j);
    } else {
        // Some sub-board is unsettled, hence not full, hence has a free cell.
        let x = b.sub_wins.x.0;
        let o = b.sub_wins.o.0;
        let t = b.sub_wins.tie.0;
        bv_or_low(x, o);
        bv_or_low(x | o, t);
        lemma_nonfull_has_free(x | o | t);
        let i = choose|i: u32| i < 9 && !bit_set(x | o | t, i);
        lemma_or3_bit(x, o, t);
        assert(!b.sub_wins.settled(i));
        let sb = b.board[i as int];
        bv_or_low(sb.x.0, sb.o.0);
        lemma_nonfull_has_free(sb.x.0 | sb.o.0);
        let j = choose|j: u32| j < 9 && !bit_set(sb.x.0 | sb.o.0, j);
        lemma_or2_bit(sb.x.0, sb.o.0);
        lemma_sub_moves_nonempty(sb, i, j);
        lemma_all_moves_covers(b, i);
    }
}

/// Each of the nine low bits of the full mask is set.
proof fn bv_full_bits(i: u16)
    by (bit_vector)
    requires
        i < 9,
    ensures
        0x1FFu16 & (1u16 << i) != 0,
{
}

/// A nine-bit value with all nine masks set is the full mask.
proof fn bv_all_bits_full(v: u16)
    by (bit_vector)
    requires
        v < 0x200,
        v & 1u16 != 0,
        v & 2u16 != 0,
        v & 4u16 != 0,
        v & 8u16 != 0,
        v & 16u16 != 0,
        v & 32u16 != 0,
        v & 64u16 != 0,
        v & 128u16 != 0,
        v & 256u16 != 0,
    ensures
        v == 0x1FFu16,
{
}

/// The game is a tie exactly when every sub-board is settled and neither
/// player's settled pattern holds a three-in-a-row of sub-boards.
pub proof fn lemma_tie_characterization(b: Board)
    requires
        b.inv(),
    ensures
        (b.spec_winner() == Winner::Tie) <==> ((forall|i: u32| i < 9 ==> b.sub_wins.settled(i))
            && !wins_line(b.sub_wins.x.0) && !wins_line(b.sub_wins.o.0)),
{
    let x = b.sub_wins.x.0;
    let o = b.sub_wins.o.0;
    let t = b.sub_wins.tie.0;
    lemma_or3_bit(x, o, t);
    if x | o | t == FULL_MASK {
        assert forall|i: u32| i < 9 implies b.sub_wins.settled(i) by {
            bv_full_bits(i as u16);
            assert(bit_set(x | o | t, i));
        }
    }
    if forall|i: u32| i < 9 ==> b.sub_wins.settled(i) {
        bv_or_low(x, o);
        bv_or_low(x | o, t);
        bv_shift_values();
        assert(b.sub_wins.settled(0) && b.sub_wins.settled(1) && b.sub_wins.settled(2)
            && b.sub_wins.settled(3) && b.sub_wins.settled(4) && b.sub_wins.settled(5)
            && b.sub_wins.settled(6) && b.sub_wins.settled(7) && b.sub_wins.settled(8));
        assert(bit_set(x | o | t, 0) && bit_set(x | o | t, 1) && bit_set(x | o | t, 2) && bit_set(
            x | o | t,
            3,
        ) && bit_set(x | o | t, 4) && bit_set(x | o | t, 5) && bit_set(x | o | t, 6) && bit_set(
            x | o | t,
            7,
        ) && bit_set(x | o | t, 8));
        bv_all_bits_full(x | o | t);
    }
}

/// The checked transition is pure: equal inputs give equal outputs, and the
/// input board is never mutated (it is taken by value and only a copy is
/// written to).
pub proof fn lemma_advance_state_pure(b1: Board, b2: Board, m1: Move, m2: Move)
    requires
        b1 == b2,
        m1 == m2,
    ensures
        b1.spec_advance(m1) == b2.spec_advance(m2),
{
}

/// Replaying one recorded sequence of moves from a fresh board reproduces
/// one and the same final board.
pub proof fn lemma_replay_deterministic(ms1: Seq<Move>, ms2: Seq<Move>)
    requires
        ms1 == ms2,
    ensures
        spec_replay(Board::init(), ms1) == spec_replay(Board::init(), ms2),
{
}

/// A bit of a two-way or is a bit of one of the operands.
proof fn lemma_or2_bit(a: u16, b: u16)
    ensures
        forall|j: u32| j < 16 ==> bit_set(a | b, j) == (bit_set(a, j) || bit_set(b, j)),
{
    assert forall|j: u32| j < 16 implies bit_set(a | b, j) == (bit_set(a, j) || bit_set(b, j)) by {
        bv_or2_bit(a, b, j as u16);
    }
}

proof fn bv_or2_bit(a: u16, b: u16, j: u16)
    by (bit_vector)
    requires
        j < 16,
    ensures
        ((a | b) & (1u16 << j) != 0) == ((a & (1u16 << j) != 0) || (b & (1u16 << j) != 0)),
{
}

/// Copy one sub-board out of the array.
fn s_index(board: &[SubBoard; 9], i: usize) -> (r: SubBoard)
    requires
        i < 9,
    ensures
        r == board[i as int],
{
    board[i]
}

/// Bitwise-and is commutative.
proof fn bv_and_comm(a: u16, b: u16)
    by (bit_vector)
    ensures
        a & b == b & a,
{
}

/// Bit-level core of `lemma_or_bit`.
proof fn bv_or_bit(b: u16, i: u16, j: u16)
    by (bit_vector)
    requires
        i < 16,
        j < 16,
    ensures
        ((b | (1u16 << i)) & (1u16 << j) != 0) == (i == j || (b & (1u16 << j) != 0)),
{
}

/// Setting bit `i` sets exactly bit `i`: every other bit is unchanged.
proof fn lemma_or_bit(b: u16, i: u32)
    requires
        i < 16,
    ensures
        forall|j: u32|
            j < 16 ==> (#[trigger] bit_set(b | (1u16 << (i as u16)), j)) == (j == i || bit_set(
                b,
                j,
            )),
{
    assert forall|j: u32| j < 16 implies (#[trigger] bit_set(b | (1u16 << (i as u16)), j)) == (j
        == i || bit_set(b, j)) by {
        bv_or_bit(b, i as u16, j as u16);
        assert(i as u16 == j as u16 ==> i == j);
    }
}

/// Setting one of the nine low bits keeps the value below `0x200`.
proof fn lemma_keep_low(b: u16, i: u32)
    requires
        i < 9,
        b < 0x200,
    ensures
        b | (1u16 << (i as u16)) < 0x200,
{
    bv_keep_low(b, i as u16);
}

proof fn bv_keep_low(b: u16, i: u16)
    by (bit_vector)
    requires
        i < 9,
        b < 0x200,
    ensures
        b | (1u16 << i) < 0x200,
{
}

/// Placing a mover's bit on a cell the other player does not hold keeps the
/// two bit boards disjoint.
proof fn lemma_disjoint_insert(x: u16, o: u16, i: u32)
    requires
        i < 16,
        x & o == 0,
        !bit_set(o, i),
    ensures
        (x | (1u16 << (i as u16))) & o == 0,
        o & (x | (1u16 << (i as u16))) == 0,
{
    bv_disjoint_insert(x, o, i as u16);
}

proof fn bv_disjoint_insert(x: u16, o: u16, i: u16)
    by (bit_vector)
    requires
        i < 16,
        x & o == 0,
        o & (1u16 << i) == 0,
    ensures
        (x | (1u16 << i)) & o == 0,
        o & (x | (1u16 << i)) == 0,
{
}

/// A bit of a three-way or is a bit of one of the three operands.
proof fn lemma_or3_bit(a: u16, b: u16, c: u16)
    ensures
        forall|j: u32|
            j < 16 ==> bit_set(a | b | c, j) == (bit_set(a, j) || bit_set(b, j) || bit_set(c, j)),
{
    assert forall|j: u32| j < 16 implies bit_set(a | b | c, j) == (bit_set(a, j) || bit_set(b, j)
        || bit_set(c, j)) by {
        bv_or3_bit(a, b, c, j as u16);
    }
}

proof fn bv_or3_bit(a: u16, b: u16, c: u16, j: u16)
    by (bit_vector)
    requires
        j < 16,
    ensures
        ((a | b | c) & (1u16 << j) != 0) == ((a & (1u16 << j) != 0) || (b & (1u16 << j) != 0) || (c
            & (1u16 << j) != 0)),
{
}

/// A free cell keeps the union of the two bit boards short of full.
proof fn lemma_free_not_full(x: u16, o: u16, i: u32)
    requires
        i < 9,
        !bit_set(x, i),
        !bit_set(o, i),
    ensures
        x | o != FULL_MASK,
{
    bv_free_not_full(x, o, i as u16);
}

proof fn bv_free_not_full(x: u16, o: u16, i: u16)
    by (bit_vector)
    requires
        i < 9,
        x & (1u16 << i) == 0,
        o & (1u16 << i) == 0,
    ensures
        x | o != 0x1FFu16,
{
}

/// The unchecked transition preserves the board invariant on legal moves.
proof fn lemma_step_preserves_inv(b: Board, m: Move)
    requires
        b.inv(),
        b.move_ok(m),
    ensures
        b.spec_step(m).inv(),
{
    let r = b.spec_step(m);
    let major = m.major;
    let minor = m.minor;
    let sb = b.board[major as int];
    lemma_or_bit(b.sub_wins.x.0, major);
    lemma_or_bit(b.sub_wins.o.0, major);
    lemma_or_bit(b.sub_wins.tie.0, major);
    lemma_keep_low(b.sub_wins.x.0, major);
    lemma_keep_low(b.sub_wins.o.0, major);
    lemma_keep_low(b.sub_wins.tie.0, major);
    lemma_keep_low(sb.x.0, minor);
    lemma_keep_low(sb.o.0, minor);
    lemma_or_bit(sb.x.0, minor);
    lemma_or_bit(sb.o.0, minor);
    lemma_free_not_full(sb.x.0, sb.o.0, minor);
    lemma_or3_bit(r.sub_wins.o.0, r.sub_wins.x.0, r.sub_wins.tie.0);
    bv_and_comm(sb.x.0, sb.o.0);
    if b.player_to_move == Player::X {
        lemma_disjoint_insert(sb.x.0, sb.o.0, minor);
    } else {
        lemma_disjoint_insert(sb.o.0, sb.x.0, minor);
    }
    // The touched sub-board was not already tied: its played cell was free.
    assert(!bit_set(b.sub_wins.tie.0, major));
    // If the touched sub-board is now full it is settled now.
    let nsb = r.board[major as int];
    if nsb.full() {
        assert(b.sub_wins.settled(major) || wins_line(
            if b.player_to_move == Player::X {
                nsb.x.0
            } else {
                nsb.o.0
            },
        ) || bit_set(r.sub_wins.tie.0, major));
    }
    // Every sub-board other than the touched one is unchanged, and its
    // settlement bits are unchanged.
    assert forall|i: int| 0 <= i < 9 && i != major as int implies r.board[i] == b.board[i]
        && (r.sub_wins.settled(i as u32) == b.sub_wins.settled(i as u32)) && (bit_set(
        r.sub_wins.tie.0,
        i as u32,
    ) == bit_set(b.sub_wins.tie.0, i as u32)) by {}
}

/// No bit is set in zero, and zero is neutral for bitwise-or and
/// absorbing for bitwise-and.
proof fn lemma_zero_bits()
    ensures
        forall|i: u32| i < 16 ==> !bit_set(0u16, i),
        forall|b: u16| #[trigger] (0u16 & b) == 0,
        forall|b: u16| #[trigger] (b & 0u16) == 0,
        forall|b: u16| #[trigger] (0u16 | b) == b,
        forall|b: u16| #[trigger] (b | 0u16) == b,
{
    assert(forall|b: u16| #[trigger] (0u16 & b) == 0) by (bit_vector);
    assert(forall|b: u16| #[trigger] (b & 0u16) == 0) by (bit_vector);
    assert(forall|b: u16| #[trigger] (0u16 | b) == b) by (bit_vector);
    assert(forall|b: u16| #[trigger] (b | 0u16) == b) by (bit_vector);
    assert forall|i: u32| i < 16 implies !bit_set(0u16, i) by {
        assert(0u16 & (1u16 << (i as u16)) == 0);
    }
}

} // verus!
