//! Monte Carlo tree search over the game board.
//!
//! The whole search tree of one engine instance lives in one arena, a
//! `Vec<Node>`: children point at their parent by index, parents list their
//! children by index, and the root sits at index zero. Nodes are never freed
//! one by one; `initialize` replaces the whole arena at once.

use vstd::prelude::*;

use crate::rng::random_below;
use crate::rng::shuffle_moves;
use crate::state::lemma_contained_move_ok;
use crate::state::lemma_free_cells_at_most;
use crate::state::lemma_free_cells_nonneg;
use crate::state::lemma_generated_moves_valid;
use crate::state::lemma_in_progress_has_moves;
use crate::state::lemma_step_free_cells;
use crate::state::spec_replay;
use crate::state::Board;
use crate::state::Move;
use crate::state::Player;
use crate::state::Winner;
use crate::uct::spec_uct;
use crate::uct::uct;

verus! {

broadcast use vstd::seq_lib::group_to_multiset_ensures;

/// Visit counters stay below this bound, so one more rollout can never
/// overflow a counter (a win score is at most twice the visit count).
pub const MAX_VISITS: u64 = 0x4000_0000_0000_0000;

/// Node in MCTS. It lives in the arena of one engine; `parent` and the
/// entries of `expanded` are indices into that arena.
pub struct Node {
    pub parent: Option<usize>,
    pub board: Board,
    pub is_terminal: bool,
    pub previous_move: Option<Move>,
    /// Children already expanded, as arena indices.
    pub expanded: Vec<usize>,
    /// Legal moves not yet expanded, in the randomly permuted order fixed at
    /// construction; `expand` pops from the back.
    pub unexpanded: Vec<Move>,
    /// Win score in half-point units: a won rollout counts 2, a tie 1.
    pub wins: u64,
    pub visits: u64,
}

impl Node {
    /// The node's own well-formedness: a valid board, a terminal flag that
    /// matches it, a win score bounded by the visits, and unexpanded moves
    /// that are legal moves of the board.
    pub open spec fn inv(self) -> bool {
        &&& self.board.inv()
        &&& self.is_terminal == (self.board.spec_winner() != Winner::InProgress)
        &&& self.wins <= 2 * self.visits
        &&& forall|k: int|
            0 <= k < self.unexpanded@.len() ==> self.board.spec_moves().contains(
                #[trigger] self.unexpanded@[k],
            )
    }
}

/// What must hold of one child entry: the child sits after its parent in the
/// arena, points back at it, and holds the board its originating move leads
/// to.
pub open spec fn child_ok(nodes: Seq<Node>, i: int, c: int) -> bool {
    &&& i < c < nodes.len()
    &&& nodes[c].parent == Some(i as usize)
    &&& nodes[c].previous_move matches Some(m) && nodes[i].board.spec_moves().contains(m)
        && nodes[c].board == nodes[i].board.spec_step(m) && nodes[i].board.move_ok(m)
}

/// The arena invariant: every node well formed, the root parentless, every
/// other node's parent earlier in the arena, every child entry consistent,
/// and no visit counter above the root's.
pub open spec fn tree_wf(nodes: Seq<Node>) -> bool {
    &&& forall|i: int| 0 <= i < nodes.len() ==> (#[trigger] nodes[i]).inv()
    &&& nodes.len() > 0 ==> nodes[0].parent is None
    &&& forall|i: int|
        1 <= i < nodes.len() ==> ((#[trigger] nodes[i].parent) matches Some(p) && (p as int) < i)
    &&& forall|i: int, k: int|
        0 <= i < nodes.len() && 0 <= k < nodes[i].expanded@.len() ==> child_ok(
            nodes,
            i,
            (#[trigger] nodes[i].expanded@[k]) as int,
        )
    &&& forall|i: int| 0 <= i < nodes.len() ==> (#[trigger] nodes[i]).visits <= nodes[0].visits
}

/// True iff `i` lies on the parent chain from `d` up to the root, `d`
/// itself included.
pub open spec fn on_path(nodes: Seq<Node>, i: int, d: int) -> bool
    decreases d,
{
    if d < 0 || d >= nodes.len() {
        false
    } else if i == d {
        true
    } else {
        match nodes[d].parent {
            Some(p) => (p as int) < d && on_path(nodes, i, p as int),
            None => false,
        }
    }
}

/// A node on the chain from `d` comes no later than `d` in the arena.
proof fn lemma_on_path_le(nodes: Seq<Node>, i: int, d: int)
    requires
        on_path(nodes, i, d),
    ensures
        0 <= i <= d,
    decreases d,
{
    if i != d {
        let p = nodes[d].parent->0;
        lemma_on_path_le(nodes, i, p as int);
    }
}

/// The root lies on every node's parent chain.
proof fn lemma_root_on_path(nodes: Seq<Node>, d: int)
    requires
        tree_wf(nodes),
        0 <= d < nodes.len(),
    ensures
        on_path(nodes, 0, d),
    decreases d,
{
    if d != 0 {
        let p = nodes[d].parent->0;
        lemma_root_on_path(nodes, p as int);
    }
}

/// The parent of a node on the chain from `d` is on that chain too.
proof fn lemma_parent_on_path(nodes: Seq<Node>, c: int, d: int)
    requires
        on_path(nodes, c, d),
        0 <= c < nodes.len(),
        nodes[c].parent matches Some(p) && (p as int) < c,
    ensures
        on_path(nodes, nodes[c].parent->0 as int, d),
    decreases d,
{
    let p = nodes[c].parent->0;
    if c == d {
        assert(on_path(nodes, p as int, p as int));
    } else {
        let pd = nodes[d].parent->0;
        lemma_parent_on_path(nodes, c, pd as int);
        assert(on_path(nodes, p as int, d));
    }
}

/// The per-rollout score of a node, in half-points: two when the node's side
/// to move is the loser (the mover who created this node won), one on a tie.
pub open spec fn score2(player: Player, winner: Winner) -> u64 {
    if (player == Player::X && winner == Winner::O) || (player == Player::O && winner
        == Winner::X) {
        2
    } else if winner == Winner::Tie {
        1
    } else {
        0
    }
}

/// True iff the two nodes agree on everything but their statistics.
pub open spec fn same_shape(a: Node, b: Node) -> bool {
    &&& a.parent == b.parent
    &&& a.board == b.board
    &&& a.is_terminal == b.is_terminal
    &&& a.previous_move == b.previous_move
    &&& a.expanded@ == b.expanded@
    &&& a.unexpanded@ == b.unexpanded@
}

/// Add one visit and `delta` half-points to node `i` and touch nothing else.
fn bump_stats(nodes: &mut Vec<Node>, i: usize, delta: u64)
    requires
        i < old(nodes)@.len(),
        old(nodes)@[i as int].visits + 1 <= u64::MAX,
        old(nodes)@[i as int].wins + delta <= u64::MAX,
    ensures
        final(nodes)@.len() == old(nodes)@.len(),
        final(nodes)@[i as int].visits == old(nodes)@[i as int].visits + 1,
        final(nodes)@[i as int].wins == old(nodes)@[i as int].wins + delta,
        same_shape(old(nodes)@[i as int], final(nodes)@[i as int]),
        forall|j: int|
            0 <= j < old(nodes)@.len() && j != i ==> final(nodes)@[j] == old(nodes)@[j],
{
    let n = vstd::std_specs::vec::vec_index_mut(nodes, i);
    n.visits = n.visits + 1;
    n.wins = n.wins + delta;
}

/// After a back-propagation pass the tree is still well formed.
proof fn lemma_tree_wf_after_bump(pre: Seq<Node>, post: Seq<Node>, h: int, winner: Winner)
    requires
        tree_wf(pre),
        post.len() == pre.len(),
        0 <= h < pre.len(),
        pre[0].visits < MAX_VISITS,
        forall|i: int| 0 <= i < pre.len() ==> same_shape(pre[i], #[trigger] post[i]),
        forall|i: int|
            0 <= i < pre.len() ==> (#[trigger] post[i]).visits == pre[i].visits + (if on_path(
                pre,
                i,
                h,
            ) {
                1int
            } else {
                0
            }),
        forall|i: int|
            0 <= i < pre.len() ==> (#[trigger] post[i]).wins == pre[i].wins + (if on_path(
                pre,
                i,
                h,
            ) {
                score2(pre[i].board.player_to_move, winner) as int
            } else {
                0
            }),
    ensures
        tree_wf(post),
        post[0].visits == pre[0].visits + 1,
{
    lemma_root_on_path(pre, h);
    assert forall|i: int| 0 <= i < post.len() implies (#[trigger] post[i]).inv() by {
        assert(pre[i].inv());
        assert(post[i].wins <= 2 * post[i].visits);
        assert forall|k: int|
            0 <= k < post[i].unexpanded@.len() implies post[i].board.spec_moves().contains(
            #[trigger] post[i].unexpanded@[k],
        ) by {
            assert(post[i].unexpanded@[k] == pre[i].unexpanded@[k]);
            assert(pre[i].board.spec_moves().contains(pre[i].unexpanded@[k]));
        }
    }
    assert forall|i: int, k: int|
        0 <= i < post.len() && 0 <= k < post[i].expanded@.len() implies child_ok(
        post,
        i,
        (#[trigger] post[i].expanded@[k]) as int,
    ) by {
        assert(post[i].expanded@[k] == pre[i].expanded@[k]);
        let c = pre[i].expanded@[k] as int;
        assert(child_ok(pre, i, c));
        assert(same_shape(pre[c], post[c]));
    }
    assert forall|i: int| 0 <= i < post.len() implies (#[trigger] post[i]).visits
        <= post[0].visits by {
        assert(pre[i].visits <= pre[0].visits);
    }
}

impl Node {
    /// Starting at node `h`, walk up through the parent indices to the root
    /// inclusive: every node on that path gains one visit, and its win score
    /// gains two half-points when its side to move is the loser of `winner`,
    /// one on a tie, none otherwise. No other node changes.
    pub fn back_propagate(nodes: &mut Vec<Node>, h: usize, winner: Winner)
        requires
            tree_wf(old(nodes)@),
            h < old(nodes)@.len(),
            old(nodes)@[0].visits < MAX_VISITS,
        ensures
            tree_wf(final(nodes)@),
            final(nodes)@.len() == old(nodes)@.len(),
            forall|i: int|
                0 <= i < old(nodes)@.len() ==> same_shape(
                    old(nodes)@[i],
                    #[trigger] final(nodes)@[i],
                ),
            forall|i: int|
                0 <= i < old(nodes)@.len() ==> (#[trigger] final(nodes)@[i]).visits == old(
                    nodes,
                )@[i].visits + (if on_path(old(nodes)@, i, h as int) {
                    1int
                } else {
                    0
                }),
            forall|i: int|
                0 <= i < old(nodes)@.len() ==> (#[trigger] final(nodes)@[i]).wins == old(
                    nodes,
                )@[i].wins + (if on_path(old(nodes)@, i, h as int) {
                    score2(old(nodes)@[i].board.player_to_move, winner) as int
                } else {
                    0
                }),
            final(nodes)@[0].visits == old(nodes)@[0].visits + 1,
    {
        let ghost pre = nodes@;
        let mut cur: usize = h;
        proof {
            lemma_root_on_path(pre, h as int);
        }
        // Walk up the node tree and increment parent visit/win count.
        loop
            invariant
                pre == old(nodes)@,
                tree_wf(pre),
                nodes@.len() == pre.len(),
                h < pre.len(),
                cur < pre.len(),
                pre[0].visits < MAX_VISITS,
                on_path(pre, cur as int, h as int),
                forall|i: int| 0 <= i < pre.len() ==> same_shape(pre[i], #[trigger] nodes@[i]),
                forall|i: int|
                    0 <= i < pre.len() ==> (#[trigger] nodes@[i]).visits == pre[i].visits + (
                    if on_path(pre, i, h as int) && !on_path(pre, i, cur as int) {
                        1int
                    } else {
                        0
                    }),
                forall|i: int|
                    0 <= i < pre.len() ==> (#[trigger] nodes@[i]).wins == pre[i].wins + (
                    if on_path(pre, i, h as int) && !on_path(pre, i, cur as int) {
                        score2(pre[i].board.player_to_move, winner) as int
                    } else {
                        0
                    }),
            decreases cur,
        {
            let ghost entry = nodes@;
            let node_player = vstd::std_specs::vec::vec_index(nodes, cur).board.player_to_move;
            let node_parent = vstd::std_specs::vec::vec_index(nodes, cur).parent;
            let delta: u64 = if node_player == Player::X && winner == Winner::O || node_player
                == Player::O && winner == Winner::X {
                2
            } else if winner == Winner::Tie {
                1
            } else {
                0
            };
            proof {
                assert(same_shape(pre[cur as int], entry[cur as int]));
                assert(delta == score2(pre[cur as int].board.player_to_move, winner));
                // The node has not been updated yet, so its counters still
                // sit below the root's, which is below the bound.
                assert(on_path(pre, cur as int, cur as int));
                assert(entry[cur as int].visits == pre[cur as int].visits);
                assert(pre[cur as int].visits <= pre[0].visits);
                assert(pre[cur as int].inv());
            }
            bump_stats(nodes, cur, delta);
            proof {
                assert(node_parent == pre[cur as int].parent);
            }
            match node_parent {
                Some(p) => {
                    proof {
                        // `cur` is not the root, its parent `p` sits earlier
                        // in the arena and on the path from `h`.
                        assert(cur != 0);
                        assert((p as int) < cur as int);
                        lemma_parent_on_path(pre, cur as int, h as int);
                        if on_path(pre, cur as int, p as int) {
                            lemma_on_path_le(pre, cur as int, p as int);
                        }
                        assert forall|i: int| 0 <= i < pre.len() implies on_path(pre, i, cur as int)
                            == (i == cur as int || on_path(pre, i, p as int)) by {}
                        assert forall|i: int|
                            0 <= i < pre.len() implies (#[trigger] nodes@[i]).visits
                            == pre[i].visits + (if on_path(pre, i, h as int) && !on_path(
                            pre,
                            i,
                            p as int,
                        ) {
                            1int
                        } else {
                            0
                        }) by {
                            if i != cur as int {
                                assert(nodes@[i] == entry[i]);
                            }
                        }
                        assert forall|i: int|
                            0 <= i < pre.len() implies (#[trigger] nodes@[i]).wins == pre[i].wins
                            + (if on_path(pre, i, h as int) && !on_path(pre, i, p as int) {
                            score2(pre[i].board.player_to_move, winner) as int
                        } else {
                            0
                        }) by {
                            if i != cur as int {
                                assert(nodes@[i] == entry[i]);
                            }
                        }
                        assert forall|i: int|
                            0 <= i < pre.len() implies same_shape(
                            pre[i],
                            #[trigger] nodes@[i],
                        ) by {
                            if i != cur as int {
                                assert(nodes@[i] == entry[i]);
                            }
                        }
                    }
                    cur = p;
                },
                None => {
                    proof {
                        // Only the root is parentless, so the walk has
                        // reached and just updated the root.
                        assert(cur == 0);
                        assert forall|i: int|
                            0 <= i < pre.len() implies on_path(pre, i, 0) == (i == 0) by {
                            if on_path(pre, i, 0) {
                                lemma_on_path_le(pre, i, 0);
                            }
                        }
                        assert forall|i: int|
                            0 <= i < pre.len() implies (#[trigger] nodes@[i]).visits
                            == pre[i].visits + (if on_path(pre, i, h as int) {
                            1int
                        } else {
                            0
                        }) by {
                            if i != 0 {
                                assert(nodes@[i] == entry[i]);
                            }
                        }
                        assert forall|i: int|
                            0 <= i < pre.len() implies (#[trigger] nodes@[i]).wins == pre[i].wins
                            + (if on_path(pre, i, h as int) {
                            score2(pre[i].board.player_to_move, winner) as int
                        } else {
                            0
                        }) by {
                            if i != 0 {
                                assert(nodes@[i] == entry[i]);
                            }
                        }
                        assert forall|i: int|
                            0 <= i < pre.len() implies same_shape(
                            pre[i],
                            #[trigger] nodes@[i],
                        ) by {
                            if i != 0 {
                                assert(nodes@[i] == entry[i]);
                            }
                        }
                        lemma_tree_wf_after_bump(pre, nodes@, h as int, winner);
                    }
                    return ;
                },
            }
        }
    }
}

impl Node {
    /// Build a node for `board`: its legal moves are generated, then
    /// shuffled so expansion order carries no bias, and its statistics start
    /// at zero.
    pub fn new(parent: Option<usize>, board: Board, previous_move: Option<Move>) -> (n: Node)
        requires
            board.inv(),
        ensures
            n.parent == parent,
            n.board == board,
            n.previous_move == previous_move,
            n.is_terminal == (board.spec_winner() != Winner::InProgress),
            n.expanded@.len() == 0,
            n.unexpanded@.to_multiset() == board.spec_moves().to_multiset(),
            n.unexpanded@.len() == board.spec_moves().len(),
            n.visits == 0,
            n.wins == 0,
            n.inv(),
    {
        let mut unexpanded = board.generate_moves();
        // Shuffle unexpanded moves.
        shuffle_moves(&mut unexpanded);
        let is_terminal = board.winner() != Winner::InProgress;
        proof {
            assert forall|k: int|
                0 <= k < unexpanded@.len() implies board.spec_moves().contains(
                #[trigger] unexpanded@[k],
            ) by {
                let m = unexpanded@[k];
                assert(unexpanded@.contains(m));
                assert(unexpanded@.to_multiset().count(m) > 0);
                assert(board.spec_moves().to_multiset().count(m) > 0);
            }
        }
        Node {
            parent,
            board,
            is_terminal,
            previous_move,
            expanded: Vec::new(),
            unexpanded,
            wins: 0,
            visits: 0,
        }
    }

    pub fn is_fully_expanded(&self) -> (r: bool)
        ensures
            r == (self.unexpanded@.len() == 0),
    {
        self.unexpanded.len() == 0
    }

    /// Choose random moves starting from this state until a terminal state
    /// is reached. Never touches the tree.
    ///
    /// The returned [`Winner`] will never be [`Winner::InProgress`].
    /// Also returns the number of moves simulated until the terminal state
    /// was reached.
    pub fn rollout(&self) -> (r: (Winner, u32))
        requires
            self.board.inv(),
        ensures
            r.0 != Winner::InProgress,
            r.1 <= 81,
            r.1 as int <= self.board.spec_free_cells(),
            self.board.spec_winner() == Winner::InProgress ==> r.1 >= 1,
            exists|ms: Seq<Move>|
                ms.len() == r.1 && ((#[trigger] spec_replay(self.board, ms)) matches Some(t)
                    && t.spec_winner() == r.0),
            self.board.spec_winner() != Winner::InProgress ==> r == (
                self.board.spec_winner(),
                0u32,
            ),
    {
        let mut board = self.board;
        let mut moves_count: u32 = 0;
        let mut buf: Vec<Move> = Vec::new();
        let ghost mut played: Seq<Move> = Seq::empty();
        proof {
            lemma_free_cells_nonneg(board, 9);
            lemma_free_cells_at_most(board, 9);
        }
        loop
            invariant
                board.inv(),
                self.board.spec_free_cells() <= 81,
                moves_count as int + board.spec_free_cells() == self.board.spec_free_cells(),
                0 <= board.spec_free_cells(),
                played.len() == moves_count,
                spec_replay(self.board, played) == Some(board),
                self.board.spec_winner() == Winner::InProgress ==> (moves_count >= 1 || board
                    == self.board),
                self.board.spec_winner() != Winner::InProgress ==> (board == self.board
                    && moves_count == 0),
            decreases board.spec_free_cells(),
        {
            let w = board.winner();
            if w != Winner::InProgress {
                proof {
                    // The moves played so far witness a legal playout from
                    // the starting board to this terminal board.
                    assert(spec_replay(self.board, played) matches Some(t) && t.spec_winner()
                        == w);
                }
                return (w, moves_count);
            }
            board.generate_moves_in_place(&mut buf);
            proof {
                lemma_in_progress_has_moves(board);
                lemma_generated_moves_valid(board);
            }
            let m = buf[random_below(buf.len())];
            proof {
                lemma_step_free_cells(board, m);
                lemma_free_cells_nonneg(board.spec_step(m), 9);
                crate::state::lemma_spec_replay_snoc(self.board, played, m);
            }
            board = board.advance_state_unsafe(m);
            moves_count = moves_count + 1;
            proof {
                played = played.push(m);
            }
        }
    }
}

/// The fixed-point UCB1 score of node `c` under parent `parent`.
pub open spec fn uct_of(nodes: Seq<Node>, parent: int, c: int) -> int {
    spec_uct(nodes[c].wins as nat, nodes[c].visits as nat, nodes[parent].visits as nat)
}

impl Node {
    /// Expand node `h`: pop the last of its unexpanded moves (the order was
    /// randomly permuted at construction), apply the unchecked transition,
    /// allocate the child at the end of the arena and record it under `h`.
    /// Returns the child's index.
    pub fn expand(nodes: &mut Vec<Node>, h: usize) -> (c: usize)
        requires
            tree_wf(old(nodes)@),
            h < old(nodes)@.len(),
            old(nodes)@[h as int].unexpanded@.len() > 0,
            old(nodes)@.len() < usize::MAX,
        ensures
            tree_wf(final(nodes)@),
            final(nodes)@.len() == old(nodes)@.len() + 1,
            c == old(nodes)@.len(),
            final(nodes)@[h as int].unexpanded@ == old(nodes)@[h as int].unexpanded@.drop_last(),
            final(nodes)@[h as int].expanded@ == old(nodes)@[h as int].expanded@.push(c),
            final(nodes)@[h as int].visits == old(nodes)@[h as int].visits,
            final(nodes)@[h as int].wins == old(nodes)@[h as int].wins,
            final(nodes)@[h as int].board == old(nodes)@[h as int].board,
            final(nodes)@[h as int].parent == old(nodes)@[h as int].parent,
            final(nodes)@[h as int].previous_move == old(nodes)@[h as int].previous_move,
            final(nodes)@[h as int].is_terminal == old(nodes)@[h as int].is_terminal,
            forall|j: int|
                0 <= j < old(nodes)@.len() && j != h ==> final(nodes)@[j] == old(nodes)@[j],
            final(nodes)@[c as int].parent == Some(h),
            final(nodes)@[c as int].previous_move == Some(
                old(nodes)@[h as int].unexpanded@.last(),
            ),
            final(nodes)@[c as int].board == old(nodes)@[h as int].board.spec_step(
                old(nodes)@[h as int].unexpanded@.last(),
            ),
            final(nodes)@[c as int].visits == 0,
            final(nodes)@[c as int].wins == 0,
            final(nodes)@[c as int].expanded@.len() == 0,
    {
        let ghost pre = nodes@;
        let c = nodes.len();
        let m: Move;
        {
            let nd = vstd::std_specs::vec::vec_index_mut(nodes, h);
            m = nd.unexpanded.pop().unwrap();
        }
        proof {
            assert(pre[h as int].inv());
            assert(pre[h as int].board.spec_moves().contains(
                pre[h as int].unexpanded@[pre[h as int].unexpanded@.len() - 1],
            ));
            lemma_contained_move_ok(pre[h as int].board, m);
        }
        let parent_board = vstd::std_specs::vec::vec_index(nodes, h).board;
        let next_board = parent_board.advance_state_unsafe(m);
        let child = Node::new(Some(h), next_board, Some(m));
        {
            let nd = vstd::std_specs::vec::vec_index_mut(nodes, h);
            nd.expanded.push(c);
        }
        nodes.push(child);
        proof {
            let post = nodes@;
            assert forall|i: int| 0 <= i < post.len() implies (#[trigger] post[i]).inv() by {
                if i == h as int {
                    assert forall|k: int|
                        0 <= k < post[i].unexpanded@.len() implies post[i].board.spec_moves()
                        .contains(#[trigger] post[i].unexpanded@[k]) by {
                        assert(post[i].unexpanded@[k] == pre[i].unexpanded@[k]);
                        assert(pre[i].board.spec_moves().contains(pre[i].unexpanded@[k]));
                    }
                } else if i < pre.len() {
                    assert(post[i] == pre[i]);
                    assert(pre[i].inv());
                }
            }
            assert forall|i: int, k: int|
                0 <= i < post.len() && 0 <= k < post[i].expanded@.len() implies child_ok(
                post,
                i,
                (#[trigger] post[i].expanded@[k]) as int,
            ) by {
                if i == h as int && k == post[i].expanded@.len() - 1 {
                    assert(post[i].expanded@[k] == c);
                } else if i == h as int {
                    assert(post[i].expanded@[k] == pre[i].expanded@[k]);
                    assert(child_ok(pre, i, pre[i].expanded@[k] as int));
                } else {
                    assert(post[i] == pre[i]);
                    assert(child_ok(pre, i, pre[i].expanded@[k] as int));
                }
            }
            assert forall|i: int| 0 <= i < post.len() implies (#[trigger] post[i]).visits
                <= post[0].visits by {
                if i < pre.len() {
                    assert(pre[i].visits <= pre[0].visits);
                }
            }
        }
        c
    }

    /// Among the expanded children of `h`, pick the one with the strictly
    /// greatest UCB1 score; on ties the first seen wins. `None` when `h` has
    /// no expanded children.
    pub fn select_best_child_uct(nodes: &Vec<Node>, h: usize) -> (r: Option<usize>)
        requires
            tree_wf(nodes@),
            h < nodes@.len(),
        ensures
            match r {
                Some(c) => child_ok(nodes@, h as int, c as int) && exists|k: int|
                    0 <= k < nodes@[h as int].expanded@.len() && (#[trigger] nodes@[h as int].expanded@[k])
                        as int == c as int && (forall|j: int|
                        0 <= j < nodes@[h as int].expanded@.len() ==> uct_of(
                            nodes@,
                            h as int,
                            (#[trigger] nodes@[h as int].expanded@[j]) as int,
                        ) <= uct_of(nodes@, h as int, c as int)) && (forall|j: int|
                        0 <= j < k ==> uct_of(
                            nodes@,
                            h as int,
                            (#[trigger] nodes@[h as int].expanded@[j]) as int,
                        ) < uct_of(nodes@, h as int, c as int)),
                None => nodes@[h as int].expanded@.len() == 0,
            },
    {
        let parent_visits = vstd::std_specs::vec::vec_index(nodes, h).visits;
        let children_len = vstd::std_specs::vec::vec_index(nodes, h).expanded.len();
        let mut best: Option<usize> = None;
        let mut best_score: u64 = 0;
        let ghost mut best_k: int = 0;
        let mut k: usize = 0;
        while k < children_len
            invariant
                tree_wf(nodes@),
                h < nodes@.len(),
                children_len == nodes@[h as int].expanded@.len(),
                parent_visits == nodes@[h as int].visits,
                k <= children_len,
                match best {
                    Some(c) => 0 <= best_k < k as int && (nodes@[h as int].expanded@[best_k]) as int
                        == c as int && child_ok(nodes@, h as int, c as int) && best_score == uct_of(
                        nodes@,
                        h as int,
                        c as int,
                    ) && (forall|j: int|
                        0 <= j < k as int ==> uct_of(
                            nodes@,
                            h as int,
                            (#[trigger] nodes@[h as int].expanded@[j]) as int,
                        ) <= best_score as int) && (forall|j: int|
                        0 <= j < best_k ==> uct_of(
                            nodes@,
                            h as int,
                            (#[trigger] nodes@[h as int].expanded@[j]) as int,
                        ) < best_score as int),
                    None => k == 0,
                },
            decreases children_len - k,
        {
            proof {
                assert(child_ok(nodes@, h as int, (nodes@[h as int].expanded@[k as int]) as int));
            }
            let c = *vstd::std_specs::vec::vec_index(
                &vstd::std_specs::vec::vec_index(nodes, h).expanded,
                k,
            );
            let w = vstd::std_specs::vec::vec_index(nodes, c).wins;
            let v = vstd::std_specs::vec::vec_index(nodes, c).visits;
            proof {
                assert(nodes@[c as int].inv());
            }
            let score = uct(w, v, parent_visits);
            let take = match best {
                Option::None => true,
                Option::Some(_) => score > best_score,
            };
            if take {
                best = Some(c);
                best_score = score;
                proof {
                    best_k = k as int;
                }
            }
            k = k + 1;
        }
        best
    }

    /// From `start`, descend along best UCB1 children while the current node
    /// is fully expanded and not terminal; stop at the first node that has
    /// unexpanded moves, is terminal, or has no child to descend to.
    pub fn traverse(nodes: &Vec<Node>, start: usize) -> (r: usize)
        requires
            tree_wf(nodes@),
            start < nodes@.len(),
        ensures
            r < nodes@.len(),
            on_path(nodes@, start as int, r as int),
            forall|i: int|
                on_path(nodes@, i, r as int) && (#[trigger] on_path(nodes@, start as int, i)) && i
                    != r as int ==> nodes@[i].unexpanded@.len() == 0 && !nodes@[i].is_terminal,
            nodes@[r as int].unexpanded@.len() > 0 || nodes@[r as int].is_terminal
                || nodes@[r as int].expanded@.len() == 0,
            nodes@[start as int].unexpanded@.len() > 0 ==> r == start,
    {
        // Start at the given node.
        let mut node = start;
        proof {
            assert(on_path(nodes@, start as int, start as int));
            assert forall|i: int|
                on_path(nodes@, i, start as int) && (#[trigger] on_path(
                    nodes@,
                    start as int,
                    i,
                )) && i != start as int implies nodes@[i].unexpanded@.len() == 0
                && !nodes@[i].is_terminal by {
                lemma_on_path_le(nodes@, i, start as int);
                lemma_on_path_le(nodes@, start as int, i);
            }
        }
        loop
            invariant
                tree_wf(nodes@),
                start < nodes@.len(),
                node < nodes@.len(),
                on_path(nodes@, start as int, node as int),
                forall|i: int|
                    on_path(nodes@, i, node as int) && (#[trigger] on_path(
                        nodes@,
                        start as int,
                        i,
                    )) && i != node as int ==> nodes@[i].unexpanded@.len() == 0
                        && !nodes@[i].is_terminal,
                nodes@[start as int].unexpanded@.len() > 0 ==> node == start,
            decreases nodes@.len() - node,
        {
            let fully = vstd::std_specs::vec::vec_index(nodes, node).unexpanded.len() == 0;
            let terminal = vstd::std_specs::vec::vec_index(nodes, node).is_terminal;
            if !fully || terminal {
                return node;
            }
            match Node::select_best_child_uct(nodes, node) {
                Some(t) => {
                    proof {
                        // The step to a child keeps the start on the chain,
                        // and the node stepped over was fully expanded and
                        // not terminal.
                        assert(on_path(nodes@, start as int, t as int));
                        assert forall|i: int|
                            on_path(nodes@, i, t as int) && (#[trigger] on_path(
                                nodes@,
                                start as int,
                                i,
                            )) && i != t as int implies nodes@[i].unexpanded@.len() == 0
                            && !nodes@[i].is_terminal by {
                            assert(on_path(nodes@, i, node as int));
                        }
                    }
                    node = t;
                },
                None => {
                    return node;
                },
            }
        }
    }
}

/// Every expanded child of the root sits inside the arena and carries an
/// originating move that is a legal move of the root board.
proof fn lemma_root_children(nodes: Seq<Node>)
    requires
        tree_wf(nodes),
        nodes.len() > 0,
    ensures
        forall|j: int|
            0 <= j < nodes[0].expanded@.len() ==> ((#[trigger] nodes[0].expanded@[j]) as int)
                < nodes.len(),
        forall|j: int|
            0 <= j < nodes[0].expanded@.len() ==> (nodes[(#[trigger] nodes[0].expanded@[j]) as int].previous_move
                matches Some(m) && nodes[0].board.spec_moves().contains(m) && nodes[0].board.move_ok(
                m,
            )),
{
    assert forall|j: int|
        0 <= j < nodes[0].expanded@.len() implies ((#[trigger] nodes[0].expanded@[j]) as int)
        < nodes.len() && (nodes[(nodes[0].expanded@[j]) as int].previous_move matches Some(m)
        && nodes[0].board.spec_moves().contains(m) && nodes[0].board.move_ok(m)) by {
        assert(child_ok(nodes, 0, (nodes[0].expanded@[j]) as int));
    }
}

/// The position, among the first `upto` entries of `children`, of the entry
/// whose node has the most visits; on equal counts the later one wins.
pub open spec fn best_child_index(nodes: Seq<Node>, children: Seq<usize>, upto: int) -> int
    decreases upto,
{
    if upto <= 1 {
        0
    } else {
        let prev = best_child_index(nodes, children, upto - 1);
        if nodes[children[upto - 1] as int].visits >= nodes[children[prev] as int].visits {
            upto - 1
        } else {
            prev
        }
    }
}

/// `best_child_index` points inside the prefix and at a maximal visit count.
pub proof fn lemma_best_child_index_max(nodes: Seq<Node>, children: Seq<usize>, upto: int)
    requires
        0 < upto <= children.len(),
    ensures
        0 <= best_child_index(nodes, children, upto) < upto,
        forall|j: int|
            0 <= j < upto ==> nodes[(#[trigger] children[j]) as int].visits
                <= nodes[children[best_child_index(nodes, children, upto)] as int].visits,
    decreases upto,
{
    if upto > 1 {
        lemma_best_child_index_max(nodes, children, upto - 1);
    }
}

/// The search engine: it owns the arena that holds all nodes of the current
/// search. An empty arena means the engine is not initialized; after
/// `initialize` the root sits at index zero.
pub struct MctsEngine {
    pub nodes: Vec<Node>,
}

impl MctsEngine {
    pub open spec fn initialized(self) -> bool {
        self.nodes@.len() > 0
    }

    pub open spec fn wf(self) -> bool {
        tree_wf(self.nodes@)
    }

    pub open spec fn root(self) -> Node {
        self.nodes@[0]
    }

    pub fn new() -> (e: Self)
        ensures
            e.nodes@.len() == 0,
            e.wf(),
    {
        MctsEngine { nodes: Vec::new() }
    }

    /// Discard any previous tree and allocate a fresh root node holding
    /// `board`, with no parent and no originating move.
    pub fn initialize(&mut self, board: Board)
        requires
            board.inv(),
        ensures
            final(self).wf(),
            final(self).initialized(),
            final(self).nodes@.len() == 1,
            final(self).root().board == board,
            final(self).root().visits == 0,
            final(self).root().parent is None,
            final(self).root().previous_move is None,
            final(self).root().expanded@.len() == 0,
            final(self).root().unexpanded@.len() == board.spec_moves().len(),
            final(self).root().unexpanded@.to_multiset() == board.spec_moves().to_multiset(),
    {
        let root = Node::new(None, board, None);
        self.nodes = Vec::new();
        self.nodes.push(root);
    }

    /// Descend from the root to the frontier node the next iteration works on.
    pub fn traverse(&self) -> (r: usize)
        requires
            self.wf(),
            self.initialized(),
        ensures
            r < self.nodes@.len(),
            on_path(self.nodes@, 0, r as int),
            forall|i: int|
                on_path(self.nodes@, i, r as int) && (#[trigger] on_path(self.nodes@, 0, i)) && i
                    != r as int ==> self.nodes@[i].unexpanded@.len() == 0
                    && !self.nodes@[i].is_terminal,
            self.nodes@[r as int].unexpanded@.len() > 0 || self.nodes@[r as int].is_terminal
                || self.nodes@[r as int].expanded@.len() == 0,
    {
        Node::traverse(&self.nodes, 0)
    }

    /// One whole iteration: select a frontier node; if it is fully expanded
    /// (terminal or exhausted) roll out from it directly, otherwise expand
    /// one child and roll out from that child; then back-propagate. Exactly
    /// one rollout reaches the root either way. Returns the plies simulated.
    #[verifier::spinoff_prover]
    fn search_iteration(&mut self) -> (plies: u32)
        requires
            old(self).wf(),
            old(self).initialized(),
            old(self).root().visits < MAX_VISITS,
            old(self).nodes@.len() < usize::MAX,
        ensures
            final(self).wf(),
            final(self).initialized(),
            final(self).root().visits == old(self).root().visits + 1,
            final(self).root().board == old(self).root().board,
            final(self).root().expanded@.len() >= old(self).root().expanded@.len(),
            old(self).root().unexpanded@.len() > 0 ==> final(self).root().expanded@.len() >= 1,
            final(self).root().unexpanded@ == old(self).root().unexpanded@
                || final(self).root().expanded@.len() >= 1,
            plies <= 81,
            final(self).nodes@.len() >= old(self).nodes@.len(),
            final(self).nodes@.len() <= old(self).nodes@.len() + 1,
    {
        // Phase 1: selection
        let node = Node::traverse(&self.nodes, 0);
        let fully = vstd::std_specs::vec::vec_index(&self.nodes, node).unexpanded.len() == 0;
        proof {
            assert(self.nodes@[node as int].inv());
        }
        if fully {
            // The frontier node is exhausted or terminal: roll out from it
            // directly, adding no new node.
            let (winner, moves_count) = vstd::std_specs::vec::vec_index(
                &self.nodes,
                node,
            ).rollout();
            Node::back_propagate(&mut self.nodes, node, winner);
            moves_count
        } else {
            // Phase 2: expansion
            let expanded = Node::expand(&mut self.nodes, node);
            // Phase 3: rollout
            proof {
                assert(self.nodes@[expanded as int].inv());
            }
            let (winner, moves_count) = vstd::std_specs::vec::vec_index(
                &self.nodes,
                expanded,
            ).rollout();
            // Phase 4: back-propagation
            Node::back_propagate(&mut self.nodes, expanded, winner);
            moves_count
        }
    }

    /// Runs MCTS search until the wall-clock budget is spent, checked only
    /// between whole iterations. Returns the number of iterations performed
    /// and moves simulated (the ply count saturates; it is diagnostic only).
    #[verifier::spinoff_prover]
    pub fn run_search(&mut self, time_budget_ms: u128) -> (r: (u32, u32))
        requires
            old(self).wf(),
            old(self).initialized(),
        ensures
            final(self).wf(),
            final(self).initialized(),
            final(self).root().board == old(self).root().board,
            final(self).root().visits == old(self).root().visits + r.0,
            final(self).root().expanded@.len() >= old(self).root().expanded@.len(),
            (r.0 >= 1 && old(self).root().unexpanded@.len() > 0)
                ==> final(self).root().expanded@.len() >= 1,
            r.1 as int <= 81 * r.0 || r.1 == u32::MAX,
    {
        let start = crate::clock::clock_now();
        let mut iters: u32 = 0;
        let mut moves: u32 = 0;
        loop
            invariant
                self.wf(),
                self.initialized(),
                self.root().board == old(self).root().board,
                self.root().visits == old(self).root().visits + iters,
                self.root().expanded@.len() >= old(self).root().expanded@.len(),
                (iters >= 1 && old(self).root().unexpanded@.len() > 0) ==> self.root().expanded@.len()
                    >= 1,
                self.root().unexpanded@ == old(self).root().unexpanded@ || self.root().expanded@.len()
                    >= 1,
                moves as int <= 81 * iters || moves == u32::MAX,
            decreases u32::MAX - iters,
        {
            if iters == u32::MAX {
                break ;
            }
            if vstd::std_specs::vec::vec_index(&self.nodes, 0).visits >= MAX_VISITS {
                break ;
            }
            if self.nodes.len() == usize::MAX {
                break ;
            }
            if !(crate::clock::millis_since(&start) < time_budget_ms) {
                break ;
            }
            let ghost before = *self;
            let p = self.search_iteration();
            proof {
                assert(before.root().unexpanded@.len() > 0 ==> self.root().expanded@.len() >= 1);
            }
            iters = iters + 1;
            moves = if moves <= u32::MAX - p {
                moves + p
            } else {
                u32::MAX
            };
        }
        (iters, moves)
    }

    /// Runs exactly `n` search iterations, so after a fresh `initialize` the
    /// root's visit count is exactly `n`. Returns the iteration count and
    /// the (saturating) ply count, as `run_search` does.
    #[verifier::spinoff_prover]
    pub fn run_search_iterations(&mut self, n: u32) -> (r: (u32, u32))
        requires
            old(self).wf(),
            old(self).initialized(),
            old(self).root().visits + n <= MAX_VISITS,
            old(self).nodes@.len() + n <= usize::MAX,
        ensures
            final(self).wf(),
            final(self).initialized(),
            final(self).root().board == old(self).root().board,
            final(self).root().visits == old(self).root().visits + n,
            final(self).root().expanded@.len() >= old(self).root().expanded@.len(),
            (n >= 1 && old(self).root().unexpanded@.len() > 0)
                ==> final(self).root().expanded@.len() >= 1,
            r.0 == n,
            r.1 as int <= 81 * r.0 || r.1 == u32::MAX,
    {
        let mut iters: u32 = 0;
        let mut moves: u32 = 0;
        while iters < n
            invariant
                self.wf(),
                self.initialized(),
                iters <= n,
                old(self).root().visits + n <= MAX_VISITS,
                old(self).nodes@.len() + n <= usize::MAX,
                self.root().board == old(self).root().board,
                self.root().visits == old(self).root().visits + iters,
                self.nodes@.len() <= old(self).nodes@.len() + iters,
                self.root().expanded@.len() >= old(self).root().expanded@.len(),
                (iters >= 1 && old(self).root().unexpanded@.len() > 0) ==> self.root().expanded@.len()
                    >= 1,
                self.root().unexpanded@ == old(self).root().unexpanded@ || self.root().expanded@.len()
                    >= 1,
                moves as int <= 81 * iters || moves == u32::MAX,
            decreases n - iters,
        {
            let ghost before = *self;
            let p = self.search_iteration();
            proof {
                assert(before.root().unexpanded@.len() > 0 ==> self.root().expanded@.len() >= 1);
            }
            iters = iters + 1;
            moves = if moves <= u32::MAX - p {
                moves + p
            } else {
                u32::MAX
            };
        }
        (iters, moves)
    }

    /// The arena index of the root child with the most visits; on equal
    /// counts the last one wins. Kept free of the tree invariant so the
    /// solver only reasons about indices and counters here.
    fn most_visited_root_child(&self) -> (c: usize)
        requires
            self.initialized(),
            self.root().expanded@.len() > 0,
            forall|j: int|
                0 <= j < self.root().expanded@.len() ==> ((
                #[trigger] self.root().expanded@[j]) as int) < self.nodes@.len(),
        ensures
            c == self.nodes@[0].expanded@[best_child_index(
                self.nodes@,
                self.nodes@[0].expanded@,
                self.nodes@[0].expanded@.len() as int,
            )],
    {
        let children_len = vstd::std_specs::vec::vec_index(&self.nodes, 0).expanded.len();
        let mut best_c: usize = *vstd::std_specs::vec::vec_index(
            &vstd::std_specs::vec::vec_index(&self.nodes, 0).expanded,
            0,
        );
        let mut best_visits: u64 = vstd::std_specs::vec::vec_index(&self.nodes, best_c).visits;
        let ghost mut best_k: int = 0;
        let mut k: usize = 1;
        while k < children_len
            invariant
                self.initialized(),
                children_len == self.root().expanded@.len(),
                forall|j: int|
                    0 <= j < self.root().expanded@.len() ==> ((
                    #[trigger] self.root().expanded@[j]) as int) < self.nodes@.len(),
                1 <= k <= children_len,
                best_k == best_child_index(self.nodes@, self.nodes@[0].expanded@, k as int),
                0 <= best_k < k as int,
                best_c as int == (self.nodes@[0].expanded@[best_k]) as int,
                best_c < self.nodes@.len(),
                best_visits == self.nodes@[best_c as int].visits,
            decreases children_len - k,
        {
            let c = *vstd::std_specs::vec::vec_index(
                &vstd::std_specs::vec::vec_index(&self.nodes, 0).expanded,
                k,
            );
            let v = vstd::std_specs::vec::vec_index(&self.nodes, c).visits;
            if v >= best_visits {
                best_c = c;
                best_visits = v;
                proof {
                    best_k = k as int;
                }
            }
            k = k + 1;
        }
        best_c
    }

    /// Among the root's expanded children, the originating move of the child
    /// with the most visits; on equal counts the last one wins
    /// (`best_child_index` names that child). The engine must be initialized
    /// and the root must have at least one expanded child (a long enough
    /// search from a non-terminal position guarantees that).
    pub fn best_move(&self) -> (m: Move)
        requires
            self.wf(),
            self.initialized(),
            self.root().expanded@.len() > 0,
        ensures
            self.root().board.spec_moves().contains(m),
            self.root().board.move_ok(m),
            Some(m) == self.nodes@[(self.nodes@[0].expanded@[best_child_index(
                self.nodes@,
                self.nodes@[0].expanded@,
                self.nodes@[0].expanded@.len() as int,
            )]) as int].previous_move,
    {
        proof {
            lemma_root_children(self.nodes@);
            lemma_best_child_index_max(
                self.nodes@,
                self.nodes@[0].expanded@,
                self.nodes@[0].expanded@.len() as int,
            );
        }
        let best_c = self.most_visited_root_child();
        let pm = vstd::std_specs::vec::vec_index(&self.nodes, best_c).previous_move;
        pm.unwrap()
    }

    /// The root's visit counter: exactly the number of rollouts
    /// back-propagated since `initialize`.
    pub fn root_visits(&self) -> (v: u64)
        requires
            self.initialized(),
        ensures
            v == self.root().visits,
    {
        vstd::std_specs::vec::vec_index(&self.nodes, 0).visits
    }
}

impl Default for MctsEngine {
    fn default() -> (e: Self)
        ensures
            e.nodes@.len() == 0,
            e.wf(),
    {
        Self::new()
    }
}

/// From a position with exactly one legal move, every expanded child of the
/// root originates from that move, so `best_move` can only return it.
pub proof fn lemma_single_move_selected(e: MctsEngine, m: Move)
    requires
        e.wf(),
        e.initialized(),
        e.root().board.spec_moves().len() == 1,
        e.root().board.spec_moves()[0] == m,
    ensures
        forall|k: int|
            0 <= k < e.root().expanded@.len() ==> e.nodes@[(#[trigger] e.root().expanded@[k]) as int].previous_move
                == Some(m),
        e.root().expanded@.len() >= 1 ==> e.nodes@[(e.root().expanded@[best_child_index(
            e.nodes@,
            e.root().expanded@,
            e.root().expanded@.len() as int,
        )]) as int].previous_move == Some(m),
{
    if e.root().expanded@.len() >= 1 {
        lemma_best_child_index_max(
            e.nodes@,
            e.root().expanded@,
            e.root().expanded@.len() as int,
        );
    }
    assert forall|k: int|
        0 <= k < e.root().expanded@.len() implies e.nodes@[(
    #[trigger] e.root().expanded@[k]) as int].previous_move == Some(m) by {
        assert(child_ok(e.nodes@, 0, (e.root().expanded@[k]) as int));
        let c = (e.root().expanded@[k]) as int;
        let mm = e.nodes@[c].previous_move->0;
        let idx = choose|idx: int|
            0 <= idx < e.root().board.spec_moves().len() && e.root().board.spec_moves()[idx] == mm;
        assert(idx == 0);
    }
}

} // verus!
