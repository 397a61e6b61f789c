//! One Go game in progress: the board, whose turn it is, capture totals,
//! the one-ply board memory for the ko rule, and the pass/game-over state,
//! together with every query and mutation the engine offers.

use vstd::prelude::*;
use crate::board::{
    Stone, pos_ok, idx_ok, row_of, col_of, cell_index, adjacent, connected, is_path,
    cell_has_neighbor, group_has_liberty, mask_board, lemma_cell_index, lemma_index_cell,
    lemma_adjacent_up, lemma_adjacent_down, lemma_adjacent_left, lemma_adjacent_right,
    lemma_adjacent_enum, lemma_connected_refl, lemma_connected_step, lemma_connected_bounds,
    lemma_connected_sym, lemma_connected_liberty, lemma_closed_set_avoids, lemma_closed_set_covers,
    lemma_mask_component, lemma_mask_other_color, lemma_update_frame,
};
use crate::flood::{
    filled_board, copy_board, boards_equal, find_group, group_touches, remove_group, count_true,
    lemma_count_true_all, lemma_count_true_bounds, lemma_count_true_take_step,
    lemma_count_true_pos, lemma_count_true_nonzero, lemma_count_true_disjoint_or,
};

verus! {

/// The opposing color; `Empty` is its own opposite and never plays.
pub open spec fn opponent_of(s: Stone) -> Stone {
    match s {
        Stone::Black => Stone::White,
        Stone::White => Stone::Black,
        Stone::Empty => Stone::Empty,
    }
}

/// Small-integer encoding of a cell for host-facing views.
pub open spec fn stone_code(s: Stone) -> u8 {
    match s {
        Stone::Empty => 0,
        Stone::Black => 1,
        Stone::White => 2,
    }
}

/// Star points (hoshi) sit on rows and columns 3, 9 and 15.
pub open spec fn is_star_spec(row: int, col: int) -> bool {
    (row == 3 || row == 9 || row == 15) && (col == 3 || col == 9 || col == 15)
}

fn flip_player(s: Stone) -> (r: Stone)
    requires
        s != Stone::Empty,
    ensures
        r == opponent_of(s),
{
    match s {
        Stone::Black => Stone::White,
        Stone::White => Stone::Black,
        Stone::Empty => Stone::Black,
    }
}

/// Cells a placement removes: every cell of an adjacent opponent group that
/// the placement leaves without a single liberty. `b1` is the board with the
/// new stone already sitting at `p`.
pub open spec fn move_removes(b1: Seq<Stone>, p: int, opp: Stone, j: int) -> bool {
    exists|n: int|
        #[trigger] adjacent(p, n) && b1[n] == opp && !group_has_liberty(b1, n) && connected(
            b1,
            n,
            j,
        )
}

/// The removed cells as a 361-entry mask.
pub open spec fn removal_mask(b1: Seq<Stone>, p: int, opp: Stone) -> Seq<bool> {
    Seq::new(361, |j: int| move_removes(b1, p, opp, j))
}

/// The board that results from a placement at `p`: the stone goes down and
/// every adjacent opponent group left without liberties comes off.
pub open spec fn board_after_move(b0: Seq<Stone>, p: int, player: Stone) -> Seq<Stone> {
    Seq::new(
        361,
        |j: int|
            if move_removes(b0.update(p, player), p, opponent_of(player), j) {
                Stone::Empty
            } else {
                b0.update(p, player)[j]
            },
    )
}

/// How many opponent stones a placement at `p` captures.
pub open spec fn move_capture_count(b0: Seq<Stone>, p: int, player: Stone) -> int {
    count_true(removal_mask(b0.update(p, player), p, opponent_of(player)))
}

/// Local legality of a placement: the target cell is empty, and the move
/// either captures something or leaves its own group a liberty. The ko rule
/// is a separate, additional check.
pub open spec fn move_is_legal_local(b0: Seq<Stone>, p: int, player: Stone) -> bool {
    &&& b0[p] == Stone::Empty
    &&& (move_capture_count(b0, p, player) > 0 || group_has_liberty(
        board_after_move(b0, p, player),
        p,
    ))
}

/// Exactly when `place_stone` succeeds: the game is on, the position lies on
/// the board and is empty, the move is locally legal, and the resulting
/// board does not recreate the remembered previous board.
pub open spec fn place_accepted(s: GameState, row: int, col: int) -> bool {
    &&& !s.game_over
    &&& pos_ok(row, col)
    &&& move_is_legal_local(s.board@, cell_index(row, col), s.current_player)
    &&& (match s.previous_board {
        Some(pb) => board_after_move(s.board@, cell_index(row, col), s.current_player) != pb@,
        None => true,
    })
}

/// Adding to a capture counter, saturating at the type's ceiling.
pub open spec fn saturating_count(a: usize, n: int) -> usize {
    if a + n <= usize::MAX {
        (a + n) as usize
    } else {
        usize::MAX
    }
}

fn sat_counter_add(a: usize, b: usize) -> (r: usize)
    ensures
        r == saturating_count(a, b as int),
{
    if a <= usize::MAX - b {
        a + b
    } else {
        usize::MAX
    }
}

/// Handle one neighbor `n` of a fresh placement at `p`: when it holds an
/// opponent stone whose group has no liberty left, take the whole group off
/// the board. `b1` is the board right after the placement and `d` the set of
/// cells already removed by earlier neighbors of the same placement.
fn capture_neighbor(
    board: &mut Vec<Stone>,
    n: usize,
    opp: Stone,
    captured: usize,
    Ghost(b1): Ghost<Seq<Stone>>,
    Ghost(p): Ghost<int>,
    Ghost(d): Ghost<Set<int>>,
) -> (res: (usize, Ghost<Set<int>>))
    requires
        opp != Stone::Empty,
        b1.len() == 361,
        old(board)@.len() == 361,
        n < 361,
        idx_ok(p),
        adjacent(p, n as int),
        forall|j: int|
            0 <= j < 361 ==> old(board)@[j] == (if d.contains(j) {
                Stone::Empty
            } else {
                b1[j]
            }),
        forall|x: int| #[trigger]
            d.contains(x) ==> idx_ok(x) && b1[x] == opp && move_removes(b1, p, opp, x),
        forall|x: int, y: int| d.contains(x) && adjacent(x, y) && b1[y] == opp ==> d.contains(y),
        captured == count_true(Seq::new(361, |j: int| d.contains(j))),
    ensures
        final(board)@.len() == 361,
        forall|j: int|
            0 <= j < 361 ==> final(board)@[j] == (if res.1@.contains(j) {
                Stone::Empty
            } else {
                b1[j]
            }),
        forall|x: int| #[trigger]
            res.1@.contains(x) ==> idx_ok(x) && b1[x] == opp && move_removes(b1, p, opp, x),
        forall|x: int, y: int|
            res.1@.contains(x) && adjacent(x, y) && b1[y] == opp ==> res.1@.contains(y),
        res.0 == count_true(Seq::new(361, |j: int| res.1@.contains(j))),
        forall|x: int| d.contains(x) ==> res.1@.contains(x),
        (b1[n as int] == opp && !group_has_liberty(b1, n as int)) ==> (forall|j: int|
            connected(b1, n as int, j) ==> res.1@.contains(j)),
{
    if board[n] == opp {
        proof {
            assert(!d.contains(n as int));
            assert(board@ =~= mask_board(b1, d));
            lemma_mask_component(b1, d, n as int);
        }
        let g = find_group(board, n);
        let has_lib = group_touches(board, &g, n, Stone::Empty);
        if !has_lib {
            let ghost comp = Set::new(|j: int| connected(b1, n as int, j));
            let ghost d2 = d.union(comp);
            proof {
                assert(!group_has_liberty(b1, n as int));
                assert forall|x: int| #[trigger]
                    comp.contains(x) implies !d.contains(x) && idx_ok(x) && b1[x] == opp by {
                    let path = choose|pp: Seq<int>| is_path(b1, pp, n as int, x);
                    lemma_closed_set_avoids(b1, d, path, n as int, x);
                    lemma_connected_bounds(b1, n as int, x);
                }
            }
            let cnt = remove_group(board, &g);
            proof {
                let dm = Seq::new(361, |j: int| d.contains(j));
                let gm = Seq::new(361, |j: int| comp.contains(j));
                let om = Seq::new(361, |j: int| d2.contains(j));
                assert(gm =~= g@);
                lemma_count_true_bounds(dm);
                lemma_count_true_bounds(gm);
                lemma_count_true_disjoint_or(dm, gm, om);
                assert forall|x: int, y: int|
                    d2.contains(x) && adjacent(x, y) && b1[y] == opp implies d2.contains(y) by {
                    if d.contains(x) {
                    } else {
                        assert(comp.contains(x));
                        lemma_connected_step(b1, n as int, x, y);
                        assert(comp.contains(y));
                    }
                }
                assert forall|x: int| #[trigger] d2.contains(x) implies idx_ok(x) && b1[x] == opp
                    && move_removes(b1, p, opp, x) by {
                    if comp.contains(x) {
                        assert(adjacent(p, n as int) && b1[n as int] == opp && !group_has_liberty(
                            b1,
                            n as int,
                        ) && connected(b1, n as int, x));
                    }
                }
            }
            return (captured + cnt, Ghost(d2));
        }
        proof {
            assert(group_has_liberty(b1, n as int));
        }
        (captured, Ghost(d))
    } else {
        proof {
            if b1[n as int] == opp && !group_has_liberty(b1, n as int) {
                assert(d.contains(n as int));
                assert forall|j: int| connected(b1, n as int, j) implies d.contains(j) by {
                    lemma_closed_set_covers(b1, d, n as int, j);
                }
            }
        }
        (captured, Ghost(d))
    }
}

/// Whether placing at `p` (already done on `test`) would capture the
/// opponent group at neighbor `n`.
fn check_capture(test: &Vec<Stone>, n: usize, opp: Stone) -> (r: bool)
    requires
        test@.len() == 361,
        n < 361,
    ensures
        r == (test@[n as int] == opp && !group_has_liberty(test@, n as int)),
{
    if test[n] == opp {
        let g = find_group(test, n);
        let lib = group_touches(test, &g, n, Stone::Empty);
        !lib
    } else {
        false
    }
}

/// Exactly when `is_valid_move` answers yes: the game is on, the position is
/// on the board and empty, and the placement is locally legal. The ko rule is
/// deliberately not part of this query; `place_stone` alone arbitrates ko.
pub open spec fn valid_move_spec(s: GameState, row: int, col: int) -> bool {
    &&& !s.game_over
    &&& pos_ok(row, col)
    &&& move_is_legal_local(s.board@, cell_index(row, col), s.current_player)
}

/// The valid moves among the first `n` cells in row-major order.
pub open spec fn valid_moves_upto(s: GameState, n: int) -> Seq<(usize, usize)>
    decreases n,
{
    if n <= 0 {
        Seq::empty()
    } else {
        valid_moves_upto(s, n - 1) + (if valid_move_spec(s, row_of(n - 1), col_of(n - 1)) {
            seq![(row_of(n - 1) as usize, col_of(n - 1) as usize)]
        } else {
            Seq::empty()
        })
    }
}

/// An empty region reaches, through empty cells, some cell bordered by `v`.
pub open spec fn region_touches(b: Seq<Stone>, j: int, v: Stone) -> bool {
    exists|x: int| #[trigger] connected(b, j, x) && cell_has_neighbor(b, x, v)
}

/// Territory of a player: an empty cell whose whole empty region borders
/// stones of that player and none of the opponent. A region bordering both
/// colors, or nothing at all, is territory for neither.
pub open spec fn cell_is_territory(b: Seq<Stone>, j: int, player: Stone) -> bool {
    &&& idx_ok(j)
    &&& b[j] == Stone::Empty
    &&& region_touches(b, j, player)
    &&& !region_touches(b, j, opponent_of(player))
}

pub open spec fn territory_count(b: Seq<Stone>, player: Stone) -> int {
    count_true(Seq::new(361, |j: int| cell_is_territory(b, j, player)))
}

/// An integer clamped to the usize ceiling.
pub open spec fn clamped(x: int) -> usize {
    if x <= usize::MAX {
        x as usize
    } else {
        usize::MAX
    }
}

fn sat_double(a: usize) -> (r: usize)
    ensures
        r == clamped(2 * a),
{
    if a <= usize::MAX / 2 {
        2 * a
    } else {
        usize::MAX
    }
}

/// One Go game. All mutation goes through `place_stone`, `pass` and `reset`.
pub struct GameState {
    pub board: Vec<Stone>,
    pub current_player: Stone,
    pub previous_board: Option<Vec<Stone>>,
    pub black_captured: usize,
    pub white_captured: usize,
    pub consecutive_passes: usize,
    pub game_over: bool,
    pub last_move: Option<(usize, usize)>,
}

/// The board a game remembers for the ko comparison, as a sequence.
pub open spec fn prev_view(s: GameState) -> Option<Seq<Stone>> {
    match s.previous_board {
        Some(p) => Some(p@),
        None => None,
    }
}

/// Observational equality of two game states: every queryable part agrees.
pub open spec fn same_state(a: GameState, b: GameState) -> bool {
    &&& a.board@ == b.board@
    &&& a.current_player == b.current_player
    &&& prev_view(a) == prev_view(b)
    &&& a.black_captured == b.black_captured
    &&& a.white_captured == b.white_captured
    &&& a.consecutive_passes == b.consecutive_passes
    &&& a.game_over == b.game_over
    &&& a.last_move == b.last_move
}

impl GameState {
    /// Structural soundness of a game state: full-size boards, a real player
    /// to move, in-range bookkeeping.
    pub open spec fn wf(self) -> bool {
        &&& self.board@.len() == 361
        &&& self.current_player != Stone::Empty
        &&& match self.previous_board {
            Some(p) => p@.len() == 361,
            None => true,
        }
        &&& (!self.game_over ==> self.consecutive_passes < 2)
        &&& match self.last_move {
            Some((r, c)) => r < 19 && c < 19,
            None => true,
        }
    }

    /// The state a game starts in and returns to on reset: an empty board,
    /// Black to move, nothing captured, no history.
    pub open spec fn is_initial(self) -> bool {
        &&& self.board@.len() == 361
        &&& (forall|j: int| 0 <= j < 361 ==> self.board@[j] == Stone::Empty)
        &&& self.current_player == Stone::Black
        &&& self.previous_board is None
        &&& self.black_captured == 0
        &&& self.white_captured == 0
        &&& self.consecutive_passes == 0
        &&& !self.game_over
        &&& self.last_move is None
    }

    /// A fresh game: empty board, Black to move.
    pub fn new() -> (s: GameState)
        ensures
            s.wf(),
            s.is_initial(),
    {
        GameState {
            board: filled_board(Stone::Empty),
            current_player: Stone::Black,
            previous_board: None,
            black_captured: 0,
            white_captured: 0,
            consecutive_passes: 0,
            game_over: false,
            last_move: None,
        }
    }

    pub fn current_player(&self) -> (r: Stone)
        ensures
            r == self.current_player,
    {
        self.current_player
    }

    pub fn game_over(&self) -> (r: bool)
        ensures
            r == self.game_over,
    {
        self.game_over
    }

    pub fn black_captured(&self) -> (r: usize)
        ensures
            r == self.black_captured,
    {
        self.black_captured
    }

    pub fn white_captured(&self) -> (r: usize)
        ensures
            r == self.white_captured,
    {
        self.white_captured
    }

    /// The whole board as small integers (0 empty, 1 black, 2 white) in
    /// row-major order.
    pub fn get_board(&self) -> (r: Vec<u8>)
        requires
            self.wf(),
        ensures
            r@.len() == 361,
            forall|j: int| 0 <= j < 361 ==> r@[j] == stone_code(self.board@[j]),
    {
        let mut r: Vec<u8> = Vec::new();
        let mut i: usize = 0;
        while i < 361
            invariant
                i <= 361,
                self.board@.len() == 361,
                r@.len() == i,
                forall|j: int| 0 <= j < i ==> r@[j] == stone_code(self.board@[j]),
            decreases 361 - i,
        {
            let v: u8 = match self.board[i] {
                Stone::Empty => 0,
                Stone::Black => 1,
                Stone::White => 2,
            };
            r.push(v);
            i = i + 1;
        }
        r
    }

    /// The stone at a position; out-of-range queries degrade to `Empty`.
    pub fn get_stone(&self, row: usize, col: usize) -> (r: Stone)
        requires
            self.wf(),
        ensures
            r == if pos_ok(row as int, col as int) {
                self.board@[cell_index(row as int, col as int)]
            } else {
                Stone::Empty
            },
    {
        if row >= 19 || col >= 19 {
            return Stone::Empty;
        }
        proof {
            lemma_cell_index(row as int, col as int);
        }
        self.board[row * 19 + col]
    }

    /// Attempt to place a stone for the side to move. The move is applied --
    /// captures taken, turn passed to the opponent, the pre-move board
    /// remembered for ko -- exactly when it is accepted; any rejected move
    /// (game over, off the board, occupied cell, suicide, ko) leaves every
    /// part of the state unchanged and returns false.
    pub fn place_stone(&mut self, row: usize, col: usize) -> (r: bool)
        requires
            old(self).wf(),
        ensures
            final(self).wf(),
            r == place_accepted(*old(self), row as int, col as int),
            !r ==> same_state(*final(self), *old(self)),
            r ==> final(self).board@ == board_after_move(
                old(self).board@,
                cell_index(row as int, col as int),
                old(self).current_player,
            ),
            r ==> final(self).current_player == opponent_of(old(self).current_player),
            r ==> prev_view(*final(self)) == Some(old(self).board@),
            r ==> final(self).last_move == Some((row, col)),
            r ==> final(self).consecutive_passes == 0,
            r ==> final(self).game_over == false,
            r ==> final(self).black_captured == (if old(self).current_player == Stone::Black {
                saturating_count(
                    old(self).black_captured,
                    move_capture_count(
                        old(self).board@,
                        cell_index(row as int, col as int),
                        old(self).current_player,
                    ),
                )
            } else {
                old(self).black_captured
            }),
            r ==> final(self).white_captured == (if old(self).current_player == Stone::White {
                saturating_count(
                    old(self).white_captured,
                    move_capture_count(
                        old(self).board@,
                        cell_index(row as int, col as int),
                        old(self).current_player,
                    ),
                )
            } else {
                old(self).white_captured
            }),
    {
        if self.game_over {
            return false;
        }
        if row >= 19 || col >= 19 {
            return false;
        }
        proof {
            lemma_cell_index(row as int, col as int);
        }
        let p = row * 19 + col;
        if self.board[p] != Stone::Empty {
            return false;
        }
        let snapshot = copy_board(&self.board);
        let player = self.current_player;
        let opp = flip_player(player);
        self.board[p] = player;
        let ghost b0 = old(self).board@;
        let ghost b1 = self.board@;
        let ghost d0 = Set::<int>::empty();
        proof {
            assert(b1 == b0.update(p as int, player));
            lemma_count_true_all(Seq::new(361, |j: int| d0.contains(j)));
        }
        let captured0: usize = 0;
        let res1 = if row >= 1 {
            proof {
                lemma_adjacent_up(p as int);
            }
            capture_neighbor(&mut self.board, p - 19, opp, captured0, Ghost(b1), Ghost(p as int), Ghost(d0))
        } else {
            (captured0, Ghost(d0))
        };
        let ghost d1 = res1.1@;
        let res2 = if row <= 17 {
            proof {
                lemma_adjacent_down(p as int);
            }
            capture_neighbor(&mut self.board, p + 19, opp, res1.0, Ghost(b1), Ghost(p as int), Ghost(d1))
        } else {
            (res1.0, Ghost(d1))
        };
        let ghost d2 = res2.1@;
        let res3 = if col >= 1 {
            proof {
                lemma_adjacent_left(p as int);
            }
            capture_neighbor(&mut self.board, p - 1, opp, res2.0, Ghost(b1), Ghost(p as int), Ghost(d2))
        } else {
            (res2.0, Ghost(d2))
        };
        let ghost d3 = res3.1@;
        let res4 = if col <= 17 {
            proof {
                lemma_adjacent_right(p as int);
            }
            capture_neighbor(&mut self.board, p + 1, opp, res3.0, Ghost(b1), Ghost(p as int), Ghost(d3))
        } else {
            (res3.0, Ghost(d3))
        };
        let ghost d4 = res4.1@;
        let captured = res4.0;
        proof {
            assert forall|j: int| 0 <= j < 361 implies (d4.contains(j) == move_removes(
                b1,
                p as int,
                opp,
                j,
            )) by {
                if move_removes(b1, p as int, opp, j) {
                    let n = choose|n: int| #[trigger]
                        adjacent(p as int, n) && b1[n] == opp && !group_has_liberty(b1, n)
                            && connected(b1, n, j);
                    lemma_adjacent_enum(p as int, n);
                    if n == p as int - 19 {
                        assert(d1.contains(j));
                    } else if n == p as int + 19 {
                        assert(d2.contains(j));
                    } else if n == p as int - 1 {
                        assert(d3.contains(j));
                    } else {
                        assert(n == p as int + 1);
                        assert(d4.contains(j));
                    }
                }
            }
            assert(self.board@ =~= board_after_move(b0, p as int, player));
            assert(Seq::new(361, |j: int| d4.contains(j)) =~= removal_mask(b1, p as int, opp));
            assert(captured == move_capture_count(b0, p as int, player));
        }
        let g = find_group(&self.board, p);
        let own_lib = group_touches(&self.board, &g, p, Stone::Empty);
        proof {
            assert(own_lib == group_has_liberty(board_after_move(b0, p as int, player), p as int));
        }
        if !own_lib && captured == 0 {
            self.board = snapshot;
            proof {
                assert(!move_is_legal_local(b0, p as int, player));
                assert(same_state(*self, *old(self)));
            }
            return false;
        }
        proof {
            assert(move_is_legal_local(b0, p as int, player));
        }
        let mut ko = false;
        match &self.previous_board {
            Some(pb) => {
                if boards_equal(&self.board, pb) {
                    ko = true;
                }
            },
            None => {},
        }
        if ko {
            self.board = snapshot;
            proof {
                assert(same_state(*self, *old(self)));
            }
            return false;
        }
        if player == Stone::Black {
            self.black_captured = sat_counter_add(self.black_captured, captured);
        } else {
            self.white_captured = sat_counter_add(self.white_captured, captured);
        }
        self.previous_board = Some(snapshot);
        self.last_move = Some((row, col));
        self.consecutive_passes = 0;
        self.current_player = opp;
        true
    }

    /// Skip the turn. The second consecutive pass ends the game and leaves
    /// the player unchanged; a single pass flips the player. A pass never
    /// touches the board, the capture totals, or the ko memory.
    pub fn pass(&mut self)
        requires
            old(self).wf(),
        ensures
            final(self).wf(),
            old(self).game_over ==> same_state(*final(self), *old(self)),
            !old(self).game_over ==> final(self).board@ == old(self).board@
                && prev_view(*final(self)) == prev_view(*old(self))
                && final(self).black_captured == old(self).black_captured
                && final(self).white_captured == old(self).white_captured
                && final(self).consecutive_passes == old(self).consecutive_passes + 1
                && final(self).last_move is None
                && final(self).game_over == (old(self).consecutive_passes + 1 >= 2)
                && final(self).current_player == (if old(self).consecutive_passes + 1 >= 2 {
                    old(self).current_player
                } else {
                    opponent_of(old(self).current_player)
                }),
    {
        if self.game_over {
            return;
        }
        self.consecutive_passes = self.consecutive_passes + 1;
        self.last_move = None;
        if self.consecutive_passes >= 2 {
            self.game_over = true;
        } else {
            self.current_player = flip_player(self.current_player);
        }
    }

    /// The most recently placed position, or none after a pass or before any
    /// move.
    pub fn get_last_move(&self) -> (r: Option<(usize, usize)>)
        ensures
            r == self.last_move,
    {
        self.last_move
    }

    /// Start over: equivalent to constructing a fresh game.
    pub fn reset(&mut self)
        ensures
            final(self).wf(),
            final(self).is_initial(),
    {
        *self = GameState::new();
    }

    /// Non-mutating legality query: simulates the placement on a scratch
    /// board and checks capture or liberty, without the ko comparison.
    pub fn is_valid_move(&self, row: usize, col: usize) -> (r: bool)
        requires
            self.wf(),
        ensures
            r == valid_move_spec(*self, row as int, col as int),
    {
        if self.game_over {
            return false;
        }
        if row >= 19 || col >= 19 {
            return false;
        }
        proof {
            lemma_cell_index(row as int, col as int);
        }
        let p = row * 19 + col;
        if self.board[p] != Stone::Empty {
            return false;
        }
        let mut test = copy_board(&self.board);
        let player = self.current_player;
        let opp = flip_player(player);
        test[p] = player;
        let ghost b0 = self.board@;
        let ghost b1 = test@;
        let cap_up = if row >= 1 {
            check_capture(&test, p - 19, opp)
        } else {
            false
        };
        let cap_down = if row <= 17 {
            check_capture(&test, p + 19, opp)
        } else {
            false
        };
        let cap_left = if col >= 1 {
            check_capture(&test, p - 1, opp)
        } else {
            false
        };
        let cap_right = if col <= 17 {
            check_capture(&test, p + 1, opp)
        } else {
            false
        };
        let would_capture = cap_up || cap_down || cap_left || cap_right;
        proof {
            if row >= 1 {
                lemma_adjacent_up(p as int);
            }
            if row <= 17 {
                lemma_adjacent_down(p as int);
            }
            if col >= 1 {
                lemma_adjacent_left(p as int);
            }
            if col <= 17 {
                lemma_adjacent_right(p as int);
            }
            if would_capture {
                let n: int = if cap_up {
                    p as int - 19
                } else if cap_down {
                    p as int + 19
                } else if cap_left {
                    p as int - 1
                } else {
                    p as int + 1
                };
                assert(adjacent(p as int, n) && b1[n] == opp && !group_has_liberty(b1, n));
                lemma_connected_refl(b1, n);
                assert(move_removes(b1, p as int, opp, n));
                assert(removal_mask(b1, p as int, opp)[n]);
                lemma_count_true_pos(removal_mask(b1, p as int, opp), n);
                assert(move_capture_count(b0, p as int, player) > 0);
            } else {
                assert forall|j: int| 0 <= j < 361 implies !removal_mask(b1, p as int, opp)[j] by {
                    if move_removes(b1, p as int, opp, j) {
                        let n = choose|n: int| #[trigger]
                            adjacent(p as int, n) && b1[n] == opp && !group_has_liberty(b1, n)
                                && connected(b1, n, j);
                        lemma_adjacent_enum(p as int, n);
                        assert(false);
                    }
                }
                lemma_count_true_all(removal_mask(b1, p as int, opp));
                assert(move_capture_count(b0, p as int, player) == 0);
                assert(board_after_move(b0, p as int, player) =~= b1);
            }
        }
        let g = find_group(&test, p);
        let own_lib = group_touches(&test, &g, p, Stone::Empty);
        proof {
            if !would_capture {
                assert(own_lib == group_has_liberty(
                    board_after_move(b0, p as int, player),
                    p as int,
                ));
            }
        }
        would_capture || own_lib
    }

    /// Every position the side to move may legally play (ko aside), in
    /// row-major order.
    pub fn get_valid_moves(&self) -> (r: Vec<(usize, usize)>)
        requires
            self.wf(),
        ensures
            r@ == valid_moves_upto(*self, 361),
    {
        let mut r: Vec<(usize, usize)> = Vec::new();
        let mut i: usize = 0;
        while i < 361
            invariant
                i <= 361,
                self.wf(),
                r@ == valid_moves_upto(*self, i as int),
            decreases 361 - i,
        {
            let row = i / 19;
            let col = i % 19;
            proof {
                lemma_index_cell(i as int);
            }
            if self.is_valid_move(row, col) {
                r.push((row, col));
                proof {
                    assert(valid_moves_upto(*self, i as int + 1) =~= valid_moves_upto(
                        *self,
                        i as int,
                    ) + seq![(row, col)]);
                    assert(r@ =~= valid_moves_upto(*self, i as int + 1));
                }
            } else {
                proof {
                    assert(valid_moves_upto(*self, i as int + 1) =~= valid_moves_upto(
                        *self,
                        i as int,
                    ));
                }
            }
            i = i + 1;
        }
        r
    }

    /// The number of empty cells that are territory of `player`.
    pub fn calculate_territory(&self, player: Stone) -> (t: usize)
        requires
            self.wf(),
            player != Stone::Empty,
        ensures
            t == territory_count(self.board@, player),
    {
        let opp = flip_player(player);
        let ghost mask = Seq::new(361, |j: int| cell_is_territory(self.board@, j, player));
        let mut t: usize = 0;
        let mut i: usize = 0;
        while i < 361
            invariant
                i <= 361,
                self.wf(),
                player != Stone::Empty,
                opp == opponent_of(player),
                mask == Seq::new(361, |j: int| cell_is_territory(self.board@, j, player)),
                t == count_true(mask.take(i as int)),
                t <= i,
            decreases 361 - i,
        {
            let mut qualifies = false;
            if self.board[i] == Stone::Empty {
                let g = find_group(&self.board, i);
                let tp = group_touches(&self.board, &g, i, player);
                let to = group_touches(&self.board, &g, i, opp);
                qualifies = tp && !to;
            }
            proof {
                assert(mask[i as int] == qualifies);
                lemma_count_true_take_step(mask, i as int);
                lemma_count_true_bounds(mask.take(i as int + 1));
            }
            if qualifies {
                t = t + 1;
            }
            i = i + 1;
        }
        proof {
            assert(mask.take(361) =~= mask);
        }
        t
    }

    /// Final scores once the game has ended, in half points (twice the
    /// score, so that White's 6.5 komi stays integral): each player scores
    /// territory plus captures, and White receives the komi on top. Before
    /// the game ends the result is a zero pair.
    pub fn calculate_scores(&self) -> (r: (usize, usize))
        requires
            self.wf(),
        ensures
            !self.game_over ==> r == (0usize, 0usize),
            self.game_over ==> r.0 == clamped(
                2 * (territory_count(self.board@, Stone::Black) + self.black_captured),
            ),
            self.game_over ==> r.1 == clamped(
                2 * (territory_count(self.board@, Stone::White) + self.white_captured) + 13,
            ),
    {
        if !self.game_over {
            return (0, 0);
        }
        let bt = self.calculate_territory(Stone::Black);
        let wt = self.calculate_territory(Stone::White);
        proof {
            lemma_count_true_bounds(
                Seq::new(361, |j: int| cell_is_territory(self.board@, j, Stone::Black)),
            );
            lemma_count_true_bounds(
                Seq::new(361, |j: int| cell_is_territory(self.board@, j, Stone::White)),
            );
        }
        let black = sat_double(sat_counter_add(bt, self.black_captured));
        let white = sat_counter_add(sat_double(sat_counter_add(wt, self.white_captured)), 13);
        (black, white)
    }

    /// One batched host-facing view of all 361 intersections: the stone, the
    /// star-point flag, the legality of playing there now, and whether it
    /// was the last move.
    pub fn get_board_data(&self) -> (r: Vec<IntersectionData>)
        requires
            self.wf(),
        ensures
            r@.len() == 361,
            forall|k: int|
                0 <= k < 361 ==> (#[trigger] r@[k]).row == row_of(k) && r@[k].col == col_of(k),
            forall|k: int|
                0 <= k < 361 ==> (#[trigger] r@[k]).stone == stone_code(self.board@[k]),
            forall|k: int|
                0 <= k < 361 ==> (#[trigger] r@[k]).is_star_point == is_star_spec(
                    row_of(k),
                    col_of(k),
                ),
            forall|k: int|
                0 <= k < 361 ==> (#[trigger] r@[k]).is_valid_move == valid_move_spec(
                    *self,
                    row_of(k),
                    col_of(k),
                ),
            forall|k: int|
                0 <= k < 361 ==> (#[trigger] r@[k]).is_last_move == (self.last_move == Some(
                    ((row_of(k) as usize), (col_of(k) as usize)),
                ) && self.board@[k] != Stone::Empty),
    {
        let mut r: Vec<IntersectionData> = Vec::new();
        let mut i: usize = 0;
        while i < 361
            invariant
                i <= 361,
                self.wf(),
                r@.len() == i,
                forall|k: int|
                    0 <= k < i ==> (#[trigger] r@[k]).row == row_of(k) && r@[k].col == col_of(k),
                forall|k: int| 0 <= k < i ==> (#[trigger] r@[k]).stone == stone_code(self.board@[k]),
                forall|k: int|
                    0 <= k < i ==> (#[trigger] r@[k]).is_star_point == is_star_spec(
                        row_of(k),
                        col_of(k),
                    ),
                forall|k: int|
                    0 <= k < i ==> (#[trigger] r@[k]).is_valid_move == valid_move_spec(
                        *self,
                        row_of(k),
                        col_of(k),
                    ),
                forall|k: int|
                    0 <= k < i ==> (#[trigger] r@[k]).is_last_move == (self.last_move == Some(
                        ((row_of(k) as usize), (col_of(k) as usize)),
                    ) && self.board@[k] != Stone::Empty),
            decreases 361 - i,
        {
            let row = i / 19;
            let col = i % 19;
            proof {
                lemma_index_cell(i as int);
            }
            let v: u8 = match self.board[i] {
                Stone::Empty => 0,
                Stone::Black => 1,
                Stone::White => 2,
            };
            let is_star = self.is_star_point(row, col);
            let is_valid = self.is_valid_move(row, col);
            let is_last = match self.last_move {
                Some((lr, lc)) => lr == row && lc == col && v != 0,
                None => false,
            };
            r.push(
                IntersectionData {
                    row,
                    col,
                    stone: v,
                    is_star_point: is_star,
                    is_valid_move: is_valid,
                    is_last_move: is_last,
                },
            );
            i = i + 1;
        }
        r
    }

    pub fn is_star_point(&self, row: usize, col: usize) -> (r: bool)
        ensures
            r == is_star_spec(row as int, col as int),
    {
        (row == 3 || row == 9 || row == 15) && (col == 3 || col == 9 || col == 15)
    }

    /// Column label for display: the letters A through S.
    pub fn get_column_label(&self, col: usize) -> (r: String)
        ensures
            col < 19 ==> r@.len() == 1 && r@[0] as int == 65 + col,
            col >= 19 ==> r@.len() == 0,
    {
        let r = match col {
            0 => "A",
            1 => "B",
            2 => "C",
            3 => "D",
            4 => "E",
            5 => "F",
            6 => "G",
            7 => "H",
            8 => "I",
            9 => "J",
            10 => "K",
            11 => "L",
            12 => "M",
            13 => "N",
            14 => "O",
            15 => "P",
            16 => "Q",
            17 => "R",
            18 => "S",
            _ => "",
        };
        proof {
            reveal_strlit("A");
            reveal_strlit("B");
            reveal_strlit("C");
            reveal_strlit("D");
            reveal_strlit("E");
            reveal_strlit("F");
            reveal_strlit("G");
            reveal_strlit("H");
            reveal_strlit("I");
            reveal_strlit("J");
            reveal_strlit("K");
            reveal_strlit("L");
            reveal_strlit("M");
            reveal_strlit("N");
            reveal_strlit("O");
            reveal_strlit("P");
            reveal_strlit("Q");
            reveal_strlit("R");
            reveal_strlit("S");
            reveal_strlit("");
        }
        r.to_owned()
    }

    /// Row label for display: 19 for the top row down to 1 for the bottom.
    pub fn get_row_label(&self, row: usize) -> (r: String)
        requires
            row < 19,
        ensures
            row <= 9 ==> r@.len() == 2 && r@[0] == '1' && r@[1] as int == 57 - row,
            row >= 10 ==> r@.len() == 1 && r@[0] as int == 67 - row,
    {
        let r = match row {
            0 => "19",
            1 => "18",
            2 => "17",
            3 => "16",
            4 => "15",
            5 => "14",
            6 => "13",
            7 => "12",
            8 => "11",
            9 => "10",
            10 => "9",
            11 => "8",
            12 => "7",
            13 => "6",
            14 => "5",
            15 => "4",
            16 => "3",
            17 => "2",
            _ => "1",
        };
        proof {
            reveal_strlit("19");
            reveal_strlit("18");
            reveal_strlit("17");
            reveal_strlit("16");
            reveal_strlit("15");
            reveal_strlit("14");
            reveal_strlit("13");
            reveal_strlit("12");
            reveal_strlit("11");
            reveal_strlit("10");
            reveal_strlit("9");
            reveal_strlit("8");
            reveal_strlit("7");
            reveal_strlit("6");
            reveal_strlit("5");
            reveal_strlit("4");
            reveal_strlit("3");
            reveal_strlit("2");
            reveal_strlit("1");
        }
        r.to_owned()
    }
}

/// A placement that captures at least one opponent stone is accepted even
/// when its own group would otherwise be left without a liberty: captures
/// are resolved before the self-liberty check, so only the ko comparison can
/// still reject such a move.
pub proof fn lemma_capture_overrides_suicide(s: GameState, row: int, col: int)
    requires
        s.wf(),
        !s.game_over,
        pos_ok(row, col),
        s.board@[cell_index(row, col)] == Stone::Empty,
        move_capture_count(s.board@, cell_index(row, col), s.current_player) > 0,
        match s.previous_board {
            Some(pb) => board_after_move(s.board@, cell_index(row, col), s.current_player) != pb@,
            None => true,
        },
    ensures
        place_accepted(s, row, col),
{
}

/// On a board without a single stone no empty region borders any color, so
/// neither player holds territory: the scores of a finished game on such a
/// board reduce to the capture totals plus White's komi.
pub proof fn lemma_empty_board_no_territory(b: Seq<Stone>, player: Stone)
    requires
        b.len() == 361,
        player != Stone::Empty,
        forall|j: int| 0 <= j < 361 ==> b[j] == Stone::Empty,
    ensures
        territory_count(b, player) == 0,
{
    let mask = Seq::new(361, |j: int| cell_is_territory(b, j, player));
    assert forall|j: int| 0 <= j < 361 implies !mask[j] by {
        if cell_is_territory(b, j, player) {
            let x = choose|x: int| #[trigger] connected(b, j, x) && cell_has_neighbor(b, x, player);
            let k = choose|k: int| adjacent(x, k) && b[k] == player;
            assert(idx_ok(k));
            assert(false);
        }
    }
    lemma_count_true_all(mask);
}

/// On a finished game whose board is entirely empty both players hold zero
/// territory, so by the contract of `calculate_scores` the scores reduce to
/// the capture totals plus White's komi.
pub proof fn lemma_empty_board_scores(s: GameState)
    requires
        s.wf(),
        forall|j: int| 0 <= j < 361 ==> s.board@[j] == Stone::Empty,
    ensures
        territory_count(s.board@, Stone::Black) == 0,
        territory_count(s.board@, Stone::White) == 0,
        clamped(2 * (territory_count(s.board@, Stone::Black) + s.black_captured)) == clamped(
            2 * s.black_captured,
        ),
        clamped(2 * (territory_count(s.board@, Stone::White) + s.white_captured) + 13) == clamped(
            2 * s.white_captured + 13,
        ),
{
    lemma_empty_board_no_territory(s.board@, Stone::Black);
    lemma_empty_board_no_territory(s.board@, Stone::White);
}

/// On a fresh, empty board every on-board placement is accepted: nothing can
/// be captured, but the placed stone always has an empty neighbor, and there
/// is no previous board for the ko rule to compare against.
pub proof fn lemma_fresh_board_move_accepted(s: GameState, row: int, col: int)
    requires
        s.wf(),
        s.is_initial(),
        pos_ok(row, col),
    ensures
        place_accepted(s, row, col),
{
    lemma_cell_index(row, col);
    let p = cell_index(row, col);
    let player = s.current_player;
    let b1 = s.board@.update(p, player);
    let opp = opponent_of(player);
    assert forall|j: int| 0 <= j < 361 implies !removal_mask(b1, p, opp)[j] by {
        if move_removes(b1, p, opp, j) {
            let n = choose|n: int| #[trigger]
                adjacent(p, n) && b1[n] == opp && !group_has_liberty(b1, n) && connected(b1, n, j);
            assert(b1[n] == Stone::Empty || n == p);
            assert(false);
        }
    }
    lemma_count_true_all(removal_mask(b1, p, opp));
    assert(board_after_move(s.board@, p, player) =~= b1);
    lemma_connected_refl(b1, p);
    if col <= 17 {
        lemma_adjacent_right(p);
        assert(b1[p + 1] == Stone::Empty);
        assert(cell_has_neighbor(b1, p, Stone::Empty));
    } else {
        lemma_adjacent_left(p);
        assert(b1[p - 1] == Stone::Empty);
        assert(cell_has_neighbor(b1, p, Stone::Empty));
    }
    assert(group_has_liberty(b1, p));
}

/// Every stone on the board belongs to a group with at least one liberty.
/// This holds of every board a game can reach: captures remove a dead group
/// the moment it arises.
pub open spec fn all_groups_alive(b: Seq<Stone>) -> bool {
    forall|i: int| 0 <= i < 361 && #[trigger] b[i] != Stone::Empty ==> group_has_liberty(b, i)
}

/// A locally legal placement keeps every group on the board alive: after the
/// stone goes down and the captures come off, no stone of either color is
/// left without a liberty.
pub proof fn lemma_move_preserves_liveness(b0: Seq<Stone>, p: int, player: Stone)
    requires
        b0.len() == 361,
        idx_ok(p),
        b0[p] == Stone::Empty,
        player == Stone::Black || player == Stone::White,
        all_groups_alive(b0),
        move_is_legal_local(b0, p, player),
    ensures
        all_groups_alive(board_after_move(b0, p, player)),
{
    let b1 = b0.update(p, player);
    let opp = opponent_of(player);
    let b2 = board_after_move(b0, p, player);
    let dset = Set::new(|x: int| move_removes(b1, p, opp, x));
    assert(b2 =~= mask_board(b1, dset));
    assert forall|x: int| #[trigger] dset.contains(x) implies idx_ok(x) && b1[x] == opp by {
        let n = choose|n: int| #[trigger]
            adjacent(p, n) && b1[n] == opp && !group_has_liberty(b1, n) && connected(b1, n, x);
        lemma_connected_bounds(b1, n, x);
    }
    assert forall|x: int, y: int|
        dset.contains(x) && adjacent(x, y) && b1[y] == opp implies dset.contains(y) by {
        let n = choose|n: int| #[trigger]
            adjacent(p, n) && b1[n] == opp && !group_has_liberty(b1, n) && connected(b1, n, x);
        lemma_connected_step(b1, n, x, y);
    }
    assert forall|i: int|
        0 <= i < 361 && #[trigger] b2[i] != Stone::Empty implies group_has_liberty(b2, i) by {
        assert(!dset.contains(i));
        assert(b2[i] == b1[i]);
        if b1[i] == opp {
            lemma_mask_component(b1, dset, i);
            if !group_has_liberty(b1, i) {
                assert(i != p);
                assert(b0[i] == opp);
                assert(group_has_liberty(b0, i));
                let x = choose|x: int| #[trigger]
                    connected(b0, i, x) && cell_has_neighbor(b0, x, Stone::Empty);
                let k = choose|k: int| adjacent(x, k) && b0[k] == Stone::Empty;
                lemma_update_frame(b0, p, player, i);
                assert(connected(b1, i, x));
                if k != p {
                    assert(b1[k] == Stone::Empty);
                    assert(adjacent(x, k) && b1[k] == Stone::Empty);
                    assert(cell_has_neighbor(b1, x, Stone::Empty));
                    assert(false);
                }
                assert(adjacent(p, x));
                lemma_connected_bounds(b1, i, x);
                lemma_connected_liberty(b1, i, x);
                lemma_connected_sym(b1, i, x);
                assert(adjacent(p, x) && b1[x] == opp && !group_has_liberty(b1, x) && connected(
                    b1,
                    x,
                    i,
                ));
                assert(dset.contains(i));
                assert(false);
            }
        } else {
            assert(b1[i] == player);
            lemma_mask_other_color(b1, dset, i);
            lemma_connected_refl(b1, i);
            if connected(b1, i, p) {
                assert(connected(b2, i, p));
                if move_capture_count(b0, p, player) > 0 {
                    lemma_count_true_nonzero(removal_mask(b1, p, opp));
                    let j = choose|j: int|
                        0 <= j < removal_mask(b1, p, opp).len() && removal_mask(b1, p, opp)[j];
                    assert(move_removes(b1, p, opp, j));
                    let n = choose|n: int| #[trigger]
                        adjacent(p, n) && b1[n] == opp && !group_has_liberty(b1, n) && connected(
                            b1,
                            n,
                            j,
                        );
                    lemma_connected_refl(b1, n);
                    assert(move_removes(b1, p, opp, n));
                    assert(dset.contains(n));
                    assert(b2[n] == Stone::Empty);
                    assert(adjacent(p, n) && b2[n] == Stone::Empty);
                    assert(cell_has_neighbor(b2, p, Stone::Empty));
                    assert(connected(b2, i, p) && cell_has_neighbor(b2, p, Stone::Empty));
                } else {
                    assert(group_has_liberty(b2, p));
                    lemma_connected_liberty(b2, i, p);
                }
            } else {
                assert(i != p);
                assert(b0[i] == player);
                assert(group_has_liberty(b0, i));
                let x = choose|x: int| #[trigger]
                    connected(b0, i, x) && cell_has_neighbor(b0, x, Stone::Empty);
                let k = choose|k: int| adjacent(x, k) && b0[k] == Stone::Empty;
                lemma_update_frame(b0, p, player, i);
                assert(connected(b1, i, x));
                if k == p {
                    lemma_connected_bounds(b1, i, x);
                    assert(adjacent(x, p));
                    lemma_connected_step(b1, i, x, p);
                    assert(false);
                }
                assert(b1[k] == Stone::Empty);
                assert(!dset.contains(k));
                assert(b2[k] == Stone::Empty);
                assert(connected(b2, i, x));
                assert(adjacent(x, k) && b2[k] == Stone::Empty);
                assert(cell_has_neighbor(b2, x, Stone::Empty));
                assert(connected(b2, i, x) && cell_has_neighbor(b2, x, Stone::Empty));
            }
        }
    }
}

/// Per-intersection view for a host rendering layer: the stone, whether the
/// point is a star point, whether the side to move may legally play there,
/// and whether it was the last move.
pub struct IntersectionData {
    pub row: usize,
    pub col: usize,
    pub stone: u8,
    pub is_star_point: bool,
    pub is_valid_move: bool,
    pub is_last_move: bool,
}

} // verus!
