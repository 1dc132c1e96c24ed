use vstd::prelude::*;
use crate::coords::Coord;
use crate::entities::{Piece, Player, Square};
use crate::move_list::{MoveSnapshot, MoveList};
use crate::board::{Board, BoardView, apply_move, undo_move_spec, applicable};
use crate::castle_utils::CastleUtils;
use crate::legal::{legal_moves, holds_moves, keeps_below, appended, lemma_legal_moves_good, MAX_POSITION_MOVES};

verus! {

/// Material of a piece in fortieths of a pawn: pawn 1, knight and bishop 3,
/// rook 5, queen 9, king 0.
pub open spec fn material(pc: Piece) -> int {
    match pc {
        Piece::Pawn => 40,
        Piece::Knight => 120,
        Piece::Bishop => 120,
        Piece::Rook => 200,
        Piece::Queen => 360,
        Piece::King => 0,
    }
}

pub open spec fn abs(v: int) -> int {
    if v < 0 {
        -v
    } else {
        v
    }
}

/// What a piece on row `y` is worth to its owner, in fortieths of a pawn: its
/// material, plus a positional bonus. For a pawn that has advanced `a` rows from
/// its own back rank the bonus is 3·a² (0.075·a² pawns); for any other piece it
/// is 6·(7 − |7 − 2y|) (0.3·(3.5 − |3.5 − y|) pawns), largest on the middle rows.
pub open spec fn piece_value(pc: Piece, owner: Player, y: int) -> int {
    material(pc) + if pc == Piece::Pawn {
        let adv = if owner == Player::White {
            7 - y
        } else {
            y
        };
        3 * (adv * adv)
    } else {
        6 * (7 - abs(7 - 2 * y))
    }
}

/// The worth to `p` of the first `n` squares.
pub open spec fn player_total(s: Seq<Square>, p: Player, n: int) -> int
    decreases n,
{
    if n <= 0 {
        0
    } else {
        player_total(s, p, n - 1) + match s[n - 1] {
            Square::Occupied(pc, q) => if q == p {
                piece_value(pc, q, (n - 1) / 8)
            } else {
                0
            },
            Square::Blank => 0,
        }
    }
}

/// The static evaluation: White's worth less Black's; positive favours White.
pub open spec fn evaluation(s: Seq<Square>) -> int {
    player_total(s, Player::White, 64) - player_total(s, Player::Black, 64)
}

/// The worth of a player's pieces, negated for Black.
pub open spec fn signed_total(s: Seq<Square>, p: Player) -> int {
    if p == Player::Black {
        -player_total(s, p, 64)
    } else {
        player_total(s, p, 64)
    }
}

/// The evaluation bound: a side with no move scores it against itself.
pub const MAX_EVAL: i32 = 360040;

pub const MIN_EVAL: i32 = -360040;

/// The score of a position whose side to move has no legal move.
pub open spec fn no_move_value(p: Player) -> int {
    if p == Player::White {
        MIN_EVAL as int
    } else {
        MAX_EVAL as int
    }
}

/// Exhaustive minimax without pruning, searching `depth` plies: a depth of 0
/// scores the board statically; otherwise White maximises and Black minimises,
/// over the legal moves, the value of the board after the move one ply shallower,
/// and a side with no legal move scores the no-move value.
pub open spec fn minimax(b: BoardView, depth: nat) -> int
    decreases depth, 1nat, 0nat,
{
    if depth == 0 {
        evaluation(b.squares)
    } else {
        best_over(b, legal_moves(b), depth, legal_moves(b).len())
    }
}

/// The best value for the side to move of `b` over the first `n` moves of `ms`,
/// each searched to `depth - 1` plies after it, starting from the value of
/// having no move.
pub open spec fn best_over(b: BoardView, ms: Seq<MoveSnapshot>, depth: nat, n: nat) -> int
    decreases depth, 0nat, n,
{
    if n == 0 || depth == 0 {
        no_move_value(b.turn)
    } else {
        let prev = best_over(b, ms, depth, (n - 1) as nat);
        let v = minimax(apply_move(b, ms[n - 1]), (depth - 1) as nat);
        if b.turn == Player::White {
            if v > prev {
                v
            } else {
                prev
            }
        } else {
            if v < prev {
                v
            } else {
                prev
            }
        }
    }
}

/// A search of depth 0 gives the static evaluation of the board itself.
pub proof fn lemma_depth_zero_is_static(b: BoardView)
    ensures
        minimax(b, 0) == evaluation(b.squares),
{
}

/// The value of making `m` on `b` in a search of `depth` plies: the board after
/// the move, searched to `depth - 1` plies.
pub open spec fn child_value(b: BoardView, m: MoveSnapshot, depth: nat) -> int {
    minimax(apply_move(b, m), (depth - 1) as nat)
}

/// What the search stores with a move of value `m` it examined at a node with
/// window (alpha, beta): for White to move, an upper bound of `m` below `beta`
/// and a lower bound from `beta` on; for Black, a lower bound above `alpha` and
/// an upper bound from `alpha` down.
pub open spec fn stored_ok(s: int, m: int, alpha: int, beta: int, white: bool) -> bool {
    if white {
        (s < beta ==> m <= s) && (s >= beta ==> m >= s)
    } else {
        (s > alpha ==> m >= s) && (s <= alpha ==> m <= s)
    }
}

/// `c` increased by `k`, stopping at the largest `u64`.
pub open spec fn saturating_sum(c: u64, k: int) -> int {
    if c + k > u64::MAX {
        u64::MAX as int
    } else {
        c + k
    }
}

/// What an alpha-beta search with window (alpha, beta) owes for a position of
/// minimax value `m`: an upper bound when it fails low, a lower bound when it
/// fails high, and the value itself inside the window.
pub open spec fn ab_ok(v: int, m: int, alpha: int, beta: int) -> bool {
    &&& (v <= alpha ==> m <= v)
    &&& (v >= beta ==> m >= v)
    &&& (alpha < v < beta ==> m == v)
}

proof fn lemma_piece_value_bounds(pc: Piece, owner: Player, y: int)
    requires
        0 <= y <= 7,
    ensures
        0 <= piece_value(pc, owner, y) <= 402,
{
    let adv = if owner == Player::White {
        7 - y
    } else {
        y
    };
    assert(0 <= adv * adv <= 49) by (nonlinear_arith)
        requires
            0 <= adv <= 7,
    ;
}

proof fn lemma_total_bounds(s: Seq<Square>, p: Player, n: int)
    requires
        0 <= n <= 64,
    ensures
        0 <= player_total(s, p, n) <= 402 * n,
    decreases n,
{
    if n > 0 {
        lemma_total_bounds(s, p, n - 1);
        match s[n - 1] {
            Square::Occupied(pc, q) => lemma_piece_value_bounds(pc, q, (n - 1) / 8),
            Square::Blank => {},
        }
    }
}

proof fn lemma_evaluation_bounds(s: Seq<Square>)
    ensures
        -25728 <= evaluation(s) <= 25728,
{
    lemma_total_bounds(s, Player::White, 64);
    lemma_total_bounds(s, Player::Black, 64);
}

/// Minimax values lie within the evaluation bound.
pub proof fn lemma_minimax_bounds(b: BoardView, depth: nat)
    ensures
        MIN_EVAL <= minimax(b, depth) <= MAX_EVAL,
    decreases depth, 1nat,
{
    if depth == 0 {
        lemma_evaluation_bounds(b.squares);
    } else {
        lemma_best_over_fold_bounds(b, legal_moves(b), depth, legal_moves(b).len());
    }
}

proof fn lemma_best_over_fold_bounds(b: BoardView, ms: Seq<MoveSnapshot>, depth: nat, n: nat)
    ensures
        MIN_EVAL <= best_over(b, ms, depth, n) <= MAX_EVAL,
    decreases depth, 0nat, n,
{
    if n > 0 && depth > 0 {
        lemma_best_over_fold_bounds(b, ms, depth, (n - 1) as nat);
        lemma_minimax_bounds(apply_move(b, ms[n - 1]), (depth - 1) as nat);
    }
}

/// The best value over more moves is at least as good for the side to move.
proof fn lemma_best_over_mono(b: BoardView, ms: Seq<MoveSnapshot>, depth: nat, k: nat, n: nat)
    requires
        k <= n,
    ensures
        b.turn == Player::White ==> best_over(b, ms, depth, k) <= best_over(b, ms, depth, n),
        b.turn == Player::Black ==> best_over(b, ms, depth, k) >= best_over(b, ms, depth, n),
    decreases n,
{
    if k < n {
        lemma_best_over_mono(b, ms, depth, k, (n - 1) as nat);
    }
}

/// The best value over the first `n` moves is at least as good, for the side to
/// move, as the value of each of them.
proof fn lemma_best_over_covers(b: BoardView, ms: Seq<MoveSnapshot>, depth: nat, k: nat, n: nat)
    requires
        k < n,
        depth > 0,
    ensures
        b.turn == Player::White ==> child_value(b, ms[k as int], depth) <= best_over(b, ms, depth, n),
        b.turn == Player::Black ==> child_value(b, ms[k as int], depth) >= best_over(b, ms, depth, n),
    decreases n,
{
    if k < n - 1 {
        lemma_best_over_covers(b, ms, depth, k, (n - 1) as nat);
    }
}

/// Making snapshots that differ only in their evaluation does the same.
proof fn lemma_same_move_apply(b: BoardView, m1: MoveSnapshot, m2: MoveSnapshot)
    requires
        m1.same_move(m2),
    ensures
        apply_move(b, m1) == apply_move(b, m2),
        undo_move_spec(apply_move(b, m1), m1) == undo_move_spec(apply_move(b, m2), m2),
        applicable(b, m1) == applicable(b, m2),
        m1.wf() == m2.wf(),
{
    reveal_with_fuel(crate::board::write_afters, 6);
    reveal_with_fuel(crate::board::write_befores, 6);
    assert(forall|i: int, j: int| crate::board::slots_distinct(m1, i, j) == crate::board::slots_distinct(m2, i, j));
}

pub struct Ai {
    global_moves: MoveList,
    test_board: Board,
    targets: Vec<Coord>,
    probe: Vec<Coord>,
    castle_utils: CastleUtils,
    root_len: usize,
    root_examined: usize,
    /// Leaves (static evaluations) of the last search, saturating.
    counter: u64,
}

impl Ai {
    /// The worth of `player`'s pieces on `board`, negated for Black.
    pub fn evaluate_player(board: &Board, player: Player) -> (r: i32)
        requires
            board.wf(),
        ensures
            r == signed_total(board@.squares, player),
            player == Player::Black ==> -25728 <= r <= 0,
            player == Player::White ==> 0 <= r <= 25728,
    {
        let ghost s = board@.squares;
        proof {
            board.lemma_wf_len();
        }
        let mut value: i32 = 0;
        let mut i: usize = 0;
        while i < 64
            invariant
                board.wf(),
                s == board@.squares,
                s.len() == 64,
                i <= 64,
                value == player_total(s, player, i as int),
                0 <= value <= 402 * i,
            decreases 64 - i,
        {
            let x = (i % 8) as u8;
            let y = (i / 8) as u8;
            assert(s[i as int] == crate::board::sq_at(s, x as int, y as int));
            match board.get_by_xy(x, y) {
                Square::Occupied(piece, owner) => {
                    if owner == player {
                        let piece_value: i32 = match piece {
                            Piece::Queen => 360,
                            Piece::Pawn => 40,
                            Piece::Rook => 200,
                            Piece::Bishop => 120,
                            Piece::Knight => 120,
                            Piece::King => 0,
                        };
                        let positional: i32 = match piece {
                            Piece::Pawn => {
                                let adv: i32 = match owner {
                                    Player::White => 7 - y as i32,
                                    Player::Black => y as i32,
                                };
                                assert(0 <= adv * adv <= 49) by (nonlinear_arith)
                                    requires
                                        0 <= adv <= 7,
                                ;
                                let sq: i32 = adv * adv;
                                3 * sq
                            },
                            _ => {
                                let d: i32 = 7 - 2 * y as i32;
                                let ad: i32 = if d < 0 {
                                    -d
                                } else {
                                    d
                                };
                                6 * (7 - ad)
                            },
                        };
                        value = value + piece_value + positional;
                    }
                },
                Square::Blank => {},
            }
            i = i + 1;
        }
        if player == Player::Black {
            value = -value;
        }
        value
    }

    /// The static evaluation of `board`.
    pub fn evaluate(board: &Board) -> (r: i32)
        requires
            board.wf(),
        ensures
            r == evaluation(board@.squares),
            -25728 <= r <= 25728,
    {
        let b = Ai::evaluate_player(board, Player::Black);
        let w = Ai::evaluate_player(board, Player::White);
        b + w
    }
}


impl Ai {
    pub closed spec fn wf(&self) -> bool {
        &&& self.global_moves.wf()
        &&& self.test_board.wf()
        &&& self.castle_utils.wf()
        &&& self.root_examined <= self.root_len <= self.global_moves.v@.len()
    }

    /// How many root candidates the last search examined: all of them unless a
    /// cutoff ended the root early.
    pub closed spec fn spec_root_examined(&self) -> usize {
        self.root_examined
    }

    /// The candidates of the last search's root with the values found for them,
    /// in generation order.
    pub closed spec fn spec_root_moves(&self) -> Seq<MoveSnapshot> {
        self.global_moves.v@.subrange(0, self.root_len as int)
    }

    pub closed spec fn spec_counter(&self) -> u64 {
        self.counter
    }

    /// The number of leaves the last search evaluated, saturating at the largest
    /// `u64`.
    pub fn get_counter(&self) -> (r: u64)
        ensures
            r == self.spec_counter(),
    {
        self.counter
    }

    pub fn new() -> (r: Ai)
        ensures
            r.wf(),
            r.spec_counter() == 0,
    {
        Ai {
            global_moves: MoveList::new(1000),
            test_board: Board::new(),
            targets: Vec::new(),
            probe: Vec::new(),
            castle_utils: CastleUtils::new(),
            root_len: 0,
            root_examined: 0,
            counter: 0,
        }
    }

    /// Alpha-beta search of the scratch board to `depth` plies. At depth 0 the
    /// board is scored statically, one leaf. Otherwise the moves of this node are
    /// generated into the shared buffer from `moves_start` on, deeper nodes write
    /// past them, and each move is made, searched one ply shallower and taken back
    /// in turn; its slot receives the value found for it. A cutoff ends the loop
    /// early. Returns the value, the buffer index of the first best move, the end
    /// of this node's moves (where the cursor is left) and the end of the moves
    /// examined.
    fn alpha_beta(&mut self, depth: u8, alpha: i32, beta: i32, moves_start: usize) -> (r: (
        i32,
        Option<usize>,
        usize,
        usize,
    ))
        requires
            old(self).wf(),
            MIN_EVAL <= alpha < beta <= MAX_EVAL,
            moves_start + MAX_POSITION_MOVES * (depth + 1) <= usize::MAX,
        ensures
            final(self).wf(),
            final(self).test_board@ == old(self).test_board@,
            ab_ok(r.0 as int, minimax(old(self).test_board@, depth as nat), alpha as int, beta as int),
            MIN_EVAL <= r.0 <= MAX_EVAL,
            keeps_below(old(self).global_moves.v@, final(self).global_moves.v@, moves_start as int),
            final(self).global_moves.write_index == r.2,
            final(self).counter >= old(self).counter,
            final(self).root_len == old(self).root_len,
            final(self).root_examined == old(self).root_examined,
            depth == 0 ==> {
                &&& r.0 == evaluation(old(self).test_board@.squares)
                &&& r.1 is None
                &&& r.2 == moves_start
                &&& r.3 == moves_start
                &&& final(self).global_moves.v@ == old(self).global_moves.v@
                &&& final(self).counter == saturating_sum(old(self).counter, 1)
            },
            depth > 0 ==> ({
                let b = old(self).test_board@;
                let ms = legal_moves(b);
                let white = b.turn == Player::White;
                &&& holds_moves(final(self).global_moves.v@, moves_start as int, ms)
                &&& r.2 == moves_start + ms.len()
                &&& moves_start <= r.3 <= r.2
                &&& r.3 < r.2 ==> (if white {
                    r.0 >= beta
                } else {
                    r.0 <= alpha
                })
                &&& r.1 is Some <==> ms.len() > 0
                &&& forall|k: int|
                    moves_start <= k < r.3 ==> stored_ok(
                        (#[trigger] final(self).global_moves.v@[k]).1 as int,
                        child_value(b, ms[k - moves_start], depth as nat),
                        alpha as int,
                        beta as int,
                        white,
                    )
                &&& r.1 matches Some(j) ==> {
                    &&& moves_start <= j < r.3
                    &&& final(self).global_moves.v@[j as int].1 == r.0
                    &&& ab_ok(r.0 as int, child_value(b, ms[j - moves_start], depth as nat), alpha as int, beta as int)
                    &&& forall|k: int|
                        0 <= k < j - moves_start ==> if white {
                            child_value(b, #[trigger] ms[k], depth as nat) < r.0
                        } else {
                            child_value(b, #[trigger] ms[k], depth as nat) > r.0
                        }
                }
                &&& depth == 1 ==> final(self).counter == saturating_sum(old(self).counter, r.3 - moves_start)
            }),
        decreases depth,
    {
        let ghost b = self.test_board@;
        let ghost ms = legal_moves(b);
        let ghost v0 = self.global_moves.v@;
        let ghost c0 = self.counter;
        proof {
            self.test_board.lemma_wf_len();
        }
        if depth == 0 {
            if self.counter < u64::MAX {
                self.counter = self.counter + 1;
            }
            self.global_moves.write_index = moves_start;
            proof {
                lemma_evaluation_bounds(b.squares);
            }
            return (Ai::evaluate(&self.test_board), None, moves_start, moves_start);
        }
        let current_player = self.test_board.get_player_with_turn();
        let maximizing = current_player == Player::White;
        self.global_moves.write_index = moves_start;
        self.test_board.get_all_moves(&self.castle_utils, &mut self.targets, &mut self.probe, &mut self.global_moves);
        let moves_end = self.global_moves.write_index;
        let mut best: i32 = if maximizing {
            MIN_EVAL
        } else {
            MAX_EVAL
        };
        let mut best_index: Option<usize> = None;
        let mut cut = false;
        let mut i: usize = moves_start;
        while i < moves_end && !cut
            invariant
                self.wf(),
                self.test_board@ == b,
                b.squares.len() == 64,
                ms == legal_moves(b),
                depth > 0,
                maximizing == (b.turn == Player::White),
                holds_moves(self.global_moves.v@, moves_start as int, ms),
                keeps_below(v0, self.global_moves.v@, moves_start as int),
                moves_end == moves_start + ms.len(),
                ms.len() <= 58 * 64,
                moves_start <= i <= moves_end,
                MIN_EVAL <= alpha < beta <= MAX_EVAL,
                MIN_EVAL <= best <= MAX_EVAL,
                self.counter >= c0,
                depth == 1 ==> self.counter == saturating_sum(c0, i - moves_start),
                self.root_len == old(self).root_len,
                self.root_examined == old(self).root_examined,
                forall|k: int|
                    moves_start <= k < i ==> stored_ok(
                        (#[trigger] self.global_moves.v@[k]).1 as int,
                        child_value(b, ms[k - moves_start], depth as nat),
                        alpha as int,
                        beta as int,
                        maximizing,
                    ),
                best_index is Some <==> i > moves_start,
                best_index matches Some(j) ==> {
                    &&& moves_start <= j < i
                    &&& self.global_moves.v@[j as int].1 == best
                    &&& ab_ok(best as int, child_value(b, ms[j - moves_start], depth as nat), alpha as int, beta as int)
                    &&& forall|k: int|
                        0 <= k < j - moves_start ==> if maximizing {
                            child_value(b, #[trigger] ms[k], depth as nat) < best
                        } else {
                            child_value(b, #[trigger] ms[k], depth as nat) > best
                        }
                },
                moves_start + MAX_POSITION_MOVES * (depth + 1) <= usize::MAX,
                maximizing ==> {
                    let m = best_over(b, ms, depth as nat, (i - moves_start) as nat);
                    &&& !cut ==> m <= best && best < beta
                    &&& best > alpha ==> best <= m
                    &&& cut ==> best >= beta
                },
                !maximizing ==> {
                    let m = best_over(b, ms, depth as nat, (i - moves_start) as nat);
                    &&& !cut ==> m >= best && best > alpha
                    &&& best < beta ==> best >= m
                    &&& cut ==> best <= alpha
                },
                !maximizing ==> best_index is None ==> best == MAX_EVAL,
                maximizing ==> best_index is None ==> best == MIN_EVAL,
            decreases moves_end - i,
        {
            let ghost k = i - moves_start;
            let m = self.global_moves.v[i];
            assert(self.global_moves.v@[moves_start + k].same_move(ms[k]));
            proof {
                lemma_legal_moves_good(b, k);
                lemma_same_move_apply(b, m, ms[k]);
                crate::board::lemma_make_undo_restores(b, ms[k]);
                assert forall|kk: int| 0 <= kk < k implies (if maximizing {
                    child_value(b, #[trigger] ms[kk], depth as nat) <= best
                } else {
                    child_value(b, #[trigger] ms[kk], depth as nat) >= best
                }) by {
                    lemma_best_over_covers(b, ms, depth as nat, kk as nat, k as nat);
                }
            }
            let ghost after = apply_move(b, ms[k]);
            self.test_board.make_move(&m);
            let new_alpha = if maximizing && best > alpha {
                best
            } else {
                alpha
            };
            let new_beta = if !maximizing && best < beta {
                best
            } else {
                beta
            };
            let ghost before_child = self.global_moves.v@;
            let child = self.alpha_beta(depth - 1, new_alpha, new_beta, moves_end);
            assert forall|j: int| 0 <= j < ms.len() implies (#[trigger] self.global_moves.v@[moves_start + j]).same_move(ms[j]) by {
                assert(before_child[moves_start + j].same_move(ms[j]));
            }
            assert forall|j: int| moves_start <= j < i implies #[trigger] self.global_moves.v@[j] == before_child[j] by {}
            let v = child.0;
            self.test_board.undo_move(&m);
            let ghost before_eval = self.global_moves.v@;
            self.global_moves.set_eval(i, v);
            assert forall|j: int| 0 <= j < ms.len() implies (#[trigger] self.global_moves.v@[moves_start + j]).same_move(ms[j]) by {
                assert(before_eval[moves_start + j].same_move(ms[j]));
            }
            proof {
                lemma_minimax_bounds(after, (depth - 1) as nat);
                assert(child_value(b, ms[k], depth as nat) == minimax(after, (depth - 1) as nat));
                assert(stored_ok(v as int, child_value(b, ms[k], depth as nat), alpha as int, beta as int, maximizing));
            }
            if best_index.is_none() || (maximizing && v > best) || (!maximizing && v < best) {
                best = v;
                best_index = Some(i);
            }
            if (maximizing && best >= beta) || (!maximizing && best <= alpha) {
                cut = true;
            }
            i = i + 1;
        }
        proof {
            lemma_best_over_mono(b, ms, depth as nat, (i - moves_start) as nat, ms.len());
            lemma_minimax_bounds(b, depth as nat);
        }
        self.global_moves.write_index = moves_end;
        (best, best_index, moves_end, i)
    }

    /// Searches a copy of `real_board` to `depth` plies and makes on it the first
    /// move, in generation order, of the best value found. Returns the value of
    /// the position, which is exactly its unpruned minimax value, and the move
    /// made. At depth 0 the value is the static evaluation and no move is made;
    /// when the side to move has no legal move, neither. Afterwards the root
    /// candidates carry the values found for them (see `get_root_moves`) and the
    /// leaf counter holds the number of static evaluations of this search.
    pub fn make_move(&mut self, depth: u8, real_board: &mut Board) -> (r: (i32, Option<MoveSnapshot>))
        requires
            old(self).wf(),
            old(real_board).wf(),
        ensures
            final(self).wf(),
            final(real_board).wf(),
            r.0 == minimax(old(real_board)@, depth as nat),
            r.1 is None <==> (depth == 0 || legal_moves(old(real_board)@).len() == 0),
            r.1 is None ==> final(real_board)@ == old(real_board)@,
            (depth > 0 && legal_moves(old(real_board)@).len() == 0) ==> r.0 == no_move_value(old(real_board)@.turn),
            r.1 matches Some(m) ==> {
                let b = old(real_board)@;
                &&& m.1 == r.0
                &&& final(real_board)@ == apply_move(b, m)
                &&& exists|k: int|
                    0 <= k < legal_moves(b).len() && m.same_move(#[trigger] legal_moves(b)[k])
                        && child_value(b, legal_moves(b)[k], depth as nat) == r.0
                        && forall|j: int| 0 <= j < k ==> child_value(b, #[trigger] legal_moves(b)[j], depth as nat) != r.0
            },
            final(self).spec_root_moves().len() == if depth == 0 {
                0
            } else {
                legal_moves(old(real_board)@).len()
            },
            forall|k: int|
                0 <= k < final(self).spec_root_moves().len() ==> (#[trigger] final(self).spec_root_moves()[k]).same_move(
                    legal_moves(old(real_board)@)[k],
                ),
            final(self).spec_root_examined() <= final(self).spec_root_moves().len(),
            final(self).spec_root_examined() < final(self).spec_root_moves().len() ==> r.0 == (if old(
                real_board,
            )@.turn == Player::White {
                MAX_EVAL
            } else {
                MIN_EVAL
            }),
            forall|k: int|
                0 <= k < final(self).spec_root_examined() ==> if old(real_board)@.turn == Player::White {
                    child_value(old(real_board)@, legal_moves(old(real_board)@)[k], depth as nat)
                        <= (#[trigger] final(self).spec_root_moves()[k]).1
                } else {
                    child_value(old(real_board)@, legal_moves(old(real_board)@)[k], depth as nat)
                        >= (#[trigger] final(self).spec_root_moves()[k]).1
                },
            depth == 0 ==> final(self).spec_counter() == 1,
            depth == 1 ==> final(self).spec_counter() == final(self).spec_root_examined(),
    {
        let ghost b = real_board@;
        self.counter = 0;
        self.test_board.import_from(real_board);
        let (value, best, end, examined) = self.alpha_beta(depth, MIN_EVAL, MAX_EVAL, 0);
        self.root_len = end;
        self.root_examined = examined;
        proof {
            lemma_minimax_bounds(b, depth as nat);
            if depth > 0 {
                assert forall|k: int| 0 <= k < legal_moves(b).len() implies (#[trigger] self.spec_root_moves()[k]).same_move(legal_moves(b)[k]) by {
                    assert(self.global_moves.v@[0 + k].same_move(legal_moves(b)[k]));
                }
                assert forall|k: int| 0 <= k < self.root_examined implies (if b.turn == Player::White {
                    child_value(b, legal_moves(b)[k], depth as nat) <= (#[trigger] self.spec_root_moves()[k]).1
                } else {
                    child_value(b, legal_moves(b)[k], depth as nat) >= (#[trigger] self.spec_root_moves()[k]).1
                }) by {
                    assert(self.spec_root_moves()[k] == self.global_moves.v@[k]);
                    lemma_minimax_bounds(apply_move(b, legal_moves(b)[k]), (depth - 1) as nat);
                }
            }
        }
        match best {
            Some(j) => {
                let m = self.global_moves.v[j];
                proof {
                    let k = j - 0;
                    assert(self.global_moves.v@[0 + k].same_move(legal_moves(b)[k]));
                    lemma_same_move_apply(b, m, legal_moves(b)[k]);
                    lemma_minimax_bounds(apply_move(b, m), (depth - 1) as nat);
                    assert(child_value(b, legal_moves(b)[k], depth as nat) == value);
                }
                real_board.make_move(&m);
                (value, Some(m))
            },
            None => (value, None),
        }
    }

    /// The candidates of the last search's root, in generation order, each with
    /// the value the search found for it (exact, or a bound where the search
    /// pruned).
    pub fn get_root_moves(&self) -> (r: Vec<MoveSnapshot>)
        requires
            self.wf(),
        ensures
            r@ == self.spec_root_moves(),
    {
        let mut out: Vec<MoveSnapshot> = Vec::new();
        let mut i: usize = 0;
        let n = self.root_len;
        while i < n
            invariant
                i <= n,
                n <= self.global_moves.v@.len(),
                n <= self.root_len,
                out@ == self.global_moves.v@.subrange(0, i as int),
            decreases n - i,
        {
            out.push(self.global_moves.v[i]);
            i = i + 1;
        }
        out
    }
}

} // verus!
