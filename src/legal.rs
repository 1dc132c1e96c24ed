use vstd::prelude::*;
use crate::coords::{Coord, Error, file_rank_to_xy_safe};
use crate::entities::{Piece, Player, Square, owned_by, other, first_row};
use crate::move_list::{MoveSnapshot, BeforeAfterSquares, MoveDescription, MoveList, written};
use crate::board::{Board, BoardView, sq_at, rights, apply_move, applicable, lemma_make_undo_restores};
use crate::castle_utils::{CastleUtils, oo_snapshot, ooo_snapshot, oo_travel, ooo_travel, get_player_index};
use crate::movegen::{pseudo_targets, king_capturable, can_land, all_land, lemma_pseudo_lands};

verus! {

/// The move of the piece on (x, y) to `t`, for the side to move of `b`. It takes
/// away the kingside (queenside) right when the mover still holds it and the piece
/// leaves the king's or that rook's home square.
pub open spec fn simple_move(b: BoardView, x: int, y: int, t: Coord) -> MoveSnapshot {
    let piece = sq_at(b.squares, x, y);
    let dst = sq_at(b.squares, t.0 as int, t.1 as int);
    let r = rights(b, b.turn);
    let home = y == first_row(b.turn);
    let f1 = r.0 && home && (x == 4 || x == 7);
    let f2 = r.1 && home && (x == 4 || x == 0);
    MoveSnapshot(
        [
            Some((Coord(x as u8, y as u8), BeforeAfterSquares(piece, Square::Blank))),
            Some((t, BeforeAfterSquares(dst, piece))),
            None,
            None,
            None,
        ],
        0,
        if dst is Blank {
            MoveDescription::Move(f1, f2)
        } else {
            MoveDescription::Capture(f1, f2)
        },
    )
}

/// After `m` the opponent could not take the mover's king.
pub open spec fn safe(b: BoardView, m: MoveSnapshot) -> bool {
    !king_capturable(apply_move(b, m).squares, other(b.turn))
}

/// The moves of the piece on (x, y) to the targets `ts` that leave its king safe,
/// in the order of `ts`.
pub open spec fn keep_safe(b: BoardView, x: int, y: int, ts: Seq<Coord>) -> Seq<MoveSnapshot>
    decreases ts.len(),
{
    if ts.len() == 0 {
        Seq::empty()
    } else {
        let prev = keep_safe(b, x, y, ts.drop_last());
        let m = simple_move(b, x, y, ts.last());
        if safe(b, m) {
            prev.push(m)
        } else {
            prev
        }
    }
}

/// The legal moves of the piece on (x, y), castling aside: none unless it belongs
/// to the side to move.
pub open spec fn legal_from(b: BoardView, x: int, y: int) -> Seq<MoveSnapshot> {
    if owned_by(sq_at(b.squares, x, y), b.turn) {
        keep_safe(b, x, y, pseudo_targets(b.squares, x, y, false))
    } else {
        Seq::empty()
    }
}

/// Every slot's before-square is what the board holds there.
pub open spec fn befores_match(s: Seq<Square>, m: MoveSnapshot) -> bool {
    forall|i: int| 0 <= i < 5 ==> (#[trigger] m.0@[i] matches Some(sl) ==> s[sl.0.index()] == (sl.1).0)
}

/// Castling with snapshot `m` is allowed: the right is held, the king and rook
/// stand at home with blank squares between them (the snapshot's before-squares),
/// the king is not capturable where it stands, nor on any square of `travel`, and
/// not after the move.
pub open spec fn castle_ok(b: BoardView, m: MoveSnapshot, travel: Seq<Coord>, right: bool) -> bool {
    let p = b.turn;
    let o = other(p);
    &&& right
    &&& befores_match(b.squares, m)
    &&& !king_capturable(b.squares, o)
    &&& forall|k: int|
        0 <= k < travel.len() ==> !king_capturable(
            b.squares.update((#[trigger] travel[k]).index(), Square::Occupied(Piece::King, p)),
            o,
        )
    &&& safe(b, m)
}

/// The castling moves of the side to move: kingside first.
pub open spec fn castle_moves(b: BoardView) -> Seq<MoveSnapshot> {
    let p = b.turn;
    let r = rights(b, p);
    let oo = oo_snapshot(p, r.1);
    let ooo = ooo_snapshot(p, r.0);
    (if castle_ok(b, oo, oo_travel(p), r.0) {
        seq![oo]
    } else {
        Seq::empty()
    }) + (if castle_ok(b, ooo, ooo_travel(p), r.1) {
        seq![ooo]
    } else {
        Seq::empty()
    })
}

/// The legal moves from square (x, y); castling belongs to the king's home square.
pub open spec fn legal_from_square(b: BoardView, x: int, y: int) -> Seq<MoveSnapshot> {
    legal_from(b, x, y) + if x == 4 && y == first_row(b.turn) {
        castle_moves(b)
    } else {
        Seq::empty()
    }
}

/// The legal moves from the first `n` squares, in square order.
pub open spec fn legal_upto(b: BoardView, n: int) -> Seq<MoveSnapshot>
    decreases n,
{
    if n <= 0 {
        Seq::empty()
    } else {
        legal_upto(b, n - 1) + legal_from_square(b, (n - 1) % 8, (n - 1) / 8)
    }
}

/// All legal moves of the side to move, square by square (a8 first, h1 last).
pub open spec fn legal_moves(b: BoardView) -> Seq<MoveSnapshot> {
    legal_upto(b, 64)
}

/// `v` holds the moves `ms` (evaluations aside) from index `start` on.
pub open spec fn holds_moves(v: Seq<MoveSnapshot>, start: int, ms: Seq<MoveSnapshot>) -> bool {
    &&& 0 <= start
    &&& (ms.len() == 0 || start + ms.len() <= v.len())
    &&& forall|k: int| 0 <= k < ms.len() ==> (#[trigger] v[start + k]).same_move(ms[k])
}

/// `new` keeps every snapshot of `old` below index `start`.
pub open spec fn keeps_below(old: Seq<MoveSnapshot>, new: Seq<MoveSnapshot>, start: int) -> bool {
    &&& old.len() <= new.len()
    &&& forall|i: int| 0 <= i < start && i < old.len() ==> #[trigger] new[i] == old[i]
}

/// The buffer step of the generators: `r` went from `o` to holding `ms` from
/// `o.write_index` on, its cursor just past them.
pub open spec fn appended(o: MoveList, r: MoveList, ms: Seq<MoveSnapshot>) -> bool {
    &&& r.wf()
    &&& r.write_index == o.write_index + ms.len()
    &&& holds_moves(r.v@, o.write_index as int, ms)
    &&& keeps_below(o.v@, r.v@, o.write_index as int)
    &&& r.revision == o.revision
}

proof fn lemma_append_one(o: MoveList, mid: MoveList, ms: Seq<MoveSnapshot>, r: MoveList, m: MoveSnapshot)
    requires
        appended(o, mid, ms),
        r.wf(),
        written(mid.v@, mid.write_index, m, r.v@),
        r.write_index == mid.write_index + 1,
        r.revision == mid.revision,
    ensures
        appended(o, r, ms.push(m)),
{
    let n = ms.push(m);
    assert forall|k: int| 0 <= k < n.len() implies (#[trigger] r.v@[o.write_index + k]).same_move(n[k]) by {
        if k < ms.len() {
            assert(mid.v@[o.write_index + k].same_move(ms[k]));
        }
    }
}

proof fn lemma_append_concat(o: MoveList, mid: MoveList, a: Seq<MoveSnapshot>, r: MoveList, b: Seq<MoveSnapshot>)
    requires
        appended(o, mid, a),
        appended(mid, r, b),
    ensures
        appended(o, r, a + b),
{
    let n = a + b;
    assert forall|k: int| 0 <= k < n.len() implies (#[trigger] r.v@[o.write_index + k]).same_move(n[k]) by {
        if k < a.len() {
            assert(mid.v@[o.write_index + k].same_move(a[k]));
            assert(r.v@[o.write_index + k] == mid.v@[o.write_index + k]);
        } else {
            assert(r.v@[mid.write_index + (k - a.len())].same_move(b[k - a.len()]));
        }
    }
}

proof fn lemma_append_none(o: MoveList)
    requires
        o.wf(),
    ensures
        appended(o, o, Seq::empty()),
{
}


proof fn lemma_simple_applicable(b: BoardView, x: int, y: int, t: Coord)
    requires
        b.squares.len() == 64,
        0 <= x < 8,
        0 <= y < 8,
        owned_by(sq_at(b.squares, x, y), b.turn),
        can_land(b.squares, b.turn, t.0 as int, t.1 as int, false),
    ensures
        applicable(b, simple_move(b, x, y, t)),
{
    let m = simple_move(b, x, y, t);
    assert(Coord(x as u8, y as u8) != t);
    assert forall|i: int, j: int| 0 <= i < j < 5 implies #[trigger] crate::board::slots_distinct(m, i, j) by {}
    assert forall|i: int| 0 <= i < 5 implies (#[trigger] m.0@[i] matches Some(sl) ==> sl.0.in_bounds()) by {}
}

proof fn lemma_keep_safe_step(b: BoardView, x: int, y: int, ts: Seq<Coord>, k: int)
    requires
        0 <= k < ts.len(),
    ensures
        keep_safe(b, x, y, ts.take(k + 1)) == if safe(b, simple_move(b, x, y, ts[k])) {
            keep_safe(b, x, y, ts.take(k)).push(simple_move(b, x, y, ts[k]))
        } else {
            keep_safe(b, x, y, ts.take(k))
        },
{
    assert(ts.take(k + 1).drop_last() =~= ts.take(k));
}

/// Scratch buffers for the check-threat filter: a board to try moves on and two
/// coordinate lists.
pub struct CheckThreatTempBuffers {
    pub move_list: Vec<Coord>,
    pub targets: Vec<Coord>,
    pub board: Board,
}

impl CheckThreatTempBuffers {
    pub open spec fn wf(&self) -> bool {
        self.board.wf()
    }

    pub fn new() -> (r: CheckThreatTempBuffers)
        ensures
            r.wf(),
    {
        CheckThreatTempBuffers { move_list: Vec::new(), targets: Vec::new(), board: Board::new() }
    }
}

impl Board {
    /// Appends the legal moves of the piece on (x, y), castling aside: each
    /// candidate is made on this board, the opponent's threat probe is run, and the
    /// candidate is taken back.
    fn push_legal_from(
        &mut self,
        x: u8,
        y: u8,
        targets: &mut Vec<Coord>,
        probe: &mut Vec<Coord>,
        result: &mut MoveList,
    )
        requires
            old(self).wf(),
            x < 8,
            y < 8,
            old(result).wf(),
            old(result).write_index + 64 <= usize::MAX,
        ensures
            final(self).wf(),
            final(self)@ == old(self)@,
            appended(*old(result), *final(result), legal_from(old(self)@, x as int, y as int)),
            legal_from(old(self)@, x as int, y as int).len() <= 56,
    {
        let ghost b = self@;
        let ghost r0 = *result;
        proof {
            self.lemma_wf_len();
            lemma_append_none(*result);
        }
        let turn = self.get_player_with_turn();
        match self.get_by_xy(x, y) {
            Square::Occupied(piece, p) => {
                if p == turn {
                    self.pseudo_moves(x, y, false, targets);
                    proof {
                        lemma_pseudo_lands(b.squares, x as int, y as int, false);
                    }
                    let ps = self.get_player_state(p);
                    let oo = ps.can_oo;
                    let ooo = ps.can_ooo;
                    let home = y == p.get_first_row();
                    let f1 = oo && home && (x == 4 || x == 7);
                    let f2 = ooo && home && (x == 4 || x == 0);
                    let mut k: usize = 0;
                    while k < targets.len()
                        invariant
                            self.wf(),
                            self@ == b,
                            b.squares.len() == 64,
                            x < 8,
                            y < 8,
                            targets@ == pseudo_targets(b.squares, x as int, y as int, false),
                            all_land(b.squares, p, targets@, false),
                            targets@.len() <= 56,
                            sq_at(b.squares, x as int, y as int) == Square::Occupied(piece, p),
                            p == b.turn,
                            (oo, ooo) == rights(b, p),
                            home == (y == crate::entities::first_row(p)),
                            f1 == (oo && home && (x == 4 || x == 7)),
                            f2 == (ooo && home && (x == 4 || x == 0)),
                            k <= targets@.len(),
                            appended(r0, *result, keep_safe(b, x as int, y as int, targets@.take(k as int))),
                            keep_safe(b, x as int, y as int, targets@.take(k as int)).len() <= k,
                            r0.write_index + 64 <= usize::MAX,
                        decreases targets@.len() - k,
                    {
                        let t = targets[k];
                        assert(can_land(b.squares, p, targets@[k as int].0 as int, targets@[k as int].1 as int, false));
                        let dst = self.get_by_xy(t.0, t.1);
                        let desc = match dst {
                            Square::Blank => MoveDescription::Move(f1, f2),
                            _ => MoveDescription::Capture(f1, f2),
                        };
                        let m = MoveSnapshot(
                            [
                                Some((Coord(x, y), BeforeAfterSquares(Square::Occupied(piece, p), Square::Blank))),
                                Some((t, BeforeAfterSquares(dst, Square::Occupied(piece, p)))),
                                None,
                                None,
                                None,
                            ],
                            0,
                            desc,
                        );
                        assert(m == simple_move(b, x as int, y as int, t));
                        proof {
                            lemma_simple_applicable(b, x as int, y as int, t);
                            lemma_make_undo_restores(b, m);
                            lemma_keep_safe_step(b, x as int, y as int, targets@, k as int);
                        }
                        self.make_move(&m);
                        let threat = self.for_each_check_threat(p.get_other_player(), probe);
                        self.undo_move(&m);
                        if threat.is_none() {
                            let ghost mid = *result;
                            result.write(m);
                            proof {
                                lemma_append_one(r0, mid, keep_safe(b, x as int, y as int, targets@.take(k as int)), *result, m);
                            }
                        }
                        k = k + 1;
                    }
                    assert(targets@.take(targets@.len() as int) =~= targets@);
                }
            },
            Square::Blank => {},
        }
    }

    /// Appends castling with `snap` when `castle_ok` holds of it.
    fn push_castle(
        &mut self,
        snap: MoveSnapshot,
        travel: &[Coord],
        right: bool,
        probe: &mut Vec<Coord>,
        result: &mut MoveList,
    )
        requires
            old(self).wf(),
            snap.wf(),
            forall|i: int, j: int| 0 <= i < j < 5 ==> #[trigger] crate::board::slots_distinct(snap, i, j),
            right ==> crate::board::rights_before(
                crate::board::rights_after(rights(old(self)@, old(self)@.turn), snap),
                snap,
            ) == rights(old(self)@, old(self)@.turn),
            forall|k: int| 0 <= k < travel@.len() ==> (#[trigger] travel@[k]).in_bounds(),
            old(result).wf(),
            old(result).write_index + 1 <= usize::MAX,
        ensures
            final(self).wf(),
            final(self)@ == old(self)@,
            appended(
                *old(result),
                *final(result),
                if castle_ok(old(self)@, snap, travel@, right) {
                    seq![snap]
                } else {
                    Seq::empty()
                },
            ),
    {
        let ghost b = self@;
        let ghost r0 = *result;
        proof {
            self.lemma_wf_len();
            lemma_append_none(*result);
        }
        let p = self.get_player_with_turn();
        let o = p.get_other_player();
        let mut ok = right;
        let mut i: usize = 0;
        while ok && i < 5
            invariant
                self.wf(),
                self@ == b,
                b.squares.len() == 64,
                snap.wf(),
                i <= 5,
                ok ==> right,
                ok ==> forall|j: int| 0 <= j < i ==> (#[trigger] snap.0@[j] matches Some(sl) ==> b.squares[sl.0.index()] == (sl.1).0),
                !ok ==> !castle_ok(b, snap, travel@, right),
            decreases 5 - i,
        {
            match snap.0[i] {
                Some(sl) => {
                    assert(snap.0@[i as int] matches Some(sl) ==> sl.0.in_bounds());
                    if self.get_by_xy((sl.0).0, (sl.0).1) != (sl.1).0 {
                        ok = false;
                    }
                },
                None => {},
            }
            i = i + 1;
        }
        assert(ok ==> befores_match(b.squares, snap));
        if ok {
            let threat = self.for_each_check_threat(o, probe);
            if threat.is_some() {
                ok = false;
            }
        }
        let mut j: usize = 0;
        while ok && j < travel.len()
            invariant
                self.wf(),
                self@ == b,
                b.squares.len() == 64,
                p == b.turn,
                o == other(p),
                j <= travel@.len(),
                forall|k: int| 0 <= k < travel@.len() ==> (#[trigger] travel@[k]).in_bounds(),
                ok ==> right && befores_match(b.squares, snap) && !king_capturable(b.squares, o),
                ok ==> forall|k: int|
                    0 <= k < j ==> !king_capturable(
                        b.squares.update((#[trigger] travel@[k]).index(), Square::Occupied(Piece::King, p)),
                        o,
                    ),
                !ok ==> !castle_ok(b, snap, travel@, right),
            decreases travel@.len() - j,
        {
            let c = travel[j];
            assert(travel@[j as int].in_bounds());
            let prev = self.get_by_xy(c.0, c.1);
            self.set_by_xy(c.0, c.1, Square::Occupied(Piece::King, p));
            let threat = self.for_each_check_threat(o, probe);
            self.set_by_xy(c.0, c.1, prev);
            assert(self@.squares =~= b.squares);
            if threat.is_some() {
                ok = false;
            }
            j = j + 1;
        }
        if ok {
            proof {
                lemma_make_undo_restores(b, snap);
            }
            self.make_move(&snap);
            let threat = self.for_each_check_threat(o, probe);
            self.undo_move(&snap);
            if threat.is_some() {
                ok = false;
            }
        }
        if ok {
            result.write(snap);
            proof {
                lemma_append_one(r0, r0, Seq::empty(), *result, snap);
                assert(Seq::<MoveSnapshot>::empty().push(snap) =~= seq![snap]);
            }
        }
    }

    /// Appends the castling moves of the side to move, kingside first.
    fn push_castles(&mut self, castle_utils: &CastleUtils, probe: &mut Vec<Coord>, result: &mut MoveList)
        requires
            old(self).wf(),
            castle_utils.wf(),
            old(result).wf(),
            old(result).write_index + 2 <= usize::MAX,
        ensures
            final(self).wf(),
            final(self)@ == old(self)@,
            appended(*old(result), *final(result), castle_moves(old(self)@)),
    {
        let ghost b = self@;
        let ghost r0 = *result;
        let p = self.get_player_with_turn();
        let pi = get_player_index(p);
        let ps = self.get_player_state(p);
        let oo = ps.can_oo;
        let ooo = ps.can_ooo;
        let base = castle_utils.oo_move_snapshots[pi];
        let snap = MoveSnapshot(base.0, base.1, MoveDescription::Oo(ooo));
        assert(snap == oo_snapshot(p, ooo));
        let travel = castle_utils.oo_king_traversal_sqs[pi];
        assert(travel@ == oo_travel(p));
        proof {
            assert forall|i: int| 0 <= i < 5 implies (#[trigger] snap.0@[i] matches Some(sl) ==> sl.0.in_bounds()) by {}
        }
        self.push_castle(snap, travel.as_slice(), oo, probe, result);
        let ghost mid = *result;
        let base = castle_utils.ooo_move_snapshots[pi];
        let snap2 = MoveSnapshot(base.0, base.1, MoveDescription::Ooo(oo));
        assert(snap2 == ooo_snapshot(p, oo));
        let travel = castle_utils.ooo_king_traversal_sqs[pi];
        assert(travel@ == ooo_travel(p));
        proof {
            assert forall|i: int| 0 <= i < 5 implies (#[trigger] snap2.0@[i] matches Some(sl) ==> sl.0.in_bounds()) by {}
        }
        self.push_castle(snap2, travel.as_slice(), ooo, probe, result);
        proof {
            lemma_append_concat(r0, mid, if castle_ok(b, snap, oo_travel(p), oo) {
                seq![snap]
            } else {
                Seq::empty()
            }, *result, if castle_ok(b, snap2, ooo_travel(p), ooo) {
                seq![snap2]
            } else {
                Seq::empty()
            });
        }
    }
}


/// Buffer room set aside for the moves of one position (at most 58 per square
/// are generated).
pub const MAX_POSITION_MOVES: usize = 4096;

impl Board {
    /// Appends the legal moves from square (x, y), castling included when it is
    /// the home square of the side to move's king.
    fn push_legal_from_square(
        &mut self,
        castle_utils: &CastleUtils,
        x: u8,
        y: u8,
        targets: &mut Vec<Coord>,
        probe: &mut Vec<Coord>,
        result: &mut MoveList,
    )
        requires
            old(self).wf(),
            castle_utils.wf(),
            x < 8,
            y < 8,
            old(result).wf(),
            old(result).write_index + 64 <= usize::MAX,
        ensures
            final(self).wf(),
            final(self)@ == old(self)@,
            appended(*old(result), *final(result), legal_from_square(old(self)@, x as int, y as int)),
            legal_from_square(old(self)@, x as int, y as int).len() <= 58,
    {
        let ghost b = self@;
        let ghost r0 = *result;
        self.push_legal_from(x, y, targets, probe, result);
        let ghost mid = *result;
        let p = self.get_player_with_turn();
        if x == 4 && y == p.get_first_row() {
            self.push_castles(castle_utils, probe, result);
            proof {
                lemma_append_concat(r0, mid, legal_from(b, x as int, y as int), *result, castle_moves(b));
            }
        } else {
            proof {
                lemma_append_none(mid);
                lemma_append_concat(r0, mid, legal_from(b, x as int, y as int), mid, Seq::empty());
            }
        }
    }

    /// Appends, from the cursor of `result` on, every legal move of the side to
    /// move (`legal_moves`), square by square; the board is left as it was.
    pub fn get_all_moves(
        &mut self,
        castle_utils: &CastleUtils,
        targets: &mut Vec<Coord>,
        probe: &mut Vec<Coord>,
        result: &mut MoveList,
    )
        requires
            old(self).wf(),
            castle_utils.wf(),
            old(result).wf(),
            old(result).write_index + MAX_POSITION_MOVES <= usize::MAX,
        ensures
            final(self).wf(),
            final(self)@ == old(self)@,
            appended(*old(result), *final(result), legal_moves(old(self)@)),
            legal_moves(old(self)@).len() <= 58 * 64,
    {
        let ghost b = self@;
        let ghost r0 = *result;
        proof {
            lemma_append_none(*result);
        }
        let mut i: usize = 0;
        while i < 64
            invariant
                self.wf(),
                self@ == b,
                castle_utils.wf(),
                i <= 64,
                appended(r0, *result, legal_upto(b, i as int)),
                legal_upto(b, i as int).len() <= 58 * i,
                r0.write_index + MAX_POSITION_MOVES <= usize::MAX,
            decreases 64 - i,
        {
            let ghost mid = *result;
            let x = (i % 8) as u8;
            let y = (i / 8) as u8;
            self.push_legal_from_square(castle_utils, x, y, targets, probe, result);
            proof {
                lemma_append_concat(r0, mid, legal_upto(b, i as int), *result, legal_from_square(b, x as int, y as int));
            }
            i = i + 1;
        }
    }
}


/// The number of moves in a list: its cursor, within what it holds.
pub open spec fn list_len(moves: MoveList) -> int {
    if moves.write_index < moves.v@.len() {
        moves.write_index as int
    } else {
        moves.v@.len() as int
    }
}

impl Board {
    /// Fills `result`, from index 0, with the legal moves of the piece named by
    /// file and rank, and records this board's revision in it. A blank square, or
    /// one of the side not to move, gives no moves. A name off the board gives
    /// `RankOutOfBounds` or `FileOutOfBounds` (the rank is checked first) and an
    /// expired, empty list.
    pub fn get_moves(
        &self,
        file: char,
        rank: u8,
        castle_utils: &CastleUtils,
        temp_buffers: &mut CheckThreatTempBuffers,
        result: &mut MoveList,
    ) -> (r: Result<(), Error>)
        requires
            self.wf(),
            castle_utils.wf(),
            old(temp_buffers).wf(),
            old(result).wf(),
        ensures
            final(temp_buffers).wf(),
            final(result).wf(),
            !(1 <= rank <= 8) ==> r == Err::<(), Error>(Error::RankOutOfBounds(rank)),
            (1 <= rank <= 8 && !('a' <= file <= 'h')) ==> r == Err::<(), Error>(Error::FileOutOfBounds(file)),
            r is Err ==> final(result).revision is None && final(result).write_index == 0,
            (1 <= rank <= 8 && 'a' <= file <= 'h') ==> ({
                let ms = legal_from_square(self@, file as int - 'a' as int, 8 - rank);
                &&& r is Ok
                &&& final(result).revision == Some(self.spec_revision())
                &&& final(result).write_index == ms.len()
                &&& holds_moves(final(result).v@, 0, ms)
            }),
    {
        result.write_index = 0;
        result.revision = None;
        let c = match file_rank_to_xy_safe(file, rank) {
            Err(e) => {
                return Err(e);
            },
            Ok(c) => c,
        };
        temp_buffers.board.import_from(self);
        temp_buffers.board.push_legal_from_square(
            castle_utils,
            c.0,
            c.1,
            &mut temp_buffers.targets,
            &mut temp_buffers.move_list,
            result,
        );
        result.revision = Some(self.get_revision());
        Ok(())
    }

    /// Makes move `index` of a list that `get_moves` built for this board at its
    /// present revision, and expires the list. `MoveListExpired` when the list
    /// was built for another revision or already used; `MoveListOutOfBounds`
    /// (index, length) when there is no such move. On error nothing changes.
    pub fn make_move_from_list(&mut self, moves: &mut MoveList, index: usize) -> (r: Result<(), Error>)
        requires
            old(self).wf(),
            old(moves).wf(),
        ensures
            final(self).wf(),
            old(moves).revision != Some(old(self).spec_revision()) ==> r == Err::<(), Error>(Error::MoveListExpired),
            (old(moves).revision == Some(old(self).spec_revision()) && index >= list_len(*old(moves)))
                ==> r == Err::<(), Error>(Error::MoveListOutOfBounds(index, list_len(*old(moves)) as usize)),
            r is Err ==> final(self)@ == old(self)@ && *final(moves) == *old(moves)
                && final(self).spec_revision() == old(self).spec_revision(),
            (old(moves).revision == Some(old(self).spec_revision()) && index < list_len(*old(moves))) ==> {
                &&& r is Ok
                &&& final(self)@ == apply_move(old(self)@, old(moves).v@[index as int])
                &&& final(moves).revision is None
                &&& final(self).spec_revision() != old(self).spec_revision()
                &&& final(moves).v@ == old(moves).v@
                &&& final(moves).write_index == old(moves).write_index
            },
    {
        let current = self.get_revision();
        match moves.revision {
            Some(rev) => {
                if rev != current {
                    return Err(Error::MoveListExpired);
                }
            },
            None => {
                return Err(Error::MoveListExpired);
            },
        }
        let len = if moves.write_index < moves.v.len() {
            moves.write_index
        } else {
            moves.v.len()
        };
        if index >= len {
            return Err(Error::MoveListOutOfBounds(index, len));
        }
        let m = moves.v[index];
        assert(moves.v@[index as int].wf());
        self.make_move(&m);
        moves.revision = None;
        Ok(())
    }
}


/// A move that fits the board and leaves the mover's king safe.
pub open spec fn good_move(b: BoardView, m: MoveSnapshot) -> bool {
    applicable(b, m) && safe(b, m)
}

pub open spec fn all_good(b: BoardView, ms: Seq<MoveSnapshot>) -> bool {
    forall|j: int| 0 <= j < ms.len() ==> good_move(b, #[trigger] ms[j])
}

proof fn lemma_all_good_concat(b: BoardView, a: Seq<MoveSnapshot>, c: Seq<MoveSnapshot>)
    requires
        all_good(b, a),
        all_good(b, c),
    ensures
        all_good(b, a + c),
{
    assert forall|j: int| 0 <= j < (a + c).len() implies good_move(b, #[trigger] (a + c)[j]) by {
        if j < a.len() {
            assert((a + c)[j] == a[j]);
        } else {
            assert((a + c)[j] == c[j - a.len()]);
        }
    }
}

proof fn lemma_keep_safe_good(b: BoardView, x: int, y: int, ts: Seq<Coord>)
    requires
        b.squares.len() == 64,
        0 <= x < 8,
        0 <= y < 8,
        owned_by(sq_at(b.squares, x, y), b.turn),
        all_land(b.squares, b.turn, ts, false),
    ensures
        all_good(b, keep_safe(b, x, y, ts)),
    decreases ts.len(),
{
    if ts.len() > 0 {
        let d = ts.drop_last();
        assert forall|k: int| 0 <= k < d.len() implies can_land(b.squares, b.turn, (#[trigger] d[k]).0 as int, d[k].1 as int, false) by {
            assert(d[k] == ts[k]);
        }
        lemma_keep_safe_good(b, x, y, d);
        assert(can_land(b.squares, b.turn, ts[ts.len() - 1].0 as int, ts[ts.len() - 1].1 as int, false));
        lemma_simple_applicable(b, x, y, ts.last());
    }
}

proof fn lemma_castle_good(b: BoardView)
    requires
        b.squares.len() == 64,
    ensures
        all_good(b, castle_moves(b)),
{
    let p = b.turn;
    let r = rights(b, p);
    let oo = oo_snapshot(p, r.1);
    let ooo = ooo_snapshot(p, r.0);
    assert forall|i: int, j: int| 0 <= i < j < 5 implies #[trigger] crate::board::slots_distinct(oo, i, j) by {}
    assert forall|i: int, j: int| 0 <= i < j < 5 implies #[trigger] crate::board::slots_distinct(ooo, i, j) by {}
    assert forall|i: int| 0 <= i < 5 implies (#[trigger] oo.0@[i] matches Some(sl) ==> sl.0.in_bounds()) by {}
    assert forall|i: int| 0 <= i < 5 implies (#[trigger] ooo.0@[i] matches Some(sl) ==> sl.0.in_bounds()) by {}
}

proof fn lemma_square_good(b: BoardView, x: int, y: int)
    requires
        b.squares.len() == 64,
        0 <= x < 8,
        0 <= y < 8,
    ensures
        all_good(b, legal_from_square(b, x, y)),
{
    if owned_by(sq_at(b.squares, x, y), b.turn) {
        lemma_pseudo_lands(b.squares, x, y, false);
        lemma_keep_safe_good(b, x, y, pseudo_targets(b.squares, x, y, false));
    }
    lemma_castle_good(b);
    lemma_all_good_concat(b, legal_from(b, x, y), if x == 4 && y == first_row(b.turn) {
        castle_moves(b)
    } else {
        Seq::empty()
    });
}

proof fn lemma_upto_good(b: BoardView, n: int)
    requires
        b.squares.len() == 64,
        0 <= n <= 64,
    ensures
        all_good(b, legal_upto(b, n)),
    decreases n,
{
    if n > 0 {
        lemma_upto_good(b, n - 1);
        lemma_square_good(b, (n - 1) % 8, (n - 1) / 8);
        lemma_all_good_concat(b, legal_upto(b, n - 1), legal_from_square(b, (n - 1) % 8, (n - 1) / 8));
    }
}

/// Every legal move fits its board and leaves the mover's king safe.
pub proof fn lemma_legal_moves_good(b: BoardView, k: int)
    requires
        b.squares.len() == 64,
        0 <= k < legal_moves(b).len(),
    ensures
        good_move(b, legal_moves(b)[k]),
{
    lemma_upto_good(b, 64);
}

/// Making any legal move and taking it back restores the board exactly: the
/// squares, the side to move and both sides' castling rights.
pub proof fn lemma_legal_move_undo_restores(b: BoardView, k: int)
    requires
        b.squares.len() == 64,
        0 <= k < legal_moves(b).len(),
    ensures
        crate::board::undo_move_spec(apply_move(b, legal_moves(b)[k]), legal_moves(b)[k]) == b,
{
    lemma_legal_moves_good(b, k);
    lemma_make_undo_restores(b, legal_moves(b)[k]);
}

/// No legal move leaves the mover's king capturable: the threat probe of the
/// opponent, run again on the resulting board, finds no king to take.
pub proof fn lemma_legal_move_king_safe(b: BoardView, k: int)
    requires
        b.squares.len() == 64,
        0 <= k < legal_moves(b).len(),
    ensures
        !king_capturable(apply_move(b, legal_moves(b)[k]).squares, other(b.turn)),
{
    lemma_legal_moves_good(b, k);
}


/// `m` is a move of one piece of the side to move, from a square of the board.
pub open spec fn is_simple(b: BoardView, m: MoveSnapshot) -> bool {
    exists|x: int, y: int, t: Coord| 0 <= x < 8 && 0 <= y < 8 && m == #[trigger] simple_move(b, x, y, t)
}

/// Where a legal move comes from: a single piece's move, or a castling whose
/// conditions hold.
pub open spec fn described(b: BoardView, m: MoveSnapshot) -> bool {
    let p = b.turn;
    let r = rights(b, p);
    ||| is_simple(b, m)
    ||| (m == oo_snapshot(p, r.1) && castle_ok(b, oo_snapshot(p, r.1), oo_travel(p), r.0))
    ||| (m == ooo_snapshot(p, r.0) && castle_ok(b, ooo_snapshot(p, r.0), ooo_travel(p), r.1))
}

pub open spec fn all_described(b: BoardView, ms: Seq<MoveSnapshot>) -> bool {
    forall|j: int| 0 <= j < ms.len() ==> described(b, #[trigger] ms[j])
}

proof fn lemma_all_described_concat(b: BoardView, a: Seq<MoveSnapshot>, c: Seq<MoveSnapshot>)
    requires
        all_described(b, a),
        all_described(b, c),
    ensures
        all_described(b, a + c),
{
    assert forall|j: int| 0 <= j < (a + c).len() implies described(b, #[trigger] (a + c)[j]) by {
        if j < a.len() {
            assert((a + c)[j] == a[j]);
        } else {
            assert((a + c)[j] == c[j - a.len()]);
        }
    }
}

proof fn lemma_keep_safe_described(b: BoardView, x: int, y: int, ts: Seq<Coord>)
    requires
        0 <= x < 8,
        0 <= y < 8,
    ensures
        all_described(b, keep_safe(b, x, y, ts)),
    decreases ts.len(),
{
    if ts.len() > 0 {
        lemma_keep_safe_described(b, x, y, ts.drop_last());
        let m = simple_move(b, x, y, ts.last());
        assert(is_simple(b, m));
    }
}

proof fn lemma_upto_described(b: BoardView, n: int)
    requires
        0 <= n <= 64,
    ensures
        all_described(b, legal_upto(b, n)),
    decreases n,
{
    if n > 0 {
        let x = (n - 1) % 8;
        let y = (n - 1) / 8;
        lemma_upto_described(b, n - 1);
        if owned_by(sq_at(b.squares, x, y), b.turn) {
            lemma_keep_safe_described(b, x, y, pseudo_targets(b.squares, x, y, false));
        }
        let c = if x == 4 && y == first_row(b.turn) {
            castle_moves(b)
        } else {
            Seq::empty()
        };
        assert(all_described(b, castle_moves(b)));
        lemma_all_described_concat(b, legal_from(b, x, y), c);
        lemma_all_described_concat(b, legal_upto(b, n - 1), legal_from_square(b, x, y));
    }
}

/// Every move of square `idx` is among the legal moves of the first `n` squares.
proof fn lemma_upto_contains(b: BoardView, idx: int, n: int, j: int)
    requires
        0 <= idx < n <= 64,
        0 <= j < legal_from_square(b, idx % 8, idx / 8).len(),
    ensures
        legal_upto(b, n).contains(legal_from_square(b, idx % 8, idx / 8)[j]),
    decreases n,
{
    let prev = legal_upto(b, n - 1);
    let last = legal_from_square(b, (n - 1) % 8, (n - 1) / 8);
    if idx == n - 1 {
        assert((prev + last)[prev.len() + j] == last[j]);
    } else {
        lemma_upto_contains(b, idx, n - 1, j);
        let k = choose|k: int| 0 <= k < prev.len() && prev[k] == legal_from_square(b, idx % 8, idx / 8)[j];
        assert((prev + last)[k] == prev[k]);
    }
}

/// Castling is offered exactly when its conditions hold: kingside when the
/// kingside right is held, king and rook stand at home with blank squares between
/// them, and the king is capturable neither where it stands nor on either square
/// it crosses or lands on (nor after the move); queenside likewise.
pub proof fn lemma_castling_offered_iff(b: BoardView)
    requires
        b.squares.len() == 64,
    ensures
        (exists|k: int| 0 <= k < legal_moves(b).len() && #[trigger] legal_moves(b)[k].2 matches MoveDescription::Oo(_))
            <==> castle_ok(b, oo_snapshot(b.turn, rights(b, b.turn).1), oo_travel(b.turn), rights(b, b.turn).0),
        (exists|k: int| 0 <= k < legal_moves(b).len() && #[trigger] legal_moves(b)[k].2 matches MoveDescription::Ooo(_))
            <==> castle_ok(b, ooo_snapshot(b.turn, rights(b, b.turn).0), ooo_travel(b.turn), rights(b, b.turn).1),
{
    let p = b.turn;
    let r = rights(b, p);
    let ms = legal_moves(b);
    let oo = oo_snapshot(p, r.1);
    let ooo = ooo_snapshot(p, r.0);
    let oo_ok = castle_ok(b, oo, oo_travel(p), r.0);
    let ooo_ok = castle_ok(b, ooo, ooo_travel(p), r.1);
    lemma_upto_described(b, 64);
    let row = first_row(p);
    let idx = row * 8 + 4;
    assert(idx % 8 == 4 && idx / 8 == row);
    let sq = legal_from_square(b, 4, row);
    let lf = legal_from(b, 4, row);
    assert(sq == lf + castle_moves(b));
    if exists|k: int| 0 <= k < ms.len() && #[trigger] ms[k].2 matches MoveDescription::Oo(_) {
        let k = choose|k: int| 0 <= k < ms.len() && #[trigger] ms[k].2 matches MoveDescription::Oo(_);
        assert(described(b, ms[k]));
    }
    if oo_ok {
        assert(castle_moves(b)[0] == oo);
        assert(sq[lf.len() as int] == oo);
        lemma_upto_contains(b, idx, 64, lf.len() as int);
        let k = choose|k: int| 0 <= k < ms.len() && ms[k] == oo;
        assert(ms[k].2 matches MoveDescription::Oo(_));
    }
    if exists|k: int| 0 <= k < ms.len() && #[trigger] ms[k].2 matches MoveDescription::Ooo(_) {
        let k = choose|k: int| 0 <= k < ms.len() && #[trigger] ms[k].2 matches MoveDescription::Ooo(_);
        assert(described(b, ms[k]));
    }
    if ooo_ok {
        let c = castle_moves(b);
        let j = if oo_ok { 1int } else { 0int };
        assert(c[j] == ooo);
        assert(sq[lf.len() + j] == ooo);
        lemma_upto_contains(b, idx, 64, lf.len() + j);
        let k = choose|k: int| 0 <= k < ms.len() && ms[k] == ooo;
        assert(ms[k].2 matches MoveDescription::Ooo(_));
    }
}

/// A castling right once lost never comes back: after any move, each side holds
/// a right only if it held it before.
pub proof fn lemma_rights_never_return(b: BoardView, m: MoveSnapshot, p: Player)
    ensures
        rights(apply_move(b, m), p).0 ==> rights(b, p).0,
        rights(apply_move(b, m), p).1 ==> rights(b, p).1,
{
}

/// A legal move that takes the king or the kingside rook from its home square
/// takes away the kingside right; one that takes the king or the queenside rook
/// from its home square takes away the queenside right; castling takes away both.
pub proof fn lemma_home_move_clears_right(b: BoardView, k: int)
    requires
        b.squares.len() == 64,
        0 <= k < legal_moves(b).len(),
    ensures
        ({
            let m = legal_moves(b)[k];
            let row = first_row(b.turn) as u8;
            let from = crate::move_list::slot_coord(m, 0);
            &&& (from == Some(Coord(4, row)) || from == Some(Coord(7, row))) ==> !rights(apply_move(b, m), b.turn).0
            &&& (from == Some(Coord(4, row)) || from == Some(Coord(0, row))) ==> !rights(apply_move(b, m), b.turn).1
            &&& (m.2 is Oo || m.2 is Ooo) ==> !rights(apply_move(b, m), b.turn).0 && !rights(apply_move(b, m), b.turn).1
        }),
{
    lemma_upto_described(b, 64);
    let m = legal_moves(b)[k];
    assert(described(b, m));
    if is_simple(b, m) {
        let (x, y, t) = choose|x: int, y: int, t: Coord| 0 <= x < 8 && 0 <= y < 8 && m == #[trigger] simple_move(b, x, y, t);
        assert(crate::move_list::slot_coord(m, 0) == Some(Coord(x as u8, y as u8)));
    }
}

} // verus!
