use vstd::prelude::*;
use crate::coords::{Coord, Error, file_rank_to_xy_safe, check_i32_xy};
use crate::entities::{Piece, Player, Square, owned_by, other, first_row};
use crate::move_list::{MoveSnapshot, MoveDescription};

verus! {

/// What one player has: the squares its pieces stand on (an index kept in step
/// with the board's array) and its two castling rights.
pub struct PlayerState {
    pub piece_locs: Vec<Coord>,
    pub can_oo: bool,
    pub can_ooo: bool,
}

impl PlayerState {
    fn new() -> (r: PlayerState)
        ensures
            r.piece_locs@.len() == 0,
            r.can_oo,
            r.can_ooo,
    {
        PlayerState { piece_locs: Vec::new(), can_oo: true, can_ooo: true }
    }

    fn reset(&mut self)
        ensures
            final(self).piece_locs@.len() == 0,
            final(self).can_oo,
            final(self).can_ooo,
    {
        self.piece_locs.clear();
        self.can_oo = true;
        self.can_ooo = true;
    }
}

/// The mathematical content of a board: 64 squares in rank-major order, the side
/// to move, and each side's (kingside, queenside) castling rights.
pub struct BoardView {
    pub squares: Seq<Square>,
    pub turn: Player,
    pub white_rights: (bool, bool),
    pub black_rights: (bool, bool),
}

pub open spec fn rights(b: BoardView, p: Player) -> (bool, bool) {
    match p {
        Player::White => b.white_rights,
        Player::Black => b.black_rights,
    }
}

pub open spec fn with_rights(b: BoardView, p: Player, r: (bool, bool)) -> BoardView {
    match p {
        Player::White => BoardView { white_rights: r, ..b },
        Player::Black => BoardView { black_rights: r, ..b },
    }
}

pub open spec fn sq_at(s: Seq<Square>, x: int, y: int) -> Square {
    s[y * 8 + x]
}

/// `locs` lists, once each, exactly the squares that hold a piece of `p`.
pub open spec fn locs_ok(locs: Seq<Coord>, s: Seq<Square>, p: Player) -> bool {
    &&& locs.no_duplicates()
    &&& forall|c: Coord|
        #[trigger] locs.contains(c) <==> (c.in_bounds() && owned_by(s[c.index()], p))
}

/// The rights that a player keeps after making move `m`.
pub open spec fn rights_after(r: (bool, bool), m: MoveSnapshot) -> (bool, bool) {
    match m.2 {
        MoveDescription::Capture(f1, f2) | MoveDescription::Move(f1, f2) => (r.0 && !f1, r.1 && !f2),
        MoveDescription::Oo(_) | MoveDescription::Ooo(_) => (false, false),
        MoveDescription::Special => r,
    }
}

/// The rights that a player had before making move `m`, given those after it.
pub open spec fn rights_before(r: (bool, bool), m: MoveSnapshot) -> (bool, bool) {
    match m.2 {
        MoveDescription::Capture(f1, f2) | MoveDescription::Move(f1, f2) => (r.0 || f1, r.1 || f2),
        MoveDescription::Oo(f) => (true, f),
        MoveDescription::Ooo(f) => (f, true),
        MoveDescription::Special => r,
    }
}

/// Writes the after-square of slot `i` of `m`, if that slot is in use.
pub open spec fn write_after(s: Seq<Square>, m: MoveSnapshot, i: int) -> Seq<Square> {
    match m.0@[i] {
        Some(sl) => s.update(sl.0.index(), (sl.1).1),
        None => s,
    }
}

/// Writes the before-square of slot `i` of `m`, if that slot is in use.
pub open spec fn write_before(s: Seq<Square>, m: MoveSnapshot, i: int) -> Seq<Square> {
    match m.0@[i] {
        Some(sl) => s.update(sl.0.index(), (sl.1).0),
        None => s,
    }
}

/// The squares after writing the after-squares of slots `0..n`, in order.
pub open spec fn write_afters(s: Seq<Square>, m: MoveSnapshot, n: int) -> Seq<Square>
    decreases n,
{
    if n <= 0 {
        s
    } else {
        write_after(write_afters(s, m, n - 1), m, n - 1)
    }
}

/// The squares after writing the before-squares of slots `4, 3, ...`, `n` of them.
pub open spec fn write_befores(s: Seq<Square>, m: MoveSnapshot, n: int) -> Seq<Square>
    decreases n,
{
    if n <= 0 {
        s
    } else {
        write_before(write_befores(s, m, n - 1), m, 5 - n)
    }
}

/// The board after making move `m`: every slot's after-square is written, the
/// turn passes, and the mover loses the rights that `m` takes away.
pub open spec fn apply_move(b: BoardView, m: MoveSnapshot) -> BoardView {
    let moved = BoardView { squares: write_afters(b.squares, m, 5), turn: other(b.turn), ..b };
    with_rights(moved, b.turn, rights_after(rights(b, b.turn), m))
}

/// The board after taking back move `m`: every slot's before-square is written,
/// the turn passes back, and the mover gets back the rights that `m` took away.
pub open spec fn undo_move_spec(b: BoardView, m: MoveSnapshot) -> BoardView {
    let back = BoardView { squares: write_befores(b.squares, m, 5), turn: other(b.turn), ..b };
    with_rights(back, other(b.turn), rights_before(rights(b, other(b.turn)), m))
}

/// The squares that slots `i` and `j` of `m` name differ, where both are used.
pub open spec fn slots_distinct(m: MoveSnapshot, i: int, j: int) -> bool {
    match (m.0@[i], m.0@[j]) {
        (Some(a), Some(b)) => a.0 != b.0,
        _ => true,
    }
}

/// `m` fits board `b`: its slots name distinct squares of the board, each holding
/// the slot's before-square, and its flags record the mover's rights faithfully
/// (each right a move is flagged to take away is held; castling is done with its
/// own right held and a flag equal to the other right), so that taking `m` back
/// restores them.
pub open spec fn applicable(b: BoardView, m: MoveSnapshot) -> bool {
    &&& b.squares.len() == 64
    &&& m.wf()
    &&& forall|i: int, j: int| 0 <= i < j < 5 ==> #[trigger] slots_distinct(m, i, j)
    &&& forall|i: int|
        0 <= i < 5 ==> (#[trigger] m.0@[i] matches Some(sl) ==> b.squares[sl.0.index()] == (
        sl.1).0)
    &&& rights_before(rights_after(rights(b, b.turn), m), m) == rights(b, b.turn)
}

proof fn lemma_index_injective(c: Coord, d: Coord)
    requires
        c.in_bounds(),
        d.in_bounds(),
        c != d,
    ensures
        c.index() != d.index(),
{
}

/// Slots before `n` that are in use name squares other than index `j`: writing
/// them leaves square `j` as it was.
proof fn lemma_afters_untouched(s: Seq<Square>, m: MoveSnapshot, n: int, j: int)
    requires
        0 <= n <= 5,
        s.len() == 64,
        0 <= j < 64,
        m.wf(),
        forall|k: int| 0 <= k < n ==> (#[trigger] m.0@[k] matches Some(sl) ==> sl.0.index() != j),
    ensures
        write_afters(s, m, n)[j] == s[j],
        write_afters(s, m, n).len() == s.len(),
    decreases n,
{
    if n > 0 {
        lemma_afters_untouched(s, m, n - 1, j);
        assert(m.0@[n - 1] matches Some(sl) ==> sl.0.index() != j);
        assert(m.0@[n - 1] matches Some(sl) ==> sl.0.in_bounds());
    }
}

/// Writing slot `k`'s after-square and then its before-square, where the square
/// held the before-square, changes nothing.
proof fn lemma_cancel(t: Seq<Square>, m: MoveSnapshot, k: int)
    requires
        0 <= k < 5,
        m.0@[k] matches Some(sl) ==> 0 <= sl.0.index() < t.len() && t[sl.0.index()] == (sl.1).0,
    ensures
        write_before(write_after(t, m, k), m, k) == t,
{
    match m.0@[k] {
        Some(sl) => {
            assert(write_before(write_after(t, m, k), m, k) =~= t);
        },
        None => {},
    }
}

proof fn lemma_slot_restores(s: Seq<Square>, m: MoveSnapshot, k: int)
    requires
        s.len() == 64,
        m.wf(),
        forall|i: int, j: int| 0 <= i < j < 5 ==> #[trigger] slots_distinct(m, i, j),
        forall|i: int| 0 <= i < 5 ==> (#[trigger] m.0@[i] matches Some(sl) ==> s[sl.0.index()] == (sl.1).0),
        0 <= k < 5,
    ensures
        write_before(write_afters(s, m, k + 1), m, k) == write_afters(s, m, k),
{
    match m.0@[k] {
        Some(sl) => {
            assert forall|i: int| 0 <= i < k implies (#[trigger] m.0@[i] matches Some(o) ==> o.0.index()
                != sl.0.index()) by {
                assert(slots_distinct(m, i, k));
                assert(m.wf() ==> (m.0@[i] matches Some(o) ==> o.0.in_bounds()));
                assert(m.wf() ==> (m.0@[k] matches Some(o) ==> o.0.in_bounds()));
                match m.0@[i] {
                    Some(o) => lemma_index_injective(o.0, sl.0),
                    None => {},
                }
            }
            assert(m.wf() ==> (m.0@[k] matches Some(o) ==> o.0.in_bounds()));
            lemma_afters_untouched(s, m, k, sl.0.index());
            lemma_cancel(write_afters(s, m, k), m, k);
        },
        None => {},
    }
}

/// Making a move that fits the board and then taking it back gives back the
/// board: the squares, the side to move and both sides' castling rights.
pub proof fn lemma_make_undo_restores(b: BoardView, m: MoveSnapshot)
    requires
        applicable(b, m),
    ensures
        undo_move_spec(apply_move(b, m), m) == b,
{
    let s = b.squares;
    lemma_slot_restores(s, m, 4);
    lemma_slot_restores(s, m, 3);
    lemma_slot_restores(s, m, 2);
    lemma_slot_restores(s, m, 1);
    lemma_slot_restores(s, m, 0);
    reveal_with_fuel(write_befores, 6);
    assert(write_afters(s, m, 0) == s);
    assert(write_befores(write_afters(s, m, 5), m, 5) == s);
}


/// The board: 64 squares, the side to move, a revision counter that every change
/// advances, and each player's state.
pub struct Board {
    player_with_turn: Player,
    d: Vec<Square>,
    revision: u64,
    black_state: PlayerState,
    white_state: PlayerState,
}

impl View for Board {
    type V = BoardView;

    closed spec fn view(&self) -> BoardView {
        BoardView {
            squares: self.d@,
            turn: self.player_with_turn,
            white_rights: (self.white_state.can_oo, self.white_state.can_ooo),
            black_rights: (self.black_state.can_oo, self.black_state.can_ooo),
        }
    }
}

/// Removes `c` from a list that holds it once.
fn remove_loc(locs: &mut Vec<Coord>, c: Coord)
    requires
        old(locs)@.no_duplicates(),
        old(locs)@.contains(c),
    ensures
        final(locs)@.no_duplicates(),
        forall|e: Coord| #[trigger] final(locs)@.contains(e) <==> (old(locs)@.contains(e) && e != c),
{
    let ghost o = locs@;
    let mut k: usize = 0;
    while k < locs.len() && locs[k] != c
        invariant
            locs@ == o,
            o.contains(c),
            k <= o.len(),
            forall|i: int| 0 <= i < k ==> o[i] != c,
        decreases o.len() - k,
    {
        k = k + 1;
    }
    assert(k < o.len());
    locs.swap_remove(k);
    let ghost n = locs@;
    assert(n =~= o.update(k as int, o.last()).drop_last());
    assert forall|e: Coord| #[trigger] n.contains(e) <==> (o.contains(e) && e != c) by {
        if n.contains(e) {
            let j = choose|j: int| 0 <= j < n.len() && n[j] == e;
            if j == k {
                assert(o[o.len() - 1] == e);
            } else {
                assert(o[j] == e);
            }
        }
        if o.contains(e) && e != c {
            let j = choose|j: int| 0 <= j < o.len() && o[j] == e;
            if j == o.len() - 1 {
                assert(n[k as int] == e);
            } else {
                assert(n[j] == e);
            }
        }
    }
    assert forall|a: int, b: int| 0 <= a < n.len() && 0 <= b < n.len() && a != b implies n[a]
        != n[b] by {
        let oa = if a == k {
            o.len() - 1
        } else {
            a
        };
        let ob = if b == k {
            o.len() - 1
        } else {
            b
        };
        assert(o[oa] == n[a]);
        assert(o[ob] == n[b]);
    }
}

/// Adds `c` to a list that does not hold it.
fn add_loc(locs: &mut Vec<Coord>, c: Coord)
    requires
        old(locs)@.no_duplicates(),
        !old(locs)@.contains(c),
    ensures
        final(locs)@.no_duplicates(),
        forall|e: Coord| #[trigger] final(locs)@.contains(e) <==> (old(locs)@.contains(e) || e == c),
{
    let ghost o = locs@;
    locs.push(c);
    let ghost n = locs@;
    assert forall|e: Coord| #[trigger] n.contains(e) <==> (o.contains(e) || e == c) by {
        if n.contains(e) {
            let j = choose|j: int| 0 <= j < n.len() && n[j] == e;
            if j < o.len() {
                assert(o[j] == e);
            }
        }
        if o.contains(e) {
            let j = choose|j: int| 0 <= j < o.len() && o[j] == e;
            assert(n[j] == e);
        }
        if e == c {
            assert(n[o.len() as int] == e);
        }
    }
}

impl Board {
    /// The array and both location lists agree.
    pub closed spec fn wf(&self) -> bool {
        &&& self.d@.len() == 64
        &&& locs_ok(self.white_state.piece_locs@, self.d@, Player::White)
        &&& locs_ok(self.black_state.piece_locs@, self.d@, Player::Black)
    }

    /// A well-formed board has 64 squares.
    pub proof fn lemma_wf_len(&self)
        requires
            self.wf(),
        ensures
            self@.squares.len() == 64,
    {
    }

    /// The location list of `p`, in its stored order.
    pub closed spec fn spec_locs(&self, p: Player) -> Seq<Coord> {
        match p {
            Player::White => self.white_state.piece_locs@,
            Player::Black => self.black_state.piece_locs@,
        }
    }

    pub closed spec fn spec_revision(&self) -> u64 {
        self.revision
    }

    /// The position where a game starts, White to move.
    pub fn new() -> (r: Board)
        ensures
            r.wf(),
            r@ == standard_position(),
    {
        let mut d: Vec<Square> = Vec::new();
        let mut i: usize = 0;
        while i < 64
            invariant
                i <= 64,
                d@.len() == i,
                forall|j: int| 0 <= j < i ==> d@[j] == Square::Blank,
            decreases 64 - i,
        {
            d.push(Square::Blank);
            i = i + 1;
        }
        let mut board = Board {
            d,
            player_with_turn: Player::White,
            revision: 0,
            black_state: PlayerState::new(),
            white_state: PlayerState::new(),
        };
        proof {
            assert(board.white_state.piece_locs@ =~= Seq::<Coord>::empty());
            assert(board.black_state.piece_locs@ =~= Seq::<Coord>::empty());
        }
        board.set_standard_rows();
        board
    }

    pub fn get_player_with_turn(&self) -> (r: Player)
        ensures
            r == self@.turn,
    {
        self.player_with_turn
    }

    pub fn get_revision(&self) -> (r: u64)
        ensures
            r == self.spec_revision(),
    {
        self.revision
    }

    /// The state of `player`: its castling rights, and the squares of its pieces.
    pub fn get_player_state(&self, player: Player) -> (r: &PlayerState)
        requires
            self.wf(),
        ensures
            (r.can_oo, r.can_ooo) == rights(self@, player),
            locs_ok(r.piece_locs@, self@.squares, player),
            r.piece_locs@ == self.spec_locs(player),
    {
        match player {
            Player::White => &self.white_state,
            Player::Black => &self.black_state,
        }
    }

    /// The square at (x, y).
    pub fn get_by_xy(&self, x: u8, y: u8) -> (r: Square)
        requires
            self.wf(),
            x < 8,
            y < 8,
        ensures
            r == sq_at(self@.squares, x as int, y as int),
    {
        self.d[y as usize * 8 + x as usize]
    }

    /// The square at (x, y), or `XyOutOfBounds` when either lies outside 0..=7.
    pub fn get_by_xy_safe(&self, x: i32, y: i32) -> (r: Result<Square, Error>)
        requires
            self.wf(),
        ensures
            (0 <= x <= 7 && 0 <= y <= 7) ==> r == Ok::<Square, Error>(
                sq_at(self@.squares, x as int, y as int),
            ),
            !(0 <= x <= 7 && 0 <= y <= 7) ==> r == Err::<Square, Error>(Error::XyOutOfBounds(x, y)),
    {
        match check_i32_xy(x, y) {
            Err(e) => Err(e),
            Ok(()) => Ok(self.get_by_xy(x as u8, y as u8)),
        }
    }

    /// The square named by file and rank; `RankOutOfBounds` or `FileOutOfBounds`
    /// (the rank is checked first) when the name is not on the board.
    pub fn get_safe(&self, file: char, rank: u8) -> (r: Result<Square, Error>)
        requires
            self.wf(),
        ensures
            !(1 <= rank <= 8) ==> r == Err::<Square, Error>(Error::RankOutOfBounds(rank)),
            (1 <= rank <= 8 && !('a' <= file <= 'h')) ==> r == Err::<Square, Error>(
                Error::FileOutOfBounds(file),
            ),
            (1 <= rank <= 8 && 'a' <= file <= 'h') ==> r == Ok::<Square, Error>(
                sq_at(self@.squares, file as int - 'a' as int, 8 - rank),
            ),
    {
        match file_rank_to_xy_safe(file, rank) {
            Err(e) => Err(e),
            Ok(c) => Ok(self.get_by_xy(c.0, c.1)),
        }
    }

    /// Same as `get_safe`.
    pub fn get(&self, file: char, rank: u8) -> (r: Result<Square, Error>)
        requires
            self.wf(),
        ensures
            r == get_result(self@, file, rank),
    {
        self.get_safe(file, rank)
    }

    /// Writes square (x, y), keeping the location lists in step, and advances the
    /// revision.
    pub fn set_by_xy(&mut self, x: u8, y: u8, s: Square)
        requires
            old(self).wf(),
            x < 8,
            y < 8,
        ensures
            final(self).wf(),
            final(self)@ == (BoardView {
                squares: old(self)@.squares.update(y * 8 + x, s),
                ..old(self)@
            }),
            final(self).spec_revision() == old(self).spec_revision().wrapping_add(1),
    {
        let idx = y as usize * 8 + x as usize;
        let c = Coord(x, y);
        let ghost old_d = self.d@;
        assert(c.index() == idx);
        match self.d[idx] {
            Square::Occupied(_, Player::White) => {
                assert(self.white_state.piece_locs@.contains(c));
                remove_loc(&mut self.white_state.piece_locs, c);
            },
            Square::Occupied(_, Player::Black) => {
                assert(self.black_state.piece_locs@.contains(c));
                remove_loc(&mut self.black_state.piece_locs, c);
            },
            Square::Blank => {},
        }
        match s {
            Square::Occupied(_, Player::White) => {
                assert(!self.white_state.piece_locs@.contains(c));
                add_loc(&mut self.white_state.piece_locs, c);
            },
            Square::Occupied(_, Player::Black) => {
                assert(!self.black_state.piece_locs@.contains(c));
                add_loc(&mut self.black_state.piece_locs, c);
            },
            Square::Blank => {},
        }
        self.d.set(idx, s);
        self.revision = self.revision.wrapping_add(1);
        proof {
            assert forall|e: Coord| e.in_bounds() && e != c implies e.index() != c.index() by {
                lemma_index_injective(e, c);
            }
        }
    }

    /// Writes the square named by file and rank; `RankOutOfBounds` or
    /// `FileOutOfBounds` (the rank is checked first), changing nothing, when the
    /// name is not on the board.
    pub fn set(&mut self, file: char, rank: u8, s: Square) -> (r: Result<(), Error>)
        requires
            old(self).wf(),
        ensures
            final(self).wf(),
            !(1 <= rank <= 8) ==> r == Err::<(), Error>(Error::RankOutOfBounds(rank))
                && final(self)@ == old(self)@,
            (1 <= rank <= 8 && !('a' <= file <= 'h')) ==> r == Err::<(), Error>(
                Error::FileOutOfBounds(file),
            ) && final(self)@ == old(self)@,
            (1 <= rank <= 8 && 'a' <= file <= 'h') ==> r is Ok && final(self)@ == (BoardView {
                squares: old(self)@.squares.update((8 - rank) * 8 + (file as int - 'a' as int), s),
                ..old(self)@
            }),
    {
        match file_rank_to_xy_safe(file, rank) {
            Err(e) => Err(e),
            Ok(c) => {
                self.set_by_xy(c.0, c.1, s);
                Ok(())
            },
        }
    }
}

/// What `Board::get` returns for a file and a rank.
pub open spec fn get_result(b: BoardView, file: char, rank: u8) -> Result<Square, Error> {
    if !(1 <= rank <= 8) {
        Err(Error::RankOutOfBounds(rank))
    } else if !('a' <= file <= 'h') {
        Err(Error::FileOutOfBounds(file))
    } else {
        Ok(sq_at(b.squares, file as int - 'a' as int, 8 - rank))
    }
}

/// The piece that starts on file index `x` of a back rank.
pub open spec fn back_rank_piece(x: int) -> Piece {
    if x == 0 || x == 7 {
        Piece::Rook
    } else if x == 1 || x == 6 {
        Piece::Knight
    } else if x == 2 || x == 5 {
        Piece::Bishop
    } else if x == 3 {
        Piece::Queen
    } else {
        Piece::King
    }
}

/// The square with index `i` in the starting position.
pub open spec fn standard_square(i: int) -> Square {
    if i < 8 {
        Square::Occupied(back_rank_piece(i), Player::Black)
    } else if i < 16 {
        Square::Occupied(Piece::Pawn, Player::Black)
    } else if i < 48 {
        Square::Blank
    } else if i < 56 {
        Square::Occupied(Piece::Pawn, Player::White)
    } else {
        Square::Occupied(back_rank_piece(i - 56), Player::White)
    }
}

/// The starting position: White to move, all castling rights held.
pub open spec fn standard_position() -> BoardView {
    BoardView {
        squares: Seq::new(64, |i: int| standard_square(i)),
        turn: Player::White,
        white_rights: (true, true),
        black_rights: (true, true),
    }
}


fn rights_after_exec(r: (bool, bool), m: &MoveSnapshot) -> (o: (bool, bool))
    ensures
        o == rights_after(r, *m),
{
    match m.2 {
        MoveDescription::Capture(f1, f2) | MoveDescription::Move(f1, f2) => (r.0 && !f1, r.1 && !f2),
        MoveDescription::Oo(_) | MoveDescription::Ooo(_) => (false, false),
        MoveDescription::Special => r,
    }
}

fn rights_before_exec(r: (bool, bool), m: &MoveSnapshot) -> (o: (bool, bool))
    ensures
        o == rights_before(r, *m),
{
    match m.2 {
        MoveDescription::Capture(f1, f2) | MoveDescription::Move(f1, f2) => (r.0 || f1, r.1 || f2),
        MoveDescription::Oo(f) => (true, f),
        MoveDescription::Ooo(f) => (f, true),
        MoveDescription::Special => r,
    }
}

/// The squares of `s` with row `row` set by `f`, the others as they were.
pub open spec fn row_written(old_s: Seq<Square>, new_s: Seq<Square>, row: int, f: spec_fn(int) -> Square) -> bool {
    &&& new_s.len() == old_s.len()
    &&& forall|j: int|
        0 <= j < new_s.len() ==> #[trigger] new_s[j] == if row * 8 <= j < row * 8 + 8 {
            f(j - row * 8)
        } else {
            old_s[j]
        }
}

impl Board {
    fn get_rights(&self, p: Player) -> (r: (bool, bool))
        ensures
            r == rights(self@, p),
    {
        match p {
            Player::White => (self.white_state.can_oo, self.white_state.can_ooo),
            Player::Black => (self.black_state.can_oo, self.black_state.can_ooo),
        }
    }

    fn set_rights(&mut self, p: Player, r: (bool, bool))
        requires
            old(self).wf(),
        ensures
            final(self).wf(),
            final(self)@ == with_rights(old(self)@, p, r),
            final(self).spec_revision() == old(self).spec_revision(),
    {
        match p {
            Player::White => {
                self.white_state.can_oo = r.0;
                self.white_state.can_ooo = r.1;
            },
            Player::Black => {
                self.black_state.can_oo = r.0;
                self.black_state.can_ooo = r.1;
            },
        }
    }

    /// Makes move `m`: writes each slot's after-square, passes the turn, and
    /// takes away the rights that `m` is flagged to take from the mover.
    pub fn make_move(&mut self, m: &MoveSnapshot)
        requires
            old(self).wf(),
            m.wf(),
        ensures
            final(self).wf(),
            final(self)@ == apply_move(old(self)@, *m),
            final(self).spec_revision() == old(self).spec_revision().wrapping_add(1),
            final(self).spec_revision() != old(self).spec_revision(),
    {
        let rev = self.revision;
        let mut i: usize = 0;
        while i < 5
            invariant
                self.wf(),
                m.wf(),
                i <= 5,
                self@ == (BoardView { squares: write_afters(old(self)@.squares, *m, i as int), ..old(self)@ }),
            decreases 5 - i,
        {
            match m.0[i] {
                Some(sl) => {
                    assert(m.0@[i as int] matches Some(sl) ==> sl.0.in_bounds());
                    self.set_by_xy((sl.0).0, (sl.0).1, (sl.1).1);
                },
                None => {},
            }
            i = i + 1;
        }
        let mover = self.player_with_turn;
        let r = rights_after_exec(self.get_rights(mover), m);
        self.set_rights(mover, r);
        self.player_with_turn = mover.get_other_player();
        self.revision = rev.wrapping_add(1);
    }

    /// Takes back move `m`: writes each slot's before-square, last slot first,
    /// passes the turn back, and gives the mover back the rights that `m` took.
    pub fn undo_move(&mut self, m: &MoveSnapshot)
        requires
            old(self).wf(),
            m.wf(),
        ensures
            final(self).wf(),
            final(self)@ == undo_move_spec(old(self)@, *m),
            final(self).spec_revision() == old(self).spec_revision().wrapping_add(1),
            final(self).spec_revision() != old(self).spec_revision(),
    {
        let rev = self.revision;
        let mut i: usize = 5;
        while i > 0
            invariant
                self.wf(),
                m.wf(),
                i <= 5,
                self@ == (BoardView { squares: write_befores(old(self)@.squares, *m, 5 - i), ..old(self)@ }),
            decreases i,
        {
            i = i - 1;
            match m.0[i] {
                Some(sl) => {
                    assert(m.0@[i as int] matches Some(sl) ==> sl.0.in_bounds());
                    self.set_by_xy((sl.0).0, (sl.0).1, (sl.1).0);
                },
                None => {},
            }
        }
        let mover = self.player_with_turn.get_other_player();
        let r = rights_before_exec(self.get_rights(mover), m);
        self.set_rights(mover, r);
        self.player_with_turn = mover;
        self.revision = rev.wrapping_add(1);
    }

    fn set_uniform_row(&mut self, rank: u8, player: Player, piece: Piece)
        requires
            old(self).wf(),
            1 <= rank <= 8,
        ensures
            final(self).wf(),
            row_written(old(self)@.squares, final(self)@.squares, 8 - rank, |x: int| Square::Occupied(piece, player)),
            final(self)@.turn == old(self)@.turn,
            rights(final(self)@, Player::White) == rights(old(self)@, Player::White),
            rights(final(self)@, Player::Black) == rights(old(self)@, Player::Black),
    {
        let mut i: u8 = 0;
        while i < 8
            invariant
                self.wf(),
                1 <= rank <= 8,
                i <= 8,
                self@.turn == old(self)@.turn,
                self@.white_rights == old(self)@.white_rights,
                self@.black_rights == old(self)@.black_rights,
                self@.squares.len() == 64,
                forall|j: int|
                    0 <= j < 64 ==> #[trigger] self@.squares[j] == if (8 - rank) * 8 <= j < (8 - rank) * 8 + i {
                        Square::Occupied(piece, player)
                    } else {
                        old(self)@.squares[j]
                    },
            decreases 8 - i,
        {
            self.set_by_xy(i, 8 - rank, Square::Occupied(piece, player));
            i = i + 1;
        }
    }

    fn set_main_row(&mut self, rank: u8, player: Player)
        requires
            old(self).wf(),
            1 <= rank <= 8,
        ensures
            final(self).wf(),
            row_written(old(self)@.squares, final(self)@.squares, 8 - rank, |x: int| Square::Occupied(back_rank_piece(x), player)),
            final(self)@.turn == old(self)@.turn,
            rights(final(self)@, Player::White) == rights(old(self)@, Player::White),
            rights(final(self)@, Player::Black) == rights(old(self)@, Player::Black),
    {
        let y = 8 - rank;
        self.set_by_xy(0, y, Square::Occupied(Piece::Rook, player));
        self.set_by_xy(1, y, Square::Occupied(Piece::Knight, player));
        self.set_by_xy(2, y, Square::Occupied(Piece::Bishop, player));
        self.set_by_xy(3, y, Square::Occupied(Piece::Queen, player));
        self.set_by_xy(4, y, Square::Occupied(Piece::King, player));
        self.set_by_xy(5, y, Square::Occupied(Piece::Bishop, player));
        self.set_by_xy(6, y, Square::Occupied(Piece::Knight, player));
        self.set_by_xy(7, y, Square::Occupied(Piece::Rook, player));
    }

    /// Sets up the starting pieces on an empty board.
    fn set_standard_rows(&mut self)
        requires
            old(self).wf(),
            forall|j: int| 0 <= j < 64 ==> old(self)@.squares[j] == Square::Blank,
            old(self)@.turn == Player::White,
            old(self)@.white_rights == (true, true),
            old(self)@.black_rights == (true, true),
        ensures
            final(self).wf(),
            final(self)@ == standard_position(),
    {
        self.set_main_row(1, Player::White);
        self.set_uniform_row(2, Player::White, Piece::Pawn);
        self.set_main_row(8, Player::Black);
        self.set_uniform_row(7, Player::Black, Piece::Pawn);
        assert(self@.squares =~= standard_position().squares);
    }

    /// Puts the board back to the starting position.
    pub fn restart(&mut self)
        requires
            old(self).wf(),
        ensures
            final(self).wf(),
            final(self)@ == standard_position(),
    {
        self.black_state.reset();
        self.white_state.reset();
        let mut i: usize = 0;
        while i < 64
            invariant
                self.d@.len() == 64,
                i <= 64,
                forall|j: int| 0 <= j < i ==> self.d@[j] == Square::Blank,
                self.white_state.piece_locs@.len() == 0,
                self.black_state.piece_locs@.len() == 0,
                self.white_state.can_oo && self.white_state.can_ooo,
                self.black_state.can_oo && self.black_state.can_ooo,
            decreases 64 - i,
        {
            self.d.set(i, Square::Blank);
            i = i + 1;
        }
        self.player_with_turn = Player::White;
        proof {
            assert(self.white_state.piece_locs@ =~= Seq::<Coord>::empty());
            assert(self.black_state.piece_locs@ =~= Seq::<Coord>::empty());
        }
        self.set_standard_rows();
    }

    /// Makes this board a copy of `other`, revision included.
    pub fn import_from(&mut self, other: &Board)
        requires
            other.wf(),
        ensures
            final(self).wf(),
            final(self)@ == other@,
            final(self).spec_revision() == other.spec_revision(),
    {
        self.d = copy_vec(&other.d);
        self.white_state.piece_locs = copy_vec(&other.white_state.piece_locs);
        self.black_state.piece_locs = copy_vec(&other.black_state.piece_locs);
        self.white_state.can_oo = other.white_state.can_oo;
        self.white_state.can_ooo = other.white_state.can_ooo;
        self.black_state.can_oo = other.black_state.can_oo;
        self.black_state.can_ooo = other.black_state.can_ooo;
        self.player_with_turn = other.player_with_turn;
        self.revision = other.revision;
    }
}

fn copy_vec<T: Copy>(v: &Vec<T>) -> (r: Vec<T>)
    ensures
        r@ == v@,
{
    let mut r: Vec<T> = Vec::new();
    let mut i: usize = 0;
    while i < v.len()
        invariant
            i <= v@.len(),
            r@ == v@.subrange(0, i as int),
        decreases v@.len() - i,
    {
        r.push(v[i]);
        i = i + 1;
    }
    assert(r@ =~= v@);
    r
}

} // verus!
