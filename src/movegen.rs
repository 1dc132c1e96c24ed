use vstd::prelude::*;
use crate::coords::Coord;
use crate::entities::{Piece, Player, Square, owned_by, other};
use crate::board::{Board, sq_at};

verus! {

pub open spec fn on_board(x: int, y: int) -> bool {
    0 <= x < 8 && 0 <= y < 8
}

/// A piece of `p` may land on (x, y): the square is on the board and blank, or
/// holds a piece of the other side that may be taken (a king only when
/// `can_capture_king`).
pub open spec fn can_land(s: Seq<Square>, p: Player, x: int, y: int, can_capture_king: bool) -> bool {
    on_board(x, y) && match sq_at(s, x, y) {
        Square::Blank => true,
        Square::Occupied(pc, q) => q != p && (can_capture_king || pc != Piece::King),
    }
}

/// A scan ends at (x, y): it is off the board or occupied.
pub open spec fn stops(s: Seq<Square>, x: int, y: int) -> bool {
    !on_board(x, y) || sq_at(s, x, y) is Occupied
}

pub open spec fn coord_of(x: int, y: int) -> Coord {
    Coord(x as u8, y as u8)
}

/// A single-step target: (x, y) if a piece of `p` may land there.
pub open spec fn step(s: Seq<Square>, p: Player, x: int, y: int, cck: bool) -> Seq<Coord> {
    if can_land(s, p, x, y, cck) {
        seq![coord_of(x, y)]
    } else {
        Seq::empty()
    }
}

/// The targets of a scan from (x, y) in direction (dx, dy), at most `n` squares:
/// blank squares, then the first occupied square if it may be taken.
pub open spec fn ray(s: Seq<Square>, p: Player, x: int, y: int, dx: int, dy: int, n: nat, cck: bool) -> Seq<Coord>
    decreases n,
{
    if n == 0 {
        Seq::empty()
    } else if stops(s, x + dx, y + dy) {
        step(s, p, x + dx, y + dy, cck)
    } else {
        seq![coord_of(x + dx, y + dy)] + ray(s, p, x + dx, y + dy, dx, dy, (n - 1) as nat, cck)
    }
}

/// (x, y) if it is on the board and blank.
pub open spec fn quiet(s: Seq<Square>, x: int, y: int) -> Seq<Coord> {
    if on_board(x, y) && sq_at(s, x, y) is Blank {
        seq![coord_of(x, y)]
    } else {
        Seq::empty()
    }
}

/// (x, y) if a piece of `p` may take what stands there.
pub open spec fn capture(s: Seq<Square>, p: Player, x: int, y: int, cck: bool) -> Seq<Coord> {
    if on_board(x, y) && sq_at(s, x, y) is Occupied {
        step(s, p, x, y, cck)
    } else {
        Seq::empty()
    }
}

pub open spec fn pawn_dir(p: Player) -> int {
    match p {
        Player::Black => 1,
        Player::White => -1,
    }
}

pub open spec fn pawn_start_row(p: Player) -> int {
    match p {
        Player::Black => 1,
        Player::White => 6,
    }
}

/// A pawn moves one square forward onto a blank square, two from its starting
/// row when both are blank, and takes diagonally forward.
pub open spec fn pawn_targets(s: Seq<Square>, p: Player, x: int, y: int, cck: bool) -> Seq<Coord> {
    let dy = pawn_dir(p);
    let one = quiet(s, x, y + dy);
    let two = if y == pawn_start_row(p) && one.len() > 0 {
        quiet(s, x, y + 2 * dy)
    } else {
        Seq::empty()
    };
    one + two + capture(s, p, x - 1, y + dy, cck) + capture(s, p, x + 1, y + dy, cck)
}

pub open spec fn knight_targets(s: Seq<Square>, p: Player, x: int, y: int, cck: bool) -> Seq<Coord> {
    step(s, p, x - 1, y + 2, cck) + step(s, p, x - 1, y - 2, cck) + step(s, p, x - 2, y + 1, cck)
        + step(s, p, x - 2, y - 1, cck) + step(s, p, x + 2, y + 1, cck) + step(s, p, x + 2, y - 1, cck)
        + step(s, p, x + 1, y + 2, cck) + step(s, p, x + 1, y - 2, cck)
}

pub open spec fn king_targets(s: Seq<Square>, p: Player, x: int, y: int, cck: bool) -> Seq<Coord> {
    step(s, p, x - 1, y - 1, cck) + step(s, p, x - 1, y, cck) + step(s, p, x - 1, y + 1, cck)
        + step(s, p, x, y - 1, cck) + step(s, p, x, y + 1, cck) + step(s, p, x + 1, y - 1, cck)
        + step(s, p, x + 1, y, cck) + step(s, p, x + 1, y + 1, cck)
}

pub open spec fn rook_targets(s: Seq<Square>, p: Player, x: int, y: int, cck: bool) -> Seq<Coord> {
    ray(s, p, x, y, -1, 0, 7, cck) + ray(s, p, x, y, 1, 0, 7, cck) + ray(s, p, x, y, 0, -1, 7, cck)
        + ray(s, p, x, y, 0, 1, 7, cck)
}

pub open spec fn bishop_targets(s: Seq<Square>, p: Player, x: int, y: int, cck: bool) -> Seq<Coord> {
    ray(s, p, x, y, -1, -1, 7, cck) + ray(s, p, x, y, -1, 1, 7, cck) + ray(s, p, x, y, 1, -1, 7, cck)
        + ray(s, p, x, y, 1, 1, 7, cck)
}

/// The squares the piece on (x, y) may move to, its king's safety aside, in the
/// order they are generated; nothing for a blank square.
pub open spec fn pseudo_targets(s: Seq<Square>, x: int, y: int, cck: bool) -> Seq<Coord> {
    match sq_at(s, x, y) {
        Square::Blank => Seq::empty(),
        Square::Occupied(pc, p) => match pc {
            Piece::Pawn => pawn_targets(s, p, x, y, cck),
            Piece::Rook => rook_targets(s, p, x, y, cck),
            Piece::Knight => knight_targets(s, p, x, y, cck),
            Piece::Bishop => bishop_targets(s, p, x, y, cck),
            Piece::Queen => rook_targets(s, p, x, y, cck) + bishop_targets(s, p, x, y, cck),
            Piece::King => king_targets(s, p, x, y, cck),
        },
    }
}

/// Some target in `t` holds a king.
pub open spec fn hits_king(s: Seq<Square>, t: Seq<Coord>) -> bool {
    exists|k: int|
        0 <= k < t.len() && #[trigger] sq_at(s, t[k].0 as int, t[k].1 as int) matches Square::Occupied(
            Piece::King,
            _,
        )
}

/// A piece of `attacker` could take a king: the threat probe, run with king
/// captures allowed.
pub open spec fn king_capturable(s: Seq<Square>, attacker: Player) -> bool {
    exists|c: Coord|
        c.in_bounds() && owned_by(s[c.index()], attacker) && #[trigger] hits_king(
            s,
            pseudo_targets(s, c.0 as int, c.1 as int, true),
        )
}

/// Every target of `t` is a square a piece of `p` may land on.
pub open spec fn all_land(s: Seq<Square>, p: Player, t: Seq<Coord>, cck: bool) -> bool {
    forall|k: int| 0 <= k < t.len() ==> can_land(s, p, (#[trigger] t[k]).0 as int, t[k].1 as int, cck)
}

pub proof fn lemma_ray_lands(s: Seq<Square>, p: Player, x: int, y: int, dx: int, dy: int, n: nat, cck: bool)
    ensures
        all_land(s, p, ray(s, p, x, y, dx, dy, n, cck), cck),
        ray(s, p, x, y, dx, dy, n, cck).len() <= n,
    decreases n,
{
    if n > 0 && !stops(s, x + dx, y + dy) {
        lemma_ray_lands(s, p, x + dx, y + dy, dx, dy, (n - 1) as nat, cck);
        let r = ray(s, p, x, y, dx, dy, n, cck);
        let rest = ray(s, p, x + dx, y + dy, dx, dy, (n - 1) as nat, cck);
        assert forall|k: int| 0 <= k < r.len() implies can_land(s, p, (#[trigger] r[k]).0 as int, r[k].1 as int, cck) by {
            if k > 0 {
                assert(r[k] == rest[k - 1]);
            }
        }
    }
}

proof fn lemma_all_land_concat(s: Seq<Square>, p: Player, a: Seq<Coord>, b: Seq<Coord>, cck: bool)
    requires
        all_land(s, p, a, cck),
        all_land(s, p, b, cck),
    ensures
        all_land(s, p, a + b, cck),
{
    assert forall|k: int| 0 <= k < (a + b).len() implies can_land(s, p, (#[trigger] (a + b)[k]).0 as int, (a + b)[k].1 as int, cck) by {
        if k < a.len() {
            assert((a + b)[k] == a[k]);
        } else {
            assert((a + b)[k] == b[k - a.len()]);
        }
    }
}

proof fn lemma_four_rays(s: Seq<Square>, p: Player, x: int, y: int, d: (int, int, int, int, int, int, int, int), cck: bool)
    ensures
        ({
            let t = ray(s, p, x, y, d.0, d.1, 7, cck) + ray(s, p, x, y, d.2, d.3, 7, cck) + ray(s, p, x, y, d.4, d.5, 7, cck)
                + ray(s, p, x, y, d.6, d.7, 7, cck);
            all_land(s, p, t, cck) && t.len() <= 28
        }),
{
    let r1 = ray(s, p, x, y, d.0, d.1, 7, cck);
    let r2 = ray(s, p, x, y, d.2, d.3, 7, cck);
    let r3 = ray(s, p, x, y, d.4, d.5, 7, cck);
    let r4 = ray(s, p, x, y, d.6, d.7, 7, cck);
    lemma_ray_lands(s, p, x, y, d.0, d.1, 7, cck);
    lemma_ray_lands(s, p, x, y, d.2, d.3, 7, cck);
    lemma_ray_lands(s, p, x, y, d.4, d.5, 7, cck);
    lemma_ray_lands(s, p, x, y, d.6, d.7, 7, cck);
    lemma_all_land_concat(s, p, r1, r2, cck);
    lemma_all_land_concat(s, p, r1 + r2, r3, cck);
    lemma_all_land_concat(s, p, r1 + r2 + r3, r4, cck);
}

proof fn lemma_step_lands(s: Seq<Square>, p: Player, a: int, b: int, cck: bool)
    ensures
        all_land(s, p, step(s, p, a, b, cck), cck),
        all_land(s, p, capture(s, p, a, b, cck), cck),
        all_land(s, p, quiet(s, a, b), cck),
        step(s, p, a, b, cck).len() <= 1,
        capture(s, p, a, b, cck).len() <= 1,
        quiet(s, a, b).len() <= 1,
{
}

/// Eight single steps from (x, y), with offsets `o`.
pub open spec fn eight_steps(s: Seq<Square>, p: Player, x: int, y: int, o: Seq<(int, int)>, cck: bool) -> Seq<Coord> {
    step(s, p, x + o[0].0, y + o[0].1, cck) + step(s, p, x + o[1].0, y + o[1].1, cck) + step(s, p, x + o[2].0, y + o[2].1, cck)
        + step(s, p, x + o[3].0, y + o[3].1, cck) + step(s, p, x + o[4].0, y + o[4].1, cck) + step(s, p, x + o[5].0, y + o[5].1, cck)
        + step(s, p, x + o[6].0, y + o[6].1, cck) + step(s, p, x + o[7].0, y + o[7].1, cck)
}

proof fn lemma_eight_steps(s: Seq<Square>, p: Player, x: int, y: int, o: Seq<(int, int)>, cck: bool)
    requires
        o.len() == 8,
    ensures
        all_land(s, p, eight_steps(s, p, x, y, o, cck), cck),
        eight_steps(s, p, x, y, o, cck).len() <= 8,
{
    let t0 = step(s, p, x + o[0].0, y + o[0].1, cck);
    let t1 = step(s, p, x + o[1].0, y + o[1].1, cck);
    let t2 = step(s, p, x + o[2].0, y + o[2].1, cck);
    let t3 = step(s, p, x + o[3].0, y + o[3].1, cck);
    let t4 = step(s, p, x + o[4].0, y + o[4].1, cck);
    let t5 = step(s, p, x + o[5].0, y + o[5].1, cck);
    let t6 = step(s, p, x + o[6].0, y + o[6].1, cck);
    let t7 = step(s, p, x + o[7].0, y + o[7].1, cck);
    lemma_step_lands(s, p, x + o[0].0, y + o[0].1, cck);
    lemma_step_lands(s, p, x + o[1].0, y + o[1].1, cck);
    lemma_step_lands(s, p, x + o[2].0, y + o[2].1, cck);
    lemma_step_lands(s, p, x + o[3].0, y + o[3].1, cck);
    lemma_step_lands(s, p, x + o[4].0, y + o[4].1, cck);
    lemma_step_lands(s, p, x + o[5].0, y + o[5].1, cck);
    lemma_step_lands(s, p, x + o[6].0, y + o[6].1, cck);
    lemma_step_lands(s, p, x + o[7].0, y + o[7].1, cck);
    lemma_all_land_concat(s, p, t0, t1, cck);
    lemma_all_land_concat(s, p, t0 + t1, t2, cck);
    lemma_all_land_concat(s, p, t0 + t1 + t2, t3, cck);
    lemma_all_land_concat(s, p, t0 + t1 + t2 + t3, t4, cck);
    lemma_all_land_concat(s, p, t0 + t1 + t2 + t3 + t4, t5, cck);
    lemma_all_land_concat(s, p, t0 + t1 + t2 + t3 + t4 + t5, t6, cck);
    lemma_all_land_concat(s, p, t0 + t1 + t2 + t3 + t4 + t5 + t6, t7, cck);
}

pub open spec fn knight_offsets() -> Seq<(int, int)> {
    seq![(-1, 2), (-1, -2), (-2, 1), (-2, -1), (2, 1), (2, -1), (1, 2), (1, -2)]
}

pub open spec fn king_offsets() -> Seq<(int, int)> {
    seq![(-1, -1), (-1, 0), (-1, 1), (0, -1), (0, 1), (1, -1), (1, 0), (1, 1)]
}

proof fn lemma_pawn_lands(s: Seq<Square>, p: Player, x: int, y: int, cck: bool)
    ensures
        all_land(s, p, pawn_targets(s, p, x, y, cck), cck),
        pawn_targets(s, p, x, y, cck).len() <= 4,
{
    let dy = pawn_dir(p);
    let one = quiet(s, x, y + dy);
    let two = if y == pawn_start_row(p) && one.len() > 0 {
        quiet(s, x, y + 2 * dy)
    } else {
        Seq::empty()
    };
    lemma_step_lands(s, p, x, y + dy, cck);
    lemma_step_lands(s, p, x, y + 2 * dy, cck);
    lemma_step_lands(s, p, x - 1, y + dy, cck);
    lemma_step_lands(s, p, x + 1, y + dy, cck);
    assert(all_land(s, p, two, cck));
    lemma_all_land_concat(s, p, one, two, cck);
    lemma_all_land_concat(s, p, one + two, capture(s, p, x - 1, y + dy, cck), cck);
    lemma_all_land_concat(s, p, one + two + capture(s, p, x - 1, y + dy, cck), capture(s, p, x + 1, y + dy, cck), cck);
}

/// Every target of the piece on (x, y) is a square it may land on, and there are
/// at most 56 of them.
pub proof fn lemma_pseudo_lands(s: Seq<Square>, x: int, y: int, cck: bool)
    requires
        sq_at(s, x, y) is Occupied,
    ensures
        all_land(s, sq_at(s, x, y)->Occupied_1, pseudo_targets(s, x, y, cck), cck),
        pseudo_targets(s, x, y, cck).len() <= 56,
{
    let p = sq_at(s, x, y)->Occupied_1;
    let pc = sq_at(s, x, y)->Occupied_0;
    lemma_four_rays(s, p, x, y, (-1, 0, 1, 0, 0, -1, 0, 1), cck);
    lemma_four_rays(s, p, x, y, (-1, -1, -1, 1, 1, -1, 1, 1), cck);
    match pc {
        Piece::Knight => {
            lemma_eight_steps(s, p, x, y, knight_offsets(), cck);
            assert(knight_targets(s, p, x, y, cck) == eight_steps(s, p, x, y, knight_offsets(), cck));
        },
        Piece::King => {
            lemma_eight_steps(s, p, x, y, king_offsets(), cck);
            assert(king_targets(s, p, x, y, cck) == eight_steps(s, p, x, y, king_offsets(), cck));
        },
        Piece::Pawn => {
            lemma_pawn_lands(s, p, x, y, cck);
        },
        Piece::Queen => {
            lemma_all_land_concat(s, p, rook_targets(s, p, x, y, cck), bishop_targets(s, p, x, y, cck), cck);
        },
        _ => {},
    }
}


proof fn lemma_assoc(a: Seq<Coord>, b: Seq<Coord>, c: Seq<Coord>)
    ensures
        (a + b) + c == a + (b + c),
{
    assert((a + b) + c =~= a + (b + c));
}

impl Board {
    /// Appends (tx, ty) when a piece of `p` may land there; returns whether a
    /// scan through (tx, ty) ends there.
    fn push(&self, p: Player, tx: i8, ty: i8, cck: bool, out: &mut Vec<Coord>) -> (terminate: bool)
        requires
            self.wf(),
        ensures
            final(out)@ == old(out)@ + step(self@.squares, p, tx as int, ty as int, cck),
            terminate == stops(self@.squares, tx as int, ty as int),
    {
        if tx < 0 || tx > 7 || ty < 0 || ty > 7 {
            assert(old(out)@ + Seq::<Coord>::empty() =~= old(out)@);
            return true;
        }
        match self.get_by_xy(tx as u8, ty as u8) {
            Square::Occupied(pc, q) => {
                if q != p && (cck || pc != Piece::King) {
                    out.push(Coord(tx as u8, ty as u8));
                    assert(final(out)@ =~= old(out)@ + seq![coord_of(tx as int, ty as int)]);
                } else {
                    assert(old(out)@ + Seq::<Coord>::empty() =~= old(out)@);
                }
                true
            },
            Square::Blank => {
                out.push(Coord(tx as u8, ty as u8));
                assert(final(out)@ =~= old(out)@ + seq![coord_of(tx as int, ty as int)]);
                false
            },
        }
    }

    /// Appends (tx, ty) when it is on the board and blank.
    fn push_quiet(&self, tx: i8, ty: i8, out: &mut Vec<Coord>) -> (pushed: bool)
        requires
            self.wf(),
        ensures
            final(out)@ == old(out)@ + quiet(self@.squares, tx as int, ty as int),
            pushed == (quiet(self@.squares, tx as int, ty as int).len() > 0),
    {
        if tx < 0 || tx > 7 || ty < 0 || ty > 7 {
            assert(old(out)@ + Seq::<Coord>::empty() =~= old(out)@);
            return false;
        }
        match self.get_by_xy(tx as u8, ty as u8) {
            Square::Blank => {
                out.push(Coord(tx as u8, ty as u8));
                assert(final(out)@ =~= old(out)@ + seq![coord_of(tx as int, ty as int)]);
                true
            },
            _ => {
                assert(old(out)@ + Seq::<Coord>::empty() =~= old(out)@);
                false
            },
        }
    }

    /// Appends (tx, ty) when a piece of `p` may take what stands there.
    fn push_capture(&self, p: Player, tx: i8, ty: i8, cck: bool, out: &mut Vec<Coord>)
        requires
            self.wf(),
        ensures
            final(out)@ == old(out)@ + capture(self@.squares, p, tx as int, ty as int, cck),
    {
        if tx < 0 || tx > 7 || ty < 0 || ty > 7 {
            assert(old(out)@ + Seq::<Coord>::empty() =~= old(out)@);
            return;
        }
        match self.get_by_xy(tx as u8, ty as u8) {
            Square::Blank => {
                assert(old(out)@ + Seq::<Coord>::empty() =~= old(out)@);
            },
            _ => {
                self.push(p, tx, ty, cck, out);
            },
        }
    }

    /// Appends the targets of a scan from (x, y) in direction (dx, dy).
    fn push_ray(&self, p: Player, x: i8, y: i8, dx: i8, dy: i8, cck: bool, out: &mut Vec<Coord>)
        requires
            self.wf(),
            0 <= x < 8,
            0 <= y < 8,
            -1 <= dx <= 1,
            -1 <= dy <= 1,
        ensures
            final(out)@ == old(out)@ + ray(self@.squares, p, x as int, y as int, dx as int, dy as int, 7, cck),
    {
        let ghost s = self@.squares;
        let ghost goal = old(out)@ + ray(s, p, x as int, y as int, dx as int, dy as int, 7, cck);
        let mut cx: i8 = x;
        let mut cy: i8 = y;
        let mut n: u8 = 7;
        let mut done = false;
        while !done && n > 0
            invariant
                self.wf(),
                s == self@.squares,
                0 <= cx < 8,
                0 <= cy < 8,
                -1 <= dx <= 1,
                -1 <= dy <= 1,
                n <= 7,
                done ==> out@ == goal,
                !done ==> out@ + ray(s, p, cx as int, cy as int, dx as int, dy as int, n as nat, cck) == goal,
            decreases n + (if done { 0int } else { 1int }),
        {
            let ghost before = out@;
            let tx = cx + dx;
            let ty = cy + dy;
            let terminate = self.push(p, tx, ty, cck, out);
            if terminate {
                assert(ray(s, p, cx as int, cy as int, dx as int, dy as int, n as nat, cck) == step(
                    s,
                    p,
                    tx as int,
                    ty as int,
                    cck,
                ));
                done = true;
            } else {
            assert(before + ray(s, p, cx as int, cy as int, dx as int, dy as int, n as nat, cck) =~= out@ + ray(
                s,
                p,
                tx as int,
                ty as int,
                dx as int,
                dy as int,
                (n - 1) as nat,
                cck,
            ));
            cx = tx;
            cy = ty;
            n = n - 1;
            }
        }
        assert(out@ + Seq::<Coord>::empty() =~= out@);
    }

    fn push_rook(&self, p: Player, x: i8, y: i8, cck: bool, out: &mut Vec<Coord>)
        requires
            self.wf(),
            0 <= x < 8,
            0 <= y < 8,
        ensures
            final(out)@ == old(out)@ + rook_targets(self@.squares, p, x as int, y as int, cck),
    {
        self.push_ray(p, x, y, -1, 0, cck, out);
        self.push_ray(p, x, y, 1, 0, cck, out);
        self.push_ray(p, x, y, 0, -1, cck, out);
        self.push_ray(p, x, y, 0, 1, cck, out);
        assert(final(out)@ =~= old(out)@ + rook_targets(self@.squares, p, x as int, y as int, cck));
    }

    fn push_bishop(&self, p: Player, x: i8, y: i8, cck: bool, out: &mut Vec<Coord>)
        requires
            self.wf(),
            0 <= x < 8,
            0 <= y < 8,
        ensures
            final(out)@ == old(out)@ + bishop_targets(self@.squares, p, x as int, y as int, cck),
    {
        self.push_ray(p, x, y, -1, -1, cck, out);
        self.push_ray(p, x, y, -1, 1, cck, out);
        self.push_ray(p, x, y, 1, -1, cck, out);
        self.push_ray(p, x, y, 1, 1, cck, out);
        assert(final(out)@ =~= old(out)@ + bishop_targets(self@.squares, p, x as int, y as int, cck));
    }

    fn push_knight(&self, p: Player, x: i8, y: i8, cck: bool, out: &mut Vec<Coord>)
        requires
            self.wf(),
            0 <= x < 8,
            0 <= y < 8,
        ensures
            final(out)@ == old(out)@ + knight_targets(self@.squares, p, x as int, y as int, cck),
    {
        let ghost s = self@.squares;
        let ghost o = old(out)@;
        let ghost t0 = step(s, p, x as int - 1, y as int + 2, cck);
        let ghost t1 = step(s, p, x as int - 1, y as int - 2, cck);
        let ghost t2 = step(s, p, x as int - 2, y as int + 1, cck);
        let ghost t3 = step(s, p, x as int - 2, y as int - 1, cck);
        let ghost t4 = step(s, p, x as int + 2, y as int + 1, cck);
        let ghost t5 = step(s, p, x as int + 2, y as int - 1, cck);
        let ghost t6 = step(s, p, x as int + 1, y as int + 2, cck);
        let ghost t7 = step(s, p, x as int + 1, y as int - 2, cck);
        self.push(p, x - 1, y + 2, cck, out);
        self.push(p, x - 1, y - 2, cck, out);
        proof {
            lemma_assoc(o, t0, t1);
        }
        self.push(p, x - 2, y + 1, cck, out);
        proof {
            lemma_assoc(o, (t0 + t1), t2);
        }
        self.push(p, x - 2, y - 1, cck, out);
        proof {
            lemma_assoc(o, (t0 + t1 + t2), t3);
        }
        self.push(p, x + 2, y + 1, cck, out);
        proof {
            lemma_assoc(o, (t0 + t1 + t2 + t3), t4);
        }
        self.push(p, x + 2, y - 1, cck, out);
        proof {
            lemma_assoc(o, (t0 + t1 + t2 + t3 + t4), t5);
        }
        self.push(p, x + 1, y + 2, cck, out);
        proof {
            lemma_assoc(o, (t0 + t1 + t2 + t3 + t4 + t5), t6);
        }
        self.push(p, x + 1, y - 2, cck, out);
        proof {
            lemma_assoc(o, (t0 + t1 + t2 + t3 + t4 + t5 + t6), t7);
        }
    }

    fn push_king(&self, p: Player, x: i8, y: i8, cck: bool, out: &mut Vec<Coord>)
        requires
            self.wf(),
            0 <= x < 8,
            0 <= y < 8,
        ensures
            final(out)@ == old(out)@ + king_targets(self@.squares, p, x as int, y as int, cck),
    {
        let ghost s = self@.squares;
        let ghost o = old(out)@;
        let ghost t0 = step(s, p, x as int - 1, y as int - 1, cck);
        let ghost t1 = step(s, p, x as int - 1, y as int, cck);
        let ghost t2 = step(s, p, x as int - 1, y as int + 1, cck);
        let ghost t3 = step(s, p, x as int, y as int - 1, cck);
        let ghost t4 = step(s, p, x as int, y as int + 1, cck);
        let ghost t5 = step(s, p, x as int + 1, y as int - 1, cck);
        let ghost t6 = step(s, p, x as int + 1, y as int, cck);
        let ghost t7 = step(s, p, x as int + 1, y as int + 1, cck);
        self.push(p, x - 1, y - 1, cck, out);
        self.push(p, x - 1, y, cck, out);
        proof {
            lemma_assoc(o, t0, t1);
        }
        self.push(p, x - 1, y + 1, cck, out);
        proof {
            lemma_assoc(o, (t0 + t1), t2);
        }
        self.push(p, x, y - 1, cck, out);
        proof {
            lemma_assoc(o, (t0 + t1 + t2), t3);
        }
        self.push(p, x, y + 1, cck, out);
        proof {
            lemma_assoc(o, (t0 + t1 + t2 + t3), t4);
        }
        self.push(p, x + 1, y - 1, cck, out);
        proof {
            lemma_assoc(o, (t0 + t1 + t2 + t3 + t4), t5);
        }
        self.push(p, x + 1, y, cck, out);
        proof {
            lemma_assoc(o, (t0 + t1 + t2 + t3 + t4 + t5), t6);
        }
        self.push(p, x + 1, y + 1, cck, out);
        proof {
            lemma_assoc(o, (t0 + t1 + t2 + t3 + t4 + t5 + t6), t7);
        }
    }

    fn push_pawn(&self, p: Player, x: i8, y: i8, cck: bool, out: &mut Vec<Coord>)
        requires
            self.wf(),
            0 <= x < 8,
            0 <= y < 8,
        ensures
            final(out)@ == old(out)@ + pawn_targets(self@.squares, p, x as int, y as int, cck),
    {
        let ghost s = self@.squares;
        let (dy, jump_row): (i8, i8) = match p {
            Player::Black => (1, 1),
            Player::White => (-1, 6),
        };
        let ghost o = old(out)@;
        let ghost d = pawn_dir(p);
        let ghost q1 = quiet(s, x as int, y as int + d);
        let ghost q2 = if y as int == pawn_start_row(p) && q1.len() > 0 {
            quiet(s, x as int, y as int + 2 * d)
        } else {
            Seq::empty()
        };
        let ghost c1 = capture(s, p, x as int - 1, y as int + d, cck);
        let ghost c2 = capture(s, p, x as int + 1, y as int + d, cck);
        let one = self.push_quiet(x, y + dy, out);
        if y == jump_row && one {
            self.push_quiet(x, y + 2 * dy, out);
        } else {
            assert(out@ + Seq::<Coord>::empty() =~= out@);
        }
        proof {
            lemma_assoc(o, q1, q2);
        }
        self.push_capture(p, x - 1, y + dy, cck, out);
        proof {
            lemma_assoc(o, q1 + q2, c1);
        }
        self.push_capture(p, x + 1, y + dy, cck, out);
        proof {
            lemma_assoc(o, q1 + q2 + c1, c2);
        }
    }

    /// The targets of the piece on (x, y) whatever its king's safety: the
    /// candidates of legal move generation (kings not taken), or of the threat
    /// probe (kings taken).
    pub(crate) fn pseudo_moves(&self, x: u8, y: u8, cck: bool, out: &mut Vec<Coord>)
        requires
            self.wf(),
            x < 8,
            y < 8,
        ensures
            final(out)@ == pseudo_targets(self@.squares, x as int, y as int, cck),
    {
        out.clear();
        let ghost e = out@;
        assert(e =~= Seq::<Coord>::empty());
        let (xi, yi) = (x as i8, y as i8);
        match self.get_by_xy(x, y) {
            Square::Blank => {},
            Square::Occupied(piece, p) => {
                match piece {
                    Piece::Pawn => self.push_pawn(p, xi, yi, cck, out),
                    Piece::Rook => self.push_rook(p, xi, yi, cck, out),
                    Piece::Knight => self.push_knight(p, xi, yi, cck, out),
                    Piece::Bishop => self.push_bishop(p, xi, yi, cck, out),
                    Piece::Queen => {
                        self.push_rook(p, xi, yi, cck, out);
                        self.push_bishop(p, xi, yi, cck, out);
                    },
                    Piece::King => self.push_king(p, xi, yi, cck, out),
                }
                assert(out@ =~= pseudo_targets(self@.squares, x as int, y as int, cck));
            },
        }
    }

    /// The first square, in the order of `checking_player`'s location list, from
    /// which a piece of that player could take a king, if any: the threat probe
    /// over that player's pieces.
    pub fn for_each_check_threat(&self, checking_player: Player, temp_move_list: &mut Vec<Coord>) -> (r: Option<Coord>)
        requires
            self.wf(),
        ensures
            r is Some <==> king_capturable(self@.squares, checking_player),
            r matches Some(c) ==> c.in_bounds() && owned_by(self@.squares[c.index()], checking_player),
            r matches Some(c) ==> exists|i: int|
                0 <= i < self.spec_locs(checking_player).len() && self.spec_locs(checking_player)[i] == c
                    && hits_king(self@.squares, pseudo_targets(self@.squares, c.0 as int, c.1 as int, true))
                    && forall|j: int|
                    0 <= j < i ==> !hits_king(
                        self@.squares,
                        pseudo_targets(
                            self@.squares,
                            (#[trigger] self.spec_locs(checking_player)[j]).0 as int,
                            self.spec_locs(checking_player)[j].1 as int,
                            true,
                        ),
                    ),
    {
        let ghost s = self@.squares;
        proof {
            self.lemma_wf_len();
        }
        let locs = &self.get_player_state(checking_player).piece_locs;
        let mut i: usize = 0;
        while i < locs.len()
            invariant
                self.wf(),
                s == self@.squares,
                s.len() == 64,
                crate::board::locs_ok(locs@, s, checking_player),
                locs@ == self.spec_locs(checking_player),
                i <= locs@.len(),
                forall|k: int|
                    0 <= k < i ==> !hits_king(s, pseudo_targets(s, (#[trigger] locs@[k]).0 as int, locs@[k].1 as int, true)),
            decreases locs@.len() - i,
        {
            let c = locs[i];
            assert(locs@.contains(c));
            self.pseudo_moves(c.0, c.1, true, temp_move_list);
            proof {
                lemma_pseudo_lands(s, c.0 as int, c.1 as int, true);
            }
            let mut j: usize = 0;
            while j < temp_move_list.len()
                invariant
                    self.wf(),
                    s == self@.squares,
                    c.in_bounds(),
                    s.len() == 64,
                    owned_by(s[c.index()], checking_player),
                    locs@ == self.spec_locs(checking_player),
                    i < locs@.len(),
                    c == locs@[i as int],
                    forall|k: int|
                        0 <= k < i ==> !hits_king(s, pseudo_targets(s, (#[trigger] locs@[k]).0 as int, locs@[k].1 as int, true)),
                    temp_move_list@ == pseudo_targets(s, c.0 as int, c.1 as int, true),
                    all_land(s, checking_player, temp_move_list@, true),
                    j <= temp_move_list@.len(),
                    forall|k: int|
                        0 <= k < j ==> !(#[trigger] sq_at(s, temp_move_list@[k].0 as int, temp_move_list@[k].1 as int) matches Square::Occupied(Piece::King, _)),
                decreases temp_move_list@.len() - j,
            {
                let t = temp_move_list[j];
                assert(can_land(s, checking_player, temp_move_list@[j as int].0 as int, temp_move_list@[j as int].1 as int, true));
                match self.get_by_xy(t.0, t.1) {
                    Square::Occupied(Piece::King, _) => {
                        assert(hits_king(s, pseudo_targets(s, c.0 as int, c.1 as int, true)));
                        assert(self.spec_locs(checking_player)[i as int] == c);
                        return Some(c);
                    },
                    _ => {},
                }
                j = j + 1;
            }
            i = i + 1;
        }
        proof {
            if king_capturable(s, checking_player) {
                let c = choose|c: Coord|
                    c.in_bounds() && owned_by(s[c.index()], checking_player) && #[trigger] hits_king(
                        s,
                        pseudo_targets(s, c.0 as int, c.1 as int, true),
                    );
                assert(locs@.contains(c));
                let k = choose|k: int| 0 <= k < locs@.len() && locs@[k] == c;
                assert(!hits_king(s, pseudo_targets(s, locs@[k].0 as int, locs@[k].1 as int, true)));
            }
        }
        None
    }
}

} // verus!
