use vstd::prelude::*;
use crate::coords::Coord;
use crate::entities::{Piece, Player, Square, first_row};
use crate::move_list::{MoveSnapshot, BeforeAfterSquares, MoveDescription};

verus! {

/// Position of a player in the two-element arrays below.
pub open spec fn player_index(p: Player) -> int {
    match p {
        Player::Black => 0,
        Player::White => 1,
    }
}

pub fn get_player_index(p: Player) -> (r: usize)
    ensures
        r as int == player_index(p),
{
    match p {
        Player::Black => 0,
        Player::White => 1,
    }
}

/// Kingside castling on `p`'s back rank: king e to g, rook h to f.
pub open spec fn oo_snapshot(p: Player, flag: bool) -> MoveSnapshot {
    let r = first_row(p) as u8;
    MoveSnapshot(
        [
            Some((Coord(4, r), BeforeAfterSquares(Square::Occupied(Piece::King, p), Square::Blank))),
            Some((Coord(5, r), BeforeAfterSquares(Square::Blank, Square::Occupied(Piece::Rook, p)))),
            Some((Coord(6, r), BeforeAfterSquares(Square::Blank, Square::Occupied(Piece::King, p)))),
            Some((Coord(7, r), BeforeAfterSquares(Square::Occupied(Piece::Rook, p), Square::Blank))),
            None,
        ],
        0,
        MoveDescription::Oo(flag),
    )
}

/// Queenside castling on `p`'s back rank: rook a to d, king e to c.
pub open spec fn ooo_snapshot(p: Player, flag: bool) -> MoveSnapshot {
    let r = first_row(p) as u8;
    MoveSnapshot(
        [
            Some((Coord(0, r), BeforeAfterSquares(Square::Occupied(Piece::Rook, p), Square::Blank))),
            Some((Coord(1, r), BeforeAfterSquares(Square::Blank, Square::Blank))),
            Some((Coord(2, r), BeforeAfterSquares(Square::Blank, Square::Occupied(Piece::King, p)))),
            Some((Coord(3, r), BeforeAfterSquares(Square::Blank, Square::Occupied(Piece::Rook, p)))),
            Some((Coord(4, r), BeforeAfterSquares(Square::Occupied(Piece::King, p), Square::Blank))),
        ],
        0,
        MoveDescription::Ooo(flag),
    )
}

/// The squares between king and rook, kingside, which must be blank and safe.
pub open spec fn oo_travel(p: Player) -> Seq<Coord> {
    let r = first_row(p) as u8;
    seq![Coord(6, r), Coord(5, r)]
}

/// The squares between rook and king, queenside, which must be blank and safe.
pub open spec fn ooo_travel(p: Player) -> Seq<Coord> {
    let r = first_row(p) as u8;
    seq![Coord(1, r), Coord(2, r), Coord(3, r)]
}

fn oo_move_snapshot_for_row(player: Player) -> (r: MoveSnapshot)
    ensures
        r == oo_snapshot(player, false),
{
    let row = player.get_first_row();
    MoveSnapshot(
        [
            Some((Coord(4, row), BeforeAfterSquares(Square::Occupied(Piece::King, player), Square::Blank))),
            Some((Coord(5, row), BeforeAfterSquares(Square::Blank, Square::Occupied(Piece::Rook, player)))),
            Some((Coord(6, row), BeforeAfterSquares(Square::Blank, Square::Occupied(Piece::King, player)))),
            Some((Coord(7, row), BeforeAfterSquares(Square::Occupied(Piece::Rook, player), Square::Blank))),
            None,
        ],
        0,
        MoveDescription::Oo(false),
    )
}

fn ooo_move_snapshot_for_row(player: Player) -> (r: MoveSnapshot)
    ensures
        r == ooo_snapshot(player, false),
{
    let row = player.get_first_row();
    MoveSnapshot(
        [
            Some((Coord(0, row), BeforeAfterSquares(Square::Occupied(Piece::Rook, player), Square::Blank))),
            Some((Coord(1, row), BeforeAfterSquares(Square::Blank, Square::Blank))),
            Some((Coord(2, row), BeforeAfterSquares(Square::Blank, Square::Occupied(Piece::King, player)))),
            Some((Coord(3, row), BeforeAfterSquares(Square::Blank, Square::Occupied(Piece::Rook, player)))),
            Some((Coord(4, row), BeforeAfterSquares(Square::Occupied(Piece::King, player), Square::Blank))),
        ],
        0,
        MoveDescription::Ooo(false),
    )
}

/// Castling constants, computed once: for each player (Black first), the
/// kingside and queenside snapshots and the squares the king's path is tested on.
pub struct CastleUtils {
    pub oo_move_snapshots: [MoveSnapshot; 2],
    pub ooo_move_snapshots: [MoveSnapshot; 2],
    pub oo_king_traversal_sqs: [[Coord; 2]; 2],
    pub ooo_king_traversal_sqs: [[Coord; 3]; 2],
}

impl CastleUtils {
    pub open spec fn wf(&self) -> bool {
        &&& self.oo_move_snapshots@[0] == oo_snapshot(Player::Black, false)
        &&& self.oo_move_snapshots@[1] == oo_snapshot(Player::White, false)
        &&& self.ooo_move_snapshots@[0] == ooo_snapshot(Player::Black, false)
        &&& self.ooo_move_snapshots@[1] == ooo_snapshot(Player::White, false)
        &&& self.oo_king_traversal_sqs@[0]@ == oo_travel(Player::Black)
        &&& self.oo_king_traversal_sqs@[1]@ == oo_travel(Player::White)
        &&& self.ooo_king_traversal_sqs@[0]@ == ooo_travel(Player::Black)
        &&& self.ooo_king_traversal_sqs@[1]@ == ooo_travel(Player::White)
    }

    pub fn new() -> (r: CastleUtils)
        ensures
            r.wf(),
    {
        let white_first_row = Player::White.get_first_row();
        let black_first_row = Player::Black.get_first_row();
        let r = CastleUtils {
            oo_move_snapshots: [oo_move_snapshot_for_row(Player::Black), oo_move_snapshot_for_row(Player::White)],
            ooo_move_snapshots: [ooo_move_snapshot_for_row(Player::Black), ooo_move_snapshot_for_row(Player::White)],
            oo_king_traversal_sqs: [
                [Coord(6, black_first_row), Coord(5, black_first_row)],
                [Coord(6, white_first_row), Coord(5, white_first_row)],
            ],
            ooo_king_traversal_sqs: [
                [Coord(1, black_first_row), Coord(2, black_first_row), Coord(3, black_first_row)],
                [Coord(1, white_first_row), Coord(2, white_first_row), Coord(3, white_first_row)],
            ],
        };
        assert(r.oo_king_traversal_sqs@[0]@ =~= oo_travel(Player::Black));
        assert(r.oo_king_traversal_sqs@[1]@ =~= oo_travel(Player::White));
        assert(r.ooo_king_traversal_sqs@[0]@ =~= ooo_travel(Player::Black));
        assert(r.ooo_king_traversal_sqs@[1]@ =~= ooo_travel(Player::White));
        r
    }
}

} // verus!
