use vstd::prelude::*;

verus! {

/// The six kinds of piece.
#[derive(Clone, Copy, Debug, PartialEq, Eq, Structural)]
pub enum Piece {
    Pawn,
    Rook,
    Knight,
    Bishop,
    Queen,
    King,
}

impl Piece {
    /// The piece's letter: upper case, or lower case when `is_lower`.
    pub fn custom_fmt(&self, is_lower: bool) -> (c: char)
        ensures
            c == piece_letter(*self, is_lower),
    {
        match self {
            Piece::Pawn => if is_lower { 'p' } else { 'P' },
            Piece::Rook => if is_lower { 'r' } else { 'R' },
            Piece::Knight => if is_lower { 'n' } else { 'N' },
            Piece::Bishop => if is_lower { 'b' } else { 'B' },
            Piece::Queen => if is_lower { 'q' } else { 'Q' },
            Piece::King => if is_lower { 'k' } else { 'K' },
        }
    }
}

pub open spec fn piece_letter(p: Piece, is_lower: bool) -> char {
    let upper = match p {
        Piece::Pawn => 'P',
        Piece::Rook => 'R',
        Piece::Knight => 'N',
        Piece::Bishop => 'B',
        Piece::Queen => 'Q',
        Piece::King => 'K',
    };
    if is_lower {
        (upper as int + 32) as char
    } else {
        upper
    }
}

/// The two sides.
#[derive(Clone, Copy, Debug, PartialEq, Eq, Structural)]
pub enum Player {
    Black,
    White,
}

pub open spec fn other(p: Player) -> Player {
    match p {
        Player::Black => Player::White,
        Player::White => Player::Black,
    }
}

/// Row index of a player's back rank (White starts at the bottom, row 7).
pub open spec fn first_row(p: Player) -> int {
    match p {
        Player::Black => 0,
        Player::White => 7,
    }
}

impl Player {
    pub fn get_other_player(&self) -> (r: Player)
        ensures
            r == other(*self),
            r != *self,
    {
        match self {
            Player::Black => Player::White,
            Player::White => Player::Black,
        }
    }

    /// Row index of this player's back rank, where its king and rooks start.
    pub fn get_first_row(&self) -> (r: u8)
        ensures
            r as int == first_row(*self),
    {
        match self {
            Player::Black => 0,
            Player::White => 7,
        }
    }
}

/// The content of one square.
#[derive(Clone, Copy, Debug, PartialEq, Eq, Structural)]
pub enum Square {
    Occupied(Piece, Player),
    Blank,
}

/// Whether `s` holds a piece of player `p`.
pub open spec fn owned_by(s: Square, p: Player) -> bool {
    match s {
        Square::Occupied(_, q) => q == p,
        Square::Blank => false,
    }
}

impl Square {
    /// One character for the square: '.' when blank, the piece letter otherwise,
    /// lower case for Black.
    pub fn to_char(&self) -> (c: char)
        ensures
            c == square_char(*self),
    {
        match self {
            Square::Blank => '.',
            Square::Occupied(piece, player) => piece.custom_fmt(*player == Player::Black),
        }
    }
}

pub open spec fn square_char(s: Square) -> char {
    match s {
        Square::Blank => '.',
        Square::Occupied(piece, player) => piece_letter(piece, player == Player::Black),
    }
}

} // verus!
