use vstd::prelude::*;

verus! {

/// Errors reported by the board's public interface.
#[derive(Clone, Copy, Debug, PartialEq, Eq, Structural)]
pub enum Error {
    /// A rank outside 1..=8.
    RankOutOfBounds(u8),
    /// A file outside 'a'..='h'.
    FileOutOfBounds(char),
    /// A raw (x, y) pair outside 0..=7.
    XyOutOfBounds(i32, i32),
    /// The move list was built for another revision of the board, or was already used.
    MoveListExpired,
    /// The requested index (first) is not below the length of the move list (second).
    MoveListOutOfBounds(usize, usize),
}

/// A square address: `Coord(x, y)` with `x` the file index (0 is file 'a') and
/// `y` the row index counted from the top (0 is rank 8, 7 is rank 1).
#[derive(Clone, Copy, Debug, PartialEq, Eq, Structural, Hash)]
pub struct Coord(pub u8, pub u8);

impl Coord {
    pub open spec fn in_bounds(self) -> bool {
        self.0 < 8 && self.1 < 8
    }

    /// Position of this square in the rank-major array of 64 squares.
    pub open spec fn index(self) -> int {
        self.1 as int * 8 + self.0 as int
    }
}

/// The file letter of file index `x`.
pub open spec fn file_char(x: int) -> char {
    ('a' as int + x) as char
}

/// (file letter, rank number) of the square (x, y).
pub fn xy_to_file_rank(x: u8, y: u8) -> (r: (char, u8))
    requires
        x < 8,
        y < 8,
    ensures
        r.0 as int == 'a' as int + x,
        r.1 == 8 - y,
{
    ((x + 97) as char, 8 - y)
}

/// Ok when both components lie in 0..=7, else `XyOutOfBounds(x, y)`.
pub fn check_i32_xy(x: i32, y: i32) -> (r: Result<(), Error>)
    ensures
        r is Ok <==> (0 <= x <= 7 && 0 <= y <= 7),
        r is Err ==> r == Err::<(), Error>(Error::XyOutOfBounds(x, y)),
{
    if x < 0 || x > 7 || y < 0 || y > 7 {
        Err(Error::XyOutOfBounds(x, y))
    } else {
        Ok(())
    }
}

/// Checked form of `xy_to_file_rank` on raw integers.
pub fn xy_to_file_rank_safe(x: i32, y: i32) -> (r: Result<(char, u8), Error>)
    ensures
        (0 <= x <= 7 && 0 <= y <= 7) ==> r is Ok && r->Ok_0.0 as int == 'a' as int + x
            && r->Ok_0.1 == 8 - y,
        !(0 <= x <= 7 && 0 <= y <= 7) ==> r == Err::<(char, u8), Error>(
            Error::XyOutOfBounds(x, y),
        ),
{
    match check_i32_xy(x, y) {
        Err(e) => Err(e),
        Ok(()) => Ok(xy_to_file_rank(x as u8, y as u8)),
    }
}

/// The square named by a file letter and a rank number.
pub fn file_rank_to_xy(file: char, rank: u8) -> (c: Coord)
    requires
        'a' <= file <= 'h',
        1 <= rank <= 8,
    ensures
        c.0 as int == file as int - 'a' as int,
        c.1 == 8 - rank,
        c.in_bounds(),
{
    let x = file as u32 - 'a' as u32;
    Coord(x as u8, 8 - rank)
}

/// Checked form of `file_rank_to_xy`: the rank is tested first, then the file.
pub fn file_rank_to_xy_safe(file: char, rank: u8) -> (r: Result<Coord, Error>)
    ensures
        !(1 <= rank <= 8) ==> r == Err::<Coord, Error>(Error::RankOutOfBounds(rank)),
        (1 <= rank <= 8 && !('a' <= file <= 'h')) ==> r == Err::<Coord, Error>(
            Error::FileOutOfBounds(file),
        ),
        (1 <= rank <= 8 && 'a' <= file <= 'h') ==> r is Ok && r->Ok_0.0 as int == file as int
            - 'a' as int && r->Ok_0.1 == 8 - rank,
{
    if rank < 1 || rank > 8 {
        return Err(Error::RankOutOfBounds(rank));
    }
    let file_u32 = file as u32;
    if file_u32 < 'a' as u32 || file_u32 > 'h' as u32 {
        return Err(Error::FileOutOfBounds(file));
    }
    Ok(file_rank_to_xy(file, rank))
}

} // verus!
