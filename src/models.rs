use vstd::prelude::*;
use crate::text::string_from_chars;

verus! {

/// The kind of a chess piece.
#[derive(Debug, PartialEq, Eq, Clone, Copy, Structural)]
pub enum Piece {
    Pawn,
    Rook,
    Bishop,
    Knight,
    Queen,
    King,
}

/// The outcome recorded at the end of a game record.
#[derive(Debug, PartialEq, Eq, Clone, Copy, Structural)]
pub enum GameResult {
    Unknown,
    Draw,
    WhiteWins,
    BlackWins,
}

/// The side a piece belongs to.
#[derive(Debug, PartialEq, Eq, Clone, Copy, Structural)]
pub enum Color {
    White,
    Black,
}

pub open spec fn opposite_spec(c: Color) -> Color {
    match c {
        Color::White => Color::Black,
        Color::Black => Color::White,
    }
}

impl Color {
    /// The other side.
    pub fn opposite(&self) -> (r: Color)
        ensures
            r == opposite_spec(*self),
    {
        match self {
            Color::White => Color::Black,
            Color::Black => Color::White,
        }
    }
}

/// A square of the board: rank 0 is "1", file 0 is "a".
#[derive(Debug, PartialEq, Eq, Clone, Copy, Structural)]
pub struct Square {
    pub rank: i8,
    pub file: i8,
}

/// What stands on a square.
#[derive(Debug, PartialEq, Eq, Clone, Copy, Structural)]
pub struct OccupiedSquare {
    pub piece: Piece,
    pub color: Color,
}

/// The 64 squares, rank 8 first, each rank from file "a" to file "h".
#[derive(Debug, PartialEq, Eq, Clone)]
pub struct Board {
    pub squares: Vec<Option<OccupiedSquare>>,
}

/// A complete game state: board, side to move, castling flags, en-passant target and clocks.
#[derive(Debug, PartialEq, Eq, Clone)]
pub struct Position {
    pub board: Board,
    pub next_to_move: Color,
    pub white_can_castle_king_side: bool,
    pub white_can_castle_queen_side: bool,
    pub black_can_castle_king_side: bool,
    pub black_can_castle_queen_side: bool,
    pub en_passant_square: Option<Square>,
    pub half_move_clock: i64,
    pub full_move_counter: i64,
}

/// Which parts of a square `Square::to_notation` writes.
pub enum SquareNotationOptions {
    OnlyFile,
    OnlyRank,
    FileAndRank,
}

pub open spec fn on_board(rank: int, file: int) -> bool {
    0 <= rank < 8 && 0 <= file < 8
}

/// Where a square is stored in `Board::squares`.
pub open spec fn sq_index(s: Square) -> int {
    (7 - s.rank) * 8 + s.file
}

/// The square stored at index `i` of `Board::squares`.
pub open spec fn sq_at(i: int) -> Square {
    Square { rank: (7 - i / 8) as i8, file: (i % 8) as i8 }
}

pub open spec fn file_char(file: int) -> char {
    (('a' as int) + file) as char
}

pub open spec fn rank_char(rank: int) -> char {
    (('1' as int) + rank) as char
}

pub open spec fn square_notation_spec(s: Square, options: SquareNotationOptions) -> Seq<char> {
    match options {
        SquareNotationOptions::OnlyFile => seq![file_char(s.file as int)],
        SquareNotationOptions::OnlyRank => seq![rank_char(s.rank as int)],
        SquareNotationOptions::FileAndRank => seq![file_char(s.file as int), rank_char(s.rank as int)],
    }
}

/// The square named by a file letter and a rank digit, if both are in range.
pub open spec fn square_of_chars(f: char, r: char) -> Option<Square> {
    if 'a' <= f <= 'h' && '1' <= r <= '8' {
        Some(Square { rank: (r as int - '1' as int) as i8, file: (f as int - 'a' as int) as i8 })
    } else {
        None
    }
}

pub open spec fn square_notation_parse(s: Seq<char>) -> Result<Square, ()> {
    if s.len() >= 2 && square_of_chars(s[0], s[1]) is Some {
        Ok(square_of_chars(s[0], s[1])->0)
    } else {
        Err(())
    }
}

/// The square named by `f` and `r` ("e" and "4"), if both are in range.
pub fn square_from_chars(f: char, r: char) -> (res: Option<Square>)
    ensures
        res == square_of_chars(f, r),
        res matches Some(s) ==> s.wf(),
{
    if 'a' <= f && f <= 'h' && '1' <= r && r <= '8' {
        Some(Square { rank: (r as u32 - '1' as u32) as i8, file: (f as u32 - 'a' as u32) as i8 })
    } else {
        None
    }
}

impl Square {
    pub open spec fn wf(self) -> bool {
        on_board(self.rank as int, self.file as int)
    }

    /// The square at `rank` and `file`, or `None` where either is outside 0..=7.
    pub fn new(rank: i8, file: i8) -> (r: Option<Square>)
        ensures
            r == (if on_board(rank as int, file as int) {
                Some(Square { rank, file })
            } else {
                None
            }),
    {
        if file < 0 || file > 7 {
            None
        } else if rank < 0 || rank > 7 {
            None
        } else {
            Some(Square { file, rank })
        }
    }

    /// Reads a square from its first two characters, a file letter and a rank digit ("e4").
    pub fn from_notation(notation: &str) -> (r: Result<Square, ()>)
        ensures
            r == square_notation_parse(notation@),
            r matches Ok(s) ==> s.wf(),
    {
        let chars = crate::text::chars_of(notation);
        if chars.len() < 2 {
            return Err(());
        }
        match square_from_chars(chars[0], chars[1]) {
            Some(s) => Ok(s),
            None => Err(()),
        }
    }

    /// Writes the file letter, the rank digit, or both.
    pub fn to_notation(&self, options: SquareNotationOptions) -> (r: String)
        requires
            self.wf(),
        ensures
            r@ == square_notation_spec(*self, options),
    {
        let f = (('a' as u8) + (self.file as u8)) as char;
        let rk = (('1' as u8) + (self.rank as u8)) as char;
        let mut v: Vec<char> = Vec::new();
        match options {
            SquareNotationOptions::OnlyFile => v.push(f),
            SquareNotationOptions::OnlyRank => v.push(rk),
            SquareNotationOptions::FileAndRank => {
                v.push(f);
                v.push(rk);
            },
        }
        proof {
            assert(v@ =~= square_notation_spec(*self, options));
        }
        string_from_chars(&v)
    }
}

} // verus!
