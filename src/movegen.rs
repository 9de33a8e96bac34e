use vstd::prelude::*;
use crate::models::{on_board, sq_index, OccupiedSquare, Piece, Square, Color};
use crate::game::{Game, ValidMove};

verus! {

/// What stands on square `s`.
pub open spec fn occ(b: Seq<Option<OccupiedSquare>>, s: Square) -> Option<OccupiedSquare> {
    b[sq_index(s)]
}

pub open spec fn abs(x: int) -> int {
    if x < 0 { -x } else { x }
}

/// A piece of `color` may end its move on `to`: the square is empty or holds an enemy piece.
pub open spec fn can_land(b: Seq<Option<OccupiedSquare>>, color: Color, to: Square) -> bool {
    &&& to.wf()
    &&& match occ(b, to) {
        Some(o) => o.color != color,
        None => true,
    }
}

/// The ordinary move of `piece` from `from` to `to`, capturing whatever stands on `to`.
pub open spec fn plain_move(
    b: Seq<Option<OccupiedSquare>>,
    color: Color,
    piece: Piece,
    from: Square,
    to: Square,
) -> ValidMove {
    ValidMove {
        color,
        from,
        to,
        piece,
        takes: match occ(b, to) {
            Some(o) => Some(o.piece),
            None => None,
        },
        takes_en_passant: false,
        en_passant_square: None,
    }
}

/// `m` is the ordinary move of `piece` onto a square not held by its own side.
pub open spec fn step_move(
    b: Seq<Option<OccupiedSquare>>,
    color: Color,
    piece: Piece,
    from: Square,
    m: ValidMove,
) -> bool {
    can_land(b, color, m.to) && m == plain_move(b, color, piece, from, m.to)
}

pub open spec fn knight_jump(from: Square, to: Square) -> bool {
    let dr = abs(to.rank - from.rank);
    let df = abs(to.file - from.file);
    (dr == 1 && df == 2) || (dr == 2 && df == 1)
}

pub open spec fn king_step(from: Square, to: Square) -> bool {
    let dr = abs(to.rank - from.rank);
    let df = abs(to.file - from.file);
    dr <= 1 && df <= 1 && !(dr == 0 && df == 0)
}

/// The knight's moves: an L-shaped jump onto a square that is not held by its own side.
pub open spec fn knight_move(b: Seq<Option<OccupiedSquare>>, color: Color, from: Square, m: ValidMove) -> bool {
    knight_jump(from, m.to) && step_move(b, color, Piece::Knight, from, m)
}

/// The king's moves: one step in any direction onto a square not held by its own side.
pub open spec fn king_move(b: Seq<Option<OccupiedSquare>>, color: Color, from: Square, m: ValidMove) -> bool {
    king_step(from, m.to) && step_move(b, color, Piece::King, from, m)
}

/// The square at the given rank and file offsets from `from` (on the board or not).
pub open spec fn offset_square(from: Square, dr: int, df: int) -> Square {
    Square { rank: (from.rank + dr) as i8, file: (from.file + df) as i8 }
}

pub proof fn lemma_push_contains(s: Seq<ValidMove>, e: ValidMove)
    ensures
        forall|x: ValidMove| #[trigger] s.push(e).contains(x) <==> (s.contains(x) || x == e),
{
    assert forall|x: ValidMove| #[trigger] s.push(e).contains(x) <==> (s.contains(x) || x == e) by {
        if s.contains(x) {
            let i = choose|i: int| 0 <= i < s.len() && s[i] == x;
            assert(s.push(e)[i] == x);
        }
        if x == e {
            assert(s.push(e)[s.len() as int] == x);
        }
        if s.push(e).contains(x) {
            let i = choose|i: int| 0 <= i < s.len() + 1 && s.push(e)[i] == x;
            if i < s.len() {
                assert(s[i] == x);
            }
        }
    }
}

/// `m` is the move of `piece` to the square at the given offsets, which exists and is not
/// held by the mover's own side.
pub open spec fn offset_move(
    b: Seq<Option<OccupiedSquare>>,
    color: Color,
    piece: Piece,
    from: Square,
    dr: int,
    df: int,
    m: ValidMove,
) -> bool {
    on_board(from.rank + dr, from.file + df) && can_land(b, color, offset_square(from, dr, df))
        && m == plain_move(b, color, piece, from, offset_square(from, dr, df))
}

/// The signed distance covered after `k` steps in direction `d` (one of -1, 0, 1).
pub open spec fn scale(k: int, d: int) -> int {
    if d > 0 { k } else if d < 0 { -k } else { 0 }
}

/// The square `k` steps from `from` along the direction (`dr`, `df`).
pub open spec fn ray_sq(from: Square, dr: int, df: int, k: int) -> Square {
    offset_square(from, scale(k, dr), scale(k, df))
}

pub open spec fn ray_on_board(from: Square, dr: int, df: int, k: int) -> bool {
    on_board(from.rank + scale(k, dr), from.file + scale(k, df))
}

pub open spec fn is_direction(dr: int, df: int) -> bool {
    -1 <= dr <= 1 && -1 <= df <= 1 && !(dr == 0 && df == 0)
}

/// A sliding move: `k` steps along the direction, over empty squares only, onto a square
/// that is empty or holds an enemy piece.
pub open spec fn ray_move(
    b: Seq<Option<OccupiedSquare>>,
    color: Color,
    piece: Piece,
    from: Square,
    dr: int,
    df: int,
    m: ValidMove,
) -> bool {
    exists|k: int|
        #![trigger ray_sq(from, dr, df, k)]
        1 <= k && ray_on_board(from, dr, df, k) && (forall|j: int|
            1 <= j < k ==> occ(b, #[trigger] ray_sq(from, dr, df, j)) is None) && m.to == ray_sq(
            from,
            dr,
            df,
            k,
        ) && step_move(b, color, piece, from, m)
}

/// A move along `line`: over empty squares only, onto one that is empty or holds an enemy piece.
pub open spec fn line_move(
    b: Seq<Option<OccupiedSquare>>,
    color: Color,
    piece: Piece,
    from: Square,
    line: Seq<Square>,
    m: ValidMove,
) -> bool {
    exists|j: int|
        #![trigger line[j]]
        0 <= j < line.len() && (forall|i: int| 0 <= i < j ==> occ(b, #[trigger] line[i]) is None)
            && m.to == line[j] && step_move(b, color, piece, from, m)
}

pub open spec fn rook_move(b: Seq<Option<OccupiedSquare>>, color: Color, piece: Piece, from: Square, m: ValidMove) -> bool {
    ||| ray_move(b, color, piece, from, -1, 0, m)
    ||| ray_move(b, color, piece, from, 1, 0, m)
    ||| ray_move(b, color, piece, from, 0, -1, m)
    ||| ray_move(b, color, piece, from, 0, 1, m)
}

pub open spec fn bishop_move(b: Seq<Option<OccupiedSquare>>, color: Color, piece: Piece, from: Square, m: ValidMove) -> bool {
    ||| ray_move(b, color, piece, from, -1, -1, m)
    ||| ray_move(b, color, piece, from, 1, -1, m)
    ||| ray_move(b, color, piece, from, 1, 1, m)
    ||| ray_move(b, color, piece, from, -1, 1, m)
}

/// The rank direction in which pawns of `color` advance.
pub open spec fn pawn_dir(color: Color) -> int {
    match color {
        Color::White => 1,
        Color::Black => -1,
    }
}

/// The rank from which pawns of `color` may advance two squares.
pub open spec fn pawn_start_rank(color: Color) -> int {
    match color {
        Color::White => 1,
        Color::Black => 6,
    }
}

pub open spec fn pawn_base(color: Color, from: Square, to: Square) -> ValidMove {
    ValidMove {
        color,
        from,
        to,
        piece: Piece::Pawn,
        takes: None,
        takes_en_passant: false,
        en_passant_square: None,
    }
}

/// A pawn's diagonal step forward towards file offset `df`: onto an enemy piece, which it takes,
/// or onto the empty en-passant target, where it takes a pawn en passant.
pub open spec fn pawn_take(
    b: Seq<Option<OccupiedSquare>>,
    ep: Option<Square>,
    color: Color,
    from: Square,
    df: int,
    m: ValidMove,
) -> bool {
    let to = offset_square(from, pawn_dir(color), df);
    on_board(from.rank + pawn_dir(color), from.file + df) && match occ(b, to) {
        Some(o) => o.color != color && m == ValidMove { takes: Some(o.piece), ..pawn_base(color, from, to) },
        None => ep == Some(to) && m == ValidMove {
            takes: Some(Piece::Pawn),
            takes_en_passant: true,
            ..pawn_base(color, from, to)
        },
    }
}

/// The pawn's moves: one step forward onto an empty square; two steps from the starting rank
/// over two empty squares, which sets the en-passant target to the square passed; a diagonal
/// step forward onto an enemy piece, or onto the empty en-passant target.
pub open spec fn pawn_move(
    b: Seq<Option<OccupiedSquare>>,
    ep: Option<Square>,
    color: Color,
    from: Square,
    m: ValidMove,
) -> bool {
    let d = pawn_dir(color);
    let one = offset_square(from, d, 0);
    let two = offset_square(from, 2 * d, 0);
    ||| on_board(from.rank + d, from.file as int) && occ(b, one) is None && m == pawn_base(color, from, one)
    ||| from.rank == pawn_start_rank(color) && occ(b, one) is None && occ(b, two) is None && m == ValidMove {
        en_passant_square: Some(one),
        ..pawn_base(color, from, two)
    }
    ||| pawn_take(b, ep, color, from, -1, m)
    ||| pawn_take(b, ep, color, from, 1, m)
}

/// The moves of `piece` of `color` standing on `from`, whether or not they expose its king.
pub open spec fn piece_move(
    b: Seq<Option<OccupiedSquare>>,
    ep: Option<Square>,
    color: Color,
    piece: Piece,
    from: Square,
    m: ValidMove,
) -> bool {
    match piece {
        Piece::Pawn => pawn_move(b, ep, color, from, m),
        Piece::Knight => knight_move(b, color, from, m),
        Piece::Rook => rook_move(b, color, Piece::Rook, from, m),
        Piece::Bishop => bishop_move(b, color, Piece::Bishop, from, m),
        Piece::Queen => rook_move(b, color, Piece::Queen, from, m) || bishop_move(b, color, Piece::Queen, from, m),
        Piece::King => king_move(b, color, from, m),
    }
}

/// A pseudo-legal move of `color`: a move of one of its pieces, ignoring its own king's safety.
pub open spec fn pseudo_move(
    b: Seq<Option<OccupiedSquare>>,
    ep: Option<Square>,
    color: Color,
    m: ValidMove,
) -> bool {
    &&& m.from.wf()
    &&& occ(b, m.from) == Some(OccupiedSquare { piece: m.piece, color })
    &&& piece_move(b, ep, color, m.piece, m.from, m)
}

pub proof fn lemma_concat_contains(a: Seq<ValidMove>, c: Seq<ValidMove>)
    ensures
        forall|x: ValidMove| #[trigger] (a + c).contains(x) <==> (a.contains(x) || c.contains(x)),
{
    assert forall|x: ValidMove| #[trigger] (a + c).contains(x) <==> (a.contains(x) || c.contains(x)) by {
        if a.contains(x) {
            let i = choose|i: int| 0 <= i < a.len() && a[i] == x;
            assert((a + c)[i] == x);
        }
        if c.contains(x) {
            let i = choose|i: int| 0 <= i < c.len() && c[i] == x;
            assert((a + c)[a.len() + i] == x);
        }
        if (a + c).contains(x) {
            let i = choose|i: int| 0 <= i < a.len() + c.len() && (a + c)[i] == x;
            if i < a.len() {
                assert(a[i] == x);
            } else {
                assert(c[i - a.len()] == x);
            }
        }
    }
}

/// Along a ray, the squares listed up to the edge give exactly the sliding moves.
pub proof fn lemma_line_is_ray(
    b: Seq<Option<OccupiedSquare>>,
    color: Color,
    piece: Piece,
    from: Square,
    dr: int,
    df: int,
    line: Seq<Square>,
)
    requires
        from.wf(),
        is_direction(dr, df),
        forall|j: int| #![trigger line[j]] 0 <= j < line.len() ==> line[j] == ray_sq(from, dr, df, j + 1),
            forall|k: int| 1 <= k <= line.len() ==> #[trigger] ray_on_board(from, dr, df, k),
        !ray_on_board(from, dr, df, (line.len() + 1) as int),
    ensures
        forall|m: ValidMove| line_move(b, color, piece, from, line, m) <==> ray_move(b, color, piece, from, dr, df, m),
{
    assert forall|m: ValidMove| line_move(b, color, piece, from, line, m) <==> ray_move(b, color, piece, from, dr, df, m) by {
        lemma_line_is_ray_one(b, color, piece, from, dr, df, line, m);
    }
}

proof fn lemma_line_is_ray_one(
    b: Seq<Option<OccupiedSquare>>,
    color: Color,
    piece: Piece,
    from: Square,
    dr: int,
    df: int,
    line: Seq<Square>,
    m: ValidMove,
)
    requires
        from.wf(),
        is_direction(dr, df),
        forall|j: int| #![trigger line[j]] 0 <= j < line.len() ==> line[j] == ray_sq(from, dr, df, j + 1),
            forall|k: int| 1 <= k <= line.len() ==> #[trigger] ray_on_board(from, dr, df, k),
        !ray_on_board(from, dr, df, (line.len() + 1) as int),
    ensures
        line_move(b, color, piece, from, line, m) <==> ray_move(b, color, piece, from, dr, df, m),
{
    if line_move(b, color, piece, from, line, m) {
        let j = choose|j: int|
            #![trigger line[j]]
            0 <= j < line.len() && (forall|i: int| 0 <= i < j ==> occ(b, #[trigger] line[i]) is None)
                && m.to == line[j] && step_move(b, color, piece, from, m);
        assert(line[j] == ray_sq(from, dr, df, j + 1));
        assert forall|i: int| 1 <= i < j + 1 implies occ(b, #[trigger] ray_sq(from, dr, df, i)) is None by {
            assert(line[i - 1] == ray_sq(from, dr, df, i));
        }
    }
    if ray_move(b, color, piece, from, dr, df, m) {
        let k = choose|k: int|
            #![trigger ray_sq(from, dr, df, k)]
            1 <= k && ray_on_board(from, dr, df, k) && (forall|j: int|
                1 <= j < k ==> occ(b, #[trigger] ray_sq(from, dr, df, j)) is None) && m.to == ray_sq(
                from,
                dr,
                df,
                k,
            ) && step_move(b, color, piece, from, m);
        assert(k - 1 < line.len());
        assert(line[k - 1] == ray_sq(from, dr, df, k));
        assert forall|i: int| 0 <= i < k - 1 implies occ(b, #[trigger] line[i]) is None by {
            assert(line[i] == ray_sq(from, dr, df, i + 1));
        }
    }
}

/// A key that orders the squares seen from `color`'s side: rank by rank towards the opponent,
/// then file by file.
pub open spec fn forward_key(color: Color, s: Square) -> int {
    match color {
        Color::White => s.rank * 8 + s.file,
        Color::Black => s.file - s.rank * 8,
    }
}

/// The destinations of the moves strictly increase by `forward_key`.
pub open spec fn ascending_by(color: Color, s: Seq<ValidMove>) -> bool {
    forall|i: int, j: int| 0 <= i < j < s.len() ==> forward_key(color, s[i].to) < forward_key(color, s[j].to)
}

/// No two moves have the same destination.
pub open spec fn distinct_targets(s: Seq<ValidMove>) -> bool {
    forall|i: int, j: int| 0 <= i < j < s.len() ==> s[i].to != s[j].to
}

/// No two moves have both the same origin and the same destination.
pub open spec fn distinct_moves(s: Seq<ValidMove>) -> bool {
    forall|i: int, j: int| 0 <= i < j < s.len() ==> s[i].from != s[j].from || s[i].to != s[j].to
}

pub open spec fn sign(x: int) -> int {
    if x > 0 { 1 } else if x < 0 { -1 } else { 0 }
}

/// A number for the direction from `from` to `s`, ordering the eight directions.
pub open spec fn direction_key(from: Square, s: Square) -> int {
    (sign(s.rank - from.rank) + 1) * 3 + sign(s.file - from.file) + 1
}

pub proof fn lemma_ascending_distinct(color: Color, s: Seq<ValidMove>)
    requires
        ascending_by(color, s),
    ensures
        distinct_targets(s),
{
}

pub proof fn lemma_distinct_targets_moves(s: Seq<ValidMove>)
    requires
        distinct_targets(s),
    ensures
        distinct_moves(s),
{
}

pub proof fn lemma_distinct_no_duplicates(s: Seq<ValidMove>)
    requires
        distinct_moves(s),
    ensures
        s.no_duplicates(),
{
    assert forall|i: int, j: int| 0 <= i < s.len() && 0 <= j < s.len() && i != j implies s[i] != s[j] by {
        if i < j {
            assert(s[i].from != s[j].from || s[i].to != s[j].to);
        } else {
            assert(s[j].from != s[i].from || s[j].to != s[i].to);
        }
    }
}

impl Game {
    /// What stands on `square`.
    pub fn square_occupied(&self, square: Square) -> (r: Option<OccupiedSquare>)
        requires
            self.wf(),
            square.wf(),
        ensures
            r == occ(self.cells(), square),
    {
        self.position.board.squares[((7 - square.rank) * 8 + square.file) as usize]
    }

    /// Appends the move of `piece` to the square at the given offsets, where that square exists
    /// and is not held by the mover's own side.
    fn push_step(&self, moves: &mut Vec<ValidMove>, piece: Piece, from: Square, color: Color, dr: i8, df: i8)
        requires
            self.wf(),
            from.wf(),
            -2 <= dr <= 2,
            -2 <= df <= 2,
            ascending_by(Color::White, old(moves)@),
            forall|i: int| 0 <= i < old(moves)@.len() ==> forward_key(Color::White, #[trigger] old(moves)@[i].to)
                < forward_key(Color::White, from) + 8 * dr + df,
        ensures
            forall|x: ValidMove| #[trigger] final(moves)@.contains(x) <==> (old(moves)@.contains(x)
                || offset_move(self.cells(), color, piece, from, dr as int, df as int, x)),
            ascending_by(Color::White, final(moves)@),
            forall|i: int| 0 <= i < final(moves)@.len() ==> forward_key(Color::White, #[trigger] final(moves)@[i].to)
                <= forward_key(Color::White, from) + 8 * dr + df,
    {
        proof {
            lemma_push_contains(moves@, plain_move(self.cells(), color, piece, from, offset_square(from, dr as int, df as int)));
        }
        match Square::new(from.rank + dr, from.file + df) {
            Some(to) => {
                let occupancy = self.square_occupied(to);
                let takes = match occupancy {
                    Some(o) => {
                        if o.color == color {
                            return;
                        }
                        Some(o.piece)
                    },
                    None => None,
                };
                moves.push(ValidMove {
                    piece,
                    color,
                    from,
                    to,
                    takes,
                    takes_en_passant: false,
                    en_passant_square: None,
                });
            },
            None => {},
        }
    }

    /// Every knight move from `from` for `color`.
    pub fn possible_knight_moves(&self, from: Square, color: Color) -> (r: Vec<ValidMove>)
        requires
            self.wf(),
            from.wf(),
        ensures
            forall|m: ValidMove| #[trigger] r@.contains(m) <==> knight_move(self.cells(), color, from, m),
            distinct_targets(r@),
            r@.no_duplicates(),
    {
        let mut moves: Vec<ValidMove> = Vec::new();
        self.push_step(&mut moves, Piece::Knight, from, color, -2, -1);
        self.push_step(&mut moves, Piece::Knight, from, color, -2, 1);
        self.push_step(&mut moves, Piece::Knight, from, color, -1, -2);
        self.push_step(&mut moves, Piece::Knight, from, color, -1, 2);
        self.push_step(&mut moves, Piece::Knight, from, color, 1, -2);
        self.push_step(&mut moves, Piece::Knight, from, color, 1, 2);
        self.push_step(&mut moves, Piece::Knight, from, color, 2, -1);
        self.push_step(&mut moves, Piece::Knight, from, color, 2, 1);
        proof {
            lemma_ascending_distinct(Color::White, moves@);
            lemma_distinct_targets_moves(moves@);
            lemma_distinct_no_duplicates(moves@);
            let b = self.cells();
            assert forall|m: ValidMove| #[trigger] moves@.contains(m) <==> knight_move(b, color, from, m) by {
                if knight_move(b, color, from, m) {
                    assert(m.to == offset_square(from, m.to.rank - from.rank, m.to.file - from.file));
                }
            }
        }
        moves
    }

    /// Every king move from `from` for `color` (no castling).
    pub fn possible_king_moves(&self, from: Square, color: Color) -> (r: Vec<ValidMove>)
        requires
            self.wf(),
            from.wf(),
        ensures
            forall|m: ValidMove| #[trigger] r@.contains(m) <==> king_move(self.cells(), color, from, m),
            distinct_targets(r@),
            r@.no_duplicates(),
    {
        let mut moves: Vec<ValidMove> = Vec::new();
        self.push_step(&mut moves, Piece::King, from, color, -1, -1);
        self.push_step(&mut moves, Piece::King, from, color, -1, 0);
        self.push_step(&mut moves, Piece::King, from, color, -1, 1);
        self.push_step(&mut moves, Piece::King, from, color, 0, -1);
        self.push_step(&mut moves, Piece::King, from, color, 0, 1);
        self.push_step(&mut moves, Piece::King, from, color, 1, -1);
        self.push_step(&mut moves, Piece::King, from, color, 1, 0);
        self.push_step(&mut moves, Piece::King, from, color, 1, 1);
        proof {
            lemma_ascending_distinct(Color::White, moves@);
            lemma_distinct_targets_moves(moves@);
            lemma_distinct_no_duplicates(moves@);
            let b = self.cells();
            assert forall|m: ValidMove| #[trigger] moves@.contains(m) <==> king_move(b, color, from, m) by {
                if king_move(b, color, from, m) {
                    assert(m.to == offset_square(from, m.to.rank - from.rank, m.to.file - from.file));
                }
            }
        }
        moves
    }

    /// The square one step from `square` along the given offsets, if it exists.
    pub fn advance_square(square: Square, rank_delta: i8, file_delta: i8) -> (r: Option<Square>)
        requires
            square.wf(),
            -1 <= rank_delta <= 1,
            -1 <= file_delta <= 1,
        ensures
            r == (if on_board(square.rank + rank_delta, square.file + file_delta) {
                Some(offset_square(square, rank_delta as int, file_delta as int))
            } else {
                None
            }),
    {
        Square::new(square.rank + rank_delta, square.file + file_delta)
    }

    /// The squares from `from` (excluded) to the edge of the board along the direction.
    pub fn squares_in_a_line(&self, from: Square, rank_delta: i8, file_delta: i8) -> (r: Vec<Square>)
        requires
            from.wf(),
            is_direction(rank_delta as int, file_delta as int),
        ensures
            forall|j: int| #![trigger r@[j]] 0 <= j < r@.len() ==> r@[j] == ray_sq(from, rank_delta as int, file_delta as int, j + 1),
            forall|k: int| 1 <= k <= r@.len() ==> #[trigger] ray_on_board(from, rank_delta as int, file_delta as int, k),
            !ray_on_board(from, rank_delta as int, file_delta as int, (r@.len() + 1) as int),
    {
        let ghost dr = rank_delta as int;
        let ghost df = file_delta as int;
        let mut squares: Vec<Square> = Vec::new();
        let mut current_square = Self::advance_square(from, rank_delta, file_delta);
        loop
            invariant
                from.wf(),
                is_direction(dr, df),
                dr == rank_delta,
                df == file_delta,
                squares@.len() <= 8,
                forall|j: int| #![trigger squares@[j]] 0 <= j < squares@.len() ==> squares@[j] == ray_sq(from, dr, df, j + 1),
                forall|k: int| 1 <= k <= squares@.len() ==> #[trigger] ray_on_board(from, dr, df, k),
                current_square == (if ray_on_board(from, dr, df, (squares@.len() + 1) as int) {
                    Some(ray_sq(from, dr, df, (squares@.len() + 1) as int))
                } else {
                    None
                }),
            ensures
                forall|j: int| #![trigger squares@[j]] 0 <= j < squares@.len() ==> squares@[j] == ray_sq(from, dr, df, j + 1),
                forall|k: int| 1 <= k <= squares@.len() ==> #[trigger] ray_on_board(from, dr, df, k),
                !ray_on_board(from, dr, df, (squares@.len() + 1) as int),
            decreases 8 - squares@.len(),
        {
            match current_square {
                Some(square) => {
                    squares.push(square);
                    current_square = Self::advance_square(square, rank_delta, file_delta);
                },
                None => {
                    break;
                },
            }
        }
        squares
    }

    /// The sliding moves along `line`: each empty square, then the first occupied one if it holds
    /// an enemy piece.
    pub fn valid_moves_in_a_line(&self, line: &[Square], piece: Piece, from: Square, color: Color) -> (r: Vec<ValidMove>)
        requires
            self.wf(),
            forall|j: int| 0 <= j < line@.len() ==> (#[trigger] line@[j]).wf(),
        ensures
            forall|m: ValidMove| #[trigger] r@.contains(m) <==> line_move(self.cells(), color, piece, from, line@, m),
            r@.len() <= line@.len(),
            forall|i: int| 0 <= i < r@.len() ==> (#[trigger] r@[i]).to == line@[i],
    {
        let ghost b = self.cells();
        let mut valid_moves: Vec<ValidMove> = Vec::new();
        let mut i: usize = 0;
        while i < line.len()
            invariant
                self.wf(),
                b == self.cells(),
                0 <= i <= line@.len(),
                forall|j: int| 0 <= j < line@.len() ==> (#[trigger] line@[j]).wf(),
                forall|k: int| 0 <= k < i ==> occ(b, #[trigger] line@[k]) is None,
                valid_moves@.len() == i,
                forall|k: int| 0 <= k < i ==> (#[trigger] valid_moves@[k]).to == line@[k],
                forall|m: ValidMove| #[trigger] valid_moves@.contains(m) <==> exists|j: int|
                    #![trigger line@[j]]
                    0 <= j < i && m.to == line@[j] && step_move(b, color, piece, from, m),
            decreases line@.len() - i,
        {
            let to = line[i];
            let occupancy = self.square_occupied(to);
            match occupancy {
                Some(o) => {
                    if o.color != color {
                        let mv = ValidMove {
                            piece,
                            color,
                            from,
                            to,
                            takes: Some(o.piece),
                            takes_en_passant: false,
                            en_passant_square: None,
                        };
                        proof {
                            lemma_push_contains(valid_moves@, mv);
                            assert forall|m: ValidMove| valid_moves@.push(mv).contains(m) <==> line_move(b, color, piece, from, line@, m) by {
                                if m == mv {
                                    assert(line@[i as int] == to);
                                }
                            }
                        }
                        valid_moves.push(mv);
                    } else {
                        proof {
                            assert forall|m: ValidMove| #[trigger] valid_moves@.contains(m) <==> line_move(b, color, piece, from, line@, m) by {
                                if line_move(b, color, piece, from, line@, m) {
                                    let j = choose|j: int| #![trigger line@[j]] 0 <= j < line@.len() && (forall|k: int| 0 <= k < j ==> occ(b, #[trigger] line@[k]) is None)
                                        && m.to == line@[j] && step_move(b, color, piece, from, m);
                                    if j > i {
                                        assert(occ(b, line@[i as int]) is None);
                                    }
                                }
                            }
                        }
                    }
                    return valid_moves;
                },
                None => {
                    let mv = ValidMove {
                        piece,
                        color,
                        from,
                        to,
                        takes: None,
                        takes_en_passant: false,
                        en_passant_square: None,
                    };
                    proof {
                        lemma_push_contains(valid_moves@, mv);
                        assert(line@[i as int] == to);
                    }
                    valid_moves.push(mv);
                },
            }
            i = i + 1;
        }
        valid_moves
    }

    /// Appends the sliding moves of `piece` from `from` along one direction.
    fn push_line(&self, moves: &mut Vec<ValidMove>, piece: Piece, from: Square, color: Color, dr: i8, df: i8)
        requires
            self.wf(),
            from.wf(),
            is_direction(dr as int, df as int),
            distinct_targets(old(moves)@),
            forall|i: int| 0 <= i < old(moves)@.len() ==> direction_key(from, #[trigger] old(moves)@[i].to) < (dr + 1) * 3
                + df + 1,
        ensures
            forall|x: ValidMove| #[trigger] final(moves)@.contains(x) <==> (old(moves)@.contains(x)
                || ray_move(self.cells(), color, piece, from, dr as int, df as int, x)),
            distinct_targets(final(moves)@),
            forall|i: int| 0 <= i < final(moves)@.len() ==> direction_key(from, #[trigger] final(moves)@[i].to) <= (dr
                + 1) * 3 + df + 1,
    {
        let line = self.squares_in_a_line(from, dr, df);
        assert forall|j: int| 0 <= j < line@.len() implies (#[trigger] line@[j]).wf() by {
            assert(ray_on_board(from, dr as int, df as int, j + 1));
        }
        let mut line_moves = self.valid_moves_in_a_line(line.as_slice(), piece, from, color);
        proof {
            lemma_concat_contains(moves@, line_moves@);
            lemma_line_is_ray(self.cells(), color, piece, from, dr as int, df as int, line@);
            let old_moves = moves@;
            let new_moves = line_moves@;
            assert forall|i: int| 0 <= i < new_moves.len() implies direction_key(from, #[trigger] new_moves[i].to) == (dr + 1)
                * 3 + df + 1 by {
                assert(new_moves[i].to == line@[i]);
                assert(line@[i] == ray_sq(from, dr as int, df as int, i + 1));
                assert(ray_on_board(from, dr as int, df as int, i + 1));
            }
            assert forall|i: int, j: int| 0 <= i < j < new_moves.len() implies new_moves[i].to != new_moves[j].to by {
                assert(new_moves[i].to == line@[i]);
                assert(new_moves[j].to == line@[j]);
                assert(line@[i] == ray_sq(from, dr as int, df as int, i + 1));
                assert(line@[j] == ray_sq(from, dr as int, df as int, j + 1));
                assert(ray_on_board(from, dr as int, df as int, i + 1));
                assert(ray_on_board(from, dr as int, df as int, j + 1));
            }
            let all = old_moves + new_moves;
            assert forall|i: int, j: int| 0 <= i < j < all.len() implies all[i].to != all[j].to by {
                if j >= old_moves.len() && i < old_moves.len() {
                    assert(all[j] == new_moves[j - old_moves.len()]);
                    assert(direction_key(from, all[i].to) < direction_key(from, all[j].to));
                } else if i >= old_moves.len() {
                    assert(all[i] == new_moves[i - old_moves.len()]);
                    assert(all[j] == new_moves[j - old_moves.len()]);
                }
            }
            assert forall|i: int| 0 <= i < all.len() implies direction_key(from, #[trigger] all[i].to) <= (dr + 1) * 3 + df
                + 1 by {
                if i >= old_moves.len() {
                    assert(all[i] == new_moves[i - old_moves.len()]);
                }
            }
        }
        moves.append(&mut line_moves);
    }

    /// Every rook move from `from` for `color`.
    pub fn possible_rook_moves(&self, from: Square, color: Color) -> (r: Vec<ValidMove>)
        requires
            self.wf(),
            from.wf(),
        ensures
            forall|m: ValidMove| #[trigger] r@.contains(m) <==> rook_move(self.cells(), color, Piece::Rook, from, m),
            distinct_targets(r@),
            r@.no_duplicates(),
    {
        let mut moves: Vec<ValidMove> = Vec::new();
        self.push_line(&mut moves, Piece::Rook, from, color, -1, 0);
        self.push_line(&mut moves, Piece::Rook, from, color, 0, -1);
        self.push_line(&mut moves, Piece::Rook, from, color, 0, 1);
        self.push_line(&mut moves, Piece::Rook, from, color, 1, 0);
        proof {
            lemma_distinct_targets_moves(moves@);
            lemma_distinct_no_duplicates(moves@);
        }
        moves
    }

    /// Every bishop move from `from` for `color`.
    pub fn possible_bishop_moves(&self, from: Square, color: Color) -> (r: Vec<ValidMove>)
        requires
            self.wf(),
            from.wf(),
        ensures
            forall|m: ValidMove| #[trigger] r@.contains(m) <==> bishop_move(self.cells(), color, Piece::Bishop, from, m),
            distinct_targets(r@),
            r@.no_duplicates(),
    {
        let mut moves: Vec<ValidMove> = Vec::new();
        self.push_line(&mut moves, Piece::Bishop, from, color, -1, -1);
        self.push_line(&mut moves, Piece::Bishop, from, color, -1, 1);
        self.push_line(&mut moves, Piece::Bishop, from, color, 1, -1);
        self.push_line(&mut moves, Piece::Bishop, from, color, 1, 1);
        proof {
            lemma_distinct_targets_moves(moves@);
            lemma_distinct_no_duplicates(moves@);
        }
        moves
    }

    /// Every queen move from `from` for `color`: the rook's and the bishop's directions.
    pub fn possible_queen_moves(&self, from: Square, color: Color) -> (r: Vec<ValidMove>)
        requires
            self.wf(),
            from.wf(),
        ensures
            forall|m: ValidMove| #[trigger] r@.contains(m) <==> (rook_move(self.cells(), color, Piece::Queen, from, m)
                || bishop_move(self.cells(), color, Piece::Queen, from, m)),
            distinct_targets(r@),
            r@.no_duplicates(),
    {
        let mut moves: Vec<ValidMove> = Vec::new();
        self.push_line(&mut moves, Piece::Queen, from, color, -1, -1);
        self.push_line(&mut moves, Piece::Queen, from, color, -1, 0);
        self.push_line(&mut moves, Piece::Queen, from, color, -1, 1);
        self.push_line(&mut moves, Piece::Queen, from, color, 0, -1);
        self.push_line(&mut moves, Piece::Queen, from, color, 0, 1);
        self.push_line(&mut moves, Piece::Queen, from, color, 1, -1);
        self.push_line(&mut moves, Piece::Queen, from, color, 1, 0);
        self.push_line(&mut moves, Piece::Queen, from, color, 1, 1);
        proof {
            lemma_distinct_targets_moves(moves@);
            lemma_distinct_no_duplicates(moves@);
        }
        moves
    }

    /// Whether a pawn of `side_to_move` on `square` stands on its starting rank.
    pub fn can_pawn_double_move(square: Square, side_to_move: Color) -> (r: bool)
        ensures
            r == (square.rank == pawn_start_rank(side_to_move)),
    {
        side_to_move == Color::White && square.rank == 1 || side_to_move == Color::Black && square.rank == 6
    }

    /// Appends the pawn's diagonal step towards file offset `df`, where it is a capture.
    fn push_pawn_take(&self, moves: &mut Vec<ValidMove>, from: Square, color: Color, direction: i8, df: i8)
        requires
            self.wf(),
            from.wf(),
            direction == pawn_dir(color),
            df == -1 || df == 1,
            ascending_by(color, old(moves)@),
            forall|i: int| 0 <= i < old(moves)@.len() ==> forward_key(color, #[trigger] old(moves)@[i].to) < forward_key(
                color,
                from,
            ) + 8 + df,
        ensures
            forall|x: ValidMove| #[trigger] final(moves)@.contains(x) <==> (old(moves)@.contains(x)
                || pawn_take(self.cells(), self.ep(), color, from, df as int, x)),
            ascending_by(color, final(moves)@),
            forall|i: int| 0 <= i < final(moves)@.len() ==> forward_key(color, #[trigger] final(moves)@[i].to) <= forward_key(
                color,
                from,
            ) + 8 + df,
    {
        if let Some(to) = Square::new(from.rank + direction, from.file + df) {
            let mv = match self.square_occupied(to) {
                Some(o) => {
                    if o.color == color {
                        return;
                    }
                    ValidMove {
                        piece: Piece::Pawn,
                        color,
                        from,
                        to,
                        takes: Some(o.piece),
                        takes_en_passant: false,
                        en_passant_square: None,
                    }
                },
                None => {
                    let is_target = match self.position.en_passant_square {
                        Some(e) => e == to,
                        None => false,
                    };
                    if !is_target {
                        return;
                    }
                    ValidMove {
                        piece: Piece::Pawn,
                        color,
                        from,
                        to,
                        takes: Some(Piece::Pawn),
                        takes_en_passant: true,
                        en_passant_square: None,
                    }
                },
            };
            proof {
                lemma_push_contains(moves@, mv);
            }
            moves.push(mv);
        }
    }

    /// Every pawn move from `from` for `color`: single and double steps, captures, en passant.
    pub fn possible_pawn_moves(&self, from: Square, color: Color) -> (r: Vec<ValidMove>)
        requires
            self.wf(),
            from.wf(),
        ensures
            forall|m: ValidMove| #[trigger] r@.contains(m) <==> pawn_move(self.cells(), self.ep(), color, from, m),
            distinct_targets(r@),
            r@.no_duplicates(),
    {
        let ghost b = self.cells();
        let direction: i8 = match color {
            Color::White => 1,
            Color::Black => -1,
        };
        let next_square = Square::new(from.rank + direction, from.file);
        let can_move_forward = match next_square {
            Some(next) => self.square_occupied(next).is_none(),
            None => false,
        };
        let mut moves: Vec<ValidMove> = Vec::new();
        let ghost one = offset_square(from, pawn_dir(color), 0);
        let ghost two = offset_square(from, 2 * pawn_dir(color), 0);
        let ghost single = |x: ValidMove| on_board(from.rank + pawn_dir(color), from.file as int) && occ(b, one) is None
            && x == pawn_base(color, from, one);
        let ghost double = |x: ValidMove| from.rank == pawn_start_rank(color) && occ(b, one) is None && occ(b, two) is None
            && x == (ValidMove { en_passant_square: Some(one), ..pawn_base(color, from, two) });
        self.push_pawn_take(&mut moves, from, color, direction, -1);
        if let Some(next) = next_square {
            if can_move_forward {
                let mv = ValidMove {
                    piece: Piece::Pawn,
                    color,
                    from,
                    to: next,
                    takes: None,
                    takes_en_passant: false,
                    en_passant_square: None,
                };
                proof {
                    lemma_push_contains(moves@, mv);
                }
                moves.push(mv);
            }
        }
        assert(forall|x: ValidMove| #[trigger] moves@.contains(x) <==> (pawn_take(b, self.ep(), color, from, -1, x) || single(x)));
        self.push_pawn_take(&mut moves, from, color, direction, 1);
        if can_move_forward && Self::can_pawn_double_move(from, color) {
            if let Some(double_square) = Square::new(from.rank + 2 * direction, from.file) {
                if self.square_occupied(double_square).is_none() {
                    let mv = ValidMove {
                        piece: Piece::Pawn,
                        color,
                        from,
                        to: double_square,
                        takes: None,
                        takes_en_passant: false,
                        en_passant_square: next_square,
                    };
                    proof {
                        lemma_push_contains(moves@, mv);
                    }
                    moves.push(mv);
                }
            }
        }
        assert(forall|x: ValidMove| #[trigger] moves@.contains(x) <==> (pawn_take(b, self.ep(), color, from, -1, x) || single(x)
            || pawn_take(b, self.ep(), color, from, 1, x) || double(x)));
        proof {
            lemma_ascending_distinct(color, moves@);
            lemma_distinct_targets_moves(moves@);
            lemma_distinct_no_duplicates(moves@);
        }
        moves
    }

    /// Every move of `piece` standing on `from`, for `color`.
    pub fn possible_moves_for_piece(&self, piece: Piece, from: Square, color: Color) -> (r: Vec<ValidMove>)
        requires
            self.wf(),
            from.wf(),
        ensures
            forall|m: ValidMove| #[trigger] r@.contains(m) <==> piece_move(self.cells(), self.ep(), color, piece, from, m),
            forall|i: int| 0 <= i < r@.len() ==> (#[trigger] r@[i]).from == from,
            distinct_targets(r@),
            r@.no_duplicates(),
    {
        let r = match piece {
            Piece::Pawn => self.possible_pawn_moves(from, color),
            Piece::Knight => self.possible_knight_moves(from, color),
            Piece::Rook => self.possible_rook_moves(from, color),
            Piece::Bishop => self.possible_bishop_moves(from, color),
            Piece::Queen => self.possible_queen_moves(from, color),
            Piece::King => self.possible_king_moves(from, color),
        };
        assert forall|i: int| 0 <= i < r@.len() implies (#[trigger] r@[i]).from == from by {
            assert(r@.contains(r@[i]));
        }
        r
    }
}

} // verus!
