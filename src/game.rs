use vstd::prelude::*;
use crate::models::{opposite_spec, sq_at, sq_index, Board, Color, OccupiedSquare, Piece, Position, Square};
use crate::movegen::{
    distinct_moves, lemma_concat_contains, lemma_distinct_no_duplicates, lemma_distinct_targets_moves, lemma_push_contains,
    offset_square, pawn_dir, pseudo_move,
};

verus! {

/// A move that the rules allow a piece to make, with what it captures.
#[derive(Debug, PartialEq, Eq, Clone, Copy, Structural)]
pub struct ValidMove {
    pub color: Color,
    pub from: Square,
    pub to: Square,
    pub piece: Piece,
    pub takes: Option<Piece>,
    pub takes_en_passant: bool,
    /// The en-passant target that the resulting position gets (set by a pawn's double step).
    pub en_passant_square: Option<Square>,
}

/// Why a move token names no move: it does not parse, no legal move fits it, or several do.
#[derive(Debug, PartialEq, Eq, Clone, Copy, Structural)]
pub enum InvalidMoveError {
    NoSyntaxMatch,
    NoLegalMatch,
    Ambiguous,
}

/// A game: the current position, from which moves are generated and applied.
#[derive(Debug)]
pub struct Game {
    pub position: Position,
}

impl Position {
    /// A board of 64 squares and an en-passant target, if any, on the board.
    pub open spec fn wf(self) -> bool {
        &&& self.board.squares@.len() == 64
        &&& (self.en_passant_square matches Some(s) ==> s.wf())
    }
}

impl Game {
    pub open spec fn wf(self) -> bool {
        self.position.wf()
    }

    pub open spec fn cells(self) -> Seq<Option<OccupiedSquare>> {
        self.position.board.squares@
    }

    pub open spec fn ep(self) -> Option<Square> {
        self.position.en_passant_square
    }
}

/// The square of the pawn that an en-passant capture removes: beside the destination, on the
/// rank the capturing pawn came from.
pub open spec fn ep_victim(m: ValidMove) -> Square {
    offset_square(m.to, -pawn_dir(m.color), 0)
}

/// The squares a move names are on the board.
pub open spec fn move_wf(m: ValidMove) -> bool {
    &&& m.from.wf()
    &&& m.to.wf()
    &&& (m.takes_en_passant ==> ep_victim(m).wf())
    &&& (m.en_passant_square matches Some(s) ==> s.wf())
}

/// The board after `m`: the origin emptied, the piece placed on the destination, and the pawn
/// taken en passant removed.
pub open spec fn board_after(b: Seq<Option<OccupiedSquare>>, m: ValidMove) -> Seq<Option<OccupiedSquare>> {
    let b1 = b.update(sq_index(m.from), None).update(
        sq_index(m.to),
        Some(OccupiedSquare { piece: m.piece, color: m.color }),
    );
    if m.takes_en_passant {
        b1.update(sq_index(ep_victim(m)), None)
    } else {
        b1
    }
}

/// `after` is the position that follows `p` once `m` is played.
pub open spec fn applied(p: Position, m: ValidMove, after: Position) -> bool {
    &&& after.board.squares@ == board_after(p.board.squares@, m)
    &&& after.next_to_move == opposite_spec(p.next_to_move)
    &&& after.white_can_castle_king_side == p.white_can_castle_king_side
    &&& after.white_can_castle_queen_side == p.white_can_castle_queen_side
    &&& after.black_can_castle_king_side == p.black_can_castle_king_side
    &&& after.black_can_castle_queen_side == p.black_can_castle_queen_side
    &&& after.en_passant_square == m.en_passant_square
    &&& after.half_move_clock as int == (if m.takes is Some || m.piece == Piece::Pawn {
        0
    } else {
        p.half_move_clock + 1
    })
    &&& after.full_move_counter as int == (if m.color == Color::White {
        p.full_move_counter as int
    } else {
        p.full_move_counter + 1
    })
}

pub open spec fn is_king_of(o: Option<OccupiedSquare>, color: Color) -> bool {
    o == Some(OccupiedSquare { piece: Piece::King, color })
}

/// Index `i` holds the first king of `color` on the board.
pub open spec fn first_king(b: Seq<Option<OccupiedSquare>>, color: Color, i: int) -> bool {
    &&& 0 <= i < 64
    &&& is_king_of(b[i], color)
    &&& forall|j: int| 0 <= j < i ==> !is_king_of(#[trigger] b[j], color)
}

/// Some pseudo-legal move of `by` ends on `square`.
pub open spec fn attacked(b: Seq<Option<OccupiedSquare>>, ep: Option<Square>, square: Square, by: Color) -> bool {
    exists|m: ValidMove| pseudo_move(b, ep, by, m) && m.to == square
}

/// The (first) king of `color` is attacked by the other side; false where there is no king.
pub open spec fn in_check_spec(b: Seq<Option<OccupiedSquare>>, ep: Option<Square>, color: Color) -> bool {
    exists|i: int| first_king(b, color, i) && attacked(b, ep, sq_at(i), opposite_spec(color))
}

/// A legal move of `color`: pseudo-legal, and its own king is not in check afterwards.
pub open spec fn legal_move(b: Seq<Option<OccupiedSquare>>, ep: Option<Square>, color: Color, m: ValidMove) -> bool {
    pseudo_move(b, ep, color, m) && !in_check_spec(board_after(b, m), m.en_passant_square, color)
}

/// Playing a legal move never leaves the mover's own king in check.
pub proof fn lemma_legal_move_keeps_king_safe(p: Position, m: ValidMove, after: Position)
    requires
        legal_move(p.board.squares@, p.en_passant_square, p.next_to_move, m),
        applied(p, m, after),
    ensures
        !in_check_spec(after.board.squares@, after.en_passant_square, p.next_to_move),
{
}

pub proof fn lemma_index(i: int)
    requires
        0 <= i < 64,
    ensures
        sq_at(i).wf(),
        sq_index(sq_at(i)) == i,
{
}

pub proof fn lemma_index_of_square(s: Square)
    requires
        s.wf(),
    ensures
        0 <= sq_index(s) < 64,
        sq_at(sq_index(s)) == s,
{
}

pub proof fn lemma_pseudo_move_wf(b: Seq<Option<OccupiedSquare>>, ep: Option<Square>, color: Color, m: ValidMove)
    requires
        pseudo_move(b, ep, color, m),
    ensures
        move_wf(m),
        m.color == color,
{
}

impl Game {
    /// A game starting at `initial_position`.
    pub fn new(initial_position: Position) -> (r: Game)
        ensures
            r.position == initial_position,
    {
        Game { position: initial_position }
    }

    /// Every pseudo-legal move of `for_color`, ignoring its own king's safety.
    pub fn pseudo_moves_for_color(&self, for_color: Color) -> (r: Vec<ValidMove>)
        requires
            self.wf(),
        ensures
            forall|m: ValidMove| #[trigger] r@.contains(m) <==> pseudo_move(self.cells(), self.ep(), for_color, m),
            distinct_moves(r@),
            r@.no_duplicates(),
    {
        let ghost b = self.cells();
        let ghost ep = self.ep();
        let mut valid_moves: Vec<ValidMove> = Vec::new();
        let mut i: usize = 0;
        while i < 64
            invariant
                self.wf(),
                b == self.cells(),
                ep == self.ep(),
                i <= 64,
                forall|m: ValidMove| #[trigger] valid_moves@.contains(m) <==> (pseudo_move(b, ep, for_color, m) && sq_index(m.from) < i),
                distinct_moves(valid_moves@),
                forall|k: int| 0 <= k < valid_moves@.len() ==> sq_index((#[trigger] valid_moves@[k]).from) < i,
            decreases 64 - i,
        {
            let square = Square { rank: 7 - (i / 8) as i8, file: (i % 8) as i8 };
            proof {
                lemma_index(i as int);
                assert(square == sq_at(i as int));
            }
            match self.position.board.squares[i] {
                Some(o) => {
                    if o.color == for_color {
                        let mut moves = self.possible_moves_for_piece(o.piece, square, for_color);
                        proof {
                            let a = valid_moves@;
                            let c = moves@;
                            let all = a + c;
                            lemma_index_of_square(square);
                            assert forall|x: int, y: int| 0 <= x < y < all.len() implies all[x].from != all[y].from
                                || all[x].to != all[y].to by {
                                if x < a.len() && y >= a.len() {
                                    assert(all[y] == c[y - a.len()]);
                                    assert(sq_index(all[x].from) < i);
                                } else if x >= a.len() {
                                    assert(all[x] == c[x - a.len()]);
                                    assert(all[y] == c[y - a.len()]);
                                }
                            }
                            assert forall|k: int| 0 <= k < all.len() implies sq_index((#[trigger] all[k]).from) < i + 1 by {
                                if k >= a.len() {
                                    assert(all[k] == c[k - a.len()]);
                                }
                            }
                            lemma_concat_contains(valid_moves@, moves@);
                            assert forall|m: ValidMove| (valid_moves@ + moves@).contains(m) <==> (pseudo_move(b, ep, for_color, m) && sq_index(m.from) < i + 1) by {
                                if pseudo_move(b, ep, for_color, m) {
                                    lemma_index_of_square(m.from);
                                    if sq_index(m.from) == i {
                                        assert(m.from == square);
                                    }
                                }
                            }
                        }
                        valid_moves.append(&mut moves);
                    } else {
                        proof {
                            assert forall|m: ValidMove| #[trigger] valid_moves@.contains(m) <==> (pseudo_move(b, ep, for_color, m) && sq_index(m.from) < i + 1) by {
                                if pseudo_move(b, ep, for_color, m) {
                                    lemma_index_of_square(m.from);
                                }
                            }
                        }
                    }
                },
                None => {
                    proof {
                        assert forall|m: ValidMove| #[trigger] valid_moves@.contains(m) <==> (pseudo_move(b, ep, for_color, m) && sq_index(m.from) < i + 1) by {
                            if pseudo_move(b, ep, for_color, m) {
                                lemma_index_of_square(m.from);
                            }
                        }
                    }
                },
            }
            i = i + 1;
        }
        proof {
            assert forall|m: ValidMove| pseudo_move(b, ep, for_color, m) implies sq_index(m.from) < 64 by {
                lemma_index_of_square(m.from);
            }
            lemma_distinct_no_duplicates(valid_moves@);
        }
        valid_moves
    }

    /// A pseudo-legal move of `by_color` that ends on `square`, if there is one.
    pub fn square_attacked(&self, square: Square, by_color: Color) -> (r: Option<ValidMove>)
        requires
            self.wf(),
        ensures
            r is Some <==> attacked(self.cells(), self.ep(), square, by_color),
            r matches Some(m) ==> pseudo_move(self.cells(), self.ep(), by_color, m) && m.to == square,
    {
        let moves = self.pseudo_moves_for_color(by_color);
        let mut j: usize = 0;
        while j < moves.len()
            invariant
                j <= moves@.len(),
                forall|m: ValidMove| #[trigger] moves@.contains(m) <==> pseudo_move(self.cells(), self.ep(), by_color, m),
                forall|k: int| 0 <= k < j ==> (#[trigger] moves@[k]).to != square,
            decreases moves@.len() - j,
        {
            if moves[j].to == square {
                assert(moves@.contains(moves@[j as int]));
                return Some(moves[j]);
            }
            j = j + 1;
        }
        proof {
            if attacked(self.cells(), self.ep(), square, by_color) {
                let m = choose|m: ValidMove| pseudo_move(self.cells(), self.ep(), by_color, m) && m.to == square;
                assert(moves@.contains(m));
            }
        }
        None
    }

    /// Whether the king of `color` is attacked by the other side (false where it has no king).
    pub fn in_check(&self, color: Color) -> (r: bool)
        requires
            self.wf(),
        ensures
            r == in_check_spec(self.cells(), self.ep(), color),
    {
        let ghost b = self.cells();
        let mut i: usize = 0;
        while i < 64
            invariant
                self.wf(),
                b == self.cells(),
                i <= 64,
                forall|j: int| 0 <= j < i ==> !is_king_of(#[trigger] b[j], color),
            decreases 64 - i,
        {
            if let Some(o) = self.position.board.squares[i] {
                if o.piece == Piece::King && o.color == color {
                    let square = Square { rank: 7 - (i / 8) as i8, file: (i % 8) as i8 };
                    proof {
                        lemma_index(i as int);
                        assert(square == sq_at(i as int));
                        assert(first_king(b, color, i as int));
                        assert forall|k: int| first_king(b, color, k) implies k == i by {
                            if k < i {
                                assert(!is_king_of(b[k], color));
                            }
                            if k > i {
                                assert(!is_king_of(b[i as int], color));
                            }
                        }
                    }
                    return self.square_attacked(square, color.opposite()).is_some();
                }
            }
            i = i + 1;
        }
        false
    }

    /// The board once `m` is played.
    fn board_after_move(&self, m: &ValidMove) -> (r: Vec<Option<OccupiedSquare>>)
        requires
            self.wf(),
            move_wf(*m),
        ensures
            r@ == board_after(self.cells(), *m),
            r@.len() == 64,
    {
        let mut new_squares: Vec<Option<OccupiedSquare>> = Vec::new();
        let mut i: usize = 0;
        while i < 64
            invariant
                self.wf(),
                i <= 64,
                new_squares@ == self.cells().subrange(0, i as int),
            decreases 64 - i,
        {
            new_squares.push(self.position.board.squares[i]);
            i = i + 1;
            assert(new_squares@ =~= self.cells().subrange(0, i as int));
        }
        assert(new_squares@ =~= self.cells());
        let from = m.from;
        let to = m.to;
        new_squares.set(((7 - from.rank) * 8 + from.file) as usize, None);
        new_squares.set(((7 - to.rank) * 8 + to.file) as usize, Some(OccupiedSquare { piece: m.piece, color: m.color }));
        if m.takes_en_passant {
            let passing_pawn_direction: i8 = match m.color {
                Color::White => -1,
                Color::Black => 1,
            };
            let victim = Square { file: to.file, rank: to.rank + passing_pawn_direction };
            assert(victim == ep_victim(*m));
            new_squares.set(((7 - victim.rank) * 8 + victim.file) as usize, None);
        }
        new_squares
    }

    /// Whether playing `m` leaves the king of `color` in check.
    fn leaves_in_check(&self, m: &ValidMove, color: Color) -> (r: bool)
        requires
            self.wf(),
            move_wf(*m),
        ensures
            r == in_check_spec(board_after(self.cells(), *m), m.en_passant_square, color),
    {
        let hypothetical = Game {
            position: Position {
                board: Board { squares: self.board_after_move(m) },
                next_to_move: self.position.next_to_move.opposite(),
                white_can_castle_king_side: self.position.white_can_castle_king_side,
                white_can_castle_queen_side: self.position.white_can_castle_queen_side,
                black_can_castle_king_side: self.position.black_can_castle_king_side,
                black_can_castle_queen_side: self.position.black_can_castle_queen_side,
                en_passant_square: m.en_passant_square,
                half_move_clock: self.position.half_move_clock,
                full_move_counter: self.position.full_move_counter,
            },
        };
        hypothetical.in_check(color)
    }

    /// The position after `move_to_make`, which must name squares on the board.
    pub fn make_valid_move(&self, move_to_make: &ValidMove) -> (r: Game)
        requires
            self.wf(),
            move_wf(*move_to_make),
            self.position.half_move_clock < i64::MAX,
            self.position.full_move_counter < i64::MAX,
        ensures
            applied(self.position, *move_to_make, r.position),
            r.wf(),
    {
        let squares = self.board_after_move(move_to_make);
        Game {
            position: Position {
                board: Board { squares },
                next_to_move: self.position.next_to_move.opposite(),
                white_can_castle_king_side: self.position.white_can_castle_king_side,
                white_can_castle_queen_side: self.position.white_can_castle_queen_side,
                black_can_castle_king_side: self.position.black_can_castle_king_side,
                black_can_castle_queen_side: self.position.black_can_castle_queen_side,
                en_passant_square: move_to_make.en_passant_square,
                half_move_clock: if move_to_make.takes.is_some() || move_to_make.piece == Piece::Pawn {
                    0
                } else {
                    self.position.half_move_clock + 1
                },
                full_move_counter: if move_to_make.color == Color::White {
                    self.position.full_move_counter
                } else {
                    self.position.full_move_counter + 1
                },
            },
        }
    }

    /// The moves of `for_color`; with `filter_out_discover_checks`, only those that do not leave
    /// its own king in check.
    pub fn valid_moves_for_color(&self, for_color: Color, filter_out_discover_checks: bool) -> (r: Vec<ValidMove>)
        requires
            self.wf(),
        ensures
            forall|m: ValidMove| #[trigger] r@.contains(m) <==> (if filter_out_discover_checks {
                legal_move(self.cells(), self.ep(), for_color, m)
            } else {
                pseudo_move(self.cells(), self.ep(), for_color, m)
            }),
            distinct_moves(r@),
            r@.no_duplicates(),
    {
        let ghost b = self.cells();
        let ghost ep = self.ep();
        let valid_moves = self.pseudo_moves_for_color(for_color);
        if !filter_out_discover_checks {
            return valid_moves;
        }
        let mut legal: Vec<ValidMove> = Vec::new();
        let mut j: usize = 0;
        while j < valid_moves.len()
            invariant
                self.wf(),
                b == self.cells(),
                ep == self.ep(),
                j <= valid_moves@.len(),
                forall|m: ValidMove| #[trigger] valid_moves@.contains(m) <==> pseudo_move(b, ep, for_color, m),
                forall|m: ValidMove| #[trigger] legal@.contains(m) <==> (exists|k: int| 0 <= k < j && #[trigger] valid_moves@[k] == m)
                    && legal_move(b, ep, for_color, m),
                distinct_moves(valid_moves@),
                distinct_moves(legal@),
            decreases valid_moves@.len() - j,
        {
            let m = valid_moves[j];
            proof {
                assert(valid_moves@.contains(m));
                lemma_pseudo_move_wf(b, ep, for_color, m);
            }
            let exposed = self.leaves_in_check(&m, for_color);
            proof {
                lemma_push_contains(legal@, m);
                assert forall|x: ValidMove| (if exposed { legal@ } else { legal@.push(m) }).contains(x) <==> (exists|k: int| 0 <= k < j + 1 && #[trigger] valid_moves@[k] == x)
                    && legal_move(b, ep, for_color, x) by {
                    if exists|k: int| 0 <= k < j + 1 && #[trigger] valid_moves@[k] == x {
                        let k = choose|k: int| 0 <= k < j + 1 && #[trigger] valid_moves@[k] == x;
                        if k < j {
                        } else {
                            assert(x == m);
                        }
                    }
                    if x == m {
                        assert(valid_moves@[j as int] == x);
                    }
                }
            }
            proof {
                let l = legal@;
                assert forall|i: int| 0 <= i < l.len() implies l[i].from != m.from || l[i].to != m.to by {
                    assert(l.contains(l[i]));
                    let k = choose|k: int| 0 <= k < j && #[trigger] valid_moves@[k] == l[i];
                    assert(valid_moves@[k].from != valid_moves@[j as int].from || valid_moves@[k].to != valid_moves@[j as int].to);
                }
                assert forall|x: int, y: int| 0 <= x < y < l.push(m).len() implies l.push(m)[x].from != l.push(m)[y].from
                    || l.push(m)[x].to != l.push(m)[y].to by {
                    if y == l.len() {
                        assert(l.push(m)[x] == l[x]);
                    } else {
                        assert(l.push(m)[x] == l[x]);
                        assert(l.push(m)[y] == l[y]);
                    }
                }
            }
            if !exposed {
                legal.push(m);
            }
            j = j + 1;
        }
        proof {
            assert forall|m: ValidMove| #[trigger] legal@.contains(m) <==> legal_move(b, ep, for_color, m) by {
                if legal_move(b, ep, for_color, m) {
                    assert(valid_moves@.contains(m));
                    let k = choose|k: int| 0 <= k < valid_moves@.len() && valid_moves@[k] == m;
                    assert(valid_moves@[k] == m);
                }
            }
            lemma_distinct_no_duplicates(legal@);
        }
        legal
    }

    /// The legal moves of the side to move.
    pub fn valid_moves(&self) -> (r: Vec<ValidMove>)
        requires
            self.wf(),
        ensures
            forall|m: ValidMove| #[trigger] r@.contains(m) <==> legal_move(self.cells(), self.ep(), self.position.next_to_move, m),
            distinct_moves(r@),
            r@.no_duplicates(),
    {
        self.valid_moves_for_color(self.position.next_to_move, true)
    }
}


/// The standard initial arrangement, rank 8 first.
pub open spec fn standard_cell(i: int) -> Option<OccupiedSquare> {
    let color = if i < 32 { Color::Black } else { Color::White };
    if 8 <= i < 16 || 48 <= i < 56 {
        Some(OccupiedSquare { piece: Piece::Pawn, color })
    } else if 0 <= i < 8 || 56 <= i < 64 {
        let f = i % 8;
        let piece = if f == 0 || f == 7 {
            Piece::Rook
        } else if f == 1 || f == 6 {
            Piece::Knight
        } else if f == 2 || f == 5 {
            Piece::Bishop
        } else if f == 3 {
            Piece::Queen
        } else {
            Piece::King
        };
        Some(OccupiedSquare { piece, color })
    } else {
        None
    }
}

fn back_rank_piece(file: usize) -> (r: Piece)
    requires
        file < 8,
    ensures
        Some(OccupiedSquare { piece: r, color: Color::White }) == standard_cell(56 + file),
{
    if file == 0 || file == 7 {
        Piece::Rook
    } else if file == 1 || file == 6 {
        Piece::Knight
    } else if file == 2 || file == 5 {
        Piece::Bishop
    } else if file == 3 {
        Piece::Queen
    } else {
        Piece::King
    }
}

/// The standard initial position: White to move, every castling right, no en-passant target,
/// clocks 0 and 1.
pub open spec fn is_standard_position(p: Position) -> bool {
    &&& p.board.squares@ == Seq::new(64, |i: int| standard_cell(i))
    &&& p.next_to_move == Color::White
    &&& p.white_can_castle_king_side && p.white_can_castle_queen_side
    &&& p.black_can_castle_king_side && p.black_can_castle_queen_side
    &&& p.en_passant_square is None
    &&& p.half_move_clock == 0
    &&& p.full_move_counter == 1
}

impl Game {
    /// The standard initial position.
    pub fn standard_position() -> (r: Position)
        ensures
            r.wf(),
            is_standard_position(r),
    {
        let mut squares: Vec<Option<OccupiedSquare>> = Vec::new();
        let mut i: usize = 0;
        while i < 64
            invariant
                i <= 64,
                squares@ == Seq::new(i as nat, |k: int| standard_cell(k)),
            decreases 64 - i,
        {
            let color = if i < 32 { Color::Black } else { Color::White };
            let cell = if (8 <= i && i < 16) || (48 <= i && i < 56) {
                Some(OccupiedSquare { piece: Piece::Pawn, color })
            } else if i < 8 || 56 <= i {
                let piece = back_rank_piece(i % 8);
                Some(OccupiedSquare { piece, color })
            } else {
                None
            };
            squares.push(cell);
            i = i + 1;
            assert(squares@ =~= Seq::new(i as nat, |k: int| standard_cell(k)));
        }
        Position {
            board: Board { squares },
            next_to_move: Color::White,
            white_can_castle_king_side: true,
            white_can_castle_queen_side: true,
            black_can_castle_king_side: true,
            black_can_castle_queen_side: true,
            en_passant_square: None,
            half_move_clock: 0,
            full_move_counter: 1,
        }
    }

    /// A game on `board` with `next_to_move` to play, every castling right, no en-passant
    /// target and both clocks at 0.
    pub fn new_for_test(board: Board, next_to_move: Color) -> (r: Game)
        ensures
            r.position.board == board,
            r.position.next_to_move == next_to_move,
            r.position.white_can_castle_king_side && r.position.white_can_castle_queen_side,
            r.position.black_can_castle_king_side && r.position.black_can_castle_queen_side,
            r.position.en_passant_square is None,
            r.position.half_move_clock == 0,
            r.position.full_move_counter == 0,
    {
        Game {
            position: Position {
                board,
                next_to_move,
                white_can_castle_king_side: true,
                white_can_castle_queen_side: true,
                black_can_castle_king_side: true,
                black_can_castle_queen_side: true,
                en_passant_square: None,
                half_move_clock: 0,
                full_move_counter: 0,
            },
        }
    }

    /// The board of the current position.
    pub fn board(&self) -> (r: &Board)
        ensures
            *r == self.position.board,
    {
        &self.position.board
    }

    /// Whether the side to move is in check and has no legal move.
    pub fn in_mate(&self) -> (r: bool)
        requires
            self.wf(),
        ensures
            r == (in_check_spec(self.cells(), self.ep(), self.position.next_to_move) && forall|m: ValidMove|
                !legal_move(self.cells(), self.ep(), self.position.next_to_move, m)),
    {
        let check = self.in_check(self.position.next_to_move);
        let moves = self.valid_moves();
        if moves.len() > 0 {
            assert(moves@.contains(moves@[0]));
        } else {
            assert forall|m: ValidMove| !legal_move(self.cells(), self.ep(), self.position.next_to_move, m) by {
                if legal_move(self.cells(), self.ep(), self.position.next_to_move, m) {
                    assert(moves@.contains(m));
                }
            }
        }
        check && moves.len() == 0
    }

    /// Whether fifty or more half-moves have passed without a pawn move or a capture.
    pub fn draw_by_fifty_move_rule(&self) -> (r: bool)
        ensures
            r == (self.position.half_move_clock >= 50),
    {
        self.position.half_move_clock >= 50
    }
}

} // verus!
