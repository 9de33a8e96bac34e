use vstd::prelude::*;
use crate::models::{file_char, rank_char, square_from_chars, square_of_chars, Piece, Square};
use crate::game::{applied, legal_move, lemma_pseudo_move_wf, Game, InvalidMoveError, ValidMove};
use crate::text::{chars_of, string_from_chars};
use crate::movegen::{distinct_moves, lemma_distinct_no_duplicates};

verus! {

/// An origin constraint of a move template: rank, file, both or neither.
#[derive(Debug, PartialEq, Eq, Clone, Copy, Structural)]
pub struct PartialSquare {
    pub rank: Option<i8>,
    pub file: Option<i8>,
}

/// A template that notation describes and legal moves are matched against.
#[derive(Debug, PartialEq, Eq, Clone, Copy, Structural)]
pub struct PartialMove {
    pub piece: Piece,
    pub from: Option<PartialSquare>,
    pub to: Square,
    pub takes: Option<bool>,
}

/// The letter that notation uses for a piece; none for a pawn.
pub open spec fn piece_letter_spec(p: Piece) -> Seq<char> {
    match p {
        Piece::Pawn => seq![],
        Piece::Bishop => seq!['B'],
        Piece::Knight => seq!['N'],
        Piece::Rook => seq!['R'],
        Piece::Queen => seq!['Q'],
        Piece::King => seq!['K'],
    }
}

pub open spec fn piece_of_letter(c: char) -> Option<Piece> {
    if c == 'P' {
        Some(Piece::Pawn)
    } else if c == 'N' {
        Some(Piece::Knight)
    } else if c == 'B' {
        Some(Piece::Bishop)
    } else if c == 'R' {
        Some(Piece::Rook)
    } else if c == 'Q' {
        Some(Piece::Queen)
    } else if c == 'K' {
        Some(Piece::King)
    } else {
        None
    }
}

/// The notation of a move: piece letter, origin file for a pawn capture, `x` for a capture,
/// destination square.
pub open spec fn notation_spec(m: ValidMove) -> Seq<char> {
    piece_letter_spec(m.piece) + (if m.piece == Piece::Pawn && m.takes is Some {
        seq![file_char(m.from.file as int)]
    } else {
        seq![]
    }) + (if m.takes is Some {
        seq!['x']
    } else {
        seq![]
    }) + seq![file_char(m.to.file as int), rank_char(m.to.rank as int)]
}

/// The token without a trailing check or mate marker.
pub open spec fn strip_check(s: Seq<char>) -> Seq<char> {
    if s.len() > 0 && (s.last() == '+' || s.last() == '#') {
        s.drop_last()
    } else {
        s
    }
}

/// The token without a trailing promotion (`=` and a piece letter).
pub open spec fn strip_promotion(s: Seq<char>) -> Seq<char> {
    if s.len() >= 2 && s[s.len() - 2] == '=' && piece_of_letter(s.last()) is Some {
        s.subrange(0, s.len() - 2)
    } else {
        s
    }
}

/// An origin hint: empty, a file letter, a rank digit, or a file letter and a rank digit.
pub open spec fn hint_ok(h: Seq<char>) -> bool {
    ||| h.len() == 0
    ||| h.len() == 1 && ('a' <= h[0] <= 'h' || '1' <= h[0] <= '8')
    ||| h.len() == 2 && 'a' <= h[0] <= 'h' && '1' <= h[1] <= '8'
}

/// The template that a move token describes, or `None` where the token is not of the form
/// `[piece] [origin hint] [x] destination [= promotion] [+ or #]`. The origin hint is accepted
/// but not used.
pub open spec fn parse_notation_spec(s: Seq<char>) -> Option<PartialMove> {
    let core = strip_promotion(strip_check(s));
    let n = core.len();
    if n < 2 || square_of_chars(core[n - 2], core[n - 1]) is None {
        None
    } else {
        let head = core.subrange(0, n - 2);
        let has_piece = head.len() > 0 && piece_of_letter(head[0]) is Some;
        let rest = if has_piece { head.drop_first() } else { head };
        let takes = rest.len() > 0 && rest.last() == 'x';
        let hint = if takes { rest.drop_last() } else { rest };
        if !hint_ok(hint) {
            None
        } else {
            Some(PartialMove {
                piece: if has_piece { piece_of_letter(head[0])->0 } else { Piece::Pawn },
                from: None,
                to: square_of_chars(core[n - 2], core[n - 1])->0,
                takes: Some(takes),
            })
        }
    }
}

/// `m` fits the template.
pub open spec fn move_matches_spec(m: ValidMove, t: PartialMove) -> bool {
    &&& t.piece == m.piece
    &&& (t.from matches Some(ps) ==> (ps.rank matches Some(r) ==> r == m.from.rank) && (ps.file matches Some(f) ==> f
        == m.from.file))
    &&& t.to == m.to
    &&& (t.takes matches Some(tk) ==> (m.takes is Some) == tk)
}

/// `m` is the one legal move of the side to move that fits the template.
pub open spec fn resolves_to(g: Game, t: PartialMove, m: ValidMove) -> bool {
    &&& legal_move(g.cells(), g.ep(), g.position.next_to_move, m)
    &&& move_matches_spec(m, t)
    &&& forall|m2: ValidMove|
        legal_move(g.cells(), g.ep(), g.position.next_to_move, m2) && move_matches_spec(m2, t) ==> m2 == m
}

/// The result of resolving a move token in `g`.
pub open spec fn resolution(g: Game, s: Seq<char>, r: Result<ValidMove, InvalidMoveError>) -> bool {
    match parse_notation_spec(s) {
        Some(t) => {
            ||| r matches Ok(m) && resolves_to(g, t, m)
            ||| r == Err::<ValidMove, InvalidMoveError>(InvalidMoveError::NoLegalMatch) && forall|m: ValidMove|
                !(legal_move(g.cells(), g.ep(), g.position.next_to_move, m) && move_matches_spec(m, t))
            ||| r == Err::<ValidMove, InvalidMoveError>(InvalidMoveError::Ambiguous) && exists|m1: ValidMove, m2: ValidMove|
                m1 != m2 && legal_move(g.cells(), g.ep(), g.position.next_to_move, m1) && move_matches_spec(m1, t)
                    && legal_move(g.cells(), g.ep(), g.position.next_to_move, m2) && move_matches_spec(m2, t)
        },
        None => if castling_token(s) {
            r == Err::<ValidMove, InvalidMoveError>(InvalidMoveError::NoLegalMatch)
        } else {
            r == Err::<ValidMove, InvalidMoveError>(InvalidMoveError::NoSyntaxMatch)
        },
    }
}

/// A castling token, `O-O` or `O-O-O`, with an optional check or mate marker. No castling move
/// is ever generated, so no legal move fits one.
pub open spec fn castling_token(s: Seq<char>) -> bool {
    let c = strip_check(s);
    c == seq!['O', '-', 'O'] || c == seq!['O', '-', 'O', '-', 'O']
}

/// Whether a token is a castling token.
pub fn is_castling_token(chars: &Vec<char>) -> (r: bool)
    ensures
        r == castling_token(chars@),
{
    let ghost s = chars@;
    let mut end: usize = chars.len();
    if end > 0 && (chars[end - 1] == '+' || chars[end - 1] == '#') {
        end = end - 1;
    }
    let ghost c = s.subrange(0, end as int);
    assert(strip_check(s) =~= c);
    let short = end == 3 && chars[0] == 'O' && chars[1] == '-' && chars[2] == 'O';
    let long = end == 5 && chars[0] == 'O' && chars[1] == '-' && chars[2] == 'O' && chars[3] == '-' && chars[4] == 'O';
    if short {
        assert(c =~= seq!['O', '-', 'O']);
    }
    if long {
        assert(c =~= seq!['O', '-', 'O', '-', 'O']);
    }
    short || long
}

/// The template that a move's own notation describes.
pub open spec fn template_of(m: ValidMove) -> PartialMove {
    PartialMove { piece: m.piece, from: None, to: m.to, takes: Some(m.takes is Some) }
}

/// Notation resolution is total-or-failing on a legal move's own notation: the notation parses to
/// a template that the move fits, and where no other legal move fits it, it resolves to that move.
pub proof fn lemma_notation_resolves_back(g: Game, m: ValidMove)
    requires
        g.wf(),
        legal_move(g.cells(), g.ep(), g.position.next_to_move, m),
    ensures
        parse_notation_spec(notation_spec(m)) == Some(template_of(m)),
        move_matches_spec(m, template_of(m)),
        (forall|m2: ValidMove|
            legal_move(g.cells(), g.ep(), g.position.next_to_move, m2) && move_matches_spec(m2, template_of(m)) ==> m2
                == m) ==> resolution(g, notation_spec(m), Ok(m)),
{
    lemma_pseudo_move_wf(g.cells(), g.ep(), g.position.next_to_move, m);
    let s = notation_spec(m);
    let n = s.len();
    assert(s[n - 1] == rank_char(m.to.rank as int));
    assert(s[n - 2] == file_char(m.to.file as int));
    assert(strip_check(s) == s);
    assert(strip_promotion(s) == s);
    assert(square_of_chars(s[n - 2], s[n - 1]) == Some(m.to));
    let head = s.subrange(0, n - 2);
    let letter = piece_letter_spec(m.piece);
    let origin: Seq<char> = if m.piece == Piece::Pawn && m.takes is Some {
        seq![file_char(m.from.file as int)]
    } else {
        seq![]
    };
    let x: Seq<char> = if m.takes is Some { seq!['x'] } else { seq![] };
    assert(head =~= letter + origin + x);
    let has_piece = head.len() > 0 && piece_of_letter(head[0]) is Some;
    assert(has_piece == (m.piece != Piece::Pawn));
    let rest = if has_piece { head.drop_first() } else { head };
    assert(rest =~= origin + x);
    let hint = if m.takes is Some { rest.drop_last() } else { rest };
    assert(hint =~= origin);
}

/// The piece that an upper-case letter names.
pub fn parse_piece_letter(letter: char) -> (r: Option<Piece>)
    ensures
        r == piece_of_letter(letter),
{
    match letter {
        'N' => Some(Piece::Knight),
        'P' => Some(Piece::Pawn),
        'B' => Some(Piece::Bishop),
        'R' => Some(Piece::Rook),
        'Q' => Some(Piece::Queen),
        'K' => Some(Piece::King),
        _ => None,
    }
}

/// Where the token ends once a trailing check or mate marker and a promotion are cut off.
fn core_end(chars: &Vec<char>) -> (end: usize)
    ensures
        end <= chars@.len(),
        chars@.subrange(0, end as int) == strip_promotion(strip_check(chars@)),
{
    let ghost s = chars@;
    let mut end: usize = chars.len();
    if end > 0 && (chars[end - 1] == '+' || chars[end - 1] == '#') {
        end = end - 1;
    }
    assert(strip_check(s) =~= s.subrange(0, end as int));
    let ghost s1 = s.subrange(0, end as int);
    if end >= 2 && chars[end - 2] == '=' && parse_piece_letter(chars[end - 1]).is_some() {
        end = end - 2;
    }
    assert(strip_promotion(s1) =~= s.subrange(0, end as int));
    end
}

/// Whether the characters from `start` to `end` form an origin hint.
fn is_hint(chars: &Vec<char>, start: usize, end: usize) -> (r: bool)
    requires
        start <= end <= chars@.len(),
    ensures
        r == hint_ok(chars@.subrange(start as int, end as int)),
{
    let n = end - start;
    if n == 0 {
        true
    } else if n == 1 {
        let c = chars[start];
        ('a' <= c && c <= 'h') || ('1' <= c && c <= '8')
    } else if n == 2 {
        let c0 = chars[start];
        let c1 = chars[start + 1];
        'a' <= c0 && c0 <= 'h' && '1' <= c1 && c1 <= '8'
    } else {
        false
    }
}

/// Reads a move token into the template that it describes.
pub fn parse_notation(chars: &Vec<char>) -> (r: Option<PartialMove>)
    ensures
        r == parse_notation_spec(chars@),
{
    let ghost s = chars@;
    let end = core_end(chars);
    let ghost core = strip_promotion(strip_check(s));
    if end < 2 {
        return None;
    }
    let to = match square_from_chars(chars[end - 2], chars[end - 1]) {
        Some(sq) => sq,
        None => {
            return None;
        },
    };
    let mut start: usize = 0;
    let mut piece = Piece::Pawn;
    if end - 2 > 0 {
        if let Some(p) = parse_piece_letter(chars[0]) {
            piece = p;
            start = 1;
        }
    }
    let mut hint_end: usize = end - 2;
    let takes = hint_end > start && chars[hint_end - 1] == 'x';
    if takes {
        hint_end = hint_end - 1;
    }
    let ghost head = core.subrange(0, core.len() - 2);
    let ghost rest = if start == 1 { head.drop_first() } else { head };
    assert(rest =~= s.subrange(start as int, end - 2));
    let ghost hint = if takes { rest.drop_last() } else { rest };
    assert(hint =~= s.subrange(start as int, hint_end as int));
    if !is_hint(chars, start, hint_end) {
        return None;
    }
    Some(PartialMove { piece, from: None, to, takes: Some(takes) })
}

impl ValidMove {
    /// The move's notation: piece letter, origin file for a pawn capture, `x` for a capture,
    /// destination square.
    pub fn notation(&self) -> (r: String)
        requires
            self.from.wf(),
            self.to.wf(),
        ensures
            r@ == notation_spec(*self),
    {
        let mut v: Vec<char> = Vec::new();
        match self.piece {
            Piece::Pawn => {},
            Piece::Bishop => v.push('B'),
            Piece::Knight => v.push('N'),
            Piece::Rook => v.push('R'),
            Piece::Queen => v.push('Q'),
            Piece::King => v.push('K'),
        }
        if self.piece == Piece::Pawn && self.takes.is_some() {
            v.push((('a' as u8) + (self.from.file as u8)) as char);
        }
        if self.takes.is_some() {
            v.push('x');
        }
        v.push((('a' as u8) + (self.to.file as u8)) as char);
        v.push((('1' as u8) + (self.to.rank as u8)) as char);
        assert(v@ =~= notation_spec(*self));
        string_from_chars(&v)
    }

    /// The one legal move of the side to move that `notation` describes; an error where the
    /// token does not parse, or fits no legal move or more than one.
    pub fn from_notation(game: &Game, notation: &str) -> (r: Result<ValidMove, InvalidMoveError>)
        requires
            game.wf(),
        ensures
            resolution(*game, notation@, r),
    {
        let chars = chars_of(notation);
        let template = match parse_notation(&chars) {
            Some(t) => t,
            None => {
                if is_castling_token(&chars) {
                    return Err(InvalidMoveError::NoLegalMatch);
                }
                return Err(InvalidMoveError::NoSyntaxMatch);
            },
        };
        let found = game.find_moves(template);
        assert(parse_notation_spec(notation@) == Some(template));
        if found.len() == 0 {
            proof {
                assert forall|m: ValidMove|
                    !(legal_move(game.cells(), game.ep(), game.position.next_to_move, m) && move_matches_spec(m, template)) by {
                    if legal_move(game.cells(), game.ep(), game.position.next_to_move, m) && move_matches_spec(m, template) {
                        assert(found@.contains(m));
                    }
                }
            }
            return Err(InvalidMoveError::NoLegalMatch);
        }
        let first = found[0];
        let mut k: usize = 1;
        while k < found.len()
            invariant
                1 <= k <= found@.len(),
                first == found@[0],
                parse_notation_spec(notation@) == Some(template),
                forall|m: ValidMove| #[trigger] found@.contains(m) <==> (legal_move(game.cells(), game.ep(), game.position.next_to_move, m)
                    && move_matches_spec(m, template)),
                forall|i: int| 0 <= i < k ==> #[trigger] found@[i] == first,
            decreases found@.len() - k,
        {
            if found[k] != first {
                proof {
                    let other = found@[k as int];
                    assert(found@.contains(other));
                    assert(found@.contains(first));
                }
                return Err(InvalidMoveError::Ambiguous);
            }
            k = k + 1;
        }
        proof {
            assert(found@.contains(first));
            assert forall|m2: ValidMove|
                legal_move(game.cells(), game.ep(), game.position.next_to_move, m2) && move_matches_spec(m2, template)
                implies m2 == first by {
                assert(found@.contains(m2));
                let i = choose|i: int| 0 <= i < found@.len() && found@[i] == m2;
                assert(found@[i] == first);
            }
        }
        Ok(first)
    }
}

impl Game {
    /// The position after the one legal move that `notation` describes; an error where it
    /// describes none, or more than one.
    pub fn make_move(&self, notation: &str) -> (r: Result<Game, InvalidMoveError>)
        requires
            self.wf(),
            self.position.half_move_clock < i64::MAX,
            self.position.full_move_counter < i64::MAX,
        ensures
            match r {
                Ok(g) => exists|m: ValidMove| resolution(*self, notation@, Ok(m)) && applied(self.position, m, g.position),
                Err(e) => resolution(*self, notation@, Err(e)),
            },
            r matches Ok(g) ==> g.wf(),
    {
        let move_to_make = match ValidMove::from_notation(self, notation) {
            Ok(m) => m,
            Err(e) => {
                return Err(e);
            },
        };
        proof {
            lemma_pseudo_move_wf(self.cells(), self.ep(), self.position.next_to_move, move_to_make);
        }
        Ok(self.make_valid_move(&move_to_make))
    }

    /// The legal moves of the side to move that fit `template`.
    pub fn find_moves(&self, template: PartialMove) -> (r: Vec<ValidMove>)
        requires
            self.wf(),
        ensures
            forall|m: ValidMove| #[trigger] r@.contains(m) <==> (legal_move(self.cells(), self.ep(), self.position.next_to_move, m)
                && move_matches_spec(m, template)),
            distinct_moves(r@),
            r@.no_duplicates(),
    {
        let moves = self.valid_moves();
        Self::filter_moves(moves.as_slice(), template)
    }

    /// The moves of `moves` that fit `template`, in order.
    pub fn filter_moves(moves: &[ValidMove], template: PartialMove) -> (r: Vec<ValidMove>)
        ensures
            r@ == moves@.filter(|m: ValidMove| move_matches_spec(m, template)),
            forall|m: ValidMove| #[trigger] r@.contains(m) <==> (moves@.contains(m) && move_matches_spec(m, template)),
            distinct_moves(moves@) ==> distinct_moves(r@) && r@.no_duplicates(),
    {
        let mut r: Vec<ValidMove> = Vec::new();
        let mut j: usize = 0;
        while j < moves.len()
            invariant
                j <= moves@.len(),
                r@ == moves@.subrange(0, j as int).filter(|m: ValidMove| move_matches_spec(m, template)),
                distinct_moves(moves@) ==> distinct_moves(r@),
            decreases moves@.len() - j,
        {
            let m = moves[j];
            proof {
                assert(moves@.subrange(0, j + 1) =~= moves@.subrange(0, j as int).push(m));
                moves@.subrange(0, j as int).lemma_filter_push(m, |m: ValidMove| move_matches_spec(m, template));
            }
            if Self::move_matches(&m, &template) {
                proof {
                    if distinct_moves(moves@) {
                        let l = r@;
                        let pred = |m: ValidMove| move_matches_spec(m, template);
                        let sub = moves@.subrange(0, j as int);
                        assert forall|i: int| 0 <= i < l.len() implies l[i].from != m.from || l[i].to != m.to by {
                            assert(l.contains(l[i]));
                            sub.lemma_filter_contains_rev(pred, l[i]);
                            let k = choose|k: int| 0 <= k < sub.len() && sub[k] == l[i];
                            assert(moves@[k] == l[i]);
                        }
                        assert forall|x: int, y: int| 0 <= x < y < l.push(m).len() implies l.push(m)[x].from != l.push(m)[y].from
                            || l.push(m)[x].to != l.push(m)[y].to by {
                            assert(l.push(m)[x] == l[x]);
                            if y < l.len() {
                                assert(l.push(m)[y] == l[y]);
                            }
                        }
                    }
                }
                r.push(m);
            }
            j = j + 1;
        }
        proof {
            assert(moves@.subrange(0, moves@.len() as int) =~= moves@);
            assert forall|m: ValidMove| #[trigger] r@.contains(m) <==> (moves@.contains(m) && move_matches_spec(m, template)) by {
                let pred = |m: ValidMove| move_matches_spec(m, template);
                if moves@.contains(m) && move_matches_spec(m, template) {
                    let i = choose|i: int| 0 <= i < moves@.len() && moves@[i] == m;
                    moves@.lemma_filter_contains(pred, i);
                }
                if r@.contains(m) {
                    moves@.lemma_filter_contains_rev(pred, m);
                    let i = choose|i: int| 0 <= i < r@.len() && r@[i] == m;
                    moves@.lemma_filter_pred(pred, i);
                }
            }
            if distinct_moves(moves@) {
                lemma_distinct_no_duplicates(r@);
            }
        }
        r
    }

    /// Whether `m` fits `template`.
    pub fn move_matches(m: &ValidMove, template: &PartialMove) -> (r: bool)
        ensures
            r == move_matches_spec(*m, *template),
    {
        if template.piece != m.piece {
            return false;
        }
        match &template.from {
            Some(partial_square) => {
                if let Some(rank) = partial_square.rank {
                    if rank != m.from.rank {
                        return false;
                    }
                }
                if let Some(file) = partial_square.file {
                    if file != m.from.file {
                        return false;
                    }
                }
            },
            None => {},
        }
        if template.to != m.to {
            return false;
        }
        match template.takes {
            Some(takes) => {
                if m.takes.is_some() != takes {
                    return false;
                }
            },
            None => {},
        }
        true
    }
}

} // verus!
