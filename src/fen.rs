use vstd::prelude::*;
use crate::models::{file_char, rank_char, square_from_chars, square_of_chars, Board, Color, OccupiedSquare, Piece, Position, Square};
use crate::text::{chars_of, string_from_chars};

verus! {

/// Why a position could not be read.
#[derive(Debug, PartialEq, Eq)]
pub struct FenParseError {
    pub message: String,
}

/// The letter of a piece: upper case for White, lower case for Black.
pub open spec fn occupancy_char_spec(o: OccupiedSquare) -> char {
    let c = match o.piece {
        Piece::Pawn => 'P',
        Piece::Knight => 'N',
        Piece::Bishop => 'B',
        Piece::Rook => 'R',
        Piece::Queen => 'Q',
        Piece::King => 'K',
    };
    match o.color {
        Color::White => c,
        Color::Black => ((c as int) + 32) as char,
    }
}

pub open spec fn occupancy_of_char(c: char) -> Option<OccupiedSquare> {
    let w = Color::White;
    let b = Color::Black;
    if c == 'P' { Some(OccupiedSquare { piece: Piece::Pawn, color: w }) }
    else if c == 'N' { Some(OccupiedSquare { piece: Piece::Knight, color: w }) }
    else if c == 'B' { Some(OccupiedSquare { piece: Piece::Bishop, color: w }) }
    else if c == 'R' { Some(OccupiedSquare { piece: Piece::Rook, color: w }) }
    else if c == 'Q' { Some(OccupiedSquare { piece: Piece::Queen, color: w }) }
    else if c == 'K' { Some(OccupiedSquare { piece: Piece::King, color: w }) }
    else if c == 'p' { Some(OccupiedSquare { piece: Piece::Pawn, color: b }) }
    else if c == 'n' { Some(OccupiedSquare { piece: Piece::Knight, color: b }) }
    else if c == 'b' { Some(OccupiedSquare { piece: Piece::Bishop, color: b }) }
    else if c == 'r' { Some(OccupiedSquare { piece: Piece::Rook, color: b }) }
    else if c == 'q' { Some(OccupiedSquare { piece: Piece::Queen, color: b }) }
    else if c == 'k' { Some(OccupiedSquare { piece: Piece::King, color: b }) }
    else { None }
}

pub open spec fn digit_char(d: int) -> char {
    (('0' as int) + d) as char
}

pub open spec fn is_digit(c: char) -> bool {
    '0' <= c <= '9'
}

/// The squares of one rank read from index `i` once `w` of its squares are filled: digits
/// 1 to 8 for runs of empty squares, letters for pieces, exactly eight squares in all.
/// Gives the squares and the index after them.
pub open spec fn parse_rank(s: Seq<char>, i: int, w: int) -> Option<(Seq<Option<OccupiedSquare>>, int)>
    decreases 8 - w, s.len() - i,
{
    if w >= 8 || w < 0 {
        Some((seq![], i))
    } else if i < 0 || i >= s.len() {
        None
    } else if '1' <= s[i] <= '8' && w + (s[i] as int - '0' as int) <= 8 {
        let k = s[i] as int - '0' as int;
        match parse_rank(s, i + 1, w + k) {
            Some((rest, j)) => Some((Seq::new(k as nat, |x: int| None::<OccupiedSquare>) + rest, j)),
            None => None,
        }
    } else if occupancy_of_char(s[i]) is Some {
        match parse_rank(s, i + 1, w + 1) {
            Some((rest, j)) => Some((seq![occupancy_of_char(s[i])] + rest, j)),
            None => None,
        }
    } else {
        None
    }
}

/// The ranks from `row` (0 is rank 8) down to rank 1, separated by `/`, read from index `i`.
pub open spec fn parse_placement(s: Seq<char>, i: int, row: int) -> Option<(Seq<Option<OccupiedSquare>>, int)>
    decreases 8 - row,
{
    if row >= 8 || row < 0 {
        Some((seq![], i))
    } else {
        let start = if row == 0 {
            i
        } else if 0 <= i < s.len() && s[i] == '/' {
            i + 1
        } else {
            -1
        };
        if start < 0 {
            None
        } else {
            match parse_rank(s, start, 0) {
                Some((cells, j)) => match parse_placement(s, j, row + 1) {
                    Some((rest, k)) => Some((cells + rest, k)),
                    None => None,
                },
                None => None,
            }
        }
    }
}

pub open spec fn castling_char(c: char) -> bool {
    c == 'K' || c == 'Q' || c == 'k' || c == 'q'
}

/// The end of the run of castling letters that starts at `i`.
pub open spec fn castling_end(s: Seq<char>, i: int) -> int
    decreases s.len() - i,
{
    if 0 <= i < s.len() && castling_char(s[i]) {
        castling_end(s, i + 1)
    } else {
        i
    }
}

/// The castling letter `l` occurs between `c` and `ce`.
pub open spec fn castles(s: Seq<char>, c: int, ce: int, l: char) -> bool {
    exists|k: int| c <= k < ce && s[k] == l
}

/// The end of the run of decimal digits that starts at `i`.
pub open spec fn digits_end(s: Seq<char>, i: int) -> int
    decreases s.len() - i,
{
    if 0 <= i < s.len() && is_digit(s[i]) {
        digits_end(s, i + 1)
    } else {
        i
    }
}

/// The number that the digits from `i` to `j` write.
pub open spec fn digits_value(s: Seq<char>, i: int, j: int) -> int
    decreases j - i,
{
    if j <= i {
        0
    } else {
        digits_value(s, i, j - 1) * 10 + (s[j - 1] as int - '0' as int)
    }
}

/// The non-negative number that starts at `i` and the index after it.
pub open spec fn parse_number(s: Seq<char>, i: int) -> Option<(int, int)> {
    let e = digits_end(s, i);
    if e > i && digits_value(s, i, e) <= i64::MAX {
        Some((digits_value(s, i, e), e))
    } else {
        None
    }
}

/// What a position text describes: squares, side to move, castling flags (white king side,
/// white queen side, black king side, black queen side), en-passant target, the two clocks.
pub type FenFields = (Seq<Option<OccupiedSquare>>, Color, bool, bool, bool, bool, Option<Square>, int, int);

/// Reads the six space-separated fields of a position text.
pub open spec fn fen_parse_spec(s: Seq<char>) -> Option<FenFields> {
    match parse_placement(s, 0, 0) {
        None => None,
        Some((cells, i)) => {
            let side = if i + 1 < s.len() && s[i + 1] == 'w' {
                Some(Color::White)
            } else if i + 1 < s.len() && s[i + 1] == 'b' {
                Some(Color::Black)
            } else {
                None
            };
            let c = i + 3;
            let ce = castling_end(s, c);
            let castle_ok = (c < s.len() && s[c] == '-' && ce == c) || ce > c;
            let after_castle = if ce > c { ce } else { c + 1 };
            let e = after_castle + 1;
            let ep_dash = e < s.len() && s[e] == '-';
            let ep = if ep_dash || e + 1 >= s.len() { None } else { square_of_chars(s[e], s[e + 1]) };
            let after_ep = if ep_dash { e + 1 } else { e + 2 };
            let ep_ok = ep_dash || ep is Some;
            let half = parse_number(s, after_ep + 1);
            if !(i < s.len() && s[i] == ' ' && side is Some && i + 2 < s.len() && s[i + 2] == ' ' && castle_ok
                && after_castle < s.len() && s[after_castle] == ' ' && ep_ok && after_ep < s.len() && s[after_ep] == ' '
                && half is Some) {
                None
            } else {
                let hp = half->0;
                let h = hp.1;
                let full = parse_number(s, h + 1);
                let fp = full->0;
                if h < s.len() && s[h] == ' ' && full is Some && fp.1 == s.len() {
                    Some((
                        cells,
                        side->0,
                        castles(s, c, ce, 'K'),
                        castles(s, c, ce, 'Q'),
                        castles(s, c, ce, 'k'),
                        castles(s, c, ce, 'q'),
                        ep,
                        hp.0,
                        fp.0,
                    ))
                } else {
                    None
                }
            }
        },
    }
}

/// One rank's text from square `i` on, after `blanks` empty squares not yet written: a digit
/// for each run of empty squares, a letter for each piece.
pub open spec fn rank_text(row: Seq<Option<OccupiedSquare>>, i: int, blanks: int) -> Seq<char>
    decreases 8 - i,
{
    let pending = if blanks > 0 { seq![digit_char(blanks)] } else { seq![] };
    if i >= 8 {
        pending
    } else {
        match row[i] {
            None => rank_text(row, i + 1, blanks + 1),
            Some(o) => pending + seq![occupancy_char_spec(o)] + rank_text(row, i + 1, 0),
        }
    }
}

/// The ranks from `row` (0 is rank 8) down to rank 1, separated by `/`.
pub open spec fn placement_text(cells: Seq<Option<OccupiedSquare>>, row: int) -> Seq<char>
    decreases 8 - row,
{
    if row >= 8 || row < 0 {
        seq![]
    } else {
        let this = rank_text(cells.subrange(8 * row, 8 * row + 8), 0, 0);
        if row < 7 {
            this + seq!['/'] + placement_text(cells, row + 1)
        } else {
            this
        }
    }
}

/// The decimal digits of `n`.
pub open spec fn decimal(n: nat) -> Seq<char>
    decreases n,
{
    if n < 10 {
        seq![digit_char(n as int)]
    } else {
        decimal(n / 10) + seq![digit_char((n % 10) as int)]
    }
}

/// `n` in decimal, with a minus sign when negative.
pub open spec fn int_text(n: int) -> Seq<char> {
    if n < 0 {
        seq!['-'] + decimal((-n) as nat)
    } else {
        decimal(n as nat)
    }
}

pub open spec fn castling_text(p: Position) -> Seq<char> {
    let t = (if p.white_can_castle_king_side { seq!['K'] } else { seq![] }) + (if p.white_can_castle_queen_side {
        seq!['Q']
    } else {
        seq![]
    }) + (if p.black_can_castle_king_side { seq!['k'] } else { seq![] }) + (if p.black_can_castle_queen_side {
        seq!['q']
    } else {
        seq![]
    });
    if t.len() == 0 { seq!['-'] } else { t }
}

/// The six space-separated fields that describe a position.
pub open spec fn fen_spec(p: Position) -> Seq<char> {
    placement_text(p.board.squares@, 0) + seq![' ', if p.next_to_move == Color::White { 'w' } else { 'b' }, ' ']
        + castling_text(p) + seq![' '] + en_passant_text(p) + seq![' '] + int_text(p.half_move_clock as int) + seq![' '] + int_text(p.full_move_counter as int)
}

/// `p` holds what the fields describe.
pub open spec fn holds_fields(p: Position, f: FenFields) -> bool {
    &&& p.board.squares@ == f.0
    &&& p.next_to_move == f.1
    &&& p.white_can_castle_king_side == f.2
    &&& p.white_can_castle_queen_side == f.3
    &&& p.black_can_castle_king_side == f.4
    &&& p.black_can_castle_queen_side == f.5
    &&& p.en_passant_square == f.6
    &&& p.half_move_clock as int == f.7
    &&& p.full_move_counter as int == f.8
}

pub proof fn lemma_digits_value_nonneg(s: Seq<char>, i: int, j: int)
    requires
        i <= j <= s.len(),
        forall|t: int| i <= t < j ==> is_digit(#[trigger] s[t]),
    ensures
        0 <= digits_value(s, i, j),
    decreases j - i,
{
    if i < j {
        lemma_digits_value_nonneg(s, i, j - 1);
        let v = digits_value(s, i, j - 1);
        assert(v * 10 >= 0) by (nonlinear_arith)
            requires
                v >= 0,
        ;
    }
}

pub proof fn lemma_digits_value_grows(s: Seq<char>, i: int, k: int, j: int)
    requires
        i <= k <= j <= s.len(),
        forall|t: int| i <= t < j ==> is_digit(#[trigger] s[t]),
    ensures
        0 <= digits_value(s, i, k) <= digits_value(s, i, j),
    decreases j - k,
{
    lemma_digits_value_nonneg(s, i, k);
    if k < j {
        lemma_digits_value_grows(s, i, k, j - 1);
        let v = digits_value(s, i, j - 1);
        assert(v * 10 >= v) by (nonlinear_arith)
            requires
                v >= 0,
        ;
    }
}

pub proof fn lemma_digits_end(s: Seq<char>, i: int)
    requires
        0 <= i,
    ensures
        i <= digits_end(s, i) <= if i <= s.len() { s.len() as int } else { i },
        forall|t: int| i <= t < digits_end(s, i) ==> is_digit(#[trigger] s[t]),
    decreases s.len() - i,
{
    if 0 <= i < s.len() && is_digit(s[i]) {
        lemma_digits_end(s, i + 1);
    }
}

/// Reads the non-negative decimal number that starts at `i`: at least one digit, and a value
/// that fits `i64`.
pub fn read_number(chars: &Vec<char>, i: usize) -> (r: Option<(i64, usize)>)
    requires
        i <= chars@.len(),
    ensures
        match parse_number(chars@, i as int) {
            Some((v, e)) => r matches Some((rv, re)) && rv as int == v && re as int == e && i < e <= chars@.len(),
            None => r is None,
        },
{
    let ghost s = chars@;
    proof {
        lemma_digits_end(s, i as int);
    }
    let mut k: usize = i;
    let mut acc: i64 = 0;
    while k < chars.len() && '0' <= chars[k] && chars[k] <= '9'
        invariant
            s == chars@,
            i <= k <= s.len(),
            forall|t: int| i <= t < k ==> is_digit(#[trigger] s[t]),
            digits_end(s, i as int) == digits_end(s, k as int),
            acc as int == digits_value(s, i as int, k as int),
            acc >= 0,
        decreases s.len() - k,
    {
        let d = (chars[k] as u32 - '0' as u32) as i64;
        assert(digits_value(s, i as int, k + 1) == acc * 10 + d);
        if acc > (i64::MAX - d) / 10 {
            proof {
                assert(acc * 10 + d > i64::MAX) by (nonlinear_arith)
                    requires
                        acc > (i64::MAX - d) / 10,
                        0 <= d <= 9,
                ;
                lemma_digits_end(s, i as int);
                lemma_digits_end(s, k + 1);
                lemma_digits_value_grows(s, i as int, k + 1, digits_end(s, i as int));
            }
            return None;
        }
        assert(acc * 10 + d <= i64::MAX) by (nonlinear_arith)
            requires
                acc <= (i64::MAX - d) / 10,
                0 <= d <= 9,
        ;
        acc = acc * 10 + d;
        k = k + 1;
    }
    assert(digits_end(s, k as int) == k as int);
    if k == i {
        return None;
    }
    Some((acc, k))
}

/// The piece that a letter names: upper case for White, lower case for Black.
pub fn occupancy_from_char(letter: char) -> (r: Option<OccupiedSquare>)
    ensures
        r == occupancy_of_char(letter),
{
    let w = Color::White;
    let b = Color::Black;
    match letter {
        'P' => Some(OccupiedSquare { piece: Piece::Pawn, color: w }),
        'N' => Some(OccupiedSquare { piece: Piece::Knight, color: w }),
        'B' => Some(OccupiedSquare { piece: Piece::Bishop, color: w }),
        'R' => Some(OccupiedSquare { piece: Piece::Rook, color: w }),
        'Q' => Some(OccupiedSquare { piece: Piece::Queen, color: w }),
        'K' => Some(OccupiedSquare { piece: Piece::King, color: w }),
        'p' => Some(OccupiedSquare { piece: Piece::Pawn, color: b }),
        'n' => Some(OccupiedSquare { piece: Piece::Knight, color: b }),
        'b' => Some(OccupiedSquare { piece: Piece::Bishop, color: b }),
        'r' => Some(OccupiedSquare { piece: Piece::Rook, color: b }),
        'q' => Some(OccupiedSquare { piece: Piece::Queen, color: b }),
        'k' => Some(OccupiedSquare { piece: Piece::King, color: b }),
        _ => None,
    }
}

/// The letter of a piece: upper case for White, lower case for Black.
pub fn occupancy_to_char(occupancy: &OccupiedSquare) -> (r: char)
    ensures
        r == occupancy_char_spec(*occupancy),
{
    match (occupancy.piece, occupancy.color) {
        (Piece::Pawn, Color::White) => 'P',
        (Piece::Knight, Color::White) => 'N',
        (Piece::Bishop, Color::White) => 'B',
        (Piece::Rook, Color::White) => 'R',
        (Piece::Queen, Color::White) => 'Q',
        (Piece::King, Color::White) => 'K',
        (Piece::Pawn, Color::Black) => 'p',
        (Piece::Knight, Color::Black) => 'n',
        (Piece::Bishop, Color::Black) => 'b',
        (Piece::Rook, Color::Black) => 'r',
        (Piece::Queen, Color::Black) => 'q',
        (Piece::King, Color::Black) => 'k',
    }
}

/// Reads the rest of a rank from `i`, with `w` of its squares filled, onto `out`; gives the
/// index after it.
fn read_rank(chars: &Vec<char>, i: usize, w: usize, out: &mut Vec<Option<OccupiedSquare>>) -> (r: Option<usize>)
    requires
        i <= chars@.len(),
        w <= 8,
        old(out)@.len() + 8 - w <= 64,
    ensures
        match parse_rank(chars@, i as int, w as int) {
            Some((cells, j)) => r == Some(j as usize) && final(out)@ == old(out)@ + cells && i <= j <= chars@.len() && cells.len() == 8 - w,
            None => r is None,
        },
    decreases 8 - w, chars@.len() - i,
{
    if w >= 8 {
        assert(old(out)@ + seq![] =~= old(out)@);
        return Some(i);
    }
    if i >= chars.len() {
        return None;
    }
    let c = chars[i];
    if '1' <= c && c <= '8' && w + ((c as u32 - '0' as u32) as usize) <= 8 {
        let k = (c as u32 - '0' as u32) as usize;
        let ghost before = out@;
        let mut n: usize = 0;
        while n < k
            invariant
                n <= k,
                k <= 8,
                out@ == before + Seq::new(n as nat, |x: int| None::<OccupiedSquare>),
            decreases k - n,
        {
            out.push(None);
            n = n + 1;
            assert(out@ =~= before + Seq::new(n as nat, |x: int| None::<OccupiedSquare>));
        }
        let r = read_rank(chars, i + 1, w + k, out);
        proof {
            if let Some((rest, j)) = parse_rank(chars@, i + 1, w + k) {
                assert(final(out)@ =~= old(out)@ + (Seq::new(k as nat, |x: int| None::<OccupiedSquare>) + rest));
            }
        }
        return r;
    }
    match occupancy_from_char(c) {
        Some(o) => {
            out.push(Some(o));
            let r = read_rank(chars, i + 1, w + 1, out);
            proof {
                if let Some((rest, j)) = parse_rank(chars@, i + 1, w + 1) {
                    assert(final(out)@ =~= old(out)@ + (seq![Some(o)] + rest));
                }
            }
            r
        },
        None => None,
    }
}

/// Reads the ranks from `row` down to rank 1 onto `out`; gives the index after them.
fn read_placement(chars: &Vec<char>, i: usize, row: usize, out: &mut Vec<Option<OccupiedSquare>>) -> (r: Option<usize>)
    requires
        i <= chars@.len(),
        row <= 8,
        old(out)@.len() == 8 * row,
    ensures
        match parse_placement(chars@, i as int, row as int) {
            Some((cells, j)) => r == Some(j as usize) && final(out)@ == old(out)@ + cells && i <= j <= chars@.len()
                && cells.len() == 8 * (8 - row),
            None => r is None,
        },
    decreases 8 - row,
{
    if row >= 8 {
        assert(old(out)@ + seq![] =~= old(out)@);
        return Some(i);
    }
    let start = if row == 0 {
        i
    } else if i < chars.len() && chars[i] == '/' {
        i + 1
    } else {
        return None;
    };
    let j = match read_rank(chars, start, 0, out) {
        Some(j) => j,
        None => {
            return None;
        },
    };
    assert(parse_rank(chars@, start as int, 0) is Some);
    let ghost rank_cells = parse_rank(chars@, start as int, 0)->0;
    let _len = chars.len();
    assert(j as int == rank_cells.1);
    assert(start <= rank_cells.1 <= chars@.len());
    let ghost mid = out@;
    let r = read_placement(chars, j, row + 1, out);
    proof {
        let cells = rank_cells.0;
        assert(j as int == rank_cells.1);
        assert(mid == old(out)@ + cells);
        if parse_placement(chars@, j as int, row + 1) is Some {
            let rest = parse_placement(chars@, j as int, row + 1)->0;
            assert(out@ == mid + rest.0);
            assert(out@ =~= old(out)@ + (cells + rest.0));
        }
    }
    r
}

fn fen_error(text: &str) -> (r: FenParseError) {
    FenParseError { message: text.to_string() }
}

fn fen_error_at(text: &str, c: char) -> (r: FenParseError) {
    let mut v = chars_of(text);
    v.push(' ');
    v.push('\'');
    v.push(c);
    v.push('\'');
    FenParseError { message: string_from_chars(&v) }
}

/// Appends the decimal digits of `n`.
pub(crate) fn push_decimal(v: &mut Vec<char>, n: u64)
    ensures
        final(v)@ == old(v)@ + decimal(n as nat),
    decreases n,
{
    if n >= 10 {
        push_decimal(v, n / 10);
    }
    v.push((('0' as u8) + ((n % 10) as u8)) as char);
}

/// Appends `n` in decimal, with a minus sign when negative.
pub(crate) fn push_int(v: &mut Vec<char>, n: i64)
    ensures
        final(v)@ == old(v)@ + int_text(n as int),
{
    if n < 0 {
        v.push('-');
        let magnitude: u64 = ((-(n + 1)) as u64) + 1;
        push_decimal(v, magnitude);
        assert(final(v)@ =~= old(v)@ + int_text(n as int));
    } else {
        push_decimal(v, n as u64);
    }
}

/// Appends the text of one rank from square `i` on, after `blanks` unwritten empty squares.
fn push_rank_text(v: &mut Vec<char>, cells: &Vec<Option<OccupiedSquare>>, start: usize, i: usize, blanks: usize)
    requires
        start + 8 <= cells@.len(),
        i <= 8,
        blanks <= i,
    ensures
        final(v)@ == old(v)@ + rank_text(cells@.subrange(start as int, start + 8), i as int, blanks as int),
    decreases 8 - i,
{
    let ghost row = cells@.subrange(start as int, start + 8);
    if i >= 8 {
        if blanks > 0 {
            v.push((('0' as u8) + (blanks as u8)) as char);
        }
        assert(final(v)@ =~= old(v)@ + rank_text(row, i as int, blanks as int));
        return;
    }
    let _len = cells.len();
    match cells[start + i] {
        None => {
            push_rank_text(v, cells, start, i + 1, blanks + 1);
        },
        Some(o) => {
            if blanks > 0 {
                v.push((('0' as u8) + (blanks as u8)) as char);
            }
            v.push(occupancy_to_char(&o));
            push_rank_text(v, cells, start, i + 1, 0);
            assert(final(v)@ =~= old(v)@ + rank_text(row, i as int, blanks as int));
        },
    }
}

/// Appends the ranks from `row` down to rank 1, separated by `/`.
fn push_placement(v: &mut Vec<char>, cells: &Vec<Option<OccupiedSquare>>, row: usize)
    requires
        cells@.len() == 64,
        row <= 8,
    ensures
        final(v)@ == old(v)@ + placement_text(cells@, row as int),
    decreases 8 - row,
{
    if row >= 8 {
        assert(final(v)@ =~= old(v)@ + placement_text(cells@, row as int));
        return;
    }
    push_rank_text(v, cells, 8 * row, 0, 0);
    if row < 7 {
        v.push('/');
        push_placement(v, cells, row + 1);
    }
    assert(final(v)@ =~= old(v)@ + placement_text(cells@, row as int));
}

pub open spec fn en_passant_text(p: Position) -> Seq<char> {
    match p.en_passant_square {
        Some(sq) => seq![file_char(sq.file as int), rank_char(sq.rank as int)],
        None => seq!['-'],
    }
}

fn push_castling(v: &mut Vec<char>, p: &Position)
    ensures
        final(v)@ == old(v)@ + castling_text(*p),
{
    let mut some_castling_possible = false;
    if p.white_can_castle_king_side {
        v.push('K');
        some_castling_possible = true;
    }
    if p.white_can_castle_queen_side {
        v.push('Q');
        some_castling_possible = true;
    }
    if p.black_can_castle_king_side {
        v.push('k');
        some_castling_possible = true;
    }
    if p.black_can_castle_queen_side {
        v.push('q');
        some_castling_possible = true;
    }
    if !some_castling_possible {
        v.push('-');
    }
    assert(final(v)@ =~= old(v)@ + castling_text(*p));
}

fn push_en_passant(v: &mut Vec<char>, p: &Position)
    requires
        p.wf(),
    ensures
        final(v)@ == old(v)@ + en_passant_text(*p),
{
    match p.en_passant_square {
        Some(square) => {
            v.push((('a' as u8) + (square.file as u8)) as char);
            v.push((('1' as u8) + (square.rank as u8)) as char);
        },
        None => v.push('-'),
    }
    assert(final(v)@ =~= old(v)@ + en_passant_text(*p));
}

/// The board drawn rank by rank: `|` and a letter (a space for an empty square) per square,
/// `|` and a newline after each rank.
pub open spec fn diagram_spec(cells: Seq<Option<OccupiedSquare>>, n: int) -> Seq<char>
    decreases n,
{
    if n <= 0 {
        seq![]
    } else {
        let i = n - 1;
        let letter = match cells[i] {
            Some(o) => occupancy_char_spec(o),
            None => ' ',
        };
        diagram_spec(cells, i) + seq!['|', letter] + (if i % 8 == 7 { seq!['|', '\n'] } else { seq![] })
    }
}

impl Board {
    /// The board drawn rank by rank, rank 8 first: `|r|n|b|q|k|b|n|r|` and so on.
    pub fn diagram(&self) -> (r: String)
        ensures
            r@ == diagram_spec(self.squares@, self.squares@.len() as int),
    {
        let mut v: Vec<char> = Vec::new();
        let mut i: usize = 0;
        while i < self.squares.len()
            invariant
                i <= self.squares@.len(),
                v@ == diagram_spec(self.squares@, i as int),
            decreases self.squares@.len() - i,
        {
            v.push('|');
            let letter = match &self.squares[i] {
                Some(o) => occupancy_to_char(o),
                None => ' ',
            };
            v.push(letter);
            if i % 8 == 7 {
                v.push('|');
                v.push('\n');
            }
            i = i + 1;
            assert(v@ =~= diagram_spec(self.squares@, i as int));
        }
        string_from_chars(&v)
    }
}

impl Position {
    /// The six space-separated fields that describe the position.
    pub fn to_fen(&self) -> (r: String)
        requires
            self.wf(),
        ensures
            r@ == fen_spec(*self),
    {
        let mut fen: Vec<char> = Vec::new();
        push_placement(&mut fen, &self.board.squares, 0);
        let ghost a = fen@;
        fen.push(' ');
        fen.push(
            match self.next_to_move {
                Color::White => 'w',
                Color::Black => 'b',
            },
        );
        fen.push(' ');
        push_castling(&mut fen, self);
        fen.push(' ');
        push_en_passant(&mut fen, self);
        fen.push(' ');
        let ghost b = fen@;
        push_int(&mut fen, self.half_move_clock);
        fen.push(' ');
        push_int(&mut fen, self.full_move_counter);
        assert(fen@ =~= b + int_text(self.half_move_clock as int) + seq![' '] + int_text(self.full_move_counter as int));
        assert(fen@ =~= fen_spec(*self));
        string_from_chars(&fen)
    }

    /// Reads a position from its six space-separated fields: placement, side to move, castling
    /// availability, en-passant target, half-move clock, full-move counter.
    pub fn from_fen(fen: &str) -> (r: Result<Position, FenParseError>)
        ensures
            match fen_parse_spec(fen@) {
                Some(f) => r matches Ok(p) && holds_fields(p, f) && p.wf(),
                None => r is Err,
            },
    {
        let chars = chars_of(fen);
        let ghost s = chars@;
        let n = chars.len();
        let mut squares: Vec<Option<OccupiedSquare>> = Vec::new();
        let i = match read_placement(&chars, 0, 0, &mut squares) {
            Some(i) => i,
            None => {
                return Err(fen_error("Invalid piece placement"));
            },
        };
        if !(i < n && chars[i] == ' ') {
            return Err(fen_error("Expected ' ' after the piece positions"));
        }
        if i + 1 >= n {
            return Err(fen_error("Unexpected end of FEN string"));
        }
        let next_to_move = match chars[i + 1] {
            'w' => Color::White,
            'b' => Color::Black,
            c => {
                return Err(fen_error_at("Unexpected char instead of player to move:", c));
            },
        };
        if !(i + 2 < n && chars[i + 2] == ' ') {
            return Err(fen_error("Expected ' ' after the player to move"));
        }
        let c = i + 3;
        let mut ce = c;
        let mut white_can_castle_king_side = false;
        let mut white_can_castle_queen_side = false;
        let mut black_can_castle_king_side = false;
        let mut black_can_castle_queen_side = false;
        while ce < n && (chars[ce] == 'K' || chars[ce] == 'Q' || chars[ce] == 'k' || chars[ce] == 'q')
            invariant
                s == chars@,
                n == s.len(),
                c <= ce <= n,
                castling_end(s, c as int) == castling_end(s, ce as int),
                white_can_castle_king_side == castles(s, c as int, ce as int, 'K'),
                white_can_castle_queen_side == castles(s, c as int, ce as int, 'Q'),
                black_can_castle_king_side == castles(s, c as int, ce as int, 'k'),
                black_can_castle_queen_side == castles(s, c as int, ce as int, 'q'),
            decreases n - ce,
        {
            let l = chars[ce];
            if l == 'K' {
                white_can_castle_king_side = true;
            } else if l == 'Q' {
                white_can_castle_queen_side = true;
            } else if l == 'k' {
                black_can_castle_king_side = true;
            } else {
                black_can_castle_queen_side = true;
            }
            proof {
                assert forall|x: char| castles(s, c as int, ce + 1, x) == (castles(s, c as int, ce as int, x) || s[ce as int] == x) by {
                    if s[ce as int] == x {
                        assert(c <= ce < ce + 1 && s[ce as int] == x);
                    }
                    if castles(s, c as int, ce + 1, x) && !castles(s, c as int, ce as int, x) {
                        let k = choose|k: int| c <= k < ce + 1 && s[k] == x;
                        assert(k == ce);
                    }
                }
            }
            ce = ce + 1;
        }
        assert(castling_end(s, ce as int) == ce as int);
        let after_castle = if ce > c {
            ce
        } else if c < n && chars[c] == '-' {
            c + 1
        } else {
            if c < n {
                return Err(fen_error_at("Unexpected character in castling flags:", chars[c]));
            }
            return Err(fen_error("Unexpected end of FEN string"));
        };
        if !(after_castle < n && chars[after_castle] == ' ') {
            return Err(fen_error("Expected ' ' after the castling flags"));
        }
        let e = after_castle + 1;
        let ep_dash = e < n && chars[e] == '-';
        let mut en_passant_square: Option<Square> = None;
        let after_ep = if ep_dash {
            e + 1
        } else {
            if e >= n || e + 1 >= n {
                return Err(fen_error("Unexpected end of FEN string while reading en-passant notation"));
            }
            match square_from_chars(chars[e], chars[e + 1]) {
                Some(sq) => {
                    en_passant_square = Some(sq);
                },
                None => {
                    return Err(fen_error("Invalid en-passant notation"));
                },
            }
            e + 2
        };
        if !(after_ep < n && chars[after_ep] == ' ') {
            return Err(fen_error("Expected ' ' after the en-passant square"));
        }
        let (half_move_clock, h) = match read_number(&chars, after_ep + 1) {
            Some(v) => v,
            None => {
                return Err(fen_error("Cannot parse half-move clock as int"));
            },
        };
        if !(h < n && chars[h] == ' ') {
            return Err(fen_error("Expected ' ' after the half-move clock"));
        }
        let (full_move_counter, f) = match read_number(&chars, h + 1) {
            Some(v) => v,
            None => {
                return Err(fen_error("Cannot parse full-move counter as int"));
            },
        };
        if f != n {
            return Err(fen_error("Unexpected character after the full-move counter"));
        }
        Ok(Position {
            board: Board { squares },
            next_to_move,
            white_can_castle_king_side,
            white_can_castle_queen_side,
            black_can_castle_king_side,
            black_can_castle_queen_side,
            en_passant_square,
            half_move_clock,
            full_move_counter,
        })
    }
}

} // verus!
