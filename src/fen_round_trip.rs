use vstd::prelude::*;
use crate::fen::{
    castles, castling_end, castling_text, digit_char, digits_end, digits_value, decimal, en_passant_text, fen_parse_spec,
    fen_spec, holds_fields, int_text, is_digit, occupancy_char_spec, occupancy_of_char, parse_number, parse_placement,
    parse_rank, placement_text, rank_text, FenFields,
};
use crate::models::{file_char, rank_char, square_of_chars, Color, OccupiedSquare, Position};

verus! {

pub proof fn lemma_occupancy_char(o: OccupiedSquare)
    ensures
        occupancy_of_char(occupancy_char_spec(o)) == Some(o),
        !('1' <= occupancy_char_spec(o) <= '8'),
{
}

/// A rank's text reads back as its squares, from square `i` on with `blanks` empty squares
/// before it not yet written.
pub proof fn lemma_rank_round_trip(
    row: Seq<Option<OccupiedSquare>>,
    s: Seq<char>,
    pos: int,
    i: int,
    blanks: int,
)
    requires
        row.len() == 8,
        0 <= blanks <= i <= 8,
        forall|j: int| i - blanks <= j < i ==> (#[trigger] row[j]) is None,
        0 <= pos,
        pos + rank_text(row, i, blanks).len() <= s.len(),
        s.subrange(pos, pos + rank_text(row, i, blanks).len()) == rank_text(row, i, blanks),
    ensures
        parse_rank(s, pos, i - blanks) == Some((row.subrange(i - blanks, 8), pos + rank_text(row, i, blanks).len())),
    decreases 8 - i,
{
    let t = rank_text(row, i, blanks);
    let pending: Seq<char> = if blanks > 0 { seq![digit_char(blanks)] } else { seq![] };
    if i >= 8 {
        if blanks > 0 {
            assert(t == pending);
            assert(s[pos] == t[0]);
            assert(parse_rank(s, pos + 1, 8) == Some((Seq::<Option<OccupiedSquare>>::empty(), pos + 1)));
            assert(Seq::new(blanks as nat, |x: int| None::<OccupiedSquare>) + seq![] =~= row.subrange(i - blanks, 8));
        } else {
            assert(row.subrange(8, 8) =~= seq![]);
        }
    } else {
        match row[i] {
            None => {
                lemma_rank_round_trip(row, s, pos, i + 1, blanks + 1);
            },
            Some(o) => {
                let c = occupancy_char_spec(o);
                let rest = rank_text(row, i + 1, 0);
                assert(t == pending + seq![c] + rest);
                lemma_occupancy_char(o);
                let after = pos + pending.len() + 1;
                assert(s.subrange(after, after + rest.len()) =~= rest) by {
                    assert(s.subrange(pos, pos + t.len()) == t);
                    assert forall|k: int| 0 <= k < rest.len() implies s.subrange(after, after + rest.len())[k] == rest[k] by {
                        assert(s[after + k] == t[pending.len() + 1 + k]);
                    }
                }
                lemma_rank_round_trip(row, s, after, i + 1, 0);
                assert(s[pos + pending.len()] == t[pending.len() as int]);
                if blanks > 0 {
                    assert(s[pos] == t[0]);
                    assert(parse_rank(s, pos + 1, i) == Some((seq![Some(o)] + row.subrange(i + 1, 8), after + rest.len())));
                    assert(Seq::new(blanks as nat, |x: int| None::<OccupiedSquare>) + (seq![Some(o)] + row.subrange(i + 1, 8))
                        =~= row.subrange(i - blanks, 8));
                } else {
                    assert(seq![Some(o)] + row.subrange(i + 1, 8) =~= row.subrange(i, 8));
                }
            },
        }
    }
}

pub open spec fn lead(r: int) -> Seq<char> {
    if 0 < r < 8 { seq!['/'] } else { seq![] }
}

/// The ranks' text from `r` on reads back as their squares.
pub proof fn lemma_placement_round_trip(cells: Seq<Option<OccupiedSquare>>, s: Seq<char>, i: int, r: int)
    requires
        cells.len() == 64,
        0 <= r <= 8,
        0 <= i,
        i + (lead(r) + placement_text(cells, r)).len() <= s.len(),
        s.subrange(i, i + (lead(r) + placement_text(cells, r)).len()) == lead(r) + placement_text(cells, r),
    ensures
        parse_placement(s, i, r) == Some((cells.subrange(8 * r, 64), i + (lead(r) + placement_text(cells, r)).len())),
    decreases 8 - r,
{
    let t = lead(r) + placement_text(cells, r);
    if r >= 8 {
        assert(cells.subrange(64, 64) =~= seq![]);
    } else {
        let start = i + lead(r).len();
        if r > 0 {
            assert(s[i] == t[0]);
        }
        let row = cells.subrange(8 * r, 8 * r + 8);
        let rt = rank_text(row, 0, 0);
        let rest = lead(r + 1) + placement_text(cells, r + 1);
        assert(placement_text(cells, r) == rt + rest) by {
            if r < 7 {
                assert(rt + seq!['/'] + placement_text(cells, r + 1) =~= rt + rest);
            } else {
                assert(placement_text(cells, r + 1) =~= seq![]);
                assert(rt + rest =~= rt);
            }
        }
        assert(t =~= lead(r) + rt + rest);
        assert(s.subrange(start, start + rt.len()) =~= rt) by {
            assert forall|k: int| 0 <= k < rt.len() implies s.subrange(start, start + rt.len())[k] == rt[k] by {
                assert(s[start + k] == t[lead(r).len() + k]);
            }
        }
        lemma_rank_round_trip(row, s, start, 0, 0);
        let next = start + rt.len();
        assert(s.subrange(next, next + rest.len()) =~= rest) by {
            assert forall|k: int| 0 <= k < rest.len() implies s.subrange(next, next + rest.len())[k] == rest[k] by {
                assert(s[next + k] == t[lead(r).len() + rt.len() + k]);
            }
        }
        lemma_placement_round_trip(cells, s, next, r + 1);
        assert(row.subrange(0, 8) =~= row);
        assert(row + cells.subrange(8 * (r + 1), 64) =~= cells.subrange(8 * r, 64));
    }
}

pub proof fn lemma_decimal_digits(n: nat)
    ensures
        decimal(n).len() >= 1,
        forall|k: int| 0 <= k < decimal(n).len() ==> is_digit(#[trigger] decimal(n)[k]),
    decreases n,
{
    if n >= 10 {
        lemma_decimal_digits(n / 10);
    }
}

/// The value of digits depends only on the digits.
pub proof fn lemma_value_local(s: Seq<char>, t: Seq<char>, i: int, j: int)
    requires
        0 <= i <= j <= s.len(),
        s.subrange(i, j) == t,
    ensures
        digits_value(s, i, j) == digits_value(t, 0, t.len() as int),
    decreases j - i,
{
    if j > i {
        assert(s.subrange(i, j - 1) =~= t.subrange(0, t.len() - 1));
        lemma_value_local(s, t.subrange(0, t.len() - 1), i, j - 1);
        lemma_value_local(t, t.subrange(0, t.len() - 1), 0, t.len() - 1);
        assert(s[j - 1] == t[t.len() - 1]);
    }
}

pub proof fn lemma_decimal_value(n: nat)
    ensures
        digits_value(decimal(n), 0, decimal(n).len() as int) == n,
    decreases n,
{
    let d = decimal(n);
    if n < 10 {
        assert(digits_value(d, 0, 0) == 0);
        assert(d[0] as int - '0' as int == n);
        assert(digits_value(d, 0, 1) == digits_value(d, 0, 0) * 10 + (d[0] as int - '0' as int));
    } else {
        let q = decimal(n / 10);
        lemma_decimal_value(n / 10);
        assert(d == q + seq![digit_char((n % 10) as int)]);
        assert(d.subrange(0, d.len() - 1) =~= q);
        lemma_value_local(d, q, 0, d.len() - 1);
        let v = n / 10;
        let m = n % 10;
        assert(d[d.len() - 1] as int - '0' as int == m);
        assert(digits_value(d, 0, d.len() as int) == digits_value(d, 0, d.len() - 1) * 10 + (d[d.len() - 1] as int - '0' as int));
        assert(v * 10 + m == n) by (nonlinear_arith)
            requires
                v == n / 10,
                m == n % 10,
        ;
    }
}

pub proof fn lemma_digits_end_at(s: Seq<char>, i: int, j: int)
    requires
        0 <= i <= j <= s.len(),
        forall|k: int| i <= k < j ==> is_digit(#[trigger] s[k]),
        j == s.len() || !is_digit(s[j]),
    ensures
        digits_end(s, i) == j,
    decreases j - i,
{
    if i < j {
        lemma_digits_end_at(s, i + 1, j);
    }
}

/// A non-negative number written in decimal reads back, where a space or the end follows it.
pub proof fn lemma_number_round_trip(s: Seq<char>, i: int, n: int)
    requires
        0 <= n <= i64::MAX,
        0 <= i,
        i + decimal(n as nat).len() <= s.len(),
        s.subrange(i, i + decimal(n as nat).len()) == decimal(n as nat),
        i + decimal(n as nat).len() == s.len() || s[i + decimal(n as nat).len()] == ' ',
    ensures
        parse_number(s, i) == Some((n, i + decimal(n as nat).len())),
{
    let d = decimal(n as nat);
    let j = i + d.len();
    lemma_decimal_digits(n as nat);
    assert forall|k: int| i <= k < j implies is_digit(#[trigger] s[k]) by {
        assert(s[k] == d[k - i]);
    }
    lemma_digits_end_at(s, i, j);
    lemma_value_local(s, d, i, j);
    lemma_decimal_value(n as nat);
}

/// What a position's text says, field by field.
pub open spec fn fields_of(p: Position) -> FenFields {
    (
        p.board.squares@,
        p.next_to_move,
        p.white_can_castle_king_side,
        p.white_can_castle_queen_side,
        p.black_can_castle_king_side,
        p.black_can_castle_queen_side,
        p.en_passant_square,
        p.half_move_clock as int,
        p.full_move_counter as int,
    )
}

pub proof fn lemma_castling_end_at(s: Seq<char>, i: int, j: int)
    requires
        0 <= i <= j <= s.len(),
        forall|k: int| i <= k < j ==> crate::fen::castling_char(#[trigger] s[k]),
        j == s.len() || !crate::fen::castling_char(s[j]),
    ensures
        castling_end(s, i) == j,
    decreases j - i,
{
    if i < j {
        lemma_castling_end_at(s, i + 1, j);
    }
}

/// The castling field reads back as the four flags.
pub proof fn lemma_castling_round_trip(p: Position, s: Seq<char>, c: int)
    requires
        0 <= c,
        c + castling_text(p).len() < s.len(),
        s.subrange(c, c + castling_text(p).len()) == castling_text(p),
        s[c + castling_text(p).len()] == ' ',
    ensures
        ({
            let ct = castling_text(p);
            let ce = castling_end(s, c);
            &&& (c < s.len() && s[c] == '-' && ce == c) || ce > c
            &&& (if ce > c { ce } else { c + 1 }) == c + ct.len()
            &&& castles(s, c, ce, 'K') == p.white_can_castle_king_side
            &&& castles(s, c, ce, 'Q') == p.white_can_castle_queen_side
            &&& castles(s, c, ce, 'k') == p.black_can_castle_king_side
            &&& castles(s, c, ce, 'q') == p.black_can_castle_queen_side
        }),
{
    let ct = castling_text(p);
    let none = !p.white_can_castle_king_side && !p.white_can_castle_queen_side && !p.black_can_castle_king_side
        && !p.black_can_castle_queen_side;
    assert forall|k: int| 0 <= k < ct.len() implies s[c + k] == #[trigger] ct[k] by {
        assert(s.subrange(c, c + ct.len())[k] == ct[k]);
    }
    if none {
        assert(ct =~= seq!['-']);
        assert(ct[0] == '-');
        assert(s[c + 0] == ct[0]);
        assert(castling_end(s, c) == c);
    } else {
        assert(forall|k: int| 0 <= k < ct.len() ==> crate::fen::castling_char(#[trigger] ct[k]));
        assert forall|k: int| c <= k < c + ct.len() implies crate::fen::castling_char(#[trigger] s[k]) by {
            assert(s[k] == ct[k - c]);
        }
        lemma_castling_end_at(s, c, c + ct.len());
        let ce = c + ct.len();
        assert forall|l: char| (l == 'K' || l == 'Q' || l == 'k' || l == 'q') implies castles(s, c, ce, l) == (exists|k: int|
            0 <= k < ct.len() && ct[k] == l) by {
            if castles(s, c, ce, l) {
                let k = choose|k: int| c <= k < ce && s[k] == l;
                assert(ct[k - c] == l);
            }
            if exists|k: int| 0 <= k < ct.len() && ct[k] == l {
                let k = choose|k: int| 0 <= k < ct.len() && ct[k] == l;
                assert(s[c + k] == l);
            }
        }
        let wk: Seq<char> = if p.white_can_castle_king_side { seq!['K'] } else { seq![] };
        let wq: Seq<char> = if p.white_can_castle_queen_side { seq!['Q'] } else { seq![] };
        let bk: Seq<char> = if p.black_can_castle_king_side { seq!['k'] } else { seq![] };
        let bq: Seq<char> = if p.black_can_castle_queen_side { seq!['q'] } else { seq![] };
        assert(ct == wk + wq + bk + bq);
        assert((exists|k: int| 0 <= k < ct.len() && ct[k] == 'K') == p.white_can_castle_king_side) by {
            if p.white_can_castle_king_side {
                assert(ct[0] == 'K');
            }
        }
        assert((exists|k: int| 0 <= k < ct.len() && ct[k] == 'Q') == p.white_can_castle_queen_side) by {
            if p.white_can_castle_queen_side {
                assert(ct[wk.len() as int] == 'Q');
            }
        }
        assert((exists|k: int| 0 <= k < ct.len() && ct[k] == 'k') == p.black_can_castle_king_side) by {
            if p.black_can_castle_king_side {
                assert(ct[(wk.len() + wq.len()) as int] == 'k');
            }
        }
        assert((exists|k: int| 0 <= k < ct.len() && ct[k] == 'q') == p.black_can_castle_queen_side) by {
            if p.black_can_castle_queen_side {
                assert(ct[(wk.len() + wq.len() + bk.len()) as int] == 'q');
            }
        }
    }
}

/// `s` holds `t` from index `i`.
pub open spec fn holds_at(s: Seq<char>, i: int, t: Seq<char>) -> bool {
    0 <= i && i + t.len() <= s.len() && s.subrange(i, i + t.len()) == t
}

/// Writing a position as text and reading that text back gives every field of the position,
/// whenever its clocks are not negative (as in every position reached by play).
#[verifier::rlimit(100)]
#[verifier::spinoff_prover]
pub proof fn lemma_fen_round_trip(p: Position)
    requires
        p.wf(),
        p.half_move_clock >= 0,
        p.full_move_counter >= 0,
    ensures
        fen_parse_spec(fen_spec(p)) == Some(fields_of(p)),
{
    let cells = p.board.squares@;
    let a_t = placement_text(cells, 0);
    let sc = if p.next_to_move == Color::White { 'w' } else { 'b' };
    let c_t = castling_text(p);
    let e_t = en_passant_text(p);
    let h_t = decimal(p.half_move_clock as nat);
    let f_t = decimal(p.full_move_counter as nat);
    assert(int_text(p.half_move_clock as int) == h_t);
    assert(int_text(p.full_move_counter as int) == f_t);
    let s = fen_spec(p);
    assert(s == a_t + seq![' ', sc, ' '] + c_t + seq![' '] + e_t + seq![' '] + h_t + seq![' '] + f_t);
    let a = a_t.len() as int;
    let c = a + 3;
    let e = c + c_t.len() + 1;
    let h0 = e + e_t.len() + 1;
    let h = h0 + h_t.len();
    let f0 = h + 1;
    assert(s.len() == f0 + f_t.len());
    assert(holds_at(s, 0, a_t)) by {
        assert(s.subrange(0, a) =~= a_t);
    }
    assert(lead(0) + a_t =~= a_t);
    lemma_placement_round_trip(cells, s, 0, 0);
    assert(cells.subrange(0, 64) =~= cells);
    assert(s[a] == ' ' && s[a + 1] == sc && s[a + 2] == ' ');
    assert(s.subrange(c, c + c_t.len()) =~= c_t);
    assert(s[c + c_t.len()] == ' ');
    lemma_castling_round_trip(p, s, c);
    assert(s.subrange(h0, h) =~= h_t);
    assert(s[h] == ' ');
    lemma_number_round_trip(s, h0, p.half_move_clock as int);
    assert(s.subrange(f0, f0 + f_t.len()) =~= f_t);
    lemma_number_round_trip(s, f0, p.full_move_counter as int);
    assert(s[e + e_t.len()] == ' ');
    match p.en_passant_square {
        None => {
            assert(e_t =~= seq!['-']);
            assert(s[e] == '-');
        },
        Some(sq) => {
            assert(s[e] == file_char(sq.file as int));
            assert(s[e + 1] == rank_char(sq.rank as int));
            assert(square_of_chars(file_char(sq.file as int), rank_char(sq.rank as int)) == Some(sq));
        },
    }
}

/// Reading a canonical position text (one that a position writes) and writing what was read
/// gives the same text.
pub proof fn lemma_fen_text_round_trip(f: Seq<char>, p: Position, q: Position)
    requires
        p.wf(),
        p.half_move_clock >= 0,
        p.full_move_counter >= 0,
        f == fen_spec(p),
        fen_parse_spec(f) matches Some(fl) && holds_fields(q, fl),
    ensures
        fen_spec(q) == f,
{
    lemma_fen_round_trip(p);
    assert(castling_text(q) == castling_text(p));
    assert(en_passant_text(q) == en_passant_text(p));
}

} // verus!
