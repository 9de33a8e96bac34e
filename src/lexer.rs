use vstd::prelude::*;
use crate::text::{chars_of, string_from_chars};
use crate::fen::{digits_value, is_digit, lemma_digits_value_grows, lemma_digits_value_nonneg};

verus! {

/// A unit of game-record text.
#[derive(Debug, PartialEq, Eq, Clone)]
pub enum Token {
    /// A brace comment or a rest-of-line comment.
    Comment(String),
    /// A quoted string, with its escapes resolved.
    String(String),
    Integer(i64),
    Period,
    Asterisk,
    OpenBracket,
    CloseBracket,
    OpenParen,
    CloseParen,
    OpenAngleBracket,
    CloseAngleBracket,
    /// A numeric annotation glyph (`$` and digits).
    NumericAnnotationGlyph(i64),
    /// A symbol: a move, a tag name or a result marker.
    Symbol(String),
    EndOfFile,
}

/// A token as a mathematical value.
pub ghost enum TokenView {
    Comment(Seq<char>),
    String(Seq<char>),
    Integer(int),
    Period,
    Asterisk,
    OpenBracket,
    CloseBracket,
    OpenParen,
    CloseParen,
    OpenAngleBracket,
    CloseAngleBracket,
    NumericAnnotationGlyph(int),
    Symbol(Seq<char>),
    EndOfFile,
}

impl View for Token {
    type V = TokenView;

    open spec fn view(&self) -> TokenView {
        match self {
            Token::Comment(s) => TokenView::Comment(s@),
            Token::String(s) => TokenView::String(s@),
            Token::Integer(n) => TokenView::Integer(*n as int),
            Token::Period => TokenView::Period,
            Token::Asterisk => TokenView::Asterisk,
            Token::OpenBracket => TokenView::OpenBracket,
            Token::CloseBracket => TokenView::CloseBracket,
            Token::OpenParen => TokenView::OpenParen,
            Token::CloseParen => TokenView::CloseParen,
            Token::OpenAngleBracket => TokenView::OpenAngleBracket,
            Token::CloseAngleBracket => TokenView::CloseAngleBracket,
            Token::NumericAnnotationGlyph(n) => TokenView::NumericAnnotationGlyph(*n as int),
            Token::Symbol(s) => TokenView::Symbol(s@),
            Token::EndOfFile => TokenView::EndOfFile,
        }
    }
}

/// A place in the text: line from 1, column counted in characters since the last newline.
#[derive(Debug, PartialEq, Eq, Clone, Copy, Structural)]
pub struct PositionInPGN {
    pub line: i32,
    pub column: i32,
}

/// Why a game record could not be split into tokens, and where.
#[derive(Debug, PartialEq, Eq, Clone, Copy, Structural)]
pub enum LexerError {
    ParseIntError(PositionInPGN),
    UnterminatedString(PositionInPGN),
    UnexpectedCharacter(PositionInPGN),
}

/// What `char::is_alphanumeric` answers for `c`.
pub uninterp spec fn alphanumeric(c: char) -> bool;

/// Relies on `char::is_alphanumeric`: true for every alphabetic or numeric character, among
/// them the ASCII letters and digits.
#[verifier::external_body]
fn is_alphanumeric(c: char) -> (r: bool)
    ensures
        r == alphanumeric(c),
        ('a' <= c <= 'z' || 'A' <= c <= 'Z' || '0' <= c <= '9') ==> r,
{
    c.is_alphanumeric()
}

pub open spec fn symbol_continuation(c: char) -> bool {
    c == '_' || c == '+' || c == '#' || c == '=' || c == ':' || c == '-' || alphanumeric(c)
}

pub open spec fn digit_pred() -> spec_fn(char) -> bool {
    |x: char| is_digit(x)
}

pub open spec fn symbol_pred() -> spec_fn(char) -> bool {
    |x: char| symbol_continuation(x)
}

/// The line and column after reading the characters from `i` to `j`.
pub open spec fn advance(s: Seq<char>, i: int, j: int, line: int, col: int) -> (int, int)
    decreases j - i,
{
    if j <= i {
        (line, col)
    } else {
        let (l, c) = advance(s, i, j - 1, line, col);
        if s[j - 1] == '\n' {
            (l + 1, 0)
        } else {
            (l, c + 1)
        }
    }
}

/// The first index from `i` on that holds `stop`, or the end of the text.
pub open spec fn find_char(s: Seq<char>, i: int, stop: char) -> int
    decreases s.len() - i,
{
    if i < 0 || i >= s.len() || s[i] == stop {
        i
    } else {
        find_char(s, i + 1, stop)
    }
}

/// The end of the run that starts at `i` of characters that `p` accepts.
pub open spec fn run_end(s: Seq<char>, i: int, p: spec_fn(char) -> bool) -> int
    decreases s.len() - i,
{
    if 0 <= i < s.len() && p(s[i]) {
        run_end(s, i + 1, p)
    } else {
        i
    }
}

/// The contents of a quoted string from index `i` (after the opening quote), with `escaped`
/// telling whether a backslash is pending, and the index after the closing quote; `None` where
/// the text ends first. A backslash escapes a quote or a backslash, and is dropped before any
/// other character.
pub open spec fn string_body(s: Seq<char>, i: int, escaped: bool) -> Option<(Seq<char>, int)>
    decreases s.len() - i,
{
    if i < 0 || i >= s.len() {
        None
    } else {
        let c = s[i];
        if c == '\\' && !escaped {
            string_body(s, i + 1, true)
        } else if c == '"' && !escaped {
            Some((seq![], i + 1))
        } else {
            match string_body(s, i + 1, false) {
                Some((rest, j)) => Some((seq![c] + rest, j)),
                None => None,
            }
        }
    }
}

/// The tokens of the text from index `i`, read at line `line` and column `col`; or the first
/// error, with the line and column at which it was found.
pub open spec fn lex_spec(s: Seq<char>, i: int, line: int, col: int) -> Result<Seq<TokenView>, (int, int, int)>
    decreases s.len() - i via lex_spec_decreases
{
    if i < 0 || i >= s.len() {
        Ok(seq![TokenView::EndOfFile])
    } else {
        let c = s[i];
        if c == '%' && col == 0 {
            let j = find_char(s, i, '\n');
            let e = if j < s.len() { j + 1 } else { j };
            let (l, k) = advance(s, i, e, line, col);
            lex_spec(s, e, l, k)
        } else if (c == ';' && col == 0) || c == '{' {
            let stop = if c == ';' { '\n' } else { '}' };
            let j = find_char(s, i + 1, stop);
            let e = if j < s.len() { j + 1 } else { j };
            let (l, k) = advance(s, i, e, line, col);
            prepend(TokenView::Comment(s.subrange(i + 1, j)), lex_spec(s, e, l, k))
        } else if c == '"' {
            match string_body(s, i + 1, false) {
                None => {
                    let (l, k) = advance(s, i, s.len() as int, line, col);
                    Err((2, l, k))
                },
                Some((body, e)) => {
                    let (l, k) = advance(s, i, e, line, col);
                    prepend(TokenView::String(body), lex_spec(s, e, l, k))
                },
            }
        } else if c == ' ' || c == '\n' {
            let (l, k) = advance(s, i, i + 1, line, col);
            lex_spec(s, i + 1, l, k)
        } else if single_token(c) is Some {
            let (l, k) = advance(s, i, i + 1, line, col);
            prepend(single_token(c)->0, lex_spec(s, i + 1, l, k))
        } else if c == '$' {
            let e = run_end(s, i + 1, digit_pred());
            let (l, k) = advance(s, i, e, line, col);
            if e == i + 1 || digits_value(s, i + 1, e) > i64::MAX {
                Err((1, l, k))
            } else {
                prepend(TokenView::NumericAnnotationGlyph(digits_value(s, i + 1, e)), lex_spec(s, e, l, k))
            }
        } else if alphanumeric(c) {
            let e = run_end(s, i, symbol_pred());
            let (l, k) = advance(s, i, e, line, col);
            if run_end(s, i, digit_pred()) >= e {
                if digits_value(s, i, e) > i64::MAX {
                    Err((1, l, k))
                } else {
                    prepend(TokenView::Integer(digits_value(s, i, e)), lex_spec(s, e, l, k))
                }
            } else {
                prepend(TokenView::Symbol(s.subrange(i, e)), lex_spec(s, e, l, k))
            }
        } else {
            Err((3, line, col))
        }
    }
}

pub proof fn lemma_find_char(s: Seq<char>, i: int, stop: char)
    requires
        0 <= i <= s.len(),
    ensures
        i <= find_char(s, i, stop) <= s.len(),
        find_char(s, i, stop) < s.len() ==> s[find_char(s, i, stop)] == stop,
        forall|t: int| i <= t < find_char(s, i, stop) ==> #[trigger] s[t] != stop,
    decreases s.len() - i,
{
    if i < s.len() && s[i] != stop {
        lemma_find_char(s, i + 1, stop);
    }
}

pub proof fn lemma_run_end(s: Seq<char>, i: int, p: spec_fn(char) -> bool)
    requires
        0 <= i <= s.len(),
    ensures
        i <= run_end(s, i, p) <= s.len(),
        run_end(s, i, p) < s.len() ==> !p(s[run_end(s, i, p)]),
        forall|t: int| i <= t < run_end(s, i, p) ==> p(#[trigger] s[t]),
    decreases s.len() - i,
{
    if i < s.len() && p(s[i]) {
        lemma_run_end(s, i + 1, p);
    }
}

pub proof fn lemma_string_body(s: Seq<char>, i: int, escaped: bool)
    requires
        0 <= i,
    ensures
        string_body(s, i, escaped) matches Some((b, j)) ==> i < j <= s.len(),
    decreases s.len() - i,
{
    if 0 <= i < s.len() {
        lemma_string_body(s, i + 1, s[i] == '\\' && !escaped);
        lemma_string_body(s, i + 1, false);
        lemma_string_body(s, i + 1, true);
    }
}

#[via_fn]
proof fn lex_spec_decreases(s: Seq<char>, i: int, line: int, col: int) {
    if 0 <= i < s.len() {
        lemma_find_char(s, i, '\n');
        lemma_find_char(s, i + 1, '\n');
        lemma_find_char(s, i + 1, '}');
        lemma_string_body(s, i + 1, false);
        lemma_run_end(s, i + 1, digit_pred());
        lemma_run_end(s, i, symbol_pred());
    }
}

/// The token that a self-delimiting character stands for.
pub open spec fn single_token(c: char) -> Option<TokenView> {
    if c == '.' {
        Some(TokenView::Period)
    } else if c == '*' {
        Some(TokenView::Asterisk)
    } else if c == '[' {
        Some(TokenView::OpenBracket)
    } else if c == ']' {
        Some(TokenView::CloseBracket)
    } else if c == '(' {
        Some(TokenView::OpenParen)
    } else if c == ')' {
        Some(TokenView::CloseParen)
    } else if c == '<' {
        Some(TokenView::OpenAngleBracket)
    } else if c == '>' {
        Some(TokenView::CloseAngleBracket)
    } else {
        None
    }
}

pub open spec fn prepend(t: TokenView, r: Result<Seq<TokenView>, (int, int, int)>) -> Result<Seq<TokenView>, (int, int, int)> {
    match r {
        Ok(ts) => Ok(seq![t] + ts),
        Err(e) => Err(e),
    }
}

pub open spec fn step_pos(lc: (int, int), c: char) -> (int, int) {
    if c == '\n' {
        (lc.0 + 1, 0)
    } else {
        (lc.0, lc.1 + 1)
    }
}

/// The tokens before a result, then that result.
pub open spec fn prepend_all(ts: Seq<TokenView>, r: Result<Seq<TokenView>, (int, int, int)>) -> Result<Seq<TokenView>, (int, int, int)> {
    match r {
        Ok(rest) => Ok(ts + rest),
        Err(e) => Err(e),
    }
}

pub open spec fn error_view(e: LexerError) -> (int, int, int) {
    match e {
        LexerError::ParseIntError(p) => (1, p.line as int, p.column as int),
        LexerError::UnterminatedString(p) => (2, p.line as int, p.column as int),
        LexerError::UnexpectedCharacter(p) => (3, p.line as int, p.column as int),
    }
}

pub open spec fn token_views(v: Seq<Token>) -> Seq<TokenView> {
    v.map_values(|t: Token| t@)
}

pub proof fn lemma_advance_first(s: Seq<char>, i: int, j: int, l: int, c: int)
    requires
        0 <= i < j <= s.len(),
    ensures
        advance(s, i, j, l, c) == advance(s, i + 1, j, step_pos((l, c), s[i]).0, step_pos((l, c), s[i]).1),
    decreases j - i,
{
    let st = step_pos((l, c), s[i]);
    if j > i + 1 {
        lemma_advance_first(s, i, j - 1, l, c);
        assert(advance(s, i + 1, j, st.0, st.1) == step_pos(advance(s, i + 1, j - 1, st.0, st.1), s[j - 1]));
        assert(advance(s, i, j, l, c) == step_pos(advance(s, i, j - 1, l, c), s[j - 1]));
    } else {
        assert(advance(s, i, j - 1, l, c) == (l, c));
        assert(advance(s, i + 1, j, st.0, st.1) == (st.0, st.1));
    }
}

pub proof fn lemma_prepend(ts: Seq<TokenView>, t: TokenView, r: Result<Seq<TokenView>, (int, int, int)>)
    ensures
        prepend_all(ts, prepend(t, r)) == prepend_all(ts.push(t), r),
{
    if let Ok(x) = r {
        assert(ts + (seq![t] + x) =~= ts.push(t) + x);
    }
}

pub proof fn lemma_all_digits(s: Seq<char>, i: int, e: int)
    requires
        0 <= i <= e <= s.len(),
    ensures
        (run_end(s, i, digit_pred()) >= e) <==> (forall|t: int| i <= t < e ==> is_digit(#[trigger] s[t])),
{
    lemma_run_end(s, i, digit_pred());
    if forall|t: int| i <= t < e ==> is_digit(#[trigger] s[t]) {
        let r = run_end(s, i, digit_pred());
        if r < e {
            assert(is_digit(s[r]));
        }
    }
}

/// The value of the decimal digits from `i` to `e`, where it fits `i64`.
pub fn value_of_digits(chars: &Vec<char>, i: usize, e: usize) -> (r: Option<i64>)
    requires
        i <= e <= chars@.len(),
        forall|t: int| i <= t < e ==> is_digit(#[trigger] chars@[t]),
    ensures
        r == (if digits_value(chars@, i as int, e as int) <= i64::MAX {
            Some(digits_value(chars@, i as int, e as int) as i64)
        } else {
            None
        }),
        0 <= digits_value(chars@, i as int, e as int),
{
    let ghost s = chars@;
    proof {
        lemma_digits_value_nonneg(s, i as int, e as int);
    }
    let mut k: usize = i;
    let mut acc: i64 = 0;
    while k < e
        invariant
            s == chars@,
            i <= k <= e <= s.len(),
            forall|t: int| i <= t < e ==> is_digit(#[trigger] s[t]),
            acc as int == digits_value(s, i as int, k as int),
            acc >= 0,
        decreases e - k,
    {
        let d = (chars[k] as u32 - '0' as u32) as i64;
        assert(digits_value(s, i as int, k + 1) == acc * 10 + d);
        if acc > (i64::MAX - d) / 10 {
            proof {
                assert(acc * 10 + d > i64::MAX) by (nonlinear_arith)
                    requires
                        acc > (i64::MAX - d) / 10,
                        0 <= d <= 9,
                ;
                lemma_digits_value_grows(s, i as int, k + 1, e as int);
            }
            return None;
        }
        assert(acc * 10 + d <= i64::MAX) by (nonlinear_arith)
            requires
                acc <= (i64::MAX - d) / 10,
                0 <= d <= 9,
        ;
        acc = acc * 10 + d;
        k = k + 1;
    }
    Some(acc)
}

/// Splits game-record text into tokens, keeping track of line and column.
pub struct Lexer {
    pub pgn: Vec<char>,
    pub pos: usize,
    pub line: i32,
    pub column: i32,
}

impl Lexer {
    /// The bounds that keep line and column within `i32` until the text ends.
    pub open spec fn wf(self) -> bool {
        &&& self.pos <= self.pgn@.len()
        &&& 1 <= self.line
        &&& 0 <= self.column
        &&& self.line + (self.pgn@.len() - self.pos) < i32::MAX
        &&& self.column + (self.pgn@.len() - self.pos) < i32::MAX
    }

    /// A lexer at the start of `pgn`: line 1, column 0.
    pub fn new(pgn: &str) -> (r: Lexer)
        ensures
            r.pgn@ == pgn@,
            r.pos == 0,
            r.line == 1,
            r.column == 0,
    {
        Lexer { pgn: chars_of(pgn), pos: 0, line: 1, column: 0 }
    }

    pub fn is_symbol_start(c: &char) -> (r: bool)
        ensures
            r == alphanumeric(*c),
    {
        is_alphanumeric(*c)
    }

    pub fn is_symbol_continuation(c: &char) -> (r: bool)
        ensures
            r == symbol_continuation(*c),
    {
        match c {
            '_' | '+' | '#' | '=' | ':' | '-' => true,
            _ => is_alphanumeric(*c),
        }
    }

    /// The next character, if any, without reading it.
    pub fn peek(&self) -> (r: Option<char>)
        requires
            self.pos <= self.pgn@.len(),
        ensures
            r == (if self.pos < self.pgn@.len() { Some(self.pgn@[self.pos as int]) } else { None }),
    {
        if self.pos < self.pgn.len() {
            Some(self.pgn[self.pos])
        } else {
            None
        }
    }

    /// Reads the next character, moving to the next line after a newline.
    pub fn next(&mut self) -> (r: Option<char>)
        requires
            old(self).wf(),
        ensures
            final(self).wf(),
            final(self).pgn@ == old(self).pgn@,
            old(self).pos < old(self).pgn@.len() ==> r == Some(old(self).pgn@[old(self).pos as int])
                && final(self).pos == old(self).pos + 1
                && (final(self).line as int, final(self).column as int) == step_pos(
                (old(self).line as int, old(self).column as int),
                old(self).pgn@[old(self).pos as int],
            ),
            old(self).pos >= old(self).pgn@.len() ==> r is None && final(self).pos == old(self).pos
                && final(self).line == old(self).line && final(self).column == old(self).column,
    {
        if self.pos >= self.pgn.len() {
            return None;
        }
        let c = self.pgn[self.pos];
        self.pos = self.pos + 1;
        if c == '\n' {
            self.line = self.line + 1;
            self.column = 0;
        } else {
            self.column = self.column + 1;
        }
        Some(c)
    }

    /// Where the lexer stands.
    pub fn position(&self) -> (r: PositionInPGN)
        ensures
            r == (PositionInPGN { line: self.line, column: self.column }),
    {
        PositionInPGN { line: self.line, column: self.column }
    }

    /// Reads the run of characters that `digits_only` selects: decimal digits, or symbol
    /// continuation characters.
    fn read_run(&mut self, digits_only: bool) -> (r: Vec<char>)
        requires
            old(self).wf(),
        ensures
            final(self).wf(),
            final(self).pgn@ == old(self).pgn@,
            ({
                let s = old(self).pgn@;
                let i = old(self).pos as int;
                let e = run_end(s, i, if digits_only { digit_pred() } else { symbol_pred() });
                &&& r@ == s.subrange(i, e)
                &&& final(self).pos == e
                &&& (final(self).line as int, final(self).column as int) == advance(s, i, e, old(self).line as int, old(self).column as int)
            }),
    {
        let ghost s = self.pgn@;
        let ghost i = self.pos as int;
        let ghost l0 = self.line as int;
        let ghost c0 = self.column as int;
        let ghost p = if digits_only { digit_pred() } else { symbol_pred() };
        proof {
            lemma_run_end(s, i, p);
        }
        let mut v: Vec<char> = Vec::new();
        loop
            invariant
                self.wf(),
                self.pgn@ == s,
                p == (if digits_only { digit_pred() } else { symbol_pred() }),
                i <= self.pos <= run_end(s, i, p),
                run_end(s, i, p) == run_end(s, self.pos as int, p),
                v@ == s.subrange(i, self.pos as int),
                (self.line as int, self.column as int) == advance(s, i, self.pos as int, l0, c0),
            ensures
                self.wf(),
                self.pgn@ == s,
                self.pos == run_end(s, i, p),
                v@ == s.subrange(i, self.pos as int),
                (self.line as int, self.column as int) == advance(s, i, self.pos as int, l0, c0),
            decreases s.len() - self.pos,
        {
            let ghost before = self.pos as int;
            let c = match self.peek() {
                None => {
                    break;
                },
                Some(c) => c,
            };
            let accepted = if digits_only {
                '0' <= c && c <= '9'
            } else {
                Self::is_symbol_continuation(&c)
            };
            if !accepted {
                break;
            }
            proof {
                lemma_run_end(s, before + 1, p);
            }
            self.next();
            v.push(c);
            assert(v@ =~= s.subrange(i, self.pos as int));
        }
        v
    }

    /// Reads a quoted string's contents after its opening quote, through the closing quote;
    /// `None` where the text ends first.
    fn read_string_body(&mut self) -> (r: Option<Vec<char>>)
        requires
            old(self).wf(),
        ensures
            final(self).wf(),
            final(self).pgn@ == old(self).pgn@,
            ({
                let s = old(self).pgn@;
                let i = old(self).pos as int;
                match string_body(s, i, false) {
                    Some((body, e)) => r matches Some(v) && v@ == body && final(self).pos == e
                        && (final(self).line as int, final(self).column as int) == advance(s, i, e, old(self).line as int, old(self).column as int),
                    None => r is None && final(self).pos == s.len()
                        && (final(self).line as int, final(self).column as int) == advance(s, i, s.len() as int, old(self).line as int, old(self).column as int),
                }
            }),
    {
        let ghost s = self.pgn@;
        let ghost i = self.pos as int;
        let ghost l0 = self.line as int;
        let ghost c0 = self.column as int;
        let mut v: Vec<char> = Vec::new();
        let mut in_escape_sequence = false;
        loop
            invariant
                self.wf(),
                self.pgn@ == s,
                s == old(self).pgn@,
                i == old(self).pos,
                l0 == old(self).line,
                c0 == old(self).column,
                i <= self.pos <= s.len(),
                string_body(s, i, false) == (match string_body(s, self.pos as int, in_escape_sequence) {
                    Some((rest, j)) => Some((v@ + rest, j)),
                    None => None,
                }),
                (self.line as int, self.column as int) == advance(s, i, self.pos as int, l0, c0),
            decreases s.len() - self.pos,
        {
            let ghost v0 = v@;
            match self.next() {
                None => {
                    return None;
                },
                Some(c) => {
                    if c == '\\' && !in_escape_sequence {
                        in_escape_sequence = true;
                    } else if c == '"' && !in_escape_sequence {
                        proof {
                            assert(v@ + seq![] =~= v@);
                        }
                        return Some(v);
                    } else {
                        in_escape_sequence = false;
                        v.push(c);
                        proof {
                            match string_body(s, self.pos as int, false) {
                                Some((rest, j)) => {
                                    assert(v0 + (seq![c] + rest) =~= v@ + rest);
                                },
                                None => {},
                            }
                        }
                    }
                },
            }
        }
    }

    /// Splits the rest of the text into tokens, ending with `EndOfFile`; or reports the first
    /// string left open, number out of range or character that no token starts with.
    pub fn lex(&mut self) -> (r: Result<Vec<Token>, LexerError>)
        requires
            old(self).wf(),
        ensures
            match lex_spec(old(self).pgn@, old(self).pos as int, old(self).line as int, old(self).column as int) {
                Ok(ts) => r matches Ok(v) && token_views(v@) == ts,
                Err(e) => r matches Err(err) && error_view(err) == e,
            },
    {
        let ghost s = self.pgn@;
        let ghost start = lex_spec(s, self.pos as int, self.line as int, self.column as int);
        let mut tokens: Vec<Token> = Vec::new();
        assert(token_views(tokens@) =~= seq![]);
        assert(prepend_all(seq![], start) == start) by {
            if let Ok(x) = start {
                assert(seq![] + x =~= x);
            }
        }
        loop
            invariant
                self.wf(),
                self.pgn@ == s,
                start == lex_spec(old(self).pgn@, old(self).pos as int, old(self).line as int, old(self).column as int),
                start == prepend_all(token_views(tokens@), lex_spec(s, self.pos as int, self.line as int, self.column as int)),
            decreases s.len() - self.pos,
        {
            let i = self.pos;
            let ghost l = self.line as int;
            let ghost col = self.column as int;
            let ghost views = token_views(tokens@);
            let c = match self.peek() {
                None => {
                    proof {
                        assert(token_views(tokens@.push(Token::EndOfFile)) =~= views.push(TokenView::EndOfFile));
                        assert(views + seq![TokenView::EndOfFile] =~= views.push(TokenView::EndOfFile));
                    }
                    tokens.push(Token::EndOfFile);
                    return Ok(tokens);
                },
                Some(c) => c,
            };
            if c == '%' && self.column == 0 {
                self.read_until('\n');
                proof {
                    lemma_find_char(s, i as int, '\n');
                    assert(start == prepend_all(token_views(tokens@), lex_spec(s, self.pos as int, self.line as int, self.column as int)));
                }
            } else if (c == ';' && self.column == 0) || c == '{' {
                let stop = if c == ';' { '\n' } else { '}' };
                self.next();
                let body = self.read_until(stop);
                let tok = Token::Comment(string_from_chars(&body));
                proof {
                    lemma_find_char(s, i + 1, stop);
                    lemma_advance_first(s, i as int, self.pos as int, l, col);
                    lemma_prepend(views, tok@, lex_spec(s, self.pos as int, self.line as int, self.column as int));
                    assert(token_views(tokens@.push(tok)) =~= views.push(tok@));
                }
                tokens.push(tok);
            } else if c == '"' {
                self.next();
                match self.read_string_body() {
                    None => {
                        proof {
                            lemma_advance_first(s, i as int, s.len() as int, l, col);
                        }
                        return Err(LexerError::UnterminatedString(self.position()));
                    },
                    Some(body) => {
                        let tok = Token::String(string_from_chars(&body));
                        proof {
                            lemma_string_body(s, i + 1, false);
                            lemma_advance_first(s, i as int, self.pos as int, l, col);
                            lemma_prepend(views, tok@, lex_spec(s, self.pos as int, self.line as int, self.column as int));
                            assert(token_views(tokens@.push(tok)) =~= views.push(tok@));
                        }
                        tokens.push(tok);
                    },
                }
            } else if c == ' ' || c == '\n' {
                self.next();
                proof {
                    lemma_advance_first(s, i as int, i + 1, l, col);
                }
                assert(start == prepend_all(token_views(tokens@), lex_spec(s, self.pos as int, self.line as int, self.column as int)));
            } else if c == '.' || c == '*' || c == '[' || c == ']' || c == '(' || c == ')' || c == '<' || c == '>' {
                self.next();
                let tok = match c {
                    '.' => Token::Period,
                    '*' => Token::Asterisk,
                    '[' => Token::OpenBracket,
                    ']' => Token::CloseBracket,
                    '(' => Token::OpenParen,
                    ')' => Token::CloseParen,
                    '<' => Token::OpenAngleBracket,
                    _ => Token::CloseAngleBracket,
                };
                proof {
                    lemma_advance_first(s, i as int, i + 1, l, col);
                    lemma_prepend(views, tok@, lex_spec(s, self.pos as int, self.line as int, self.column as int));
                    assert(token_views(tokens@.push(tok)) =~= views.push(tok@));
                }
                tokens.push(tok);
            } else if c == '$' {
                self.next();
                let digits = self.read_run(true);
                let e = self.pos;
                proof {
                    lemma_run_end(s, i + 1, digit_pred());
                    lemma_advance_first(s, i as int, e as int, l, col);
                }
                if e == i + 1 {
                    return Err(LexerError::ParseIntError(self.position()));
                }
                match value_of_digits(&self.pgn, i + 1, e) {
                    None => {
                        return Err(LexerError::ParseIntError(self.position()));
                    },
                    Some(value) => {
                        let tok = Token::NumericAnnotationGlyph(value);
                        proof {
                            lemma_prepend(views, tok@, lex_spec(s, self.pos as int, self.line as int, self.column as int));
                            assert(token_views(tokens@.push(tok)) =~= views.push(tok@));
                        }
                        tokens.push(tok);
                    },
                }
            } else if Self::is_symbol_start(&c) {
                let symbol = self.read_run(false);
                let e = self.pos;
                proof {
                    lemma_run_end(s, i as int, symbol_pred());
                    lemma_all_digits(s, i as int, e as int);
                }
                let mut is_integer = true;
                let mut k: usize = 0;
                while k < symbol.len()
                    invariant
                        k <= symbol@.len(),
                        symbol@ == s.subrange(i as int, e as int),
                        is_integer == (forall|t: int| 0 <= t < k ==> is_digit(#[trigger] symbol@[t])),
                    decreases symbol@.len() - k,
                {
                    if !('0' <= symbol[k] && symbol[k] <= '9') {
                        is_integer = false;
                    }
                    k = k + 1;
                }
                proof {
                    assert(is_integer == (forall|t: int| i <= t < e ==> is_digit(#[trigger] s[t]))) by {
                        if is_integer {
                            assert forall|t: int| i <= t < e implies is_digit(#[trigger] s[t]) by {
                                assert(symbol@[t - i] == s[t]);
                            }
                        } else {
                            let t = choose|t: int| 0 <= t < symbol@.len() && !is_digit(#[trigger] symbol@[t]);
                            assert(s[i + t] == symbol@[t]);
                        }
                    }
                }
                if is_integer {
                    match value_of_digits(&self.pgn, i, e) {
                        None => {
                            return Err(LexerError::ParseIntError(self.position()));
                        },
                        Some(value) => {
                            let tok = Token::Integer(value);
                            proof {
                                lemma_prepend(views, tok@, lex_spec(s, self.pos as int, self.line as int, self.column as int));
                                assert(token_views(tokens@.push(tok)) =~= views.push(tok@));
                            }
                            tokens.push(tok);
                        },
                    }
                } else {
                    let tok = Token::Symbol(string_from_chars(&symbol));
                    proof {
                        lemma_prepend(views, tok@, lex_spec(s, self.pos as int, self.line as int, self.column as int));
                        assert(token_views(tokens@.push(tok)) =~= views.push(tok@));
                    }
                    tokens.push(tok);
                }
            } else {
                return Err(LexerError::UnexpectedCharacter(self.position()));
            }
        }
    }

    /// Reads up to and including the next `stop` character (or to the end), collecting what
    /// stands before it.
    fn read_until(&mut self, stop: char) -> (r: Vec<char>)
        requires
            old(self).wf(),
        ensures
            final(self).wf(),
            final(self).pgn@ == old(self).pgn@,
            ({
                let s = old(self).pgn@;
                let i = old(self).pos as int;
                let j = find_char(s, i, stop);
                let e = if j < s.len() { j + 1 } else { j };
                &&& r@ == s.subrange(i, j)
                &&& final(self).pos == e
                &&& (final(self).line as int, final(self).column as int) == advance(s, i, e, old(self).line as int, old(self).column as int)
            }),
    {
        let ghost s = self.pgn@;
        let ghost i = self.pos as int;
        let ghost l0 = self.line as int;
        let ghost c0 = self.column as int;
        proof {
            lemma_find_char(s, i, stop);
        }
        let mut v: Vec<char> = Vec::new();
        loop
            invariant_except_break
                i <= self.pos <= find_char(s, i, stop),
                find_char(s, i, stop) == find_char(s, self.pos as int, stop),
                v@ == s.subrange(i, self.pos as int),
            invariant
                self.wf(),
                self.pgn@ == s,
                (self.line as int, self.column as int) == advance(s, i, self.pos as int, l0, c0),
            ensures
                self.wf(),
                self.pgn@ == s,
                v@ == s.subrange(i, find_char(s, i, stop)),
                self.pos == (if find_char(s, i, stop) < s.len() { find_char(s, i, stop) + 1 } else { find_char(s, i, stop) }),
                (self.line as int, self.column as int) == advance(s, i, self.pos as int, l0, c0),
            decreases s.len() - self.pos,
        {
            let ghost before = self.pos as int;
            proof {
                lemma_find_char(s, before, stop);
                if before < s.len() {
                    lemma_find_char(s, before + 1, stop);
                }
            }
            match self.next() {
                None => {
                    break;
                },
                Some(c) => {
                    if c == stop {
                        break;
                    }
                    v.push(c);
                    assert(v@ =~= s.subrange(i, self.pos as int));
                },
            }
        }
        v
    }
}

} // verus!
