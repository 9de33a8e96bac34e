use vstd::prelude::*;
use crate::lexer::{token_views, Token, TokenView};
use crate::models::GameResult;
use crate::text::chars_of;

verus! {

/// One numbered entry of the move text: a move number and up to two half-move tokens.
#[derive(Debug, PartialEq, Eq)]
pub struct Move {
    pub number: Option<i64>,
    pub white_move: Option<String>,
    pub black_move: Option<String>,
}

/// A game of a record: its tags (`SetUp` and `FEN` apart), its moves and its result.
#[derive(Debug, PartialEq, Eq)]
pub struct ParsedGame {
    pub setup: Option<String>,
    pub fen: Option<String>,
    pub other_tags: Vec<(String, String)>,
    pub moves: Vec<Move>,
    pub result: GameResult,
}

/// Why the tokens of a record do not form games.
#[derive(Debug, PartialEq, Eq)]
pub enum ParseError {
    UnexpectedToken(Token),
    InvalidGameResult(String),
    UnexpectedEndOfFile,
}

pub ghost enum ParseErrorView {
    UnexpectedToken(TokenView),
    InvalidGameResult(Seq<char>),
    UnexpectedEndOfFile,
}

pub type MoveView = (Option<int>, Option<Seq<char>>, Option<Seq<char>>);

pub type TagsView = Seq<(Seq<char>, Seq<char>)>;

/// A game as values: `SetUp` value, `FEN` value, the other tags, the moves, the result.
pub type GameView = (Option<Seq<char>>, Option<Seq<char>>, TagsView, Seq<MoveView>, GameResult);

pub open spec fn opt_view(o: Option<String>) -> Option<Seq<char>> {
    match o {
        Some(s) => Some(s@),
        None => None,
    }
}

pub open spec fn move_view(m: Move) -> MoveView {
    (
        match m.number {
            Some(n) => Some(n as int),
            None => None,
        },
        opt_view(m.white_move),
        opt_view(m.black_move),
    )
}

pub open spec fn tags_view(v: Seq<(String, String)>) -> TagsView {
    v.map_values(|p: (String, String)| (p.0@, p.1@))
}

pub open spec fn game_view(g: ParsedGame) -> GameView {
    (opt_view(g.setup), opt_view(g.fen), tags_view(g.other_tags@), g.moves@.map_values(|m: Move| move_view(m)), g.result)
}

pub open spec fn error_view(e: ParseError) -> ParseErrorView {
    match e {
        ParseError::UnexpectedToken(t) => ParseErrorView::UnexpectedToken(t@),
        ParseError::InvalidGameResult(s) => ParseErrorView::InvalidGameResult(s@),
        ParseError::UnexpectedEndOfFile => ParseErrorView::UnexpectedEndOfFile,
    }
}

/// The result that a marker names.
pub open spec fn result_of(s: Seq<char>) -> Option<GameResult> {
    if s == seq!['*'] {
        Some(GameResult::Unknown)
    } else if s == seq!['1', '-', '0'] {
        Some(GameResult::WhiteWins)
    } else if s == seq!['0', '-', '1'] {
        Some(GameResult::BlackWins)
    } else if s == seq!['1', '/', '2', '-', '1', '/', '2'] {
        Some(GameResult::Draw)
    } else {
        None
    }
}

pub open spec fn result_text(r: GameResult) -> Seq<char> {
    match r {
        GameResult::Unknown => seq!['*'],
        GameResult::WhiteWins => seq!['1', '-', '0'],
        GameResult::BlackWins => seq!['0', '-', '1'],
        GameResult::Draw => seq!['1', '/', '2', '-', '1', '/', '2'],
    }
}

pub open spec fn fold_case(c: char) -> char {
    if 'A' <= c <= 'Z' {
        ((c as int) + 32) as char
    } else {
        c
    }
}

pub open spec fn ci_piece(c: char) -> bool {
    let f = fold_case(c);
    f == 'p' || f == 'n' || f == 'b' || f == 'r' || f == 'q' || f == 'k'
}

pub open spec fn ci_promotion(c: char) -> bool {
    let f = fold_case(c);
    f == 'n' || f == 'b' || f == 'r' || f == 'q' || f == 'k'
}

pub open spec fn ci_file(c: char) -> bool {
    'a' <= fold_case(c) <= 'h'
}

pub open spec fn rank_digit(c: char) -> bool {
    '1' <= c <= '8'
}

/// A token that may be a move, letters taken in either case:
/// `[piece] [file] [rank] [x] file rank [= piece] [+ or #]`.
pub open spec fn move_like(s: Seq<char>) -> bool {
    let s1 = if s.len() > 0 && (s.last() == '+' || s.last() == '#') { s.drop_last() } else { s };
    let s2 = if s1.len() >= 2 && s1[s1.len() - 2] == '=' && ci_promotion(s1.last()) {
        s1.subrange(0, s1.len() - 2)
    } else {
        s1
    };
    let n = s2.len();
    if n < 2 || !ci_file(s2[n - 2]) || !rank_digit(s2[n - 1]) {
        false
    } else {
        let head = s2.subrange(0, n - 2);
        let rest = if head.len() > 0 && ci_piece(head[0]) { head.drop_first() } else { head };
        let hint = if rest.len() > 0 && fold_case(rest.last()) == 'x' { rest.drop_last() } else { rest };
        ||| hint.len() == 0
        ||| hint.len() == 1 && (ci_file(hint[0]) || rank_digit(hint[0]))
        ||| hint.len() == 2 && ci_file(hint[0]) && rank_digit(hint[1])
    }
}

/// The next token of a stack whose top is its last element; `EndOfFile` once it is empty.
pub open spec fn top(st: Seq<TokenView>) -> TokenView {
    if st.len() == 0 {
        TokenView::EndOfFile
    } else {
        st.last()
    }
}

pub open spec fn skip_comments(st: Seq<TokenView>) -> Seq<TokenView>
    decreases st.len(),
{
    if st.len() > 0 && st.last() is Comment {
        skip_comments(st.drop_last())
    } else {
        st
    }
}

/// Splits tags into the `SetUp` value, the `FEN` value (the last of each) and the others.
pub open spec fn split_tags(tags: TagsView) -> (Option<Seq<char>>, Option<Seq<char>>, TagsView)
    decreases tags.len(),
{
    if tags.len() == 0 {
        (None, None, seq![])
    } else {
        let (setup, fen, others) = split_tags(tags.drop_last());
        let (name, value) = tags.last();
        if name == seq!['S', 'e', 't', 'U', 'p'] {
            (Some(value), fen, others)
        } else if name == seq!['F', 'E', 'N'] {
            (setup, Some(value), others)
        } else {
            (setup, fen, others.push((name, value)))
        }
    }
}

/// Reads one tag pair: `[`, a symbol, a string, `]`.
pub open spec fn tag_pair_spec(st: Seq<TokenView>) -> Result<((Seq<char>, Seq<char>), Seq<TokenView>), ParseErrorView> {
    if st.len() < 1 {
        Err(ParseErrorView::UnexpectedEndOfFile)
    } else if !(st.last() is OpenBracket) {
        Err(ParseErrorView::UnexpectedToken(st.last()))
    } else if st.len() < 2 {
        Err(ParseErrorView::UnexpectedEndOfFile)
    } else if !(st[st.len() - 2] is Symbol) {
        Err(ParseErrorView::UnexpectedToken(st[st.len() - 2]))
    } else if st.len() < 3 {
        Err(ParseErrorView::UnexpectedEndOfFile)
    } else if !(st[st.len() - 3] is String) {
        Err(ParseErrorView::UnexpectedToken(st[st.len() - 3]))
    } else if st.len() < 4 {
        Err(ParseErrorView::UnexpectedEndOfFile)
    } else if !(st[st.len() - 4] is CloseBracket) {
        Err(ParseErrorView::UnexpectedToken(st[st.len() - 4]))
    } else {
        Ok(((st[st.len() - 2]->Symbol_0, st[st.len() - 3]->String_0), st.subrange(0, st.len() - 4)))
    }
}

/// Reads the tag pairs that stand at the top of the stack.
pub open spec fn tags_spec(st: Seq<TokenView>) -> Result<(TagsView, Seq<TokenView>), ParseErrorView>
    decreases st.len(),
{
    if top(st) is OpenBracket {
        match tag_pair_spec(st) {
            Err(e) => Err(e),
            Ok((pair, rest)) => if rest.len() < st.len() {
                match tags_spec(rest) {
                    Err(e) => Err(e),
                    Ok((more, after)) => Ok((seq![pair] + more, after)),
                }
            } else {
                Err(ParseErrorView::UnexpectedEndOfFile)
            },
        }
    } else {
        Ok((seq![], st))
    }
}

/// The next half-move token if it is a symbol that may be a move, and the stack after it and
/// the comments that follow it.
pub open spec fn half_move_spec(st: Seq<TokenView>) -> (Option<Seq<char>>, Seq<TokenView>) {
    if st.len() > 0 && st.last() is Symbol && move_like(st.last()->Symbol_0) {
        (Some(st.last()->Symbol_0), skip_comments(st.drop_last()))
    } else {
        (None, skip_comments(st))
    }
}

/// Reads one entry of the move text: comments, an optional number with its periods, then up
/// to two half-move tokens, each followed by comments.
pub open spec fn move_spec(st0: Seq<TokenView>) -> Result<(MoveView, Seq<TokenView>), ParseErrorView> {
    let st = skip_comments(st0);
    let numbered = st.len() > 0 && st.last() is Integer;
    let after_number = if numbered { st.drop_last() } else { st };
    if numbered && !(top(after_number) is Period) {
        Err(ParseErrorView::UnexpectedToken(top(after_number)))
    } else {
        let after_periods = if numbered { skip_comments(skip_periods(after_number)) } else { after_number };
        let (white, st2) = half_move_spec(after_periods);
        let (black, st3) = half_move_spec(st2);
        Ok(((if numbered { Some(st.last()->Integer_0) } else { None }, white, black), st3))
    }
}

pub open spec fn skip_periods(st: Seq<TokenView>) -> Seq<TokenView>
    decreases st.len(),
{
    if st.len() > 0 && st.last() is Period {
        skip_periods(st.drop_last())
    } else {
        st
    }
}

pub open spec fn is_game_end_spec(t: TokenView) -> bool {
    t is Symbol && result_of(t->Symbol_0) is Some
}

/// Reads move entries up to a result marker. An entry that reads nothing, or the end of the
/// tokens, is an error.
pub open spec fn moves_spec(st: Seq<TokenView>) -> Result<(Seq<MoveView>, Seq<TokenView>), ParseErrorView>
    decreases st.len(),
{
    if is_game_end_spec(top(st)) {
        Ok((seq![], st))
    } else if top(st) is EndOfFile {
        Err(ParseErrorView::UnexpectedEndOfFile)
    } else {
        match move_spec(st) {
            Err(e) => Err(e),
            Ok((m, rest)) => if rest.len() < st.len() {
                match moves_spec(rest) {
                    Err(e) => Err(e),
                    Ok((more, after)) => Ok((seq![m] + more, after)),
                }
            } else {
                Err(ParseErrorView::UnexpectedToken(top(st)))
            },
        }
    }
}

/// Reads the result marker, after comments.
pub open spec fn result_spec(st0: Seq<TokenView>) -> Result<(GameResult, Seq<TokenView>), ParseErrorView> {
    let st = skip_comments(st0);
    if st.len() == 0 {
        Err(ParseErrorView::UnexpectedEndOfFile)
    } else if !(st.last() is Symbol) {
        Err(ParseErrorView::UnexpectedToken(st.last()))
    } else {
        match result_of(st.last()->Symbol_0) {
            Some(r) => Ok((r, st.drop_last())),
            None => Err(ParseErrorView::InvalidGameResult(st.last()->Symbol_0)),
        }
    }
}

/// Reads one game: tags, move text, result.
pub open spec fn game_spec(st: Seq<TokenView>) -> Result<(GameView, Seq<TokenView>), ParseErrorView> {
    match tags_spec(st) {
        Err(e) => Err(e),
        Ok((tags, st1)) => match moves_spec(st1) {
            Err(e) => Err(e),
            Ok((moves, st2)) => match result_spec(st2) {
                Err(e) => Err(e),
                Ok((result, st3)) => {
                    let (setup, fen, others) = split_tags(tags);
                    Ok(((setup, fen, others, moves, result), st3))
                },
            },
        },
    }
}

/// Reads games until the end of the tokens.
pub open spec fn games_spec(st: Seq<TokenView>) -> Result<Seq<GameView>, ParseErrorView>
    decreases st.len(),
{
    if top(st) is EndOfFile {
        Ok(seq![])
    } else {
        match game_spec(st) {
            Err(e) => Err(e),
            Ok((g, rest)) => if rest.len() < st.len() {
                match games_spec(rest) {
                    Err(e) => Err(e),
                    Ok(more) => Ok(seq![g] + more),
                }
            } else {
                Err(ParseErrorView::UnexpectedToken(top(st)))
            },
        }
    }
}

pub open spec fn stack_view(v: Seq<Token>) -> Seq<TokenView> {
    token_views(v)
}

pub proof fn lemma_stack_pop(v: Seq<Token>)
    requires
        v.len() > 0,
    ensures
        stack_view(v.drop_last()) == stack_view(v).drop_last(),
        stack_view(v).last() == v.last()@,
        stack_view(v).len() == v.len(),
{
    assert(stack_view(v.drop_last()) =~= stack_view(v).drop_last());
}

impl GameResult {
    /// The result that a marker names: `*`, `1-0`, `0-1` or `1/2-1/2`.
    pub fn from_string(string: &Vec<char>) -> (r: Option<GameResult>)
        ensures
            r == result_of(string@),
    {
        let s = string;
        if s.len() == 1 && s[0] == '*' {
            assert(s@ =~= seq!['*']);
            Some(GameResult::Unknown)
        } else if s.len() == 3 && s[0] == '1' && s[1] == '-' && s[2] == '0' {
            assert(s@ =~= seq!['1', '-', '0']);
            Some(GameResult::WhiteWins)
        } else if s.len() == 3 && s[0] == '0' && s[1] == '-' && s[2] == '1' {
            assert(s@ =~= seq!['0', '-', '1']);
            Some(GameResult::BlackWins)
        } else if s.len() == 7 && s[0] == '1' && s[1] == '/' && s[2] == '2' && s[3] == '-' && s[4] == '1' && s[5] == '/'
            && s[6] == '2' {
            assert(s@ =~= seq!['1', '/', '2', '-', '1', '/', '2']);
            Some(GameResult::Draw)
        } else {
            None
        }
    }

    /// The marker of a result.
    pub fn to_string(&self) -> (r: &'static str)
        ensures
            r@ == result_text(*self),
    {
        let r = match self {
            GameResult::Unknown => "*",
            GameResult::WhiteWins => "1-0",
            GameResult::BlackWins => "0-1",
            GameResult::Draw => "1/2-1/2",
        };
        proof {
            reveal_strlit("*");
            reveal_strlit("1-0");
            reveal_strlit("0-1");
            reveal_strlit("1/2-1/2");
            assert(r@ =~= result_text(*self));
        }
        r
    }
}

fn is_name(name: &Vec<char>, expected: &str) -> (r: bool)
    ensures
        r == (name@ == expected@),
{
    let e = chars_of(expected);
    if name.len() != e.len() {
        return false;
    }
    let mut i: usize = 0;
    while i < e.len()
        invariant
            name@.len() == e@.len(),
            e@ == expected@,
            i <= e@.len(),
            forall|j: int| 0 <= j < i ==> name@[j] == e@[j],
        decreases e@.len() - i,
    {
        if name[i] != e[i] {
            return false;
        }
        i = i + 1;
    }
    assert(name@ =~= e@);
    true
}

/// A copy of a token.
fn copy_token(t: &Token) -> (r: Token)
    ensures
        r@ == t@,
{
    match t {
        Token::Comment(s) => Token::Comment(s.clone()),
        Token::String(s) => Token::String(s.clone()),
        Token::Integer(n) => Token::Integer(*n),
        Token::Period => Token::Period,
        Token::Asterisk => Token::Asterisk,
        Token::OpenBracket => Token::OpenBracket,
        Token::CloseBracket => Token::CloseBracket,
        Token::OpenParen => Token::OpenParen,
        Token::CloseParen => Token::CloseParen,
        Token::OpenAngleBracket => Token::OpenAngleBracket,
        Token::CloseAngleBracket => Token::CloseAngleBracket,
        Token::NumericAnnotationGlyph(n) => Token::NumericAnnotationGlyph(*n),
        Token::Symbol(s) => Token::Symbol(s.clone()),
        Token::EndOfFile => Token::EndOfFile,
    }
}

fn fold(c: char) -> (r: char)
    ensures
        r == fold_case(c),
{
    if 'A' <= c && c <= 'Z' {
        ((c as u8) + 32) as char
    } else {
        c
    }
}

/// Turns a token list, first token first, into games of a record.
pub struct Parser {
    /// The tokens still to read, the next one last.
    pub tokens: Vec<Token>,
}

impl Parser {
    pub open spec fn stack(self) -> Seq<TokenView> {
        stack_view(self.tokens@)
    }

    /// A parser over `tokens`, first token first.
    pub fn new(tokens: Vec<Token>) -> (r: Parser)
        ensures
            r.stack() == stack_view(tokens@).reverse(),
    {
        let mut input = tokens;
        let ghost all = stack_view(input@);
        let mut stack: Vec<Token> = Vec::new();
        while input.len() > 0
            invariant
                all == stack_view(input@) + stack_view(stack@).reverse(),
            decreases input@.len(),
        {
            let ghost before_in = input@;
            let ghost before_st = stack@;
            let t = input.pop().unwrap();
            proof {
                lemma_stack_pop(before_in);
                assert(stack_view(before_st.push(t)) =~= stack_view(before_st).push(t@));
                assert(stack_view(before_in) =~= stack_view(input@).push(t@));
                assert(stack_view(before_st.push(t)).reverse() =~= seq![t@] + stack_view(before_st).reverse());
            }
            stack.push(t);
            proof {
                assert(stack_view(input@).push(t@) + stack_view(before_st).reverse() =~= stack_view(input@) + stack_view(stack@).reverse());
            }
        }
        assert(stack_view(input@) =~= seq![]);
        assert(all =~= stack_view(stack@).reverse());
        assert(stack_view(stack@).reverse().reverse() =~= stack_view(stack@));
        Parser { tokens: stack }
    }

    /// The next token, if any.
    pub fn peek(&self) -> (r: Option<&Token>)
        ensures
            r matches Some(t) ==> self.tokens@.len() > 0 && t@ == self.stack().last(),
            r is None <==> self.tokens@.len() == 0,
    {
        if self.tokens.len() > 0 {
            proof {
                lemma_stack_pop(self.tokens@);
            }
            Some(&self.tokens[self.tokens.len() - 1])
        } else {
            None
        }
    }

    /// Takes the next token; an error at the end of the tokens.
    pub fn read(&mut self) -> (r: Result<Token, ParseError>)
        ensures
            old(self).tokens@.len() == 0 ==> r == Err::<Token, ParseError>(ParseError::UnexpectedEndOfFile) && final(self).tokens@ == old(self).tokens@,
            old(self).tokens@.len() > 0 ==> (r matches Ok(t) && t@ == old(self).stack().last() && final(self).stack()
                == old(self).stack().drop_last()),
    {
        if self.tokens.len() == 0 {
            return Err(ParseError::UnexpectedEndOfFile);
        }
        let ghost before = self.tokens@;
        let t = self.tokens.pop().unwrap();
        proof {
            lemma_stack_pop(before);
        }
        Ok(t)
    }

    /// Where a symbol ends once a trailing check or mate marker and a promotion are cut off.
    fn move_core_end(notation: &Vec<char>) -> (end: usize)
        ensures
            end <= notation@.len(),
            notation@.subrange(0, end as int) == ({
                let s = notation@;
                let s1 = if s.len() > 0 && (s.last() == '+' || s.last() == '#') { s.drop_last() } else { s };
                if s1.len() >= 2 && s1[s1.len() - 2] == '=' && ci_promotion(s1.last()) {
                    s1.subrange(0, s1.len() - 2)
                } else {
                    s1
                }
            }),
    {
        let ghost s = notation@;
        let mut end: usize = notation.len();
        if end > 0 && (notation[end - 1] == '+' || notation[end - 1] == '#') {
            end = end - 1;
        }
        let ghost s1 = s.subrange(0, end as int);
        assert(s1 =~= (if s.len() > 0 && (s.last() == '+' || s.last() == '#') { s.drop_last() } else { s }));
        if end >= 2 && notation[end - 2] == '=' {
            let f = fold(notation[end - 1]);
            if f == 'n' || f == 'b' || f == 'r' || f == 'q' || f == 'k' {
                end = end - 2;
            }
        }
        assert(s.subrange(0, end as int) =~= (if s1.len() >= 2 && s1[s1.len() - 2] == '=' && ci_promotion(s1.last()) {
            s1.subrange(0, s1.len() - 2)
        } else {
            s1
        }));
        end
    }

    fn is_move_hint(notation: &Vec<char>, start: usize, end: usize) -> (r: bool)
        requires
            start <= end <= notation@.len(),
        ensures
            ({
                let hint = notation@.subrange(start as int, end as int);
                r == (hint.len() == 0 || hint.len() == 1 && (ci_file(hint[0]) || rank_digit(hint[0])) || hint.len() == 2
                    && ci_file(hint[0]) && rank_digit(hint[1]))
            }),
    {
        let n = end - start;
        if n == 0 {
            true
        } else if n == 1 {
            let c = notation[start];
            let f = fold(c);
            ('a' <= f && f <= 'h') || ('1' <= c && c <= '8')
        } else if n == 2 {
            let f = fold(notation[start]);
            let c1 = notation[start + 1];
            'a' <= f && f <= 'h' && '1' <= c1 && c1 <= '8'
        } else {
            false
        }
    }

    /// Whether a symbol may be a move: `[piece] [file] [rank] [x] file rank [= piece] [+ or #]`,
    /// letters taken in either case.
    pub fn is_possibly_a_move(notation: &Vec<char>) -> (r: bool)
        ensures
            r == move_like(notation@),
    {
        let ghost s = notation@;
        let end = Self::move_core_end(notation);
        let ghost s2 = s.subrange(0, end as int);
        if end < 2 {
            return false;
        }
        let df = fold(notation[end - 2]);
        if !('a' <= df && df <= 'h' && '1' <= notation[end - 1] && notation[end - 1] <= '8') {
            return false;
        }
        let mut start: usize = 0;
        if end - 2 > 0 {
            let p = fold(notation[0]);
            if p == 'p' || p == 'n' || p == 'b' || p == 'r' || p == 'q' || p == 'k' {
                start = 1;
            }
        }
        let mut hint_end: usize = end - 2;
        if hint_end > start && fold(notation[hint_end - 1]) == 'x' {
            hint_end = hint_end - 1;
        }
        let ghost head = s2.subrange(0, s2.len() - 2);
        let ghost rest = if head.len() > 0 && ci_piece(head[0]) { head.drop_first() } else { head };
        assert(rest =~= s.subrange(start as int, end - 2));
        let ghost hint = if rest.len() > 0 && fold_case(rest.last()) == 'x' { rest.drop_last() } else { rest };
        assert(hint =~= s.subrange(start as int, hint_end as int));
        Self::is_move_hint(notation, start, hint_end)
    }

    /// Whether a token is a result marker that ends the move text.
    pub fn is_game_end(token: &Token) -> (r: bool)
        ensures
            r == is_game_end_spec(token@),
    {
        match token {
            Token::Symbol(result) => GameResult::from_string(&chars_of(result.as_str())).is_some(),
            _ => false,
        }
    }

    /// Reads one tag pair: `[`, a symbol, a string, `]`.
    pub fn parse_tag_pair(&mut self) -> (r: Result<(String, String), ParseError>)
        ensures
            match tag_pair_spec(old(self).stack()) {
                Ok((pair, rest)) => r matches Ok(p) && p.0@ == pair.0 && p.1@ == pair.1 && final(self).stack() == rest,
                Err(e) => r matches Err(err) && error_view(err) == e,
            },
    {
        let ghost st = self.stack();
        let open = match self.read() {
            Ok(t) => t,
            Err(e) => {
                assert(st.len() == 0);
                return Err(e);
            },
        };
        if !(open matches Token::OpenBracket) {
            return Err(ParseError::UnexpectedToken(open));
        }
        assert(self.stack() =~= st.subrange(0, st.len() - 1));
        let name = match self.read() {
            Ok(Token::Symbol(value)) => value,
            Ok(other) => {
                return Err(ParseError::UnexpectedToken(other));
            },
            Err(e) => {
                assert(st.len() == 1);
                return Err(e);
            },
        };
        assert(self.stack() =~= st.subrange(0, st.len() - 2));
        let value = match self.read() {
            Ok(Token::String(value)) => value,
            Ok(other) => {
                return Err(ParseError::UnexpectedToken(other));
            },
            Err(e) => {
                assert(st.len() == 2);
                return Err(e);
            },
        };
        let close = match self.read() {
            Ok(t) => t,
            Err(e) => {
                proof {
                    assert(self.stack() =~= st.subrange(0, st.len() - 3));
                    assert(st.len() == 3);
                }
                return Err(e);
            },
        };
        if !(close matches Token::CloseBracket) {
            return Err(ParseError::UnexpectedToken(close));
        }
        assert(self.stack() =~= st.subrange(0, st.len() - 4));
        Ok((name, value))
    }

    /// Reads the tag pairs at the top of the stack, keeping `SetUp` and `FEN` apart.
    pub fn parse_tag_pair_section(&mut self) -> (r: Result<(Option<String>, Option<String>, Vec<(String, String)>), ParseError>)
        ensures
            match tags_spec(old(self).stack()) {
                Ok((tags, rest)) => r matches Ok(x) && (opt_view(x.0), opt_view(x.1), tags_view(x.2@)) == split_tags(tags)
                    && final(self).stack() == rest,
                Err(e) => r matches Err(err) && error_view(err) == e,
            },
    {
        let ghost st0 = self.stack();
        let mut setup: Option<String> = None;
        let mut fen: Option<String> = None;
        let mut other_tags: Vec<(String, String)> = Vec::new();
        let ghost mut read: TagsView = seq![];
        assert(tags_view(other_tags@) =~= seq![]);
        loop
            invariant
                st0 == old(self).stack(),
                (opt_view(setup), opt_view(fen), tags_view(other_tags@)) == split_tags(read),
                tags_spec(st0) == (match tags_spec(self.stack()) {
                    Ok((more, after)) => Ok((read + more, after)),
                    Err(e) => Err(e),
                }),
            decreases self.tokens@.len(),
        {
            let at_bracket = match self.peek() {
                Some(Token::OpenBracket) => true,
                _ => false,
            };
            if !at_bracket {
                assert(read + seq![] =~= read);
                return Ok((setup, fen, other_tags));
            }
            let ghost before = self.stack();
            let (name, value) = match self.parse_tag_pair() {
                Ok(pair) => pair,
                Err(e) => {
                    return Err(e);
                },
            };
            proof {
                let pair = (name@, value@);
                if tags_spec(self.stack()) is Ok {
                    let more = tags_spec(self.stack())->Ok_0;
                    assert(read + (seq![pair] + more.0) =~= read.push(pair) + more.0);
                }
                assert(read.push(pair).drop_last() =~= read);
            }
            let name_chars = chars_of(name.as_str());
            proof {
                reveal_strlit("SetUp");
                reveal_strlit("FEN");
                assert("SetUp"@ =~= seq!['S', 'e', 't', 'U', 'p']);
                assert("FEN"@ =~= seq!['F', 'E', 'N']);
            }
            if is_name(&name_chars, "SetUp") {
                proof {
                    reveal_strlit("SetUp");
                }
                setup = Some(value);
            } else if is_name(&name_chars, "FEN") {
                proof {
                    reveal_strlit("SetUp");
                    reveal_strlit("FEN");
                }
                fen = Some(value);
            } else {
                proof {
                    reveal_strlit("SetUp");
                    reveal_strlit("FEN");
                }
                let ghost old_tags = other_tags@;
                other_tags.push((name, value));
                assert(tags_view(other_tags@) =~= tags_view(old_tags).push((name@, value@)));
            }
            proof {
                read = read.push((name@, value@));
            }
        }
    }

    /// Skips the periods at the top of the stack.
    fn skip_periods(&mut self)
        ensures
            final(self).stack() == skip_periods(old(self).stack()),
    {
        loop
            invariant
                skip_periods(old(self).stack()) == skip_periods(self.stack()),
            ensures
                skip_periods(old(self).stack()) == self.stack(),
            decreases self.tokens@.len(),
        {
            let is_period = match self.peek() {
                Some(Token::Period) => true,
                _ => false,
            };
            if !is_period {
                break;
            }
            let _ = self.read();
        }
    }

    /// Takes the next token if it is a symbol that may be a move, then skips comments.
    fn parse_half_move(&mut self) -> (r: Option<String>)
        ensures
            (opt_view(r), final(self).stack()) == half_move_spec(old(self).stack()),
    {
        let is_move = match self.peek() {
            Some(Token::Symbol(value)) => Self::is_possibly_a_move(&chars_of(value.as_str())),
            _ => false,
        };
        let mut r: Option<String> = None;
        if is_move {
            match self.read() {
                Ok(Token::Symbol(value)) => {
                    r = Some(value);
                },
                _ => {},
            }
        }
        let _ = self.ignore_comments();
        r
    }

    /// Reads one entry of the move text: an optional number with its periods, then up to two
    /// half-move tokens, skipping comments around them.
    pub fn parse_move(&mut self) -> (r: Result<Move, ParseError>)
        ensures
            match move_spec(old(self).stack()) {
                Ok((m, rest)) => r matches Ok(x) && move_view(x) == m && final(self).stack() == rest,
                Err(e) => r matches Err(err) && error_view(err) == e,
            },
    {
        let _ = self.ignore_comments();
        let numbered = match self.peek() {
            Some(Token::Integer(_)) => true,
            _ => false,
        };
        let mut number: Option<i64> = None;
        if numbered {
            if let Ok(Token::Integer(value)) = self.read() {
                number = Some(value);
            }
            let has_period = match self.peek() {
                Some(Token::Period) => true,
                _ => false,
            };
            if !has_period {
                return match self.read() {
                    Ok(t) => Err(ParseError::UnexpectedToken(t)),
                    Err(_) => Err(ParseError::UnexpectedToken(Token::EndOfFile)),
                };
            }
            self.skip_periods();
            let _ = self.ignore_comments();
        }
        let white_move = self.parse_half_move();
        let black_move = self.parse_half_move();
        Ok(Move { number, white_move, black_move })
    }

    /// Reads move entries up to a result marker.
    pub fn parse_move_text_section(&mut self) -> (r: Result<Vec<Move>, ParseError>)
        ensures
            match moves_spec(old(self).stack()) {
                Ok((ms, rest)) => r matches Ok(v) && v@.map_values(|m: Move| move_view(m)) == ms && final(self).stack() == rest,
                Err(e) => r matches Err(err) && error_view(err) == e,
            },
    {
        let ghost st0 = self.stack();
        let mut moves: Vec<Move> = Vec::new();
        assert(moves@.map_values(|m: Move| move_view(m)) =~= seq![]);
        loop
            invariant
                st0 == old(self).stack(),
                moves_spec(st0) == (match moves_spec(self.stack()) {
                    Ok((more, after)) => Ok((moves@.map_values(|m: Move| move_view(m)) + more, after)),
                    Err(e) => Err(e),
                }),
            decreases self.tokens@.len(),
        {
            let ghost st = self.stack();
            let (at_end, at_eof, first) = match self.peek() {
                Some(t) => (Self::is_game_end(t), t matches Token::EndOfFile, copy_token(t)),
                None => (false, true, Token::EndOfFile),
            };
            if at_end {
                assert(moves@.map_values(|m: Move| move_view(m)) + seq![] =~= moves@.map_values(|m: Move| move_view(m)));
                return Ok(moves);
            }
            if at_eof {
                return Err(ParseError::UnexpectedEndOfFile);
            }
            let len_before = self.tokens.len();
            let m = match self.parse_move() {
                Ok(m) => m,
                Err(e) => {
                    return Err(e);
                },
            };
            if self.tokens.len() >= len_before {
                return Err(ParseError::UnexpectedToken(first));
            }
            proof {
                let mv = move_view(m);
                let prev = moves@.map_values(|m: Move| move_view(m));
                assert(moves@.push(m).map_values(|m: Move| move_view(m)) =~= prev.push(mv));
                if moves_spec(self.stack()) is Ok {
                    let more = moves_spec(self.stack())->Ok_0;
                    assert(prev + (seq![mv] + more.0) =~= prev.push(mv) + more.0);
                }
            }
            moves.push(m);
        }
    }

    /// Reads the result marker, after comments.
    pub fn parse_game_result(&mut self) -> (r: Result<GameResult, ParseError>)
        ensures
            match result_spec(old(self).stack()) {
                Ok((res, rest)) => r == Ok::<GameResult, ParseError>(res) && final(self).stack() == rest,
                Err(e) => r matches Err(err) && error_view(err) == e,
            },
    {
        let _ = self.ignore_comments();
        let outcome = match self.read() {
            Ok(Token::Symbol(outcome)) => outcome,
            Ok(other) => {
                return Err(ParseError::UnexpectedToken(other));
            },
            Err(e) => {
                return Err(e);
            },
        };
        match GameResult::from_string(&chars_of(outcome.as_str())) {
            Some(result) => Ok(result),
            None => Err(ParseError::InvalidGameResult(outcome)),
        }
    }

    /// Reads one game: tags, move text, result.
    pub fn parse_game(&mut self) -> (r: Result<ParsedGame, ParseError>)
        ensures
            match game_spec(old(self).stack()) {
                Ok((g, rest)) => r matches Ok(x) && game_view(x) == g && final(self).stack() == rest,
                Err(e) => r matches Err(err) && error_view(err) == e,
            },
    {
        let (setup, fen, other_tags) = match self.parse_tag_pair_section() {
            Ok(t) => t,
            Err(e) => {
                return Err(e);
            },
        };
        let moves = match self.parse_move_text_section() {
            Ok(m) => m,
            Err(e) => {
                return Err(e);
            },
        };
        let result = match self.parse_game_result() {
            Ok(r) => r,
            Err(e) => {
                return Err(e);
            },
        };
        Ok(ParsedGame { setup, fen, other_tags, moves, result })
    }

    /// Reads every game of the record.
    pub fn parse(&mut self) -> (r: Result<Vec<ParsedGame>, ParseError>)
        ensures
            match games_spec(old(self).stack()) {
                Ok(gs) => r matches Ok(v) && v@.map_values(|g: ParsedGame| game_view(g)) == gs,
                Err(e) => r matches Err(err) && error_view(err) == e,
            },
    {
        let ghost st0 = self.stack();
        let mut games: Vec<ParsedGame> = Vec::new();
        assert(games@.map_values(|g: ParsedGame| game_view(g)) =~= seq![]);
        loop
            invariant
                st0 == old(self).stack(),
                games_spec(st0) == (match games_spec(self.stack()) {
                    Ok(more) => Ok(games@.map_values(|g: ParsedGame| game_view(g)) + more),
                    Err(e) => Err(e),
                }),
            decreases self.tokens@.len(),
        {
            let (at_eof, first) = match self.peek() {
                Some(t) => (t matches Token::EndOfFile, copy_token(t)),
                None => (true, Token::EndOfFile),
            };
            if at_eof {
                assert(games@.map_values(|g: ParsedGame| game_view(g)) + seq![] =~= games@.map_values(|g: ParsedGame| game_view(g)));
                return Ok(games);
            }
            let len_before = self.tokens.len();
            let g = match self.parse_game() {
                Ok(g) => g,
                Err(e) => {
                    return Err(e);
                },
            };
            if self.tokens.len() >= len_before {
                return Err(ParseError::UnexpectedToken(first));
            }
            proof {
                let gv = game_view(g);
                let prev = games@.map_values(|g: ParsedGame| game_view(g));
                assert(games@.push(g).map_values(|g: ParsedGame| game_view(g)) =~= prev.push(gv));
                if games_spec(self.stack()) is Ok {
                    let more = games_spec(self.stack())->Ok_0;
                    assert(prev + (seq![gv] + more) =~= prev.push(gv) + more);
                }
            }
            games.push(g);
        }
    }

    /// Skips the comments at the top of the stack.
    pub fn ignore_comments(&mut self) -> (r: Result<(), ParseError>)
        ensures
            r is Ok,
            final(self).stack() == skip_comments(old(self).stack()),
    {
        loop
            invariant
                skip_comments(old(self).stack()) == skip_comments(self.stack()),
            ensures
                skip_comments(old(self).stack()) == self.stack(),
            decreases self.tokens@.len(),
        {
            let is_comment = match self.peek() {
                Some(Token::Comment(_)) => true,
                _ => false,
            };
            if !is_comment {
                break;
            }
            let _ = self.read();
        }
        Ok(())
    }
}

} // verus!
