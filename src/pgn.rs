use vstd::prelude::*;
use crate::fen::{fen_parse_spec, fen_spec, holds_fields, int_text, push_int, FenParseError};
use crate::game::{applied, is_standard_position, Game, InvalidMoveError, ValidMove};
use crate::lexer::{lex_spec, Lexer, LexerError};
use crate::models::Position;
use crate::notation::resolution;
use crate::parser::{game_view, games_spec, move_view, GameView, Move, MoveView, ParseError, ParsedGame, Parser};
use crate::text::{chars_of, string_from_chars};

verus! {

/// Why a game record could not be read.
pub enum PGNReadError {
    LexerError(LexerError),
    ParserError(ParseError),
    GameError(()),
}

/// A half-move token with the number of the move it belongs to, if the text gave one.
pub type HalfMove = (Seq<char>, Option<int>);

pub open spec fn opt_seq(o: Option<Seq<char>>, number: Option<int>) -> Seq<HalfMove> {
    match o {
        Some(t) => seq![(t, number)],
        None => seq![],
    }
}

/// The half-move tokens of the move text, in order, each with its move number.
pub open spec fn half_moves(ms: Seq<MoveView>) -> Seq<HalfMove>
    decreases ms.len(),
{
    if ms.len() == 0 {
        seq![]
    } else {
        half_moves(ms.drop_last()) + opt_seq(ms.last().1, ms.last().0) + opt_seq(ms.last().2, ms.last().0)
    }
}

/// The message for a half-move token that cannot be played: the token, and the move number
/// where the text gave one.
pub open spec fn invalid_move_text(token: Seq<char>, number: Option<int>) -> Seq<char> {
    "Invalid move in PGN game: "@ + token + match number {
        Some(n) => " (move #"@ + int_text(n) + seq![')'],
        None => seq![],
    }
}

pub open spec fn number_view(n: Option<i64>) -> Option<int> {
    match n {
        Some(v) => Some(v as int),
        None => None,
    }
}

/// Playing the tokens in order from `p`, each resolved to the one legal move it describes,
/// leads to `q`.
pub open spec fn plays(p: Position, toks: Seq<HalfMove>, q: Position) -> bool
    decreases toks.len(),
{
    if toks.len() == 0 {
        q == p
    } else {
        exists|before: Position, m: ValidMove|
            #![trigger applied(before, m, q)]
            plays(p, toks.drop_last(), before) && resolution(Game { position: before }, toks.last().0, Ok(m)) && applied(before, m, q)
    }
}

/// Playing the tokens from `p` fails at some token, with `message` naming it: it names no
/// single legal move, or a clock is at its largest value.
pub open spec fn fails(p: Position, toks: Seq<HalfMove>, message: Seq<char>) -> bool {
    exists|k: int, q: Position|
        #![trigger plays(p, toks.take(k), q)]
        0 <= k < toks.len() && plays(p, toks.take(k), q) && ((exists|e: InvalidMoveError|
            resolution(Game { position: q }, toks[k].0, Err(e))) || q.half_move_clock == i64::MAX || q.full_move_counter
            == i64::MAX) && message == invalid_move_text(toks[k].0, toks[k].1)
}

/// `p` is where a parsed game starts: its `FEN` tag, or the standard initial position.
pub open spec fn starts_at(g: GameView, p: Position) -> bool {
    match g.1 {
        Some(f) => fen_parse_spec(f) matches Some(fl) && holds_fields(p, fl),
        None => is_standard_position(p),
    }
}

pub proof fn lemma_half_moves_step(ms: Seq<MoveView>, i: int)
    requires
        0 <= i < ms.len(),
    ensures
        half_moves(ms.take(i + 1)) == half_moves(ms.take(i)) + opt_seq(ms[i].1, ms[i].0) + opt_seq(ms[i].2, ms[i].0),
{
    assert(ms.take(i + 1).drop_last() =~= ms.take(i));
}

pub proof fn lemma_half_moves_prefix(ms: Seq<MoveView>, i: int)
    requires
        0 <= i <= ms.len(),
    ensures
        half_moves(ms).take(half_moves(ms.take(i)).len() as int) == half_moves(ms.take(i)),
        half_moves(ms.take(i)).len() <= half_moves(ms).len(),
    decreases ms.len() - i,
{
    if i == ms.len() {
        assert(ms.take(i) =~= ms);
        assert(half_moves(ms).take(half_moves(ms).len() as int) =~= half_moves(ms));
    } else {
        lemma_half_moves_prefix(ms, i + 1);
        lemma_half_moves_step(ms, i);
        let a = half_moves(ms.take(i));
        let b = half_moves(ms.take(i + 1));
        assert(b.take(a.len() as int) =~= a);
        assert(half_moves(ms).take(a.len() as int) =~= b.take(a.len() as int));
    }
}

pub proof fn lemma_plays_step(p: Position, done: Seq<HalfMove>, q: Position, t: HalfMove, m: ValidMove, q2: Position)
    requires
        plays(p, done, q),
        resolution(Game { position: q }, t.0, Ok(m)),
        applied(q, m, q2),
    ensures
        plays(p, done.push(t), q2),
{
    assert(done.push(t).drop_last() =~= done);
    assert(done.push(t).last() == t);
}

/// Appends the characters of `t`.
fn push_all(v: &mut Vec<char>, t: &Vec<char>)
    ensures
        final(v)@ == old(v)@ + t@,
{
    let mut i: usize = 0;
    while i < t.len()
        invariant
            i <= t@.len(),
            v@ == old(v)@ + t@.subrange(0, i as int),
        decreases t@.len() - i,
    {
        v.push(t[i]);
        i = i + 1;
        assert(v@ =~= old(v)@ + t@.subrange(0, i as int));
    }
    assert(t@.subrange(0, t@.len() as int) =~= t@);
}

/// The message for a half-move token that cannot be played.
fn invalid_move_message(token: &String, number: Option<i64>) -> (r: String)
    ensures
        r@ == invalid_move_text(token@, number_view(number)),
{
    let mut v = chars_of("Invalid move in PGN game: ");
    push_all(&mut v, &chars_of(token.as_str()));
    if let Some(n) = number {
        push_all(&mut v, &chars_of(" (move #"));
        push_int(&mut v, n);
        v.push(')');
    }
    assert(v@ =~= invalid_move_text(token@, number_view(number)));
    string_from_chars(&v)
}

impl Game {
    /// A game starting at the position that `fen` describes.
    pub fn new_from_fen(fen: &str) -> (r: Result<Game, FenParseError>)
        ensures
            match fen_parse_spec(fen@) {
                Some(f) => r matches Ok(g) && holds_fields(g.position, f) && g.wf(),
                None => r is Err,
            },
    {
        match Position::from_fen(fen) {
            Ok(position) => Ok(Game::new(position)),
            Err(e) => Err(e),
        }
    }

    /// The six space-separated fields that describe the current position.
    pub fn position_to_fen(&self) -> (r: String)
        requires
            self.wf(),
        ensures
            r@ == fen_spec(self.position),
    {
        self.position.to_fen()
    }

    /// Plays one half-move token; a message naming it (and the move number) where it names no
    /// single legal move, or a clock is at its largest value.
    fn play_half_move(&self, token: &String, number: Option<i64>) -> (r: Result<Game, String>)
        requires
            self.wf(),
        ensures
            r matches Ok(g) ==> g.wf() && exists|m: ValidMove|
                resolution(*self, token@, Ok(m)) && applied(self.position, m, g.position),
            r is Err ==> (exists|e: InvalidMoveError| resolution(*self, token@, Err(e)))
                || self.position.half_move_clock == i64::MAX || self.position.full_move_counter == i64::MAX,
            r matches Err(s) ==> s@ == invalid_move_text(token@, number_view(number)),
    {
        if self.position.half_move_clock == i64::MAX || self.position.full_move_counter == i64::MAX {
            return Err(invalid_move_message(token, number));
        }
        match self.make_move(token.as_str()) {
            Ok(g) => Ok(g),
            Err(_) => Err(invalid_move_message(token, number)),
        }
    }

    /// Plays the half-moves of `moves` in order from `game`.
    pub fn play_moves(game: Game, moves: &Vec<Move>) -> (r: Result<Game, String>)
        requires
            game.wf(),
        ensures
            r matches Ok(g) ==> g.wf() && plays(game.position, half_moves(moves@.map_values(|m: Move| move_view(m))), g.position),
            r matches Err(s) ==> fails(game.position, half_moves(moves@.map_values(|m: Move| move_view(m))), s@),
    {
        let ghost views = moves@.map_values(|m: Move| move_view(m));
        let ghost hm = half_moves(views);
        let ghost start = game.position;
        let ghost mut done: Seq<HalfMove> = seq![];
        let mut current = game;
        assert(views.take(0) =~= seq![]);
        let mut i: usize = 0;
        while i < moves.len()
            invariant
                views == moves@.map_values(|m: Move| move_view(m)),
                hm == half_moves(views),
                start == game.position,
                i <= moves@.len(),
                current.wf(),
                done == half_moves(views.take(i as int)),
                plays(start, done, current.position),
            decreases moves@.len() - i,
        {
            let entry = &moves[i];
            proof {
                lemma_half_moves_step(views, i as int);
                lemma_half_moves_prefix(views, i as int + 1);
                assert(views[i as int] == move_view(*entry));
            }
            let ghost num = number_view(entry.number);
            assert(views[i as int].0 == num);
            let ghost base = done;
            if let Some(w) = &entry.white_move {
                match current.play_half_move(w, entry.number) {
                    Ok(g) => {
                        proof {
                            let m = choose|m: ValidMove| resolution(current, w@, Ok(m)) && applied(current.position, m, g.position);
                            lemma_plays_step(start, done, current.position, (w@, num), m, g.position);
                            done = done.push((w@, num));
                        }
                        current = g;
                    },
                    Err(e) => {
                        proof {
                            let k = done.len() as int;
                            assert(hm.take(k) == done) by {
                                let full = half_moves(views.take(i as int + 1));
                                assert(full == done + seq![(w@, num)] + opt_seq(views[i as int].2, num));
                                assert(hm.take(full.len() as int) == full);
                                assert(hm.take(k) =~= full.take(k));
                                assert(full.take(k) =~= done);
                            }
                            assert(hm[k] == (w@, num)) by {
                                let full = half_moves(views.take(i as int + 1));
                                assert(hm.take(full.len() as int) == full);
                                assert(full[k] == (w@, num));
                                assert(hm.take(full.len() as int)[k] == hm[k]);
                            }
                            assert(plays(start, hm.take(k), current.position));
                            assert(0 <= k < hm.len());
                            assert(e@ == invalid_move_text(hm[k].0, hm[k].1));
                            assert(fails(start, hm, e@));
                        }
                        return Err(e);
                    },
                }
            }
            let ghost mid = done;
            assert(mid == base + opt_seq(views[i as int].1, num));
            if let Some(b) = &entry.black_move {
                match current.play_half_move(b, entry.number) {
                    Ok(g) => {
                        proof {
                            let m = choose|m: ValidMove| resolution(current, b@, Ok(m)) && applied(current.position, m, g.position);
                            lemma_plays_step(start, done, current.position, (b@, num), m, g.position);
                            done = done.push((b@, num));
                        }
                        current = g;
                    },
                    Err(e) => {
                        proof {
                            let k = done.len() as int;
                            let full = half_moves(views.take(i as int + 1));
                            assert(full =~= mid + seq![(b@, num)]);
                            assert(hm.take(full.len() as int) == full);
                            assert(hm.take(k) =~= full.take(k));
                            assert(full.take(k) =~= done);
                            assert(hm.take(full.len() as int)[k] == hm[k]);
                            assert(hm[k] == (b@, num));
                            assert(plays(start, hm.take(k), current.position));
                            assert(0 <= k < hm.len());
                            assert(e@ == invalid_move_text(hm[k].0, hm[k].1));
                            assert(fails(start, hm, e@));
                        }
                        return Err(e);
                    },
                }
            }
            proof {
                assert(done =~= half_moves(views.take(i as int + 1)));
            }
            i = i + 1;
        }
        proof {
            assert(views.take(moves@.len() as int) =~= views);
        }
        Ok(current)
    }
}

/// The outcome of playing one parsed game: the position its moves lead to from its start, or
/// a failure of its `FEN` tag or of one of its moves.
pub open spec fn game_outcome(gv: GameView, res: Result<Game, String>) -> bool {
    match res {
        Ok(g) => g.wf() && exists|origin: Position| starts_at(gv, origin) && plays(origin, half_moves(gv.3), g.position),
        Err(s) => (gv.1 matches Some(f) && fen_parse_spec(f) is None) || exists|origin: Position|
            starts_at(gv, origin) && fails(origin, half_moves(gv.3), s@),
    }
}

fn lexer_message(e: LexerError) -> String {
    let (text, position) = match e {
        LexerError::ParseIntError(p) => ("Could not parse int @ line ", p),
        LexerError::UnterminatedString(p) => ("Unterminated string literal @ line ", p),
        LexerError::UnexpectedCharacter(p) => ("Unexpected character @ line ", p),
    };
    let mut v = chars_of(text);
    push_int(&mut v, position.line as i64);
    v.push(',');
    v.push(' ');
    v.push('c');
    v.push('o');
    v.push('l');
    v.push(' ');
    push_int(&mut v, position.column as i64);
    string_from_chars(&v)
}

fn parse_message(e: ParseError) -> String {
    match e {
        ParseError::UnexpectedToken(_) => "Unexpected token in PGN".to_string(),
        ParseError::InvalidGameResult(_) => "Invalid game result in PGN".to_string(),
        ParseError::UnexpectedEndOfFile => "Unexpected end of PGN".to_string(),
    }
}

impl Game {
    /// Reads every game of a game record and plays its moves, from its `FEN` tag or from the
    /// standard initial position. The record as a whole fails where it cannot be split into
    /// tokens or games; each game fails on its own where its `FEN` tag or one of its moves does.
    pub fn new_from_pgn(pgn: &str) -> (r: Result<Vec<Result<Game, String>>, String>)
        ensures
            pgn@.len() + 1 < i32::MAX ==> match lex_spec(pgn@, 0, 1, 0) {
                Err(_) => r is Err,
                Ok(ts) => match games_spec(ts.reverse()) {
                    Err(_) => r is Err,
                    Ok(gs) => r matches Ok(v) && v@.len() == gs.len() && forall|i: int|
                        0 <= i < gs.len() ==> game_outcome(gs[i], #[trigger] v@[i]),
                },
            },
    {
        let mut lexer = Lexer::new(pgn);
        if lexer.pgn.len() >= 0x7fff_fffe {
            return Err("PGN text too long".to_string());
        }
        let tokens = match lexer.lex() {
            Ok(tokens) => tokens,
            Err(e) => {
                return Err(lexer_message(e));
            },
        };
        let mut parser = Parser::new(tokens);
        let games = match parser.parse() {
            Ok(games) => games,
            Err(e) => {
                return Err(parse_message(e));
            },
        };
        let ghost gs = games@.map_values(|g: ParsedGame| game_view(g));
        let mut results: Vec<Result<Game, String>> = Vec::new();
        let mut i: usize = 0;
        while i < games.len()
            invariant
                gs == games@.map_values(|g: ParsedGame| game_view(g)),
                i <= games@.len(),
                results@.len() == i,
                forall|j: int| 0 <= j < i ==> game_outcome(gs[j], #[trigger] results@[j]),
            decreases games@.len() - i,
        {
            let pg = &games[i];
            assert(gs[i as int] == game_view(*pg));
            let start = match &pg.fen {
                Some(f) => match Game::new_from_fen(f.as_str()) {
                    Ok(g) => g,
                    Err(e) => {
                        results.push(Err(e.message));
                        i = i + 1;
                        continue;
                    },
                },
                None => Game::new(Game::standard_position()),
            };
            let ghost origin = start.position;
            let outcome = Game::play_moves(start, &pg.moves);
            assert(pg.moves@.map_values(|m: Move| move_view(m)) == gs[i as int].3);
            assert(starts_at(gs[i as int], origin));
            results.push(outcome);
            i = i + 1;
        }
        Ok(results)
    }
}

} // verus!
