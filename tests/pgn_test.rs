use chess::{Game, GameResult, Lexer, LexerError, PGNMove, ParseError, ParsedGame, Parser, PositionInPGN, Token};

fn expect_lexing(pgn: &str, expected_tokens: &[Token]) {
    let mut lexer = Lexer::new(pgn);
    let tokens = lexer.lex().expect("Cannot lex pgn");
    assert_eq!(tokens.as_slice(), expected_tokens)
}

fn expect_parse(pgn: &str, expected_games: &[ParsedGame]) {
    let mut lexer = Lexer::new(pgn);
    let tokens = lexer.lex().expect("Cannot lex pgn");
    let mut parser = Parser::new(tokens);
    let games = parser.parse().expect("Cannot parse pgn");
    assert_eq!(games, expected_games)
}

fn trim_lines(string: &str) -> String {
    string.lines().map(|line| line.trim()).filter(|line| line.len() > 0).collect::<Vec<&str>>().join("\n")
}

fn expect_pgn_state(pgn: &str, expected_board: &str) {
    let games = Game::new_from_pgn(pgn).expect("Cannot read pgn");
    assert_eq!(games.len(), 1);
    let game = games.into_iter().next().unwrap().expect("Cannot play game");
    assert_eq!(trim_lines(expected_board), trim_lines(&game.board().diagram()));
}

fn s(text: &str) -> String {
    String::from(text)
}

#[test]
fn lexes_lichess_pgns() {
    expect_lexing(
        "[Event \"XXV Open\"]",
        &[Token::OpenBracket, Token::Symbol(s("Event")), Token::String(s("XXV Open")), Token::CloseBracket, Token::EndOfFile],
    );

    expect_lexing(
        "
        [Event \"XXV Open\"]
        [Site \"Novi Becej SRB\"]

        {[#]} 44. Bd1 Kd4+ 45. Kf1 Nh3#   0-1
    ",
        &[
            Token::OpenBracket,
            Token::Symbol(s("Event")),
            Token::String(s("XXV Open")),
            Token::CloseBracket,
            Token::OpenBracket,
            Token::Symbol(s("Site")),
            Token::String(s("Novi Becej SRB")),
            Token::CloseBracket,
            Token::Comment(s("[#]")),
            Token::Integer(44),
            Token::Period,
            Token::Symbol(s("Bd1")),
            Token::Symbol(s("Kd4+")),
            Token::Integer(45),
            Token::Period,
            Token::Symbol(s("Kf1")),
            Token::Symbol(s("Nh3#")),
            Token::Symbol(s("0-1")),
            Token::EndOfFile,
        ],
    );
}

#[test]
fn lexes_the_other_tokens() {
    expect_lexing(
        "% escape line\n; rest of line\n* ( ) < > $12 \"a\\\"b\\\\c\\d\"",
        &[
            Token::Comment(s(" rest of line")),
            Token::Asterisk,
            Token::OpenParen,
            Token::CloseParen,
            Token::OpenAngleBracket,
            Token::CloseAngleBracket,
            Token::NumericAnnotationGlyph(12),
            Token::String(s("a\"b\\cd")),
            Token::EndOfFile,
        ],
    );
    expect_lexing("", &[Token::EndOfFile]);
}

#[test]
fn lexer_errors_carry_their_position() {
    assert_eq!(Lexer::new("ab\n\"open").lex(), Err(LexerError::UnterminatedString(PositionInPGN { line: 2, column: 5 })));
    assert_eq!(Lexer::new("e4\te5").lex(), Err(LexerError::UnexpectedCharacter(PositionInPGN { line: 1, column: 2 })));
    assert_eq!(Lexer::new("$x").lex(), Err(LexerError::ParseIntError(PositionInPGN { line: 1, column: 1 })));
    assert_eq!(
        Lexer::new("99999999999999999999 ").lex(),
        Err(LexerError::ParseIntError(PositionInPGN { line: 1, column: 20 }))
    );
}

#[test]
fn parser_errors() {
    let parse = |text: &str| Parser::new(Lexer::new(text).lex().expect("lexes")).parse();
    assert_eq!(parse("1. e4 e5"), Err(ParseError::UnexpectedEndOfFile));
    assert_eq!(parse("[Event 3]"), Err(ParseError::UnexpectedToken(Token::Integer(3))));
    assert_eq!(parse("1 e4 1-0"), Err(ParseError::UnexpectedToken(Token::Symbol(s("e4")))));
    assert_eq!(parse("1. e4 (e5) 1-0"), Err(ParseError::UnexpectedToken(Token::OpenParen)));
    assert_eq!(parse(""), Ok(vec![]));
}

#[test]
fn game_results_read_and_write() {
    for (text, result) in [("*", GameResult::Unknown), ("1-0", GameResult::WhiteWins), ("0-1", GameResult::BlackWins), ("1/2-1/2", GameResult::Draw)] {
        assert_eq!(GameResult::from_string(&text.chars().collect()), Some(result));
        assert_eq!(result.to_string(), text);
    }
    assert_eq!(GameResult::from_string(&"2-0".chars().collect()), None);
}

#[test]
fn test_parse_simple_pgns() {
    expect_parse(
        "
        [Event \"Casual Blitz game\"]

        1. e4 e5 2. Nf3 Nc6 3. Qxg7# { White wins by checkmate. } 1-0
    ",
        &[ParsedGame {
            setup: None,
            fen: None,
            other_tags: vec![(s("Event"), s("Casual Blitz game"))],
            moves: vec![
                PGNMove { number: Some(1), white_move: Some(s("e4")), black_move: Some(s("e5")) },
                PGNMove { number: Some(2), white_move: Some(s("Nf3")), black_move: Some(s("Nc6")) },
                PGNMove { number: Some(3), white_move: Some(s("Qxg7#")), black_move: None },
            ],
            result: GameResult::WhiteWins,
        }],
    );
}

#[test]
fn test_parse_weird_moves() {
    expect_parse(
        "
        [Event \"Casual Blitz game\"]

        1. e4e5 e8=Q# 1-0
    ",
        &[ParsedGame {
            setup: None,
            fen: None,
            other_tags: vec![(s("Event"), s("Casual Blitz game"))],
            moves: vec![PGNMove { number: Some(1), white_move: Some(s("e4e5")), black_move: Some(s("e8=Q#")) }],
            result: GameResult::WhiteWins,
        }],
    );
}

#[test]
fn test_parse_move_without_number() {
    expect_parse(
        "
        [Event \"Casual Blitz game\"]

        e4e5 e8=Q# 1-0
    ",
        &[ParsedGame {
            setup: None,
            fen: None,
            other_tags: vec![(s("Event"), s("Casual Blitz game"))],
            moves: vec![PGNMove { number: None, white_move: Some(s("e4e5")), black_move: Some(s("e8=Q#")) }],
            result: GameResult::WhiteWins,
        }],
    );
}

#[test]
fn parses_setup_and_fen_tags_apart() {
    expect_parse(
        "[SetUp \"1\"] [FEN \"8/8/8/8/8/8/8/8 w - - 0 1\"] [Site \"x\"] 0-1 1-0",
        &[
            ParsedGame {
                setup: Some(s("1")),
                fen: Some(s("8/8/8/8/8/8/8/8 w - - 0 1")),
                other_tags: vec![(s("Site"), s("x"))],
                moves: vec![],
                result: GameResult::BlackWins,
            },
            ParsedGame { setup: None, fen: None, other_tags: vec![], moves: vec![], result: GameResult::WhiteWins },
        ],
    );
}

#[test]
fn test_pgn_to_game() {
    expect_pgn_state(
        "
        [Event \"Fool's Mate\"]

        1. f3 e5 2. g4 Qh4# 0-1
        ",
        "
        |r|n|b| |k|b|n|r|
        |p|p|p|p| |p|p|p|
        | | | | | | | | |
        | | | | |p| | | |
        | | | | | | |P|q|
        | | | | | |P| | |
        |P|P|P|P|P| | |P|
        |R|N|B|Q|K|B|N|R|
        ",
    );
}

#[test]
fn test_pgn_with_set_up() {
    expect_pgn_state(
        "
        [Event \"Fool's Mate\"]
        [SetUp \"1\"]
        [FEN \"rnbqkbnr/pppp1ppp/8/4p3/8/5P2/PPPPP1PP/RNBQKBNR w KQkq - 0 2\"]

        2. g4 Qh4# 0-1
        ",
        "
        |r|n|b| |k|b|n|r|
        |p|p|p|p| |p|p|p|
        | | | | | | | | |
        | | | | |p| | | |
        | | | | | | |P|q|
        | | | | | |P| | |
        |P|P|P|P|P| | |P|
        |R|N|B|Q|K|B|N|R|
        ",
    );
}

#[test]
fn test_pgn_with_set_up_start_with_black_move() {
    expect_pgn_state(
        "
        [Event \"Fool's Mate\"]
        [SetUp \"1\"]
        [FEN \"rnbqkbnr/pppp1ppp/8/4p3/6P1/5P2/PPPPP2P/RNBQKBNR b KQkq - 0 2\"]

        2... Qh4# 0-1
        ",
        "
        |r|n|b| |k|b|n|r|
        |p|p|p|p| |p|p|p|
        | | | | | | | | |
        | | | | |p| | | |
        | | | | | | |P|q|
        | | | | | |P| | |
        |P|P|P|P|P| | |P|
        |R|N|B|Q|K|B|N|R|
        ",
    );
}

#[test]
fn test_pgn_with_set_up_start_with_black_move_with_no_move_number() {
    expect_pgn_state(
        "
        [Event \"Fool's Mate\"]
        [SetUp \"1\"]
        [FEN \"rnbqkbnr/pppp1ppp/8/4p3/6P1/5P2/PPPPP2P/RNBQKBNR b KQkq - 0 2\"]

        Qh4# 0-1
        ",
        "
        |r|n|b| |k|b|n|r|
        |p|p|p|p| |p|p|p|
        | | | | | | | | |
        | | | | |p| | | |
        | | | | | | |P|q|
        | | | | | |P| | |
        |P|P|P|P|P| | |P|
        |R|N|B|Q|K|B|N|R|
        ",
    );
}

#[test]
fn pgn_failure_names_token_and_move_number() {
    assert_eq!(Game::new_from_pgn("1. e5 1-0").map(|games| games.into_iter().map(|g| g.err()).collect::<Vec<_>>()),
        Ok(vec![Some(String::from("Invalid move in PGN game: e5 (move #1)"))]));
    let games = Game::new_from_pgn("e4 e4 1-0").expect("reads");
    assert_eq!(games[0].as_ref().err().map(|m| m.as_str()), Some("Invalid move in PGN game: e4"));
}

#[test]
fn pgn_failures_are_reported() {
    assert!(Game::new_from_pgn("1. e4 \"open").is_err());
    assert!(Game::new_from_pgn("1. e4 e5").is_err());
    let games = Game::new_from_pgn("1. e4 e5 2. Ke3 1-0 [FEN \"bad\"] 1-0 1. e4 e5 2. Nf3 1-0").expect("reads");
    assert_eq!(games.len(), 3);
    assert_eq!(games[0].as_ref().err().map(|m| m.as_str()), Some("Invalid move in PGN game: Ke3 (move #2)"));
    assert!(games[1].is_err());
    let third = games[2].as_ref().expect("plays");
    assert_eq!(third.position_to_fen(), "rnbqkbnr/pppp1ppp/8/4p3/4P3/5N2/PPPP1PPP/RNBQKB1R b KQkq - 1 2");
}
