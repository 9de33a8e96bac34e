use std::collections::HashSet;

use chess::{Board, Color, Game, InvalidMoveError, OccupiedSquare, Piece, Square, ValidMove};

fn piece_of(letter: char) -> OccupiedSquare {
    let color = if letter.is_uppercase() { Color::White } else { Color::Black };
    let piece = match letter.to_ascii_uppercase() {
        'P' => Piece::Pawn,
        'N' => Piece::Knight,
        'B' => Piece::Bishop,
        'R' => Piece::Rook,
        'Q' => Piece::Queen,
        'K' => Piece::King,
        _ => panic!("Invalid piece letter '{}'", letter),
    };
    OccupiedSquare { piece, color }
}

fn read_board(string: &str) -> Board {
    let mut squares = Vec::new();
    for line in string.lines().filter(|line| line.trim().len() > 0).take(8) {
        let cells: Vec<&str> = line.trim().split('|').collect();
        for cell in cells.iter().skip(1).take(8) {
            let cell = cell.trim();
            squares.push(cell.chars().next().map(piece_of));
        }
    }
    Board { squares }
}

fn trim_lines(string: &str) -> String {
    string.lines().map(|line| line.trim()).filter(|line| line.len() > 0).collect::<Vec<&str>>().join("\n")
}

fn read_game(board: &str, next_to_move: Color) -> Game {
    Game::new_for_test(read_board(board), next_to_move)
}

fn expect_game_state(starting_board: &str, moves: &[&str], expected_board: &str) {
    let mut game = read_game(starting_board, Color::White);
    for next_move in moves {
        game = game.make_move(next_move).expect("Invalid move");
    }
    assert_eq!(trim_lines(expected_board), trim_lines(&game.board().diagram()));
}

fn expect_valid_moves(board: &str, next_to_move: Color, moves: &[&str]) {
    let game = read_game(board, next_to_move);
    let valid_moves = game.valid_moves();
    let count = valid_moves.len();
    let actual_moves: HashSet<String> = valid_moves.into_iter().map(|valid_move| valid_move.notation()).collect();
    let expected_moves: HashSet<String> = moves.iter().map(|s| s.to_string()).collect();
    assert_eq!(expected_moves, actual_moves);
    assert_eq!(count, moves.len());
}

#[test]
fn test_reading_positions() {
    let board = read_board(
        "
        |r|n|b|q|k|b|n|r|
        |p|p|p|p|p|p|p|p|
        | | | | | | | | |
        | | | | | | | | |
        | | | | | | | | |
        | | | | | | | | |
        |P|P|P|P|P|P|P|P|
        |R|N|B|Q|K|B|N|R|
    ",
    );
    let back = [Piece::Rook, Piece::Knight, Piece::Bishop, Piece::Queen, Piece::King, Piece::Bishop, Piece::Knight, Piece::Rook];
    let mut squares = Vec::new();
    for p in back {
        squares.push(Some(OccupiedSquare { piece: p, color: Color::Black }));
    }
    for _ in 0..8 {
        squares.push(Some(OccupiedSquare { piece: Piece::Pawn, color: Color::Black }));
    }
    for _ in 0..32 {
        squares.push(None);
    }
    for _ in 0..8 {
        squares.push(Some(OccupiedSquare { piece: Piece::Pawn, color: Color::White }));
    }
    for p in back {
        squares.push(Some(OccupiedSquare { piece: p, color: Color::White }));
    }
    assert_eq!(board, Board { squares });
    assert_eq!(board, Game::standard_position().board);
}

#[test]
fn test_debug_positions() {
    let string = "
        |r|n|b|q|k|b|n|r|
        |p|p|p|p|p|p|p|p|
        | | | | | | | | |
        | | | | | | | | |
        | | | | | | | | |
        | | | | | | | | |
        |P|P|P|P|P|P|P|P|
        |R|N|B|Q|K|B|N|R|
    ";
    let board = read_board(string);
    let board_as_string = board.diagram();
    assert_eq!(trim_lines(string), trim_lines(&board_as_string));
}

#[test]
fn test_generating_pawn_moves_with_white() {
    expect_valid_moves(
        "
        | | | | | | | | |
        | | | | |p| | | |
        | | | | |P| | | |
        | | | | | | | | |
        | | | | | | | | |
        | | |P| | | | | |
        | | | |P|P| | | |
        | | | | | | | | |
        ",
        Color::White,
        &["c4", "d3", "d4", "e3", "e4"],
    );
}

#[test]
fn test_generating_pawn_moves_with_black() {
    expect_valid_moves(
        "
        | | | | | | | | |
        | | |p| |p| | | |
        | | | | |P| | | |
        | | | | | | | | |
        | | | | | | |p| |
        | | |P| | | | | |
        | | | |P|P| | | |
        | | | | | | | | |
        ",
        Color::Black,
        &["c6", "c5", "g3"],
    );
}

#[test]
fn test_pawn_takes() {
    expect_valid_moves(
        "
        | | | | | | | | |
        | | | | | | | | |
        | | | | | |p| | |
        | | | | |P| | | |
        | | | | | | | | |
        | | | | | | | | |
        | | | | | | | | |
        | | | | | | | | |
        ",
        Color::White,
        &["e6", "exf6"],
    );
}

#[test]
fn test_knight_moves() {
    expect_valid_moves(
        "
        | | | | | | | | |
        | | | | | | | | |
        | | | | | | | | |
        | | | | |N| | | |
        | | | | | | | | |
        | | | | | | | | |
        | | | | | | | | |
        | | | | | | | | |
        ",
        Color::White,
        &["Nd7", "Nf7", "Nc6", "Ng6", "Nc4", "Ng4", "Nd3", "Nf3"],
    );
}

#[test]
fn test_knight_moves_at_edge() {
    expect_valid_moves(
        "
        | | | | | | |N| |
        | | | | | | | | |
        | | | | | | | | |
        | | | | | | | | |
        | | | | | | | | |
        | | | | | | | | |
        | | | | | | | | |
        | | | | | | | | |
        ",
        Color::White,
        &["Ne7", "Nf6", "Nh6"],
    );
}

#[test]
fn knight_in_the_corner_has_two_moves() {
    expect_valid_moves(
        "
        | | | | | | | | |
        | | | | | | | | |
        | | | | | | | | |
        | | | | | | | | |
        | | | | | | | | |
        | | | | | | | | |
        | | | | | | | | |
        |N| | | | | | | |
        ",
        Color::White,
        &["Nb3", "Nc2"],
    );
}

#[test]
fn test_rook_moves() {
    expect_valid_moves(
        "
        | | | | | | | | |
        | | | | | | | | |
        | | | | | |R| | |
        | | | | | | | | |
        | | | | | |p| | |
        | | | | | | | | |
        | | | | | | | | |
        | | | | | | | | |
        ",
        Color::White,
        &["Rf8", "Rf7", "Ra6", "Rb6", "Rc6", "Rd6", "Re6", "Rg6", "Rh6", "Rf5", "Rxf4"],
    );
}

#[test]
fn test_rook_moves_cannot_move_past_self_piece() {
    expect_valid_moves(
        "
        | | | | | | | | |
        | | | | | | | | |
        | | | | | |R| | |
        | | | | | | | | |
        | | | | | |P| | |
        | | | | | | | | |
        | | | | | | | | |
        | | | | | | | | |
        ",
        Color::White,
        &["f5", "Rf8", "Rf7", "Ra6", "Rb6", "Rc6", "Rd6", "Re6", "Rg6", "Rh6", "Rf5"],
    );
}

#[test]
fn test_queen_moves() {
    expect_valid_moves(
        "
        | | | | | | | | |
        | | | | |P| | | |
        | | | | | |Q| | |
        | | | | |p| | | |
        | | | | | |P| | |
        | | | | | | | | |
        | | | | | | | | |
        | | | | | | | | |
        ",
        Color::White,
        &[
            "f5", "e8", "fxe5", "Qf8", "Qh8", "Qf7", "Qg7", "Qa6", "Qb6", "Qc6", "Qd6", "Qe6", "Qg6", "Qh6", "Qxe5",
            "Qf5", "Qg5", "Qh4",
        ],
    );
}

#[test]
fn test_bishop_moves() {
    expect_valid_moves(
        "
        | | | | | | | | |
        | | | | |P| | | |
        | | | | | |B| | |
        | | | | |p| | | |
        | | | | | |P| | |
        | | | | | | | | |
        | | | | | | | | |
        | | | | | | | | |
        ",
        Color::White,
        &["f5", "e8", "fxe5", "Bh8", "Bg7", "Bxe5", "Bg5", "Bh4"],
    );
}

#[test]
fn test_king_moves() {
    expect_valid_moves(
        "
        | | | | | | | | |
        | | | | |P| | | |
        | | | | | |K| | |
        | | | | |p| | | |
        | | | | | |P| | |
        | | | | | | | | |
        | | | | | | | | |
        | | | | | | | | |
        ",
        Color::White,
        &["Kf7", "Kg7", "Ke6", "Kg6", "Kxe5", "Kf5", "Kg5", "f5", "e8", "fxe5"],
    );
}

#[test]
fn test_moving_into_check() {
    expect_valid_moves(
        "
        | | | | | | | | | 8
        | | | | | | |r| | 7
        | | | | | |K| |n| 6
        | | | | | | | | | 5
        | | | |Q| | | | | 4
        | | |b| | | | | | 3
        | | | | | | | | | 2
        | | | | | | | | | 1
         a b c d e f g h
        ",
        Color::White,
        &["Kxg7", "Ke6", "Ke5", "Qxc3", "Qe5"],
    );
}

#[test]
fn test_need_to_move_out_of_check() {
    expect_valid_moves(
        "
        | | | | | | | | | 8
        | | | | | | | |n| 7
        | | | | | |K| | | 6
        | | | | | | | | | 5
        | | | |Q| | | | | 4
        | | |b| | | | | | 3
        | | | | | | | | | 2
        | | | | | | | | | 1
         a b c d e f g h
        ",
        Color::White,
        &["Ke7", "Kf7", "Kg7", "Ke6", "Kg6", "Ke5", "Kf5"],
    );
}

#[test]
fn test_simple_moves() {
    expect_game_state(
        "
        |r|n|b|q|k|b|n|r|
        |p|p|p|p|p|p|p|p|
        | | | | | | | | |
        | | | | | | | | |
        | | | | | | | | |
        | | | | | | | | |
        |P|P|P|P|P|P|P|P|
        |R|N|B|Q|K|B|N|R|
        ",
        &["e4", "Nf6"],
        "
        |r|n|b|q|k|b| |r|
        |p|p|p|p|p|p|p|p|
        | | | | | |n| | |
        | | | | | | | | |
        | | | | |P| | | |
        | | | | | | | | |
        |P|P|P|P| |P|P|P|
        |R|N|B|Q|K|B|N|R|
        ",
    );
}

#[test]
fn test_more_complex_moves() {
    expect_game_state(
        "
        |r|n|b|q|k|b|n|r|
        |p|p|p|p|p|p|p|p|
        | | | | | | | | |
        | | | | | | | | |
        | | | | | | | | |
        | | | | | | | | |
        |P|P|P|P|P|P|P|P|
        |R|N|B|Q|K|B|N|R|
        ",
        &["e4", "e5", "Bc4", "Nf6", "Nc3", "Nc6", "Qh5", "Nxh5"],
        "
        |r| |b|q|k|b| |r|
        |p|p|p|p| |p|p|p|
        | | |n| | | | | |
        | | | | |p| | |n|
        | | |B| |P| | | |
        | | |N| | | | | |
        |P|P|P|P| |P|P|P|
        |R| |B| |K| |N|R|
        ",
    );
}

#[test]
fn test_simple_checks() {
    let game = read_game(
        "
        |r|n|b| |k|b|n|r|
        |p|p|p|p| |p|p|p|
        | | | | | | | | |
        | | | | | | | | |
        | | | | | | | |q|
        | | | | | | | | |
        |P|P|P|P|P| |P|P|
        |R|N|B|Q|K|B|N|R|
        ",
        Color::White,
    );
    assert!(game.in_check(Color::White));
    assert!(!game.in_check(Color::Black));
}

#[test]
fn standard_position_has_twenty_moves() {
    let game = Game::new(Game::standard_position());
    let moves = game.valid_moves();
    assert_eq!(moves.len(), 20);
    assert!(moves.iter().all(|m| m.color == Color::White));
    let names: HashSet<String> = moves.iter().map(|m| m.notation()).collect();
    let expected: HashSet<String> = [
        "a3", "b3", "c3", "d3", "e3", "f3", "g3", "h3", "a4", "b4", "c4", "d4", "e4", "f4", "g4", "h4", "Na3", "Nc3", "Nf3",
        "Nh3",
    ]
    .iter()
    .map(|s| s.to_string())
    .collect();
    assert_eq!(names, expected);
}

#[test]
fn piece_generators_list_each_move_once() {
    let game = Game::new_from_fen("8/8/8/4N3/8/8/8/8 w KQkq - 0 1").expect("valid");
    let e5 = Square { rank: 4, file: 4 };
    assert_eq!(game.possible_knight_moves(e5, Color::White).len(), 8);
    let game = Game::new_from_fen("6N1/8/8/8/8/8/8/8 w KQkq - 0 1").expect("valid");
    assert_eq!(game.possible_knight_moves(Square { rank: 7, file: 6 }, Color::White).len(), 3);
    let f6 = Square { rank: 5, file: 5 };
    let game = Game::new_from_fen("8/8/5R2/8/5p2/8/8/8 w KQkq - 0 1").expect("valid");
    assert_eq!(game.possible_rook_moves(f6, Color::White).len(), 11);
    let game = Game::new_from_fen("8/8/5R2/8/5P2/8/8/8 w KQkq - 0 1").expect("valid");
    assert_eq!(game.possible_rook_moves(f6, Color::White).len(), 10);
    let game = Game::new_from_fen("8/4P3/5K2/4p3/5P2/8/8/8 w KQkq - 0 1").expect("valid");
    assert_eq!(game.possible_king_moves(f6, Color::White).len(), 7);
    let game = Game::new_from_fen("8/4P3/5B2/4p3/5P2/8/8/8 w KQkq - 0 1").expect("valid");
    assert_eq!(game.possible_bishop_moves(f6, Color::White).len(), 5);
    let game = Game::new_from_fen("8/4P3/5Q2/4p3/5P2/8/8/8 w KQkq - 0 1").expect("valid");
    assert_eq!(game.possible_queen_moves(f6, Color::White).len(), 15);
    for game in sample_games() {
        let moves = game.valid_moves();
        for (i, a) in moves.iter().enumerate() {
            for b in moves.iter().skip(i + 1) {
                assert!(a.from != b.from || a.to != b.to);
            }
        }
    }
}

fn sample_games() -> Vec<Game> {
    let mut games = vec![Game::new(Game::standard_position())];
    for fen in [
        "r1bqkb1r/pppp1ppp/2n2n2/4p2Q/2B1P3/8/PPPP1PPP/RNB1K1NR w KQkq - 4 4",
        "8/6r1/5K1n/8/3Q4/2b5/8/8 w - - 0 1",
        "rnb1kbnr/pppp1ppp/8/4p3/6Pq/5P2/PPPPP2P/RNBQKBNR w KQkq - 1 3",
        "rnbqkbnr/ppppp1p1/7p/4Pp2/8/8/PPPP1PPP/RNBQKBNR w KQkq f6 0 3",
    ] {
        games.push(Game::new_from_fen(fen).expect("valid fen"));
    }
    games
}

#[test]
fn legal_moves_never_leave_the_king_in_check() {
    for game in sample_games() {
        let mover = game.position.next_to_move;
        for m in game.valid_moves() {
            assert!(!game.make_valid_move(&m).in_check(mover), "{:?}", m);
        }
    }
}

#[test]
fn notation_resolves_back_to_the_move() {
    for game in sample_games() {
        let moves = game.valid_moves();
        for m in &moves {
            let text = m.notation();
            let fitting = moves.iter().filter(|o| o.piece == m.piece && o.to == m.to && o.takes.is_some() == m.takes.is_some()).count();
            let resolved = ValidMove::from_notation(&game, &text);
            if fitting == 1 {
                assert_eq!(resolved, Ok(*m));
            } else {
                assert_eq!(resolved, Err(InvalidMoveError::Ambiguous));
            }
        }
    }
}

#[test]
fn fools_mate_is_mate() {
    let game = Game::new_from_fen("rnb1kbnr/pppp1ppp/8/4p3/6Pq/5P2/PPPPP2P/RNBQKBNR w KQkq - 1 3").expect("valid");
    assert!(game.in_check(Color::White));
    assert!(game.in_mate());
    assert!(game.valid_moves().is_empty());
    assert!(!Game::new(Game::standard_position()).in_mate());
}

#[test]
fn move_errors_are_told_apart() {
    let game = Game::new(Game::standard_position());
    assert_eq!(game.make_move("hello").err(), Some(InvalidMoveError::NoSyntaxMatch));
    assert_eq!(game.make_move("O-O").err(), Some(InvalidMoveError::NoLegalMatch));
    assert_eq!(game.make_move("O-O-O+").err(), Some(InvalidMoveError::NoLegalMatch));
    assert_eq!(game.make_move("O-O-").err(), Some(InvalidMoveError::NoSyntaxMatch));
    assert_eq!(game.make_move("e5").err(), Some(InvalidMoveError::NoLegalMatch));
    assert_eq!(game.make_move("Nd2").err(), Some(InvalidMoveError::NoLegalMatch));
    let two_knights = read_game(
        "
        | | | | |k| | | |
        | | | | | | | | |
        | | | | | | | | |
        | | | | | | | | |
        | | | | | | | | |
        | | | | | | | | |
        | | | | | | | | |
        | |N| | |K|N| | |
        ",
        Color::White,
    );
    assert_eq!(two_knights.make_move("Nd2").err(), Some(InvalidMoveError::Ambiguous));
    assert!(two_knights.make_move("Nh2").is_ok());
}

#[test]
fn notation_accepts_suffixes_and_hints() {
    let game = Game::new(Game::standard_position());
    for token in ["e4", "e4+", "e4#", "Pe4", "e2e4", "2e4", "ee4"] {
        let next = game.make_move(token).expect(token);
        assert_eq!(next.position_to_fen(), "rnbqkbnr/pppppppp/8/8/4P3/8/PPPP1PPP/RNBQKBNR b KQkq e3 0 1");
    }
    assert!(game.make_move("exe4").is_err());
    assert!(game.make_move("Nf3=Q").is_ok());
}

#[test]
fn applying_a_move_updates_every_field() {
    let game = Game::new_from_fen("4k3/8/8/8/8/8/8/4K2R b K - 7 10").expect("valid");
    let m = ValidMove {
        color: Color::Black,
        from: Square { rank: 7, file: 4 },
        to: Square { rank: 7, file: 3 },
        piece: Piece::King,
        takes: None,
        takes_en_passant: false,
        en_passant_square: None,
    };
    let next = game.make_valid_move(&m);
    assert_eq!(next.position_to_fen(), "3k4/8/8/8/8/8/8/4K2R w K - 8 11");
    assert!(!next.draw_by_fifty_move_rule());
    let late = Game::new_from_fen("4k3/8/8/8/8/8/8/4K2R w K - 50 80").expect("valid");
    assert!(late.draw_by_fifty_move_rule());
}

#[test]
fn squares_are_checked_and_written() {
    assert_eq!(Square::new(0, 0), Some(Square { rank: 0, file: 0 }));
    assert_eq!(Square::new(7, 7), Some(Square { rank: 7, file: 7 }));
    assert_eq!(Square::new(8, 0), None);
    assert_eq!(Square::new(0, -1), None);
    assert_eq!(Square::from_notation("a1"), Ok(Square { rank: 0, file: 0 }));
    assert_eq!(Square::from_notation("h8"), Ok(Square { rank: 7, file: 7 }));
    assert_eq!(Square::from_notation("e4x"), Ok(Square { rank: 3, file: 4 }));
    assert_eq!(Square::from_notation("i1"), Err(()));
    assert_eq!(Square::from_notation("a9"), Err(()));
    assert_eq!(Square::from_notation("a"), Err(()));
    let e4 = Square { rank: 3, file: 4 };
    assert_eq!(e4.to_notation(chess::SquareNotationOptions::FileAndRank), "e4");
    assert_eq!(e4.to_notation(chess::SquareNotationOptions::OnlyFile), "e");
    assert_eq!(e4.to_notation(chess::SquareNotationOptions::OnlyRank), "4");
    assert_eq!(Color::White.opposite(), Color::Black);
    assert_eq!(Color::Black.opposite(), Color::White);
}
