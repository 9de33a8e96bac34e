use chess::{Board, Color, Game, OccupiedSquare, Piece, Position};

fn piece_of(letter: char) -> OccupiedSquare {
    let color = if letter.is_uppercase() { Color::White } else { Color::Black };
    let piece = match letter.to_ascii_uppercase() {
        'P' => Piece::Pawn,
        'N' => Piece::Knight,
        'B' => Piece::Bishop,
        'R' => Piece::Rook,
        'Q' => Piece::Queen,
        'K' => Piece::King,
        _ => panic!("Invalid piece letter '{}'", letter),
    };
    OccupiedSquare { piece, color }
}

fn read_board(string: &str) -> Board {
    let mut squares = Vec::new();
    for line in string.lines().filter(|line| line.trim().len() > 0).take(8) {
        let cells: Vec<&str> = line.trim().split('|').collect();
        for cell in cells.iter().skip(1).take(8) {
            let cell = cell.trim();
            squares.push(cell.chars().next().map(piece_of));
        }
    }
    Board { squares }
}

fn starting_position(board: &str) -> Position {
    Position {
        board: read_board(board),
        next_to_move: Color::White,
        white_can_castle_king_side: true,
        white_can_castle_queen_side: true,
        black_can_castle_king_side: true,
        black_can_castle_queen_side: true,
        en_passant_square: None,
        half_move_clock: 0,
        full_move_counter: 1,
    }
}

fn expect_fen(board: &str, fen: &str) {
    let position = starting_position(board);
    assert_eq!(position.to_fen(), fen);
    assert_eq!(Position::from_fen(fen).expect("Cannot parse FEN").to_fen(), fen);
}

fn expect_fen_moves(board: &str, moves: &[&str], fen: &str, round_trip_fen: &str) {
    let mut game = Game::new(starting_position(board));
    for m in moves {
        game = game.make_move(m).expect(&format!("Cannot make move {}", m));
    }
    assert_eq!(game.position_to_fen(), fen);
    assert_eq!(Position::from_fen(round_trip_fen).expect("Cannot parse FEN").to_fen(), round_trip_fen);
}

#[test]
fn test_initial_board_fen() {
    expect_fen(
        "
        |r|n|b|q|k|b|n|r| 8
        |p|p|p|p|p|p|p|p| 7
        | | | | | | | | | 6
        | | | | | | | | | 5
        | | | | | | | | | 4
        | | | | | | | | | 3
        |P|P|P|P|P|P|P|P| 2
        |R|N|B|Q|K|B|N|R| 1
         a b c d e f g h
        ",
        "rnbqkbnr/pppppppp/8/8/8/8/PPPPPPPP/RNBQKBNR w KQkq - 0 1",
    );
}

#[test]
fn test_simple_board_fen() {
    expect_fen(
        "
        |r|n|b|q|k|b|n|r| 8
        |p|p|p|p|p| |p|p| 7
        | | | | | |p| | | 6
        | | | | |p| |K| | 5
        | | | |P| | | | | 4
        | | | | | | | | | 3
        |P|P|P|P| |P|P|P| 2
        |R|N|B|Q| |B|N|R| 1
         a b c d e f g h
        ",
        "rnbqkbnr/ppppp1pp/5p2/4p1K1/3P4/8/PPPP1PPP/RNBQ1BNR w KQkq - 0 1",
    );
}

// Both half-moves are pawn moves, which reset the half-move clock: it reads 0.
#[test]
fn test_en_passant_square() {
    expect_fen_moves(
        "
        |r|n|b|q|k|b|n|r| 8
        |p|p|p|p|p|p|p| | 7
        | | | | | | | |p| 6
        | | | | | | | | | 5
        | | | | |P| | | | 4
        | | | | | | | | | 3
        |P|P|P|P| |P|P|P| 2
        |R|N|B|Q|K|B|N|R| 1
         a b c d e f g h
        ",
        &["e5", "f5"],
        "rnbqkbnr/ppppp1p1/7p/4Pp2/8/8/PPPP1PPP/RNBQKBNR w KQkq f6 0 2",
        "rnbqkbnr/ppppp1p1/7p/4Pp2/8/8/PPPP1PPP/RNBQKBNR w KQkq f6 2 2",
    );
}

#[test]
fn en_passant_capture_removes_the_passed_pawn() {
    let mut game = Game::new(starting_position(
        "
        |r|n|b|q|k|b|n|r|
        |p|p|p|p|p|p|p| |
        | | | | | | | |p|
        | | | | | | | | |
        | | | | |P| | | |
        | | | | | | | | |
        |P|P|P|P| |P|P|P|
        |R|N|B|Q|K|B|N|R|
        ",
    ));
    for m in ["e5", "f5", "exf6"] {
        game = game.make_move(m).expect("legal move");
    }
    // f5 is index (7 - 4) * 8 + 5, f6 is index (7 - 5) * 8 + 5.
    assert_eq!(game.board().squares[29], None);
    assert_eq!(game.board().squares[21], Some(OccupiedSquare { piece: Piece::Pawn, color: Color::White }));
    assert_eq!(game.position_to_fen(), "rnbqkbnr/ppppp1p1/5P1p/8/8/8/PPPP1PPP/RNBQKBNR b KQkq - 0 2");
}

#[test]
fn fen_round_trips_through_play() {
    let mut game = Game::new(Game::standard_position());
    for m in ["e4", "e5", "Nf3", "Nc6", "Bc4", "Nf6", "Nc3", "Bc5"] {
        game = game.make_move(m).expect("legal move");
        let fen = game.position_to_fen();
        let parsed = Position::from_fen(&fen).expect("own FEN parses");
        assert_eq!(parsed, game.position);
        assert_eq!(parsed.to_fen(), fen);
    }
    assert_eq!(game.position.half_move_clock, 6);
    assert_eq!(game.position.full_move_counter, 5);
}

#[test]
fn fen_reads_every_field() {
    let p = Position::from_fen("8/8/8/8/8/8/8/K6k b Kq e3 12 40").expect("valid");
    assert_eq!(p.next_to_move, Color::Black);
    assert!(p.white_can_castle_king_side);
    assert!(!p.white_can_castle_queen_side);
    assert!(!p.black_can_castle_king_side);
    assert!(p.black_can_castle_queen_side);
    assert_eq!(p.en_passant_square, Some(chess::Square { rank: 2, file: 4 }));
    assert_eq!(p.half_move_clock, 12);
    assert_eq!(p.full_move_counter, 40);
    assert_eq!(p.board.squares.len(), 64);
    assert_eq!(p.board.squares[56], Some(OccupiedSquare { piece: Piece::King, color: Color::White }));
    assert_eq!(p.to_fen(), "8/8/8/8/8/8/8/K6k b Kq e3 12 40");
}

#[test]
fn fen_rejects_malformed_text() {
    let bad = [
        "rnbqkbnr/pppppppp/8/8/8/8/PPPPPPPP/RNBQKBNX w KQkq - 0 1",
        "rnbqkbnr/pppppppp/8/8/8/8/PPPPPPPP w KQkq - 0 1",
        "rnbqkbnr/pppppppp/9/8/8/8/PPPPPPPP/RNBQKBNR w KQkq - 0 1",
        "rnbqkbnr/pppppppp/8/8/8/8/PPPPPPPP/RNBQKBNR x KQkq - 0 1",
        "rnbqkbnr/pppppppp/8/8/8/8/PPPPPPPP/RNBQKBNR w KQxq - 0 1",
        "rnbqkbnr/pppppppp/8/8/8/8/PPPPPPPP/RNBQKBNR w KQkq i9 0 1",
        "rnbqkbnr/pppppppp/8/8/8/8/PPPPPPPP/RNBQKBNR w KQkq - a 1",
        "rnbqkbnr/pppppppp/8/8/8/8/PPPPPPPP/RNBQKBNR w KQkq - 0",
        "rnbqkbnr/pppppppp/8/8/8/8/PPPPPPPP/RNBQKBNR w KQkq - 0 99999999999999999999",
        "",
    ];
    for fen in bad {
        assert!(Position::from_fen(fen).is_err(), "accepted {:?}", fen);
    }
    let err = Position::from_fen("rnbqkbnr/pppppppp/8/8/8/8/PPPPPPPP/RNBQKBNR x KQkq - 0 1").unwrap_err();
    assert!(err.message.contains('x'));
}

#[test]
fn fen_keeps_the_largest_clock() {
    let fen = "8/8/8/8/8/8/8/8 w - - 9223372036854775807 0";
    let p = Position::from_fen(fen).expect("fits i64");
    assert_eq!(p.half_move_clock, i64::MAX);
    assert_eq!(p.to_fen(), fen);
}

#[test]
fn new_from_fen_builds_a_game() {
    let game = Game::new_from_fen("rnbqkbnr/pppppppp/8/8/8/8/PPPPPPPP/RNBQKBNR w KQkq - 0 1").expect("valid");
    assert_eq!(game.position, Game::standard_position());
    assert!(Game::new_from_fen("nonsense").is_err());
}
