//! Chess position model, legal-move generation and move-notation resolution, with the position
//! text codec and the game-record reader around them.
use vstd::prelude::*;

pub mod models;
pub mod text;
pub mod game;
pub mod movegen;
pub mod notation;
pub mod fen;
pub mod fen_round_trip;
pub mod lexer;
pub mod parser;
pub mod pgn;

pub use models::{Board, Color, GameResult, OccupiedSquare, Piece, Position, Square, SquareNotationOptions};
pub use game::{Game, InvalidMoveError, ValidMove};
pub use notation::{PartialMove, PartialSquare};
pub use fen::FenParseError;
pub use lexer::{Lexer, LexerError, PositionInPGN, Token};
pub use parser::{Move, ParseError, ParsedGame, Parser};
pub use parser::Move as PGNMove;
pub use pgn::PGNReadError;

verus! {

} // verus!
