//! A FreeCell engine: cards, the classic numbered deals, the move rules with
//! supermoves and automoves, a game handler with undo, and a journey tracker
//! that records which numbered deals were solved or skipped.

/// Cards, ranks and suits, with their ids and two-character text.
pub mod card;
/// The keys that name the places of the board.
pub mod config;
/// The errors that the engine reports.
pub mod error;
/// The game state, its invariants, and the deal of a numbered game.
pub mod game;
/// The game being played, its undo history, and the journey it reports to.
pub mod game_handler;
/// The journey through the numbered deals.
pub mod journey_handler;
/// The storage of the journey and its byte form.
pub mod journey_repository;
/// Moves, their rules, and automove.
pub mod moves;
/// Reading a game from its canonical text.
pub mod parse;
/// The generator behind the numbered deals.
pub mod prng;
/// The proof that reading the canonical text gives the game back.
pub mod round_trip;
/// Writing a game as its canonical text.
pub mod text;
