//! A chess bot: an opening book learned from past games, personality
//! heuristics scored on plain bitboards, and the decisions of a UCI engine.

pub mod bot;
pub mod engine;
pub mod heuristics;
pub mod opening;
pub mod position;
pub mod server;
pub mod text;
pub mod uci;
