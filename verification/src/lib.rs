//! Rules engine for a multiplayer territory-capture board game.
//!
//! A game is played on a graph of cells. Each turn a player either claims an
//! empty cell adjacent to their influence (placing a cross) or converts an
//! opponent's cross into permanently filled territory. The engine keeps, for
//! every cell, a per-player activation count that says how many adjacent
//! active claims make the cell reachable, and it keeps chains of filled
//! territory marked alive or dead through an importance-based traversal
//! strategy that avoids re-scanning whole chains on every move.
//!
//! The crate has three layers, bottom up: the cell state machine and its
//! error values ([`base`]), the concrete board with the chain traversal
//! engine ([`game_board_impl`] and [`engine_impl`], with the capability
//! traits of [`ibts`] on top), and the turn manager ([`player_manager`]).

pub mod base;
pub mod engine_impl;
pub mod game_board_impl;
pub mod ibts;
pub mod player_manager;
