//! A solver for the single-player word game Bananagrams.
//!
//! Given a hand of letter tiles, the solver lays every tile on a square board
//! so that the tiles form one connected crossword whose every run of two or
//! more letters is a word of the dictionary. A solved board can be extended
//! when further tiles are drawn.
//!
//! Every function of this crate is verified against the contract it carries.
//! The few items that rest on trust (the hash sets, the random generator and a
//! handful of standard-library calls) are marked as such where they are declared.

pub mod alphabet;
pub mod board;
pub mod hand;
pub mod line;
pub mod placement;
pub mod wordset;
pub mod runs;
pub mod validator;
pub mod connectivity;
pub mod filters;
pub mod stop;
pub mod bounds;
pub mod search;
pub mod driver;
pub mod usage;
pub mod removal;
pub mod incremental;
pub mod render;
pub mod dictionary;
pub mod input;
pub mod engine;
pub mod random;
pub mod playable;
pub mod laws;
