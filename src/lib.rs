//! An N-dimensional cellular automaton: a dense grid of integer cells that
//! evolves generation by generation under an ordered table of rules.
pub mod automaton;
pub mod coords;
pub mod grid;
pub mod rules;
