//! A solver for square letter-grid word puzzles.
//!
//! A board is a square matrix of letter tiles. A word is found on the board
//! when its letters can be traced through a chain of neighbouring tiles that
//! uses no tile twice. The solver lists every such word of a vocabulary, once
//! each and in the order of the dictionary, and adds up their scores.
//!
//! The modules, from the ground up:
//!
//! - [`position`]: the places on a board and which of them are neighbours;
//! - [`letters`]: the tokens of a board and the words they admit;
//! - [`word`]: vocabulary words, their scores and the admission test;
//! - [`order`]: the order of the dictionary;
//! - [`board`]: the grid of cells;
//! - [`path`]: the letters of the walk in progress and the key of its last
//!   step;
//! - [`visited`]: the cells of the walk in progress;
//! - [`vocabulary`]: the prefix index over the admitted words;
//! - [`trail`]: walks over the board as the contracts speak of them;
//! - [`traversal`]: the search itself;
//! - [`route`]: a board to solve and the answer to it;
//! - [`laws`]: what holds of every search.

pub mod board;
pub mod laws;
pub mod letters;
pub mod order;
pub mod path;
pub mod position;
pub mod route;
pub mod trail;
pub mod traversal;
pub mod visited;
pub mod vocabulary;
pub mod word;
