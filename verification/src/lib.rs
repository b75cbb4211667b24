//! A verified Wordle solver: scoring, word lists, and exact expectimax play.

pub mod words;
pub mod sort;
pub mod bounds;
pub mod board;
pub mod parts;
pub mod optimal;
pub mod admissible;
pub mod expectation;
pub mod ceiling;
pub mod memo;
pub mod index;
pub mod memory;
pub mod solver;
pub mod natural;
pub mod information;
pub mod text;
pub mod input;
pub mod lists;
pub mod prior;
pub mod play;
pub mod selftest;
pub mod openers;
pub mod analysis;
pub mod letters;
