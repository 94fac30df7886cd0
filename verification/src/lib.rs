//! Solutions to a series of small daily text puzzles.
//!
//! Each module parses one puzzle's textual input into a small in-memory
//! structure and computes one or two numeric answers from it.  The modules are
//! independent of each other; `text` holds the shared scanning vocabulary
//! (splitting on separators, decimal numbers) that the parsers build on.
use vstd::prelude::*;

pub mod text;

pub mod day1;
pub mod day2;
pub mod day3;
pub mod day4;
pub mod day5;
pub mod day6;
pub mod day7;
pub mod day8;
pub mod day9;
pub mod day10;
pub mod day11;
pub mod day12;
pub mod day13;
pub mod day14;
pub mod day15;
pub mod day16;
