//! Verified solutions to a collection of small daily puzzles.
//!
//! The two algorithmic cores are `day12` (breadth-first shortest paths over an
//! elevation grid) and `day15` (subtracting sensor-coverage intervals from a
//! row and locating the one uncovered position).  The remaining modules hold
//! the pure computation of the other puzzles; reading input files and printing
//! answers is left to callers.

pub mod day1;
pub mod day2;
pub mod day3;
pub mod day4;
pub mod day5;
pub mod day6;
pub mod day7;
pub mod day9;
pub mod day10;
pub mod day11;
pub mod day12;
pub mod day13;
pub mod day14;
pub mod day14_visuals;
pub mod day15;
pub mod day17;
pub mod day18;
pub mod parsing;
