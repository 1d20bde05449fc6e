//! Solutions to a series of daily text puzzles, built around a read-only
//! two-dimensional view over newline-delimited bytes.

pub mod grid;
pub mod text;

pub mod day1;
pub mod day2;
pub mod day3;
pub mod day4;
pub mod day5;
pub mod day6;
pub mod day7;
pub mod day9;
pub mod day10;
pub mod day11;
pub mod day12;
pub mod day13;
pub mod day14;
pub mod day15;
pub mod day17;
pub mod day19;
