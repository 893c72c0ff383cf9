//! Solvers for a series of twenty-five programming puzzles.
//!
//! Each puzzle has a module of its own with two entry points, `part_one` and
//! `part_two`, which take the text of the puzzle's input and give its
//! answer. The contract of an entry point says what the answer is for every
//! text, by way of a function on the bytes of the text that the same module
//! defines.
//!
//! A text that is not of the form that the puzzle's solver reads has no
//! answer: `None`. Nor has a text for which the answer, or a number on the
//! way to it, does not fit in the integers that the solver works with. No
//! function of this crate panics.
//!
//! Texts are taken byte by byte: a line, a word, a place of a map or a
//! digit is made of bytes, and white space is ASCII white space.
//!
//! The modules `text` and `grid` hold what the solvers share. The module
//! `outside` holds the calls into other crates, which are believed, not proved.
pub mod text;
pub mod grid;
pub mod outside;
pub mod day01;
pub mod day02;
pub mod day03;
pub mod day04;
pub mod day05;
pub mod day06;
pub mod day07;
pub mod day08;
pub mod day09;
pub mod day10;
pub mod day11;
pub mod day12;
pub mod day13;
pub mod day14;
pub mod day15;
pub mod day16;
pub mod day17;
pub mod day18;
pub mod day19;
pub mod day20;
pub mod day21;
pub mod day22;
pub mod day23;
pub mod day24;
pub mod day25;

