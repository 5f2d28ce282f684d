use vstd::prelude::*;

pub mod arith;
pub mod day01;
pub mod day02;
pub mod day03;
pub mod day04;
pub mod day05;
pub mod day06;
pub mod day07;
pub mod day08;
pub mod day09;
pub mod day10;
pub mod day11;
pub mod day12;
pub mod grid;
pub mod solution;
pub mod text;

verus! {

/// The pair of answers a day-solver reports: one per puzzle part.
pub type SolutionPair = (crate::solution::Solution, crate::solution::Solution);

} // verus!
