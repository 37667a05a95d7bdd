use crate::solution::Solution;
use vstd::prelude::*;

verus! {

/// The starting point for a new day: no part is computed yet.
pub struct Day5;

impl Solution<i64> for Day5 {
    open spec fn answer1(&self, input: Seq<char>, r: Option<i64>) -> bool {
        r is None
    }

    open spec fn answer2(&self, input: Seq<char>, r: Option<i64>) -> bool {
        r is None
    }

    open spec fn answer3(&self, input: Seq<char>, r: Option<i64>) -> bool {
        r is None
    }

    fn get_day(&self) -> usize {
        5
    }

    fn part1(&self, input: &str) -> Option<i64> {
        None
    }

    fn part2(&self, input: &str) -> Option<i64> {
        None
    }

    fn part3(&self, input: &str) -> Option<i64> {
        None
    }
}

} // verus!
