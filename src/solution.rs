use vstd::prelude::*;

verus! {

/// One puzzle day: its number and its three parts.
///
/// A part answers `None` when the day does not compute it, or when its input cannot be
/// worked on. Implementors hold no state between calls. Each part's answer is what the
/// day's matching spec function admits for the input text.
pub trait Solution<T> {
    /// The answers part one may give for `input`.
    spec fn answer1(&self, input: Seq<char>, r: Option<T>) -> bool;

    /// The answers part two may give for `input`.
    spec fn answer2(&self, input: Seq<char>, r: Option<T>) -> bool;

    /// The answers part three may give for `input`.
    spec fn answer3(&self, input: Seq<char>, r: Option<T>) -> bool;

    /// The day's number.
    fn get_day(&self) -> usize;

    fn part1(&self, input: &str) -> (r: Option<T>)
        ensures
            self.answer1(input@, r),
    ;

    fn part2(&self, input: &str) -> (r: Option<T>)
        ensures
            self.answer2(input@, r),
    ;

    fn part3(&self, input: &str) -> (r: Option<T>)
        ensures
            self.answer3(input@, r),
    ;
}

} // verus!
