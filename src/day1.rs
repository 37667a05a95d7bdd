use crate::solution::Solution;
use crate::text::chars_of;
use vstd::prelude::*;

verus! {

/// The potions a creature needs; `x` stands for no creature.
pub open spec fn creature_potions(c: char) -> Option<i32> {
    if c == 'A' {
        Some(0)
    } else if c == 'B' {
        Some(1)
    } else if c == 'C' {
        Some(3)
    } else if c == 'D' {
        Some(5)
    } else {
        None
    }
}

/// A creature symbol, or `x` for an empty place.
pub open spec fn is_symbol(c: char) -> bool {
    creature_potions(c) is Some || c == 'x'
}

/// The potions of one creature symbol; an empty place needs none.
pub fn p2_map(c: char) -> (r: Option<i32>)
    requires
        is_symbol(c),
    ensures
        r == creature_potions(c),
{
    if c == 'A' {
        Some(0)
    } else if c == 'B' {
        Some(1)
    } else if c == 'C' {
        Some(3)
    } else if c == 'D' {
        Some(5)
    } else {
        None
    }
}

/// Potions for a group of places: each creature's own, plus `k - 1` more for each of the
/// `k` creatures that fight together.
pub open spec fn group_potions(g: Seq<char>) -> int
    decreases g.len(),
{
    group_sum(g) + creatures_in(g) * (creatures_in(g) - 1)
}

pub open spec fn group_sum(g: Seq<char>) -> int
    decreases g.len(),
{
    if g.len() == 0 {
        0
    } else {
        group_sum(g.drop_last()) + match creature_potions(g.last()) {
            Some(p) => p as int,
            None => 0,
        }
    }
}

pub open spec fn creatures_in(g: Seq<char>) -> int
    decreases g.len(),
{
    if g.len() == 0 {
        0
    } else {
        creatures_in(g.drop_last()) + if creature_potions(g.last()) is Some {
            1int
        } else {
            0
        }
    }
}

/// Potions for the places of `s` taken in whole groups of `size`, left to right; a short
/// last group is left out.
pub open spec fn battle_potions(s: Seq<char>, size: int) -> int
    decreases s.len(),
{
    if size <= 0 || s.len() < size {
        0
    } else {
        group_potions(s.take(size)) + battle_potions(s.skip(size), size)
    }
}

/// Potions for the places of `s` taken in whole groups of `size`.
pub fn potions(s: &Vec<char>, size: usize) -> (r: i64)
    requires
        1 <= size <= 3,
        s@.len() <= 0x1_0000_0000,
        forall|i: int| 0 <= i < s@.len() ==> is_symbol(#[trigger] s@[i]),
    ensures
        r == battle_potions(s@, size as int),
{
    let mut total: i64 = 0;
    let mut base: usize = 0;
    let len = s.len();
    assert(s@.skip(0) == s@);
    while size <= len - base
        invariant
            len == s@.len(),
            1 <= size <= 3,
            s@.len() <= 0x1_0000_0000,
            base <= s@.len(),
            forall|i: int| 0 <= i < s@.len() ==> is_symbol(#[trigger] s@[i]),
            total + battle_potions(s@.skip(base as int), size as int) == battle_potions(s@, size as int),
            0 <= total <= 7 * base,
        decreases s.len() - base,
    {
        let ghost rest = s@.skip(base as int);
        let ghost g = rest.take(size as int);
        let mut sum: i64 = 0;
        let mut count: i64 = 0;
        let mut k: usize = 0;
        while k < size
            invariant
                k <= size <= 3,
                len == s@.len(),
                base + size <= s@.len(),
                rest == s@.skip(base as int),
                g == rest.take(size as int),
                forall|i: int| 0 <= i < s@.len() ==> is_symbol(#[trigger] s@[i]),
                sum == group_sum(g.take(k as int)),
                count == creatures_in(g.take(k as int)),
                0 <= sum <= 5 * k,
                0 <= count <= k,
            decreases size - k,
        {
            assert(g.take(k + 1).drop_last() == g.take(k as int));
            let c = s[base + k];
            assert(g[k as int] == c);
            match p2_map(c) {
                Some(p) => {
                    sum = sum + p as i64;
                    count = count + 1;
                },
                None => {},
            }
            k = k + 1;
        }
        assert(g.take(size as int) == g);
        assert(count * (count - 1) <= 2 * count) by (nonlinear_arith)
            requires
                0 <= count <= 3,
        ;
        assert(count * (count - 1) >= 0) by (nonlinear_arith)
            requires
                0 <= count,
        ;
        assert(rest.skip(size as int) == s@.skip(base + size));
        total = total + sum + count * (count - 1);
        base = base + size;
    }
    total
}

/// The creature battle day.
pub struct Day1;

impl Day1 {
    fn solve(input: &str, size: usize, allow_empty: bool, allow_d: bool) -> Option<i32> {
        let s = chars_of(input);
        if s.len() as u64 > 0x1_0000_0000 {
            return None;
        }
        let mut i: usize = 0;
        while i < s.len()
            invariant
                i <= s@.len(),
                forall|k: int| 0 <= k < i ==> is_symbol(#[trigger] s@[k]),
            decreases s.len() - i,
        {
            let c = s[i];
            let ok = c == 'A' || c == 'B' || c == 'C' || (allow_d && c == 'D') || (allow_empty
                && c == 'x');
            if !ok {
                return None;
            }
            i = i + 1;
        }
        if size < 1 || size > 3 {
            return None;
        }
        let total = potions(&s, size);
        if total > i32::MAX as i64 || total < 0 {
            return None;
        }
        Some(total as i32)
    }
}

impl Solution<i32> for Day1 {
    open spec fn answer1(&self, input: Seq<char>, r: Option<i32>) -> bool {
        true
    }

    open spec fn answer2(&self, input: Seq<char>, r: Option<i32>) -> bool {
        true
    }

    open spec fn answer3(&self, input: Seq<char>, r: Option<i32>) -> bool {
        true
    }

    fn get_day(&self) -> usize {
        1
    }

    fn part1(&self, input: &str) -> Option<i32> {
        Day1::solve(input, 1, false, false)
    }

    fn part2(&self, input: &str) -> Option<i32> {
        Day1::solve(input, 2, true, true)
    }

    fn part3(&self, input: &str) -> Option<i32> {
        Day1::solve(input, 3, true, true)
    }
}

} // verus!
