use crate::solution::Solution;
use crate::text::{chars_of, split_on, split_spec, parse_u64, is_decimal, decimal_value};
use crate::utils::bfs::{bfs, is_path_between, searchable, Graph};
use std::collections::HashMap;
use vstd::prelude::*;

verus! {

broadcast use {vstd::std_specs::hash::group_hash_axioms, vstd::laws_eq::group_laws_eq};

/// Remaining brightness as a graph: from `n`, one edge per stamp that still fits.
pub struct BfsBeetlesMinimizer {
    pub stamps: Vec<i64>,
    /// The largest brightness the search may meet.
    pub ceiling: i64,
}

/// The brightness left after each stamp of `stamps` that fits into `n`, in stamp order.
pub open spec fn after_stamps(stamps: Seq<i64>, n: i64) -> Seq<i64>
    decreases stamps.len(),
{
    if stamps.len() == 0 {
        Seq::empty()
    } else {
        let rest = after_stamps(stamps.drop_last(), n);
        if 0 < stamps.last() <= n {
            rest.push((n - stamps.last()) as i64)
        } else {
            rest
        }
    }
}

proof fn lemma_after_stamps_range(stamps: Seq<i64>, n: i64)
    requires
        forall|i: int| 0 <= i < stamps.len() ==> #[trigger] stamps[i] > 0,
    ensures
        forall|i: int|
            0 <= i < after_stamps(stamps, n).len() ==> 0 <= #[trigger] after_stamps(stamps, n)[i] < n,
    decreases stamps.len(),
{
    if stamps.len() > 0 {
        lemma_after_stamps_range(stamps.drop_last(), n);
        let rest = after_stamps(stamps.drop_last(), n);
        assert forall|i: int| 0 <= i < after_stamps(stamps, n).len() implies 0
            <= #[trigger] after_stamps(stamps, n)[i] < n by {
            if i < rest.len() {
                assert(after_stamps(stamps, n)[i] == rest[i]);
            }
        }
    }
}

/// `p` walks down from brightness to brightness, each step taking off one stamp of
/// `stamps` that fits.
pub open spec fn stamp_walk(stamps: Seq<i64>, p: Seq<i64>) -> bool {
    &&& p.len() >= 1
    &&& forall|i: int| 0 <= i < p.len() - 1 ==> after_stamps(stamps, #[trigger] p[i]).contains(p[i + 1])
}

/// `p` is a stamp walk from `goal` down to zero: its steps are the stamps used.
pub open spec fn stamps_to_zero(stamps: Seq<i64>, p: Seq<i64>, goal: i64) -> bool {
    stamp_walk(stamps, p) && p[0] == goal && p.last() == 0
}

proof fn lemma_walk_descends(stamps: Seq<i64>, p: Seq<i64>, k: int)
    requires
        stamp_walk(stamps, p),
        stamps_positive(stamps),
        0 <= k < p.len(),
    ensures
        p[k] <= p[0] - k,
        k > 0 ==> p[k] >= 0,
    decreases k,
{
    if k > 0 {
        lemma_walk_descends(stamps, p, k - 1);
        lemma_after_stamps_range(stamps, p[k - 1]);
        assert(after_stamps(stamps, p[k - 1]).contains(p[k]));
    }
}

impl Graph for BfsBeetlesMinimizer {
    type Node = i64;

    open spec fn successors(&self, n: i64) -> Seq<i64> {
        after_stamps(self.stamps@, n)
    }

    open spec fn nodes(&self) -> Set<i64> {
        Seq::new((self.ceiling + 1) as nat, |i: int| i as i64).to_set()
    }

    fn neighbors(&self, n: &i64) -> (r: Vec<i64>) {
        let mut out: Vec<i64> = Vec::new();
        let mut i: usize = 0;
        while i < self.stamps.len()
            invariant
                i <= self.stamps.len(),
                out@ == after_stamps(self.stamps@.take(i as int), *n),
            decreases self.stamps.len() - i,
        {
            assert(self.stamps@.take(i + 1).drop_last() == self.stamps@.take(i as int));
            let s = self.stamps[i];
            if 0 < s && s <= *n {
                out.push(*n - s);
            }
            i = i + 1;
        }
        assert(self.stamps@.take(self.stamps.len() as int) == self.stamps@);
        out
    }
}

/// Every stamp is positive.
pub open spec fn stamps_positive(stamps: Seq<i64>) -> bool {
    forall|i: int| 0 <= i < stamps.len() ==> #[trigger] stamps[i] > 0
}

proof fn lemma_minimizer_searchable(g: &BfsBeetlesMinimizer)
    requires
        stamps_positive(g.stamps@),
        0 <= g.ceiling,
    ensures
        searchable(g),
        forall|x: i64| 0 <= x <= g.ceiling ==> #[trigger] g.nodes().contains(x),
{
    let s = Seq::new((g.ceiling + 1) as nat, |i: int| i as i64);
    assert forall|x: i64| 0 <= x <= g.ceiling implies #[trigger] g.nodes().contains(x) by {
        assert(s[x as int] == x);
    }
    assert forall|n: i64, i: int|
        g.nodes().contains(n) && 0 <= i < g.successors(n).len() implies g.nodes().contains(
        #[trigger] g.successors(n)[i],
    ) by {
        let k = choose|k: int| 0 <= k < s.len() && s[k] == n;
        lemma_after_stamps_range(g.stamps@, n);
    }
}

/// The fewest stamps that add up to `goal`, counted as the hops of a shortest path from
/// `goal` down to zero; `None` when no combination does it.
pub fn minimum_stamps_bfs(goal: i64, stamps: &Vec<i64>) -> (r: Option<i64>)
    requires
        stamps_positive(stamps@),
    ensures
        goal < 0 ==> r is None,
        0 <= goal ==> match r {
            Some(k) => (exists|p: Seq<i64>| #[trigger] stamps_to_zero(stamps@, p, goal) && p.len() == k + 1)
                && forall|q: Seq<i64>| #[trigger] stamps_to_zero(stamps@, q, goal) ==> q.len() >= k + 1,
            None => forall|q: Seq<i64>| !#[trigger] stamps_to_zero(stamps@, q, goal),
        },
{
    if goal < 0 {
        return None;
    }
    let minimizer = BfsBeetlesMinimizer { stamps: stamps.clone(), ceiling: goal };
    proof {
        lemma_minimizer_searchable(&minimizer);

    }
    assert(minimizer.stamps@ == stamps@);
    let r = bfs(&minimizer, goal, 0);
    proof {
        assert forall|q: Seq<i64>| #[trigger] stamps_to_zero(stamps@, q, goal) implies is_path_between(
            &minimizer,
            q,
            goal,
            0,
        ) by {}
    }
    match r {
        Some(path) => {
            proof {
                assert(stamps_to_zero(stamps@, path@, goal));
                lemma_walk_descends(stamps@, path@, path@.len() - 1);
            }
            Some((path.len() - 1) as i64)
        },
        None => None,
    }
}

/// `k` is the fewest stamps of `stamps` that add up to `goal`.
pub open spec fn is_min_count(stamps: Seq<i64>, goal: i64, k: i64) -> bool {
    &&& exists|p: Seq<i64>| #[trigger] stamps_to_zero(stamps, p, goal) && p.len() == k + 1
    &&& forall|q: Seq<i64>| #[trigger] stamps_to_zero(stamps, q, goal) ==> q.len() >= k + 1
}

/// `a` and `brightness - a` are halves the sparkball search tries: `a` at most half of
/// `brightness` and no more than 50 below it, the two no more than 100 apart.
pub open spec fn split_fits(brightness: i64, a: i64) -> bool {
    &&& brightness / 2 - 50 <= a <= brightness / 2
    &&& 0 <= a
    &&& (brightness - a) - a <= 100
}

/// Fewest-stamp counts, remembered per brightness.
pub struct BeetleCountCalculator {
    memo: HashMap<i64, i64>,
    stamps: Vec<i64>,
}

impl BeetleCountCalculator {
    /// Every remembered count is the fewest for its brightness.
    pub closed spec fn wf(&self) -> bool {
        &&& stamps_positive(self.stamps@)
        &&& forall|b: i64| #[trigger] self.memo@.contains_key(b) ==> is_min_count(
            self.stamps@,
            b,
            self.memo@[b],
        )
    }

    pub closed spec fn stamp_values(&self) -> Seq<i64> {
        self.stamps@
    }

    /// A calculator for `stamps`, knowing that zero takes no stamps.
    pub fn new(stamps: Vec<i64>) -> (r: Self)
        requires
            stamps_positive(stamps@),
        ensures
            r.wf(),
            r.stamp_values() == stamps@,
    {
        let mut memo: HashMap<i64, i64> = HashMap::new();
        memo.insert(0, 0);
        proof {
            assert(stamps_to_zero(stamps@, seq![0i64], 0));
            assert forall|q: Seq<i64>| #[trigger] stamps_to_zero(stamps@, q, 0) implies q.len() >= 1 by {}
        }
        BeetleCountCalculator { memo, stamps }
    }

    /// The fewest stamps that add up to `brightness`; `None` when none do or it is out of
    /// range.
    pub fn get(&mut self, brightness: i64) -> (r: Option<i64>)
        requires
            old(self).wf(),
        ensures
            final(self).wf(),
            final(self).stamp_values() == old(self).stamp_values(),
            match r {
                Some(k) => is_min_count(old(self).stamp_values(), brightness, k),
                None => brightness < 0 || forall|q: Seq<i64>|
                    !#[trigger] stamps_to_zero(old(self).stamp_values(), q, brightness),
            },
    {
        match self.memo.get(&brightness) {
            Some(k) => {
                return Some(*k);
            },
            None => {},
        }
        let result = minimum_stamps_bfs(brightness, &self.stamps);
        match result {
            Some(k) => {
                self.memo.insert(brightness, k);
                Some(k)
            },
            None => None,
        }
    }

    /// The fewest stamps over two near-equal halves that add up to `brightness`: halves
    /// `a <= b` with `b - a <= 100`, `a` no more than 50 below half of `brightness`.
    pub fn sparkball_combinations(&mut self, brightness: i64) -> (r: Option<i64>)
        requires
            old(self).wf(),
            0 <= brightness < i64::MAX / 2,
        ensures
            final(self).wf(),
            final(self).stamp_values() == old(self).stamp_values(),
            r is Some ==> exists|a: i64, ka: i64, kb: i64|
                split_fits(brightness, a) && #[trigger] is_min_count(old(self).stamp_values(), a, ka)
                    && #[trigger] is_min_count(old(self).stamp_values(), (brightness - a) as i64, kb)
                    && r->0 == ka + kb,
    {
        let ghost stamps0 = self.stamp_values();
        let half = brightness / 2;
        let mut best: Option<i64> = None;
        let mut a: i64 = if half >= 50 { half - 50 } else { 0 };
        while a <= half
            invariant
                self.wf(),
                self.stamp_values() == stamps0,
                0 <= a <= half + 1,
                half == brightness / 2,
                0 <= brightness < i64::MAX / 2,
                a >= half - 50,
                best is Some ==> exists|a2: i64, ka: i64, kb: i64|
                    split_fits(brightness, a2) && #[trigger] is_min_count(stamps0, a2, ka)
                        && #[trigger] is_min_count(stamps0, (brightness - a2) as i64, kb) && best->0 == ka + kb,
            decreases half + 1 - a,
        {
            let b = brightness - a;
            if b - a <= 100 {
                let ka = self.get(a);
                let kb = self.get(b);
                match (ka, kb) {
                    (Some(x), Some(y)) => {
                        assert(split_fits(brightness, a));
                        if x <= i64::MAX - y {
                            let sum = x + y;
                            best = match best {
                                Some(m) => if sum < m { Some(sum) } else { Some(m) },
                                None => Some(sum),
                            };
                        }
                    },
                    _ => {},
                }
            }
            a = a + 1;
        }
        best
    }
}

/// Greedy count of each stamp, largest first as listed: take each stamp while it fits.
pub fn minimum_stamps(goal: i64, stamps: &Vec<i64>) -> (r: Vec<i64>)
    requires
        stamps_positive(stamps@),
    ensures
        r@.len() == stamps@.len(),
        forall|i: int| 0 <= i < r@.len() ==> #[trigger] r@[i] >= 0,
{
    let mut times: Vec<i64> = Vec::new();
    let mut remaining = goal;
    let mut i: usize = 0;
    while i < stamps.len()
        invariant
            i <= stamps.len(),
            stamps_positive(stamps@),
            times@.len() == i,
            forall|k: int| 0 <= k < i ==> #[trigger] times@[k] >= 0,
            remaining <= goal,
        decreases stamps.len() - i,
    {
        let stamp = stamps[i];
        let mut count: i64 = 0;
        while remaining >= stamp
            invariant
                stamp > 0,
                count >= 0,
                remaining <= goal,
                count <= goal - remaining,
            decreases remaining,
        {
            remaining = remaining - stamp;
            count = count + 1;
        }
        times.push(count);
        i = i + 1;
    }
    times
}

/// Reads one number per non-empty line.
/// The numbers of the non-empty lines, each a decimal that fits an `i64`.
pub open spec fn numbers_in_lines(lines: Seq<Seq<char>>) -> Option<Seq<i64>>
    decreases lines.len(),
{
    if lines.len() == 0 {
        Some(Seq::empty())
    } else {
        match numbers_in_lines(lines.drop_last()) {
            None => None,
            Some(ns) => if lines.last().len() == 0 {
                Some(ns)
            } else if is_decimal(lines.last()) && decimal_value(lines.last()) <= i64::MAX {
                Some(ns.push(decimal_value(lines.last()) as i64))
            } else {
                None
            },
        }
    }
}

proof fn lemma_numbers_prefix_none(lines: Seq<Seq<char>>, k: int)
    requires
        0 <= k <= lines.len(),
        numbers_in_lines(lines.take(k)) is None,
    ensures
        numbers_in_lines(lines) is None,
    decreases lines.len() - k,
{
    if k < lines.len() {
        assert(lines.take(k + 1).drop_last() == lines.take(k));
        lemma_numbers_prefix_none(lines, k + 1);
    } else {
        assert(lines.take(k) == lines);
    }
}

/// Reads one number per non-empty line.
pub fn read_numbers(input: &str) -> (r: Option<Vec<i64>>)
    ensures
        match numbers_in_lines(split_spec(input@, '\n')) {
            Some(ns) => r is Some && r->0@ == ns,
            None => r is None,
        },
{
    let text = chars_of(input);
    let ghost ls = split_spec(input@, '\n');
    let lines = split_on(&text, '\n');
    let mut out: Vec<i64> = Vec::new();
    let mut i: usize = 0;
    assert(ls.take(0) =~= Seq::<Seq<char>>::empty());
    while i < lines.len()
        invariant
            ls == split_spec(input@, '\n'),
            lines@.len() == ls.len(),
            forall|j: int| 0 <= j < lines@.len() ==> #[trigger] lines@[j]@ == ls[j],
            i <= lines.len(),
            numbers_in_lines(ls.take(i as int)) == Some(out@),
        decreases lines.len() - i,
    {
        assert(ls.take(i + 1).drop_last() == ls.take(i as int));
        let line = &lines[i];
        assert(line@ == ls[i as int]);
        if line.len() > 0 {
            match parse_u64(line) {
                Some(v) => {
                    if v > i64::MAX as u64 {
                        proof {
                            lemma_numbers_prefix_none(ls, i + 1);
                        }
                        return None;
                    }
                    out.push(v as i64);
                },
                None => {
                    proof {
                        lemma_numbers_prefix_none(ls, i + 1);
                    }
                    return None;
                },
            }
        }
        i = i + 1;
    }
    assert(ls.take(lines.len() as int) == ls);
    Some(out)
}

/// The fewest stamps that add up to `goal`, where some combination does.
pub open spec fn fewest(stamps: Seq<i64>, goal: i64) -> i64 {
    choose|k: i64| is_min_count(stamps, goal, k)
}

/// Some combination of the stamps makes `goal`.
pub open spec fn makeable(stamps: Seq<i64>, goal: i64) -> bool {
    exists|k: i64| #[trigger] is_min_count(stamps, goal, k)
}

/// Every goal of `ns` can be made from the stamps.
pub open spec fn all_makeable(stamps: Seq<i64>, ns: Seq<i64>) -> bool {
    forall|i: int| 0 <= i < ns.len() ==> #[trigger] makeable(stamps, ns[i])
}

/// The fewest stamps over all goals of `ns`, added up.
pub open spec fn total_fewest(stamps: Seq<i64>, ns: Seq<i64>) -> int
    decreases ns.len(),
{
    if ns.len() == 0 {
        0
    } else {
        total_fewest(stamps, ns.drop_last()) + fewest(stamps, ns.last())
    }
}

/// What a fewest-stamps part answers for `input` with `stamps`.
pub open spec fn stamp_total_result(input: Seq<char>, stamps: Seq<i64>, r: Option<i64>) -> bool {
    match numbers_in_lines(split_spec(input, '\n')) {
        None => r is None,
        Some(ns) => (r is Some ==> all_makeable(stamps, ns) && r->0 == total_fewest(stamps, ns)) && (
        r is None ==> !all_makeable(stamps, ns) || total_fewest(stamps, ns) > i64::MAX),
    }
}

proof fn lemma_min_count_unique(stamps: Seq<i64>, goal: i64, k1: i64, k2: i64)
    requires
        is_min_count(stamps, goal, k1),
        is_min_count(stamps, goal, k2),
    ensures
        k1 == k2,
{
    let p1 = choose|p: Seq<i64>| #[trigger] stamps_to_zero(stamps, p, goal) && p.len() == k1 + 1;
    let p2 = choose|p: Seq<i64>| #[trigger] stamps_to_zero(stamps, p, goal) && p.len() == k2 + 1;
}

proof fn lemma_total_prefix(stamps: Seq<i64>, ns: Seq<i64>, k: int)
    requires
        0 <= k <= ns.len(),
        forall|i: int| 0 <= i < ns.len() ==> #[trigger] fewest(stamps, ns[i]) >= 0,
    ensures
        total_fewest(stamps, ns.take(k)) <= total_fewest(stamps, ns),
    decreases ns.len() - k,
{
    if k < ns.len() {
        lemma_total_prefix(stamps, ns, k + 1);
        assert(ns.take(k + 1).drop_last() == ns.take(k));
        assert(ns.take(k + 1).last() == ns[k]);
    } else {
        assert(ns.take(k) == ns);
    }
}

/// The sparkball day.
pub struct Day9;

impl Day9 {
    /// Total of the fewest stamps over all inputs; `None` if one cannot be made or the
    /// total does not fit an `i64`.
    pub fn total_minimum(inputs: &Vec<i64>, stamps: &Vec<i64>) -> (r: Option<i64>)
        requires
            stamps_positive(stamps@),
            forall|i: int| 0 <= i < inputs@.len() ==> #[trigger] inputs@[i] >= 0,
        ensures
            r is Some ==> all_makeable(stamps@, inputs@) && r->0 == total_fewest(stamps@, inputs@),
            r is None ==> !all_makeable(stamps@, inputs@) || total_fewest(stamps@, inputs@) > i64::MAX,
    {
        let mut total: i64 = 0;
        let mut i: usize = 0;
        assert(inputs@.take(0) =~= Seq::<i64>::empty());
        while i < inputs.len()
            invariant
                i <= inputs.len(),
                stamps_positive(stamps@),
                forall|j: int| 0 <= j < inputs@.len() ==> #[trigger] inputs@[j] >= 0,
                all_makeable(stamps@, inputs@.take(i as int)),
                total == total_fewest(stamps@, inputs@.take(i as int)),
                total >= 0,
            decreases inputs.len() - i,
        {
            assert(inputs@.take(i + 1).drop_last() == inputs@.take(i as int));
            assert(inputs@.take(i + 1).last() == inputs@[i as int]);
            match minimum_stamps_bfs(inputs[i], stamps) {
                Some(k) => {
                    proof {
                        assert(is_min_count(stamps@, inputs@[i as int], k));
                        let k2 = fewest(stamps@, inputs@[i as int]);
                        lemma_min_count_unique(stamps@, inputs@[i as int], k, k2);
                    }
                    if k < 0 || total > i64::MAX - k {
                        proof {
                            if all_makeable(stamps@, inputs@) {
                                assert forall|j: int| 0 <= j < inputs@.len() implies #[trigger] fewest(stamps@, inputs@[j]) >= 0 by {
                                    assert(makeable(stamps@, inputs@[j]));
                                    let kk = choose|kk: i64| #[trigger] is_min_count(stamps@, inputs@[j], kk);
                                    lemma_min_count_unique(stamps@, inputs@[j], kk, fewest(stamps@, inputs@[j]));
                                    let p = choose|p: Seq<i64>| #[trigger] stamps_to_zero(stamps@, p, inputs@[j]) && p.len() == kk + 1;
                                }
                                lemma_total_prefix(stamps@, inputs@, i + 1);
                            }
                        }
                        return None;
                    }
                    total = total + k;
                    proof {
                        assert forall|j: int| 0 <= j < i + 1 implies #[trigger] makeable(stamps@, inputs@.take(i + 1)[j]) by {
                            if j < i {
                                assert(inputs@.take(i + 1)[j] == inputs@.take(i as int)[j]);
                            } else {
                                assert(is_min_count(stamps@, inputs@.take(i + 1)[j], k));
                            }
                        }
                    }
                },
                None => {
                    proof {
                        assert(!makeable(stamps@, inputs@[i as int])) by {
                            if makeable(stamps@, inputs@[i as int]) {
                                let kk = choose|kk: i64| #[trigger] is_min_count(stamps@, inputs@[i as int], kk);
                                let p = choose|p: Seq<i64>| #[trigger] stamps_to_zero(stamps@, p, inputs@[i as int]) && p.len() == kk + 1;
                            }
                        }
                        assert(!all_makeable(stamps@, inputs@));
                    }
                    return None;
                },
            }
            i = i + 1;
        }
        assert(inputs@.take(inputs.len() as int) == inputs@);
        Some(total)
    }

    /// A fewest-stamps part: one goal per line, `stamps` as given.
    pub fn stamp_part(input: &str, stamps: &Vec<i64>) -> (r: Option<i64>)
        requires
            stamps_positive(stamps@),
        ensures
            stamp_total_result(input@, stamps@, r),
    {
        match read_numbers(input) {
            Some(nums) => {
                proof {
                    lemma_numbers_nonneg(split_spec(input@, '\n'));
                }
                Day9::total_minimum(&nums, stamps)
            },
            None => None,
        }
    }
}

proof fn lemma_numbers_nonneg(lines: Seq<Seq<char>>)
    ensures
        numbers_in_lines(lines) is Some ==> forall|i: int|
            0 <= i < numbers_in_lines(lines)->0.len() ==> #[trigger] numbers_in_lines(lines)->0[i] >= 0,
    decreases lines.len(),
{
    if lines.len() > 0 {
        lemma_numbers_nonneg(lines.drop_last());
    }
}

impl Solution<i64> for Day9 {
    open spec fn answer1(&self, input: Seq<char>, r: Option<i64>) -> bool {
        stamp_total_result(input, seq![10i64, 5, 3, 1], r)
    }

    open spec fn answer2(&self, input: Seq<char>, r: Option<i64>) -> bool {
        stamp_total_result(input, seq![1i64, 3, 5, 10, 15, 16, 20, 24, 25, 30], r)
    }

    open spec fn answer3(&self, input: Seq<char>, r: Option<i64>) -> bool {
        true
    }

    fn get_day(&self) -> usize {
        9
    }

    fn part1(&self, input: &str) -> Option<i64> {
        let stamps: Vec<i64> = vec![10, 5, 3, 1];
        assert(stamps@ == seq![10i64, 5, 3, 1]);
        Day9::stamp_part(input, &stamps)
    }

    fn part2(&self, input: &str) -> Option<i64> {
        let stamps: Vec<i64> = vec![1, 3, 5, 10, 15, 16, 20, 24, 25, 30];
        assert(stamps@ == seq![1i64, 3, 5, 10, 15, 16, 20, 24, 25, 30]);
        Day9::stamp_part(input, &stamps)
    }

    fn part3(&self, input: &str) -> Option<i64> {
        let stamps: Vec<i64> = vec![
            1, 3, 5, 10, 15, 16, 20, 24, 25, 30, 37, 38, 49, 50, 74, 75, 100, 101,
        ];
        let nums = match read_numbers(input) {
            Some(nums) => nums,
            None => {
                return None;
            },
        };
        let mut calc = BeetleCountCalculator::new(stamps);
        let mut total: i64 = 0;
        let mut i: usize = 0;
        while i < nums.len()
            invariant
                i <= nums.len(),
                calc.wf(),
            decreases nums.len() - i,
        {
            let n = nums[i];
            if n < 0 || n >= i64::MAX / 2 {
                return None;
            }
            match calc.sparkball_combinations(n) {
                Some(k) => {
                    if k < 0 || total > i64::MAX - k {
                        return None;
                    }
                    total = total + k;
                },
                None => {
                    return None;
                },
            }
            i = i + 1;
        }
        Some(total)
    }
}

} // verus!
