use crate::order::{pair_le, sorted_pairs};
use crate::solution::Solution;
use crate::text::{chars_of, split_on, parse_u64};
use vstd::prelude::*;

verus! {

/// Sum of `s[i] - m` over all entries.
pub open spec fn sum_above(s: Seq<i32>, m: int) -> int
    decreases s.len(),
{
    if s.len() == 0 {
        0
    } else {
        sum_above(s.drop_last(), m) + (s.last() - m)
    }
}

/// Sum of the distances `|n - s[i]|`.
pub open spec fn distance_sum(s: Seq<i32>, n: int) -> int
    decreases s.len(),
{
    if s.len() == 0 {
        0
    } else {
        distance_sum(s.drop_last(), n) + if n >= s.last() {
            n - s.last()
        } else {
            s.last() - n
        }
    }
}

/// `m` is the least entry of the non-empty `s`.
pub open spec fn is_min_of(s: Seq<i32>, m: i32) -> bool {
    s.contains(m) && forall|i: int| 0 <= i < s.len() ==> m <= #[trigger] s[i]
}

/// The least entry.
pub fn minimum(nums: &Vec<i32>) -> (r: i32)
    requires
        nums@.len() > 0,
    ensures
        is_min_of(nums@, r),
{
    let mut m = nums[0];
    assert(nums@.take(1)[0] == m);
    let mut i: usize = 1;
    while i < nums.len()
        invariant
            1 <= i <= nums@.len(),
            nums@.take(i as int).contains(m),
            forall|k: int| 0 <= k < i ==> m <= #[trigger] nums@[k],
        decreases nums.len() - i,
    {
        if nums[i] < m {
            m = nums[i];
            assert(nums@.take(i + 1)[i as int] == m);
        } else {
            proof {
                let k = choose|k: int| 0 <= k < i && nums@.take(i as int)[k] == m;
                assert(nums@.take(i + 1)[k] == m);
            }
        }
        i = i + 1;
    }
    proof {
        let k = choose|k: int| 0 <= k < nums@.len() && nums@.take(nums@.len() as int)[k] == m;
        assert(nums@[k] == m);
    }
    m
}

/// Sum of `nums[i] - m`, computed in `i64`.
pub fn strikes_above(nums: &Vec<i32>, m: i32) -> (r: i64)
    requires
        nums@.len() <= 0x1000_0000,
    ensures
        r == sum_above(nums@, m as int),
{
    let mut total: i64 = 0;
    let mut i: usize = 0;
    while i < nums.len()
        invariant
            i <= nums@.len(),
            nums@.len() <= 0x1000_0000,
            total == sum_above(nums@.take(i as int), m as int),
            -(i as int) * 0x1_0000_0000 <= total <= (i as int) * 0x1_0000_0000,
        decreases nums.len() - i,
    {
        assert(nums@.take(i + 1).drop_last() == nums@.take(i as int));
        assert((i as int + 1) * 0x1_0000_0000 <= 0x1000_0000 * 0x1_0000_0000) by (nonlinear_arith)
            requires
                i < 0x1000_0000,
        ;
        assert(-(i as int) * 0x1_0000_0000 - 0x1_0000_0000 == -(i as int + 1) * 0x1_0000_0000)
            by (nonlinear_arith);
        total = total + (nums[i] as i64 - m as i64);
        i = i + 1;
    }
    assert(nums@.take(nums@.len() as int) == nums@);
    total
}

/// Sum of the distances from `n` to every entry, computed in `i64`.
pub fn distance_total(nums: &Vec<i32>, n: i64) -> (r: i64)
    requires
        nums@.len() <= 0x1000_0000,
        -0x1_0000_0000 <= n <= 0x1_0000_0000,
    ensures
        r == distance_sum(nums@, n as int),
{
    let mut total: i64 = 0;
    let mut i: usize = 0;
    while i < nums.len()
        invariant
            i <= nums@.len(),
            nums@.len() <= 0x1000_0000,
            -0x1_0000_0000 <= n <= 0x1_0000_0000,
            total == distance_sum(nums@.take(i as int), n as int),
            0 <= total <= (i as int) * 0x2_0000_0000,
        decreases nums.len() - i,
    {
        assert(nums@.take(i + 1).drop_last() == nums@.take(i as int));
        assert((i as int + 1) * 0x2_0000_0000 <= 0x1000_0000 * 0x2_0000_0000) by (nonlinear_arith)
            requires
                i < 0x1000_0000,
        ;
        let x = nums[i] as i64;
        let d = if n >= x {
            n - x
        } else {
            x - n
        };
        total = total + d;
        i = i + 1;
    }
    assert(nums@.take(nums@.len() as int) == nums@);
    total
}

proof fn lemma_map_multiset<A, B>(s1: Seq<A>, s2: Seq<A>, f: spec_fn(A) -> B)
    requires
        s1.to_multiset() == s2.to_multiset(),
    ensures
        s1.map_values(f).to_multiset() == s2.map_values(f).to_multiset(),
    decreases s1.len(),
{
    broadcast use vstd::seq_lib::group_to_multiset_ensures;

    if s1.len() == 0 {
        assert(s2.to_multiset().len() == 0);
        assert(s2.len() == 0);
        assert(s1.map_values(f) =~= s2.map_values(f));
    } else {
        let a = s1[0];
        assert(s1.to_multiset().contains(a));
        assert(s2.contains(a));
        let j = choose|j: int| 0 <= j < s2.len() && s2[j] == a;
        let t1 = s1.remove(0);
        let t2 = s2.remove(j);
        assert(t1.to_multiset() == s1.to_multiset().remove(a));
        assert(t2.to_multiset() == s2.to_multiset().remove(a));
        lemma_map_multiset(t1, t2, f);
        assert(s1.map_values(f).remove(0) =~= t1.map_values(f));
        assert(s2.map_values(f).remove(j) =~= t2.map_values(f));
        let m1 = s1.map_values(f).to_multiset();
        let m2 = s2.map_values(f).to_multiset();
        assert(m1.remove(f(a)) == m2.remove(f(a)));
        assert(m1.contains(f(a)));
        assert(m2.contains(f(a)));
        assert(m1 =~= m1.remove(f(a)).insert(f(a)));
        assert(m2 =~= m2.remove(f(a)).insert(f(a)));
    }
}

/// The entries in ascending order: the same entries, each as often as in `nums`.
pub fn sorted_values(nums: &Vec<i32>) -> (r: Vec<i32>)
    ensures
        r@.to_multiset() == nums@.to_multiset(),
        r@.len() == nums@.len(),
        forall|i: int, j: int| 0 <= i < j < r@.len() ==> #[trigger] r@[i] <= #[trigger] r@[j],
        forall|i: int| 0 <= i < r@.len() ==> nums@.contains(#[trigger] r@[i]),
{
    broadcast use vstd::seq_lib::group_to_multiset_ensures;

    let mut keys: Vec<(u64, usize)> = Vec::new();
    let mut i: usize = 0;
    while i < nums.len()
        invariant
            i <= nums@.len(),
            keys@.len() == i,
            forall|k: int| 0 <= k < i ==> #[trigger] keys@[k] == (
            (nums@[k] as int + 0x8000_0000) as u64, k as usize),
        decreases nums.len() - i,
    {
        keys.push(((nums[i] as i64 + 0x8000_0000) as u64, i));
        i = i + 1;
    }
    let ghost kv = keys@;
    let sorted = sorted_pairs(keys);
    proof {
        assert(sorted@.len() == kv.len()) by {
            assert(sorted@.to_multiset().len() == kv.to_multiset().len());
        }
        assert forall|i: int| 0 <= i < sorted@.len() implies sorted@[i] == kv[sorted@[i].1 as int]
            && sorted@[i].1 < nums@.len() by {
            assert(sorted@.to_multiset().contains(sorted@[i]));
            assert(kv.contains(sorted@[i]));
        }
    }
    let mut out: Vec<i32> = Vec::new();
    let mut j: usize = 0;
    while j < sorted.len()
        invariant
            j <= sorted@.len(),
            out@.len() == j,
            kv.len() == nums@.len(),
            forall|i: int| 0 <= i < sorted@.len() ==> #[trigger] sorted@[i] == kv[sorted@[i].1 as int]
                && sorted@[i].1 < nums@.len(),
            forall|k: int| 0 <= k < kv.len() ==> #[trigger] kv[k] == (
            (nums@[k] as int + 0x8000_0000) as u64, k as usize),
            forall|k: int| 0 <= k < j ==> #[trigger] out@[k] == nums@[sorted@[k].1 as int],
        decreases sorted.len() - j,
    {
        let ix = sorted[j].1;
        assert(ix < nums@.len());
        out.push(nums[ix]);
        j = j + 1;
    }
    proof {
        assert forall|i: int, j: int| 0 <= i < j < out@.len() implies #[trigger] out@[i] <= #[trigger] out@[j] by {
            assert(pair_le(sorted@[i], sorted@[j]));
            assert(sorted@[i] == kv[sorted@[i].1 as int]);
            assert(sorted@[j] == kv[sorted@[j].1 as int]);
        }
        assert forall|i: int| 0 <= i < out@.len() implies nums@.contains(#[trigger] out@[i]) by {
            assert(nums@[sorted@[i].1 as int] == out@[i]);
        }
        let f = |p: (u64, usize)| (p.0 as int - 0x8000_0000) as i32;
        lemma_map_multiset(sorted@, kv, f);
        assert(out@ =~= sorted@.map_values(f));
        assert(nums@ =~= kv.map_values(f));
    }
    out
}

/// Reads one integer per non-empty line; a leading `-` makes it negative.
fn read_numbers(input: &str) -> (r: Option<Vec<i32>>) {
    let text = chars_of(input);
    let lines = split_on(&text, '\n');
    let mut out: Vec<i32> = Vec::new();
    let mut i: usize = 0;
    while i < lines.len()
        invariant
            i <= lines.len(),
        decreases lines.len() - i,
    {
        let line = &lines[i];
        if line.len() > 0 {
            let negative = line[0] == '-';
            let mut digits: Vec<char> = Vec::new();
            let mut k: usize = if negative { 1 } else { 0 };
            while k < line.len()
                invariant
                    k <= line.len(),
                decreases line.len() - k,
            {
                digits.push(line[k]);
                k = k + 1;
            }
            match parse_u64(&digits) {
                Some(v) => {
                    if v > 0x7fff_ffff {
                        return None;
                    }
                    let x = v as i32;
                    out.push(if negative { -x } else { x });
                },
                None => {
                    return None;
                },
            }
        }
        i = i + 1;
    }
    Some(out)
}

/// The nail-leveling day.
pub struct Day4;

impl Solution<i32> for Day4 {
    open spec fn answer1(&self, input: Seq<char>, r: Option<i32>) -> bool {
        true
    }

    open spec fn answer2(&self, input: Seq<char>, r: Option<i32>) -> bool {
        true
    }

    open spec fn answer3(&self, input: Seq<char>, r: Option<i32>) -> bool {
        true
    }

    fn get_day(&self) -> usize {
        4
    }

    fn part1(&self, input: &str) -> Option<i32> {
        let nums = match read_numbers(input) {
            Some(n) => n,
            None => {
                return None;
            },
        };
        if nums.len() == 0 || nums.len() as u64 > 0x1000_0000 {
            return None;
        }
        let m = minimum(&nums);
        let total = strikes_above(&nums, m);
        if total > i32::MAX as i64 || total < i32::MIN as i64 {
            return None;
        }
        Some(total as i32)
    }

    fn part2(&self, input: &str) -> Option<i32> {
        self.part1(input)
    }

    fn part3(&self, input: &str) -> Option<i32> {
        let unsorted = match read_numbers(input) {
            Some(n) => n,
            None => {
                return None;
            },
        };
        if unsorted.len() == 0 || unsorted.len() as u64 > 0x1000_0000 {
            return None;
        }
        let nums = sorted_values(&unsorted);
        let median = nums[nums.len() / 2] as i64;
        let at_median = distance_total(&nums, median);
        let below = distance_total(&nums, median - 1);
        let above = distance_total(&nums, median + 1);
        let best: i64 = if below < at_median {
            let mut min = below;
            let mut current: i64 = median - 2;
            while current >= -0x8000_0000
                invariant
                    -0x8000_0002 <= current <= 0x7fff_ffff,
                    nums@.len() <= 0x1000_0000,
                decreases current + 0x8000_0002,
            {
                let result = distance_total(&nums, current);
                if result < min {
                    min = result;
                    current = current - 1;
                } else {
                    break;
                }
            }
            min
        } else if above < at_median {
            let mut min = above;
            let mut current: i64 = median + 2;
            while current <= 0x7fff_ffff
                invariant
                    -0x8000_0000 <= current <= 0x8000_0001,
                    nums@.len() <= 0x1000_0000,
                decreases 0x8000_0001 - current,
            {
                let result = distance_total(&nums, current);
                if result < min {
                    min = result;
                    current = current + 1;
                } else {
                    break;
                }
            }
            min
        } else {
            at_median
        };
        if best > i32::MAX as i64 {
            return None;
        }
        Some(best as i32)
    }
}

} // verus!
