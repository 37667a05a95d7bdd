use crate::solution::Solution;
use crate::utils::cycle_finder::CycleFinder;
use crate::text::{chars_of, split_on, split_spec, is_decimal, is_digit, parse_u64, parse_u128, decimal_digits, decimal_string, decimal_value, string_from_chars};
use std::collections::HashMap;
use vstd::prelude::*;

verus! {

broadcast use vstd::std_specs::hash::group_hash_axioms;

/// The dance floor as a mathematical value: four columns of clappers and the active one.
pub struct DanceView {
    pub columns: Seq<Seq<u64>>,
    pub current: int,
}

/// Where a clapper numbered `clapper` joins a column of `len` clappers: it walks down one
/// side and back up the other, whole rounds ignored.
pub open spec fn insert_position(clapper: int, len: int) -> int {
    let idx = clapper % (2 * len);
    if idx == 0 {
        1
    } else if idx <= len {
        idx - 1
    } else {
        len - (idx - len - 1)
    }
}

impl DanceView {
    pub open spec fn wf(self) -> bool {
        self.columns.len() == 4 && 0 <= self.current < 4
    }

    /// The column that becomes active after the current one.
    pub open spec fn next_column(self) -> int {
        (self.current + 1) % 4
    }

    /// A dance can be done: the active column has a clapper and the next one is not empty.
    pub open spec fn can_dance(self) -> bool {
        &&& self.wf()
        &&& self.columns[self.current].len() > 0
        &&& self.columns[self.next_column()].len() > 0
    }

    /// One dance: the active column's first clapper leaves it and joins the next column.
    pub open spec fn danced(self) -> DanceView {
        let clapper = self.columns[self.current][0];
        let nc = self.next_column();
        let target = self.columns[nc];
        let pos = insert_position(clapper as int, target.len() as int);
        DanceView {
            columns: self.columns.update(self.current, self.columns[self.current].drop_first()).update(
                nc,
                target.insert(pos, clapper),
            ),
            current: nc,
        }
    }

    /// Every column has a first clapper.
    pub open spec fn heads_present(self) -> bool {
        forall|i: int| 0 <= i < self.columns.len() ==> (#[trigger] self.columns[i]).len() > 0
    }

    /// The shout: the first clappers of the four columns, written in decimal one after
    /// the other.
    pub open spec fn shout(self) -> Seq<char> {
        decimal_digits(self.columns[0][0] as nat) + decimal_digits(self.columns[1][0] as nat)
            + decimal_digits(self.columns[2][0] as nat) + decimal_digits(self.columns[3][0] as nat)
    }
}

/// Four columns of clappers, one of them dancing.
#[derive(Debug, Clone, PartialEq, Eq, Hash)]
pub struct Day5World {
    columns: Vec<Vec<u64>>,
    current_dancing_column: usize,
}

impl View for Day5World {
    type V = DanceView;

    closed spec fn view(&self) -> DanceView {
        DanceView {
            columns: self.columns@.map_values(|c: Vec<u64>| c@),
            current: self.current_dancing_column as int,
        }
    }
}

/// The numbers among `words`: empty words are skipped, the others read as numbers;
/// `None` when one is not a number that fits a `u64`.
pub open spec fn numbers_of(words: Seq<Seq<char>>) -> Option<Seq<u64>>
    decreases words.len(),
{
    if words.len() == 0 {
        Some(Seq::empty())
    } else {
        match numbers_of(words.drop_last()) {
            None => None,
            Some(ns) => if words.last().len() == 0 {
                Some(ns)
            } else if is_decimal(words.last()) && decimal_value(words.last()) <= u64::MAX {
                Some(ns.push(decimal_value(words.last()) as u64))
            } else {
                None
            },
        }
    }
}

/// The rows of clappers: one per non-empty line, each line four numbers apart by spaces.
pub open spec fn rows_of(lines: Seq<Seq<char>>) -> Option<Seq<Seq<u64>>>
    decreases lines.len(),
{
    if lines.len() == 0 {
        Some(Seq::empty())
    } else {
        match rows_of(lines.drop_last()) {
            None => None,
            Some(rs) => if lines.last().len() == 0 {
                Some(rs)
            } else {
                match numbers_of(split_spec(lines.last(), ' ')) {
                    Some(ns) => if ns.len() == 4 {
                        Some(rs.push(ns))
                    } else {
                        None
                    },
                    None => None,
                }
            },
        }
    }
}

/// The floor a text describes: column `c` holds the `c`-th number of each row, in order;
/// the first column dances first.
pub open spec fn floor_of(text: Seq<char>) -> Option<DanceView> {
    match rows_of(split_spec(text, '\n')) {
        None => None,
        Some(rs) => Some(
            DanceView {
                columns: Seq::new(4, |c: int| Seq::new(rs.len(), |i: int| rs[i][c])),
                current: 0,
            },
        ),
    }
}

proof fn lemma_numbers_prefix_none(words: Seq<Seq<char>>, k: int)
    requires
        0 <= k <= words.len(),
        numbers_of(words.take(k)) is None,
    ensures
        numbers_of(words) is None,
    decreases words.len() - k,
{
    if k < words.len() {
        assert(words.take(k + 1).drop_last() == words.take(k));
        lemma_numbers_prefix_none(words, k + 1);
    } else {
        assert(words.take(k) == words);
    }
}

proof fn lemma_rows_prefix_none(lines: Seq<Seq<char>>, k: int)
    requires
        0 <= k <= lines.len(),
        rows_of(lines.take(k)) is None,
    ensures
        rows_of(lines) is None,
    decreases lines.len() - k,
{
    if k < lines.len() {
        assert(lines.take(k + 1).drop_last() == lines.take(k));
        lemma_rows_prefix_none(lines, k + 1);
    } else {
        assert(lines.take(k) == lines);
    }
}

impl Day5World {
    /// Reads the numbers of one line.
    fn line_numbers(line: &Vec<char>) -> (r: Option<Vec<u64>>)
        ensures
            match numbers_of(split_spec(line@, ' ')) {
                Some(ns) => r is Some && r->0@ == ns,
                None => r is None,
            },
    {
        let ghost ws = split_spec(line@, ' ');
        let words = split_on(line, ' ');
        let mut nums: Vec<u64> = Vec::new();
        let mut w: usize = 0;
        assert(ws.take(0) =~= Seq::<Seq<char>>::empty());
        while w < words.len()
            invariant
                ws == split_spec(line@, ' '),
                words@.len() == ws.len(),
                forall|j: int| 0 <= j < words@.len() ==> #[trigger] words@[j]@ == ws[j],
                w <= words.len(),
                numbers_of(ws.take(w as int)) == Some(nums@),
            decreases words.len() - w,
        {
            assert(ws.take(w + 1).drop_last() == ws.take(w as int));
            assert(words@[w as int]@ == ws[w as int]);
            if words[w].len() > 0 {
                match parse_u64(&words[w]) {
                    Some(v) => {
                        nums.push(v);
                    },
                    None => {
                        proof {
                            lemma_numbers_prefix_none(ws, w + 1);
                        }
                        return None;
                    },
                }
            }
            w = w + 1;
        }
        assert(ws.take(words.len() as int) == ws);
        Some(nums)
    }

    /// Reads the rows of clappers: each non-empty line gives one clapper to each of the
    /// four columns.
    pub fn from_text(text: &Vec<char>) -> (r: Option<Day5World>)
        ensures
            match floor_of(text@) {
                Some(v) => r is Some && r->0@ == v,
                None => r is None,
            },
            r is Some ==> r->0@.wf() && r->0@.current == 0,
    {
        let ghost ls = split_spec(text@, '\n');
        let lines = split_on(text, '\n');
        let mut columns: Vec<Vec<u64>> = vec![Vec::new(), Vec::new(), Vec::new(), Vec::new()];
        let ghost mut rs: Seq<Seq<u64>> = Seq::empty();
        let mut i: usize = 0;
        assert(ls.take(0) =~= Seq::<Seq<char>>::empty());
        while i < lines.len()
            invariant
                ls == split_spec(text@, '\n'),
                lines@.len() == ls.len(),
                forall|j: int| 0 <= j < lines@.len() ==> #[trigger] lines@[j]@ == ls[j],
                i <= lines.len(),
                columns@.len() == 4,
                rows_of(ls.take(i as int)) == Some(rs),
                forall|j: int| 0 <= j < rs.len() ==> (#[trigger] rs[j]).len() == 4,
                forall|c: int|
                    0 <= c < 4 ==> (#[trigger] columns@[c])@ == Seq::new(rs.len(), |j: int| rs[j][c]),
            decreases lines.len() - i,
        {
            assert(ls.take(i + 1).drop_last() == ls.take(i as int));
            let line = &lines[i];
            assert(line@ == ls[i as int]);
            if line.len() > 0 {
                let nums = match Day5World::line_numbers(line) {
                    Some(n) => n,
                    None => {
                        proof {
                            lemma_rows_prefix_none(ls, i + 1);
                        }
                        return None;
                    },
                };
                if nums.len() != 4 {
                    proof {
                        lemma_rows_prefix_none(ls, i + 1);
                    }
                    return None;
                }
                let ghost before = columns@;
                let mut c: usize = 0;
                while c < 4
                    invariant
                        c <= 4,
                        nums@.len() == 4,
                        columns@.len() == 4,
                        forall|k: int| 0 <= k < c ==> (#[trigger] columns@[k])@ == before[k]@.push(nums@[k]),
                        forall|k: int| c <= k < 4 ==> #[trigger] columns@[k] == before[k],
                    decreases 4 - c,
                {
                    let v = nums[c];
                    columns[c].push(v);
                    c = c + 1;
                }
                proof {
                    let rs0 = rs;
                    rs = rs.push(nums@);
                    assert forall|k: int| 0 <= k < 4 implies (#[trigger] columns@[k])@ == Seq::new(
                        rs.len(),
                        |j: int| rs[j][k],
                    ) by {
                        assert(columns@[k]@ =~= Seq::new(rs.len(), |j: int| rs[j][k]));
                    }
                }
            }
            i = i + 1;
        }
        assert(ls.take(lines.len() as int) == ls);
        let world = Day5World { columns, current_dancing_column: 0 };
        proof {
            let v = floor_of(text@)->0;
            assert(world@.columns =~= v.columns) by {
                assert forall|k: int| 0 <= k < 4 implies #[trigger] world@.columns[k] == v.columns[k] by {
                    assert(world@.columns[k] == columns@[k]@);
                }
            }
        }
        Some(world)
    }

    /// One dance; returns the shout afterwards. `None`, with nothing changed, when the
    /// active column or the next one is empty; `None` after the dance when a column has
    /// run empty.
    pub fn dance(&mut self) -> (r: Option<Vec<char>>)
        requires
            old(self)@.wf(),
        ensures
            final(self)@.wf(),
            old(self)@.can_dance() ==> final(self)@ == old(self)@.danced(),
            !old(self)@.can_dance() ==> final(self)@ == old(self)@ && r is None,
            match r {
                Some(s) => old(self)@.can_dance() && final(self)@.heads_present() && s@
                    == final(self)@.shout(),
                None => !old(self)@.can_dance() || !final(self)@.heads_present(),
            },
    {
        let ghost v0 = self@;
        let cur = self.current_dancing_column;
        let nc = (cur + 1) % 4;
        if self.columns[cur].len() == 0 || self.columns[nc].len() == 0 {
            return None;
        }
        let clapper = self.columns[cur].remove(0);
        let len = self.columns[nc].len() as u128;
        let idx = clapper as u128 % (len * 2);
        let pos: u128 = if idx == 0 {
            1
        } else if idx <= len {
            idx - 1
        } else {
            len - (idx - len - 1)
        };
        self.columns[nc].insert(pos as usize, clapper);
        self.current_dancing_column = nc;
        proof {
            let after = v0.danced();
            assert(self@.columns =~= after.columns) by {
                assert forall|i: int| 0 <= i < 4 implies #[trigger] self@.columns[i] == after.columns[i] by {
                    if i == cur as int {
                        assert(self.columns@[i]@ =~= v0.columns[i].drop_first());
                    }
                }
            }
        }
        let mut k: usize = 0;
        while k < 4
            invariant
                k <= 4,
                self@.wf(),
                v0.can_dance(),
                v0 == old(self)@,
                self@ == v0.danced(),
                forall|i: int| 0 <= i < k ==> (#[trigger] self@.columns[i]).len() > 0,
            decreases 4 - k,
        {
            assert(self@.columns[k as int] == self.columns@[k as int]@);
            if self.columns[k].len() == 0 {
                return None;
            }
            k = k + 1;
        }
        let mut out: Vec<char> = Vec::new();
        let mut c: usize = 0;
        while c < 4
            invariant
                c <= 4,
                self@.wf(),
                v0.can_dance(),
                v0 == old(self)@,
                self@ == v0.danced(),
                self@.heads_present(),
                out@ == shout_prefix(self@, c as int),
            decreases 4 - c,
        {
            assert(self@.columns[c as int] == self.columns@[c as int]@);
            let digits = decimal_string(self.columns[c][0] as u128);
            let mut t: usize = 0;
            let ghost before = out@;
            while t < digits.len()
                invariant
                    t <= digits.len(),
                    out@ == before + digits@.take(t as int),
                decreases digits.len() - t,
            {
                out.push(digits[t]);
                t = t + 1;
            }
            assert(digits@.take(digits.len() as int) == digits@);
            c = c + 1;
        }
        proof {
            reveal_with_fuel(shout_prefix, 5);
            let v = self@;
            assert(Seq::<char>::empty() + decimal_digits(v.columns[0][0] as nat) == decimal_digits(
                v.columns[0][0] as nat,
            ));
        }
        Some(out)
    }
}

/// The shout of the first `c` columns.
pub open spec fn shout_prefix(v: DanceView, c: int) -> Seq<char>
    decreases c,
{
    if c <= 0 {
        Seq::empty()
    } else {
        shout_prefix(v, c - 1) + decimal_digits(v.columns[c - 1][0] as nat)
    }
}

/// The floor after `n` dances.
pub open spec fn after_dances(v: DanceView, n: nat) -> DanceView
    decreases n,
{
    if n == 0 {
        v
    } else {
        after_dances(v, (n - 1) as nat).danced()
    }
}

/// The value of the shout heard after dance `n`.
pub open spec fn shout_value_after(v: DanceView, n: nat) -> nat {
    decimal_value(after_dances(v, n).shout())
}

/// How many of the first `r` dances ended with a shout of value `value`.
pub open spec fn shout_count(v: DanceView, value: nat, r: nat) -> nat
    decreases r,
{
    if r == 0 {
        0
    } else {
        shout_count(v, value, (r - 1) as nat) + if shout_value_after(v, r) == value {
            1nat
        } else {
            0nat
        }
    }
}

/// Dance `n + 1` can be done from the floor after `n` dances, and leaves every column
/// with a first clapper.
pub open spec fn dance_ok(v: DanceView, n: nat) -> bool {
    after_dances(v, n).can_dance() && after_dances(v, n + 1).heads_present()
}

/// At round `round` the shout of value `value` is heard for the `times`-th time, and no
/// shout had been heard that often before.
pub open spec fn shout_reaches(v: DanceView, times: nat, round: nat, value: nat) -> bool {
    &&& round >= 1
    &&& value == shout_value_after(v, round)
    &&& shout_count(v, value, round) == times
    &&& forall|x: nat| #[trigger] shout_count(v, x, (round - 1) as nat) < times
}

/// The search gives up after `n` rounds with no shout heard `times` times: the round
/// budget is spent, the next dance cannot be done, or its shout does not fit a `u128`.
pub open spec fn search_gives_up(v: DanceView, times: nat, max_rounds: nat, n: nat) -> bool {
    &&& forall|x: nat| #[trigger] shout_count(v, x, n) < times
    &&& n >= max_rounds || !dance_ok(v, n) || shout_value_after(v, n + 1) > u128::MAX
}

proof fn lemma_digits_decimal(n: nat)
    ensures
        is_decimal(decimal_digits(n)),
    decreases n,
{
    if n >= 10 {
        lemma_digits_decimal(n / 10);
        let d = decimal_digits(n / 10);
        let c = ('0' as u8 + (n % 10) as u8) as char;
        assert(forall|i: int| 0 <= i < d.push(c).len() ==> #[trigger] d.push(c)[i] == if i < d.len() { d[i] } else { c });
    }
}

proof fn lemma_concat_decimal(a: Seq<char>, b: Seq<char>)
    requires
        is_decimal(a),
        is_decimal(b),
    ensures
        is_decimal(a + b),
{
    assert forall|i: int| 0 <= i < (a + b).len() implies is_digit(#[trigger] (a + b)[i]) by {
        if i < a.len() {
            assert((a + b)[i] == a[i]);
        } else {
            assert((a + b)[i] == b[i - a.len()]);
        }
    }
}

proof fn lemma_shout_decimal(v: DanceView)
    ensures
        is_decimal(v.shout()),
{
    lemma_digits_decimal(v.columns[0][0] as nat);
    lemma_digits_decimal(v.columns[1][0] as nat);
    lemma_digits_decimal(v.columns[2][0] as nat);
    lemma_digits_decimal(v.columns[3][0] as nat);
    let d0 = decimal_digits(v.columns[0][0] as nat);
    let d1 = decimal_digits(v.columns[1][0] as nat);
    let d2 = decimal_digits(v.columns[2][0] as nat);
    let d3 = decimal_digits(v.columns[3][0] as nat);
    lemma_concat_decimal(d0, d1);
    lemma_concat_decimal(d0 + d1, d2);
    lemma_concat_decimal(d0 + d1 + d2, d3);
}

/// The dance day.
pub struct Day5;

/// How many dances the open-ended parts try before giving up.
pub const DANCE_LIMIT: u64 = 10_000_000;

/// What part one of the dance day answers for `input`.
pub open spec fn tenth_shout_result(input: Seq<char>, r: Option<String>) -> bool {
    &&& (match floor_of(input) {
        Some(v) => (r is Some <==> forall|m: nat| m < 10 ==> #[trigger] dance_ok(v, m))
            && (r is Some ==> r->0@ == after_dances(v, 10).shout()),
        None => r is None,
    })
}

/// What part two of the dance day answers for `input`.
pub open spec fn product_result(input: Seq<char>, r: Option<String>) -> bool {
    &&& (floor_of(input) is None ==> r is None)
    &&& (r is Some ==> exists|round: nat, value: nat|
        #[trigger] shout_reaches(floor_of(input)->0, 2024, round, value) && r->0@
            == decimal_digits(round * value))
    &&& (r is None && floor_of(input) is Some ==> (exists|n: nat|
        #[trigger] search_gives_up(floor_of(input)->0, 2024, DANCE_LIMIT as nat, n)) || (
    exists|round: nat, value: nat|
        #[trigger] shout_reaches(floor_of(input)->0, 2024, round, value) && round * value
            > u128::MAX))
}

impl Day5 {
    /// Dances until some shout has been heard `times` times, for at most `max_rounds`
    /// rounds; returns that round (counted from one) and the shout's value. `None` when the
    /// rounds run out first, a dance cannot be done, or a shout does not fit a `u128`.
    pub fn first_repeated_shout(world: &mut Day5World, times: u64, max_rounds: u64) -> (r: Option<
        (u64, u128),
    >)
        requires
            old(world)@.wf(),
            times >= 1,
        ensures
            match r {
                Some((round, value)) => shout_reaches(old(world)@, times as nat, round as nat, value as nat)
                    && 1 <= round <= max_rounds,
                None => exists|n: nat| #[trigger] search_gives_up(old(world)@, times as nat, max_rounds as nat, n),
            },
    {
        let ghost v0 = world@;
        let mut counts: HashMap<u128, u64> = HashMap::new();
        let mut round: u64 = 1;
        while round <= max_rounds
            invariant
                world@.wf(),
                v0 == old(world)@,
                times >= 1,
                1 <= round,
                round - 1 <= max_rounds,
                world@ == after_dances(v0, (round - 1) as nat),
                forall|x: u128| #[trigger] counts@.contains_key(x) ==> counts@[x] == shout_count(v0, x as nat, (round - 1) as nat),
                forall|x: nat| !(x <= u128::MAX && counts@.contains_key(x as u128)) ==> #[trigger] shout_count(v0, x, (round - 1) as nat) == 0,
                forall|x: nat| #[trigger] shout_count(v0, x, (round - 1) as nat) < times,
            decreases max_rounds as int + 1 - round as int,
        {
            let ghost n = (round - 1) as nat;
            let shout = match world.dance() {
                Some(s) => s,
                None => {
                    assert(search_gives_up(v0, times as nat, max_rounds as nat, n));
                    return None;
                },
            };
            assert(world@ == after_dances(v0, round as nat));
            let value = match parse_u128(&shout) {
                Some(v) => v,
                None => {
                    proof {
                        lemma_shout_decimal(after_dances(v0, round as nat));
                    }
                    assert(search_gives_up(v0, times as nat, max_rounds as nat, n));
                    return None;
                },
            };
            let seen = match counts.get(&value) {
                Some(c) => *c,
                None => 0,
            };
            proof {
                assert(value == shout_value_after(v0, round as nat));
                if counts@.contains_key(value) {
                    assert(shout_count(v0, value as nat, (round - 1) as nat) == seen);
                } else {
                    assert(((value as nat) as u128) == value);
                    assert(shout_count(v0, value as nat, (round - 1) as nat) == 0);
                }
                assert(seen < times);
            }
            let now = seen + 1;
            proof {
                assert(shout_count(v0, value as nat, round as nat) == now);
                assert forall|x: nat| x != value implies #[trigger] shout_count(v0, x, round as nat) == shout_count(v0, x, (round - 1) as nat) by {}
            }
            counts.insert(value, now);
            if now == times {
                return Some((round, value));
            }
            if round == u64::MAX {
                assert(search_gives_up(v0, times as nat, max_rounds as nat, round as nat));
                return None;
            }
            round = round + 1;
        }
        assert(search_gives_up(v0, times as nat, max_rounds as nat, (round - 1) as nat));
        None
    }

    /// Part one: the shout after the tenth dance; `None` when the input cannot be read
    /// or one of the ten dances cannot be done.
    pub fn tenth_shout(input: &str) -> (r: Option<String>)
        ensures
            tenth_shout_result(input@, r),
    {
        let text = chars_of(input);
        let mut world = match Day5World::from_text(&text) {
            Some(w) => w,
            None => {
                return None;
            },
        };
        let ghost v0 = world@;
        assert(text@ == input@);
        let mut res: Vec<char> = Vec::new();
        let mut i: usize = 0;
        while i < 10
            invariant
                i <= 10,
                world@.wf(),
                floor_of(input@) == Some(v0),
                world@ == after_dances(v0, i as nat),
                forall|m: nat| m < i ==> #[trigger] dance_ok(v0, m),
                i > 0 ==> res@ == after_dances(v0, i as nat).shout(),
            decreases 10 - i,
        {
            res = match world.dance() {
                Some(s) => s,
                None => {
                    assert(!dance_ok(v0, i as nat));
                    assert(!(forall|m: nat| m < 10 ==> #[trigger] dance_ok(v0, m)));
                    assert(floor_of(input@) == Some(v0));
                    assert(floor_of(input@)->0 == v0);
                    assert(!(forall|m: nat| m < 10 ==> #[trigger] dance_ok(floor_of(input@)->0, m)));
                    return None;
                },
            };
            assert(dance_ok(v0, i as nat));
            i = i + 1;
        }
        let out = string_from_chars(&res);
        Some(out)
    }

    /// Part two: the round at which some shout has been heard 2024 times, times that
    /// shout, in decimal; `None` when the input cannot be read, the search gives up
    /// within its round budget, or the product does not fit a `u128`.
    pub fn repeated_shout_product(input: &str) -> (r: Option<String>)
        ensures
            product_result(input@, r),
    {
        let text = chars_of(input);
        let mut world = match Day5World::from_text(&text) {
            Some(w) => w,
            None => {
                return None;
            },
        };
        match Day5::first_repeated_shout(&mut world, 2024, DANCE_LIMIT) {
            Some((round, shout)) => match (round as u128).checked_mul(shout) {
                Some(product) => Some(string_from_chars(&decimal_string(product))),
                None => None,
            },
            None => None,
        }
    }
}

impl Solution<String> for Day5 {
    open spec fn answer1(&self, input: Seq<char>, r: Option<String>) -> bool {
        tenth_shout_result(input, r)
    }

    open spec fn answer2(&self, input: Seq<char>, r: Option<String>) -> bool {
        product_result(input, r)
    }

    open spec fn answer3(&self, input: Seq<char>, r: Option<String>) -> bool {
        max_shout_result(input, r)
    }

    fn get_day(&self) -> usize {
        5
    }

    fn part1(&self, input: &str) -> Option<String> {
        Day5::tenth_shout(input)
    }

    fn part2(&self, input: &str) -> Option<String> {
        Day5::repeated_shout_product(input)
    }

    fn part3(&self, input: &str) -> Option<String> {
        Day5::max_shout_before_repeat(input)
    }
}

/// The loudest shout among the first `k` dances (zero for none).
pub open spec fn max_shout_upto(v: DanceView, k: nat) -> nat
    decreases k,
{
    if k == 0 {
        0
    } else {
        let m = max_shout_upto(v, (k - 1) as nat);
        let s = shout_value_after(v, k);
        if s > m {
            s
        } else {
            m
        }
    }
}

/// The first `n` dances can be done and each shout fits a `u128`.
pub open spec fn dances_fit(v: DanceView, n: nat) -> bool {
    forall|m: nat| m < n ==> #[trigger] dance_ok(v, m) && shout_value_after(v, m + 1) <= u128::MAX
}

/// What part three of the dance day answers for `input`: the loudest shout heard before
/// the adapter met a (shout, floor) pair it had seen.
pub open spec fn max_shout_result(input: Seq<char>, r: Option<String>) -> bool {
    &&& floor_of(input) is None ==> r is None
    &&& r is Some ==> exists|k: nat|
        #[trigger] dances_fit(floor_of(input)->0, k + 1) && k < DANCE_LIMIT && r->0@
            == decimal_digits(max_shout_upto(floor_of(input)->0, k))
}

impl Day5 {
    /// Part three: dances, handing each (shout, floor) pair to the cycle finder, and
    /// returns the loudest shout heard before the first pair it had already seen. `None`
    /// when the input cannot be read, a dance cannot be done, a shout does not fit a
    /// `u128`, or no pair repeats within the dance budget.
    pub fn max_shout_before_repeat(input: &str) -> (r: Option<String>)
        ensures
            max_shout_result(input@, r),
    {
        let text = chars_of(input);
        let mut world = match Day5World::from_text(&text) {
            Some(w) => w,
            None => {
                return None;
            },
        };
        let ghost v0 = world@;
        assert(text@ == input@);
        let mut finder: CycleFinder<(u128, Day5World)> = CycleFinder::new();
        let mut max_shout: u128 = 0;
        let mut i: u64 = 0;
        while i < DANCE_LIMIT
            invariant
                i <= DANCE_LIMIT,
                world@.wf(),
                floor_of(input@) == Some(v0),
                world@ == after_dances(v0, i as nat),
                dances_fit(v0, i as nat),
                max_shout == max_shout_upto(v0, i as nat),
            decreases DANCE_LIMIT - i,
        {
            let shout = match world.dance() {
                Some(s) => s,
                None => {
                    return None;
                },
            };
            let value = match parse_u128(&shout) {
                Some(v) => v,
                None => {
                    return None;
                },
            };
            assert(value == shout_value_after(v0, (i + 1) as nat));
            assert(dances_fit(v0, (i + 1) as nat)) by {
                assert forall|m: nat| m < i + 1 implies #[trigger] dance_ok(v0, m) && shout_value_after(v0, m + 1) <= u128::MAX by {
                    if m < i {
                        assert(dance_ok(v0, m) && shout_value_after(v0, m + 1) <= u128::MAX);
                    }
                }
            }
            match finder.next(Some((value, world.clone()))) {
                Some(_) => {
                    if value > max_shout {
                        max_shout = value;
                    }
                },
                None => {
                    let out = string_from_chars(&decimal_string(max_shout));
                    assert(dances_fit(floor_of(input@)->0, (i + 1) as nat));
                    return Some(out);
                },
            }
            i = i + 1;
        }
        None
    }
}

} // verus!
