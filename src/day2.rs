use crate::solution::Solution;
use crate::text::{chars_of, split_on, split_spec};
use vstd::prelude::*;

verus! {

/// Reading `l` from `i`, the word `w` is found forwards or backwards; on a ring the
/// reading may wrap around the end, on a plain line it must end by the line's end.
pub open spec fn window_matches(l: Seq<char>, i: int, w: Seq<char>, ring: bool) -> bool {
    let n = l.len() as int;
    &&& w.len() <= n
    &&& ring || i + w.len() <= n
    &&& (forall|j: int| 0 <= j < w.len() ==> #[trigger] l[(i + j) % n] == w[j]) || (forall|j: int|
        0 <= j < w.len() ==> #[trigger] l[(i + j) % n] == w[w.len() - 1 - j])
}

/// The `j`-th letter of a match of `w` starting at `i` lies at position `p`.
pub open spec fn match_covers(l: Seq<char>, w: Seq<char>, ring: bool, i: int, j: int, p: int) -> bool {
    0 <= j < w.len() && (i + j) % (l.len() as int) == p && window_matches(l, i, w, ring)
}

/// Position `p` lies in a match of `w` that starts before `lim`.
pub open spec fn covered_by(l: Seq<char>, w: Seq<char>, ring: bool, lim: int, p: int) -> bool {
    exists|i: int, j: int| 0 <= i < lim && #[trigger] match_covers(l, w, ring, i, j, p)
}

/// Reading cyclically from `i` over `n` places, the `t`-th place is `p`.
pub open spec fn lands_on(i: int, t: int, n: int, p: int) -> bool {
    (i + t) % n == p
}

/// Position `p` lies in a match of one of the first `count` words.
pub open spec fn rune_marked(l: Seq<char>, words: Seq<Seq<char>>, ring: bool, count: int, p: int) -> bool {
    exists|wi: int| 0 <= wi < count && #[trigger] covered_by(l, words[wi], ring, l.len() as int, p)
}

proof fn lemma_cover_step(l: Seq<char>, w: Seq<char>, ring: bool, i: int, p: int)
    requires
        l.len() > 0,
        0 <= i,
    ensures
        covered_by(l, w, ring, i + 1, p) == (covered_by(l, w, ring, i, p) || (window_matches(l, i, w, ring) && exists|j: int|
            0 <= j < w.len() && #[trigger] lands_on(i, j, l.len() as int, p))),
{
    if covered_by(l, w, ring, i + 1, p) {
        let (i2, j2) = choose|i2: int, j2: int| 0 <= i2 < i + 1 && #[trigger] match_covers(l, w, ring, i2, j2, p);
        if i2 < i {
            assert(covered_by(l, w, ring, i, p));
        } else {
            assert(lands_on(i, j2, l.len() as int, p));
        }
    }
    if window_matches(l, i, w, ring) && exists|j: int|
        0 <= j < w.len() && #[trigger] lands_on(i, j, l.len() as int, p) {
        let j = choose|j: int| 0 <= j < w.len() && #[trigger] lands_on(i, j, l.len() as int, p);
        assert(match_covers(l, w, ring, i, j, p));
    }
}

proof fn lemma_marked_step(l: Seq<char>, words: Seq<Seq<char>>, ring: bool, count: int, p: int)
    requires
        0 <= count,
    ensures
        rune_marked(l, words, ring, count + 1, p) == (rune_marked(l, words, ring, count, p) || covered_by(
            l,
            words[count],
            ring,
            l.len() as int,
            p,
        )),
{
    if rune_marked(l, words, ring, count + 1, p) {
        let wi = choose|wi: int| 0 <= wi < count + 1 && #[trigger] covered_by(l, words[wi], ring, l.len() as int, p);
        if wi < count {
            assert(rune_marked(l, words, ring, count, p));
        }
    }
}

/// Whether `w` is found reading `l` cyclically from `i`, forwards (or backwards when
/// `backwards`).
fn found_at(l: &Vec<char>, i: usize, w: &Vec<char>, backwards: bool) -> (r: bool)
    requires
        i < l@.len(),
        w@.len() <= l@.len(),
    ensures
        !backwards ==> r == forall|j: int| 0 <= j < w@.len() ==> #[trigger] l@[(i + j) % (l@.len() as int)]
            == w@[j],
        backwards ==> r == forall|j: int| 0 <= j < w@.len() ==> #[trigger] l@[(i + j) % (l@.len() as int)]
            == w@[w@.len() - 1 - j],
{
    let n = l.len();
    let k = w.len();
    let mut j: usize = 0;
    while j < k
        invariant
            i < n,
            n == l@.len(),
            k == w@.len(),
            k <= n,
            j <= k,
            !backwards ==> forall|t: int| 0 <= t < j ==> #[trigger] l@[(i + t) % (n as int)] == w@[t],
            backwards ==> forall|t: int| 0 <= t < j ==> #[trigger] l@[(i + t) % (n as int)] == w@[k - 1 - t],
        decreases k - j,
    {
        let idx = if j < n - i {
            i + j
        } else {
            j - (n - i)
        };
        assert(idx as int == (i + j) % (n as int)) by {
            if j < n - i {
                vstd::arithmetic::div_mod::lemma_small_mod((i + j) as nat, n as nat);
            } else {
                vstd::arithmetic::div_mod::lemma_mod_add_multiples_vanish((i + j - n) as int, n as int);
                vstd::arithmetic::div_mod::lemma_small_mod((i + j - n) as nat, n as nat);
            }
        }
        let expected = if backwards {
            w[k - 1 - j]
        } else {
            w[j]
        };
        if l[idx] != expected {
            return false;
        }
        j = j + 1;
    }
    true
}

/// Marks every position of the line that lies in a match of one of `words`, read forwards
/// or backwards; on a ring a match may wrap around the end, on a plain line it may not.
/// A plain line's mask has one more entry, past its end, which is never marked.
pub fn get_match_mask(line: &Vec<char>, words: &Vec<Vec<char>>, is_ring: bool) -> (r: Vec<bool>)
    requires
        line@.len() < usize::MAX,
    ensures
        r@.len() == if is_ring { line@.len() } else { line@.len() + 1 },
        forall|p: int| 0 <= p < line@.len() ==> #[trigger] r@[p] == rune_marked(
            line@,
            words@.map_values(|w: Vec<char>| w@),
            is_ring,
            words@.len() as int,
            p,
        ),
        !is_ring ==> !r@[line@.len() as int],
{
    let l = line;
    let ghost ls = line@;
    let ghost ws = words@.map_values(|w: Vec<char>| w@);
    let n = l.len();
    let mut mask: Vec<bool> = vec![false; n];
    let mut wi: usize = 0;
    while wi < words.len()
        invariant
            l@ == ls,
            n == ls.len(),
            ws == words@.map_values(|w: Vec<char>| w@),
            wi <= words@.len(),
            mask@.len() == n,
            forall|p: int| 0 <= p < n ==> #[trigger] mask@[p] == rune_marked(ls, ws, is_ring, wi as int, p),
        decreases words.len() - wi,
    {
        let w = &words[wi];
        assert(w@ == ws[wi as int]);
        let k = w.len();
        let mut i: usize = 0;
        while i < n
            invariant
                l@ == ls,
                n == ls.len(),
                n > 0 || i == 0,
                wi < words@.len(),
                w@ == ws[wi as int],
                k == w@.len(),
                i <= n,
                mask@.len() == n,
                forall|p: int| 0 <= p < n ==> #[trigger] mask@[p] == (rune_marked(ls, ws, is_ring, wi as int, p)
                    || covered_by(ls, w@, is_ring, i as int, p)),
            decreases n - i,
        {
            let hit = k <= n && (is_ring || k <= n - i) && (found_at(&l, i, w, false) || found_at(
                &l,
                i,
                w,
                true,
            ));
            assert(hit == window_matches(ls, i as int, w@, is_ring));
            if hit {
                let mut j: usize = 0;
                while j < k
                    invariant
                        l@ == ls,
                        n == ls.len(),
                        i < n,
                        k <= n,
                        k == w@.len(),
                        j <= k,
                        mask@.len() == n,
                        forall|p: int| 0 <= p < n ==> #[trigger] mask@[p] == (rune_marked(
                            ls,
                            ws,
                            is_ring,
                            wi as int,
                            p,
                        ) || covered_by(ls, w@, is_ring, i as int, p) || exists|t: int|
                            0 <= t < j && #[trigger] lands_on(i as int, t, n as int, p)),
                    decreases k - j,
                {
                    let idx = if j < n - i {
                        i + j
                    } else {
                        j - (n - i)
                    };
                    assert(idx as int == (i + j) % (n as int)) by {
                        if j < n - i {
                            vstd::arithmetic::div_mod::lemma_small_mod((i + j) as nat, n as nat);
                        } else {
                            vstd::arithmetic::div_mod::lemma_mod_add_multiples_vanish(
                                (i + j - n) as int,
                                n as int,
                            );
                            vstd::arithmetic::div_mod::lemma_small_mod((i + j - n) as nat, n as nat);
                        }
                    }
                    mask.set(idx, true);
                    assert forall|p: int| 0 <= p < n implies #[trigger] mask@[p] == (rune_marked(
                        ls,
                        ws,
                        is_ring,
                        wi as int,
                        p,
                    ) || covered_by(ls, w@, is_ring, i as int, p) || exists|t: int|
                        0 <= t < j + 1 && #[trigger] lands_on(i as int, t, n as int, p)) by {
                        if p == idx as int {
                            assert(lands_on(i as int, j as int, n as int, p));
                        }
                        if exists|t: int| 0 <= t < j + 1 && #[trigger] lands_on(i as int, t, n as int, p) {
                            let t = choose|t: int| 0 <= t < j + 1 && #[trigger] lands_on(i as int, t, n as int, p);
                            if t < j {
                                assert(exists|t2: int| 0 <= t2 < j && #[trigger] lands_on(i as int, t2, n as int, p));
                            }
                        }
                    }
                    j = j + 1;
                }
            }
            assert forall|p: int| 0 <= p < n implies #[trigger] mask@[p] == (rune_marked(
                ls,
                ws,
                is_ring,
                wi as int,
                p,
            ) || covered_by(ls, w@, is_ring, i + 1, p)) by {
                lemma_cover_step(ls, w@, is_ring, i as int, p);
            }
            i = i + 1;
        }
        assert forall|p: int| 0 <= p < n implies #[trigger] mask@[p] == rune_marked(
            ls,
            ws,
            is_ring,
            wi + 1,
            p,
        ) by {
            lemma_marked_step(ls, ws, is_ring, wi as int, p);
        }
        wi = wi + 1;
    }
    if !is_ring {
        mask.push(false);
    }
    mask
}

/// `w` occurs in `s` at `i`.
pub open spec fn occurs_at(s: Seq<char>, w: Seq<char>, i: int) -> bool {
    0 <= i && i + w.len() <= s.len() && s.subrange(i, i + w.len()) == w
}

/// Occurrences of the non-empty word `w` in `s` from `i` on, counted left to right
/// without overlap.
pub open spec fn count_from(s: Seq<char>, w: Seq<char>, i: int) -> nat
    decreases s.len() - i,
{
    if w.len() == 0 || i < 0 || i + w.len() > s.len() {
        0
    } else if occurs_at(s, w, i) {
        1 + count_from(s, w, i + w.len())
    } else {
        count_from(s, w, i + 1)
    }
}

fn occurs(s: &Vec<char>, w: &Vec<char>, i: usize) -> (r: bool)
    requires
        i + w@.len() <= s@.len(),
    ensures
        r == occurs_at(s@, w@, i as int),
{
    let n = s.len();
    let mut j: usize = 0;
    while j < w.len()
        invariant
            n == s@.len(),
            i + w@.len() <= s@.len(),
            j <= w@.len(),
            forall|t: int| 0 <= t < j ==> s@[i + t] == w@[t],
        decreases w.len() - j,
    {
        if s[i + j] != w[j] {
            assert(s@.subrange(i as int, i + w@.len())[j as int] != w@[j as int]);
            return false;
        }
        j = j + 1;
    }
    assert(s@.subrange(i as int, i + w@.len()) =~= w@);
    true
}

/// How often the non-empty word `w` occurs in `s`, left to right without overlap.
pub fn count_occurrences(s: &Vec<char>, w: &Vec<char>) -> (r: usize)
    ensures
        r == count_from(s@, w@, 0),
{
    if w.len() == 0 || w.len() > s.len() {
        return 0;
    }
    let mut count: usize = 0;
    let mut i: usize = 0;
    while w.len() <= s.len() - i
        invariant
            w@.len() > 0,
            w@.len() <= s@.len(),
            i <= s@.len(),
            count <= i,
            count + count_from(s@, w@, i as int) == count_from(s@, w@, 0),
        decreases s.len() - i,
    {
        if occurs(s, w, i) {
            count = count + 1;
            i = i + w.len();
        } else {
            i = i + 1;
        }
    }
    count
}

/// What follows the first colon of `s`; nothing when there is none.
pub open spec fn after_colon(s: Seq<char>) -> Seq<char>
    decreases s.len(),
{
    if s.len() == 0 {
        s
    } else if s[0] == ':' {
        s.drop_first()
    } else {
        after_colon(s.drop_first())
    }
}

/// The words of the first line: what follows its colon, split at commas.
pub open spec fn words_of(first: Seq<char>) -> Seq<Seq<char>> {
    split_spec(after_colon(first), ',')
}

/// How many entries of `m` are true.
pub open spec fn trues(m: Seq<bool>) -> nat
    decreases m.len(),
{
    if m.len() == 0 {
        0
    } else {
        trues(m.drop_last()) + if m.last() {
            1nat
        } else {
            0nat
        }
    }
}

/// Occurrences in `s` of every word of `ws`, added up.
pub open spec fn occurrence_total(s: Seq<char>, ws: Seq<Seq<char>>) -> nat
    decreases ws.len(),
{
    if ws.len() == 0 {
        0
    } else {
        occurrence_total(s, ws.drop_last()) + count_from(s, ws.last(), 0)
    }
}

/// Runes of a plain line: its positions that lie in a match of one of `ws`.
pub open spec fn line_runes(line: Seq<char>, ws: Seq<Seq<char>>) -> nat {
    trues(Seq::new(line.len(), |p: int| rune_marked(line, ws, false, ws.len() as int, p)))
}

/// Runes of all `lines`, added up.
pub open spec fn rune_total(lines: Seq<Seq<char>>, ws: Seq<Seq<char>>) -> nat
    decreases lines.len(),
{
    if lines.len() == 0 {
        0
    } else {
        rune_total(lines.drop_last(), ws) + line_runes(lines.last(), ws)
    }
}

proof fn lemma_occurrence_prefix(s: Seq<char>, ws: Seq<Seq<char>>, k: int)
    requires
        0 <= k <= ws.len(),
    ensures
        occurrence_total(s, ws.take(k)) <= occurrence_total(s, ws),
    decreases ws.len() - k,
{
    if k < ws.len() {
        lemma_occurrence_prefix(s, ws, k + 1);
        assert(ws.take(k + 1).drop_last() == ws.take(k));
    } else {
        assert(ws.take(k) == ws);
    }
}

proof fn lemma_rune_prefix(lines: Seq<Seq<char>>, ws: Seq<Seq<char>>, k: int)
    requires
        0 <= k <= lines.len(),
    ensures
        rune_total(lines.take(k), ws) <= rune_total(lines, ws),
    decreases lines.len() - k,
{
    if k < lines.len() {
        lemma_rune_prefix(lines, ws, k + 1);
        assert(lines.take(k + 1).drop_last() == lines.take(k));
    } else {
        assert(lines.take(k) == lines);
    }
}

/// The words listed after the colon of the first line.
pub fn parse_words(first: &Vec<char>) -> (r: Vec<Vec<char>>)
    ensures
        r@.len() == words_of(first@).len(),
        forall|j: int| 0 <= j < r@.len() ==> #[trigger] r@[j]@ == words_of(first@)[j],
{
    let mut k: usize = 0;
    assert(first@.skip(0) == first@);
    while k < first.len() && first[k] != ':'
        invariant
            k <= first.len(),
            after_colon(first@) == after_colon(first@.skip(k as int)),
        decreases first.len() - k,
    {
        assert(first@.skip(k as int).drop_first() == first@.skip(k + 1));
        k = k + 1;
    }
    let mut rest: Vec<char> = Vec::new();
    let mut i: usize = k;
    if i < first.len() {
        assert(first@.skip(k as int).drop_first() == first@.skip(k + 1));
        i = i + 1;
    }
    let i0 = i;
    while i < first.len()
        invariant
            i0 <= i <= first.len() || (i == i0 && i0 >= first.len()),
            rest@ == first@.subrange(i0 as int, i as int),
        decreases first.len() - i,
    {
        rest.push(first[i]);
        i = i + 1;
    }
    assert(rest@ == after_colon(first@));
    split_on(&rest, ',')
}

/// How many entries of `mask` are true.
pub fn count_true(mask: &Vec<bool>) -> (r: usize)
    ensures
        r == trues(mask@),
        r <= mask@.len(),
{
    let mut n: usize = 0;
    let mut i: usize = 0;
    while i < mask.len()
        invariant
            i <= mask.len(),
            n <= i,
            n == trues(mask@.take(i as int)),
        decreases mask.len() - i,
    {
        assert(mask@.take(i + 1).drop_last() == mask@.take(i as int));
        if mask[i] {
            n = n + 1;
        }
        i = i + 1;
    }
    assert(mask@.take(mask.len() as int) == mask@);
    n
}

/// The rune-word day.
pub struct Day2;

/// What part one of the rune-word day answers for `input`.
pub open spec fn word_count_result(input: Seq<char>, r: Option<i32>) -> bool {
    &&& (({
        let lines = split_spec(input, '\n');
        if lines.len() < 3 {
            r is None
        } else {
            let total = occurrence_total(lines[2], words_of(lines[0]));
            if total <= i32::MAX {
                r == Some(total as i32)
            } else {
                r is None
            }
        }
    }))
}

/// What part two of the rune-word day answers for `input`.
pub open spec fn rune_count_result(input: Seq<char>, r: Option<i32>) -> bool {
    &&& (({
        let lines = split_spec(input, '\n');
        &&& lines.len() < 2 ==> r is None
        &&& r is Some ==> lines.len() >= 2 && r->0 == rune_total(
            lines.skip(2),
            words_of(lines[0]),
        )
        &&& r is None && lines.len() >= 2 ==> rune_total(lines.skip(2), words_of(lines[0]))
            > i32::MAX || exists|j: int| 2 <= j < lines.len() && #[trigger] lines[j].len() == usize::MAX
    }))
}

impl Day2 {
    /// Part one: occurrences, in the third line, of every word of the first line, added
    /// up; `None` when there are fewer than three lines or the total exceeds `i32`.
    pub fn word_count(input: &str) -> (r: Option<i32>)
        ensures
            word_count_result(input@, r),
    {
        let text = chars_of(input);
        let ghost ls = split_spec(input@, '\n');
        let lines = split_on(&text, '\n');
        if lines.len() < 3 {
            return None;
        }
        let words = parse_words(&lines[0]);
        let sentence = &lines[2];
        let ghost ws = words@.map_values(|w: Vec<char>| w@);
        assert(ws =~= words_of(ls[0]));
        let mut count: usize = 0;
        let mut i: usize = 0;
        while i < words.len()
            invariant
                i <= words.len(),
                ws == words@.map_values(|w: Vec<char>| w@),
                ls == split_spec(input@, '\n'),
                ls.len() >= 3,
                ws == words_of(ls[0]),
                sentence@ == ls[2],
                count <= i32::MAX,
                count == occurrence_total(ls[2], ws.take(i as int)),
            decreases words.len() - i,
        {
            assert(ws.take(i + 1).drop_last() == ws.take(i as int));
            let c = count_occurrences(sentence, &words[i]);
            if c > i32::MAX as usize - count {
                proof {
                    lemma_occurrence_prefix(ls[2], ws, i + 1);
                }
                return None;
            }
            count = count + c;
            i = i + 1;
        }
        assert(ws.take(words.len() as int) == ws);
        Some(count as i32)
    }

    /// Part two: runes of every line after the blank one, added up; `None` when there are
    /// fewer than two lines, the total exceeds `i32`, or a line is too long to mask.
    pub fn rune_count(input: &str) -> (r: Option<i32>)
        ensures
            rune_count_result(input@, r),
    {
        let text = chars_of(input);
        let ghost ls = split_spec(input@, '\n');
        let lines = split_on(&text, '\n');
        if lines.len() < 2 {
            return None;
        }
        let words = parse_words(&lines[0]);
        let ghost ws = words@.map_values(|w: Vec<char>| w@);
        assert(ws =~= words_of(ls[0]));
        let ghost rest = ls.skip(2);
        let mut count: usize = 0;
        let mut i: usize = 2;
        while i < lines.len()
            invariant
                2 <= i <= lines@.len() || (i == 2 && lines@.len() < 2),
                lines@.len() == ls.len(),
                ls.len() >= 2,
                ls == split_spec(input@, '\n'),
                ws == words_of(ls[0]),
                rest == ls.skip(2),
                forall|j: int| 0 <= j < lines@.len() ==> #[trigger] lines@[j]@ == ls[j],
                ws == words@.map_values(|w: Vec<char>| w@),
                count <= i32::MAX,
                count == rune_total(rest.take(i - 2), ws),
            decreases lines.len() - i,
        {
            assert(rest.take(i - 1).drop_last() == rest.take(i - 2));
            assert(rest[i - 2] == ls[i as int]);
            assert(lines@[i as int]@ == ls[i as int]);
            if lines[i].len() == usize::MAX {
                assert(ls[i as int].len() == usize::MAX);
                return None;
            }
            let mask = get_match_mask(&lines[i], &words, false);
            let c = count_true(&mask);
            proof {
                let line = ls[i as int];
                let full = Seq::new(line.len(), |p: int| rune_marked(line, ws, false, ws.len() as int, p));
                assert(mask@.drop_last() =~= full);
                assert(c == line_runes(line, ws));
            }
            if c > i32::MAX as usize - count {
                proof {
                    lemma_rune_prefix(rest, ws, i - 1);
                }
                return None;
            }
            count = count + c;
            i = i + 1;
        }
        assert(rest.take(lines.len() - 2) == rest);
        Some(count as i32)
    }
}

impl Solution<i32> for Day2 {
    open spec fn answer1(&self, input: Seq<char>, r: Option<i32>) -> bool {
        word_count_result(input, r)
    }

    open spec fn answer2(&self, input: Seq<char>, r: Option<i32>) -> bool {
        rune_count_result(input, r)
    }

    open spec fn answer3(&self, input: Seq<char>, r: Option<i32>) -> bool {
        grid_result(input, r)
    }

    fn get_day(&self) -> usize {
        2
    }

    fn part1(&self, input: &str) -> Option<i32> {
        Day2::word_count(input)
    }

    fn part2(&self, input: &str) -> Option<i32> {
        Day2::rune_count(input)
    }

    fn part3(&self, input: &str) -> Option<i32> {
        Day2::grid_rune_count(input)
    }
}

/// The non-empty lines among `ls`, in order.
pub open spec fn nonempty_lines(ls: Seq<Seq<char>>) -> Seq<Seq<char>>
    decreases ls.len(),
{
    if ls.len() == 0 {
        ls
    } else {
        let r = nonempty_lines(ls.drop_last());
        if ls.last().len() > 0 {
            r.push(ls.last())
        } else {
            r
        }
    }
}

/// Column `x` of the grid, top to bottom.
pub open spec fn grid_column(rows: Seq<Seq<char>>, x: int) -> Seq<char> {
    Seq::new(rows.len(), |y: int| rows[y][x])
}

/// Cell `(x, y)` is a rune: it lies in a match along its row, read as a ring, or along
/// its column, read as a plain line.
pub open spec fn cell_rune(rows: Seq<Seq<char>>, ws: Seq<Seq<char>>, x: int, y: int) -> bool {
    rune_marked(rows[y], ws, true, ws.len() as int, x) || rune_marked(
        grid_column(rows, x),
        ws,
        false,
        ws.len() as int,
        y,
    )
}

/// The runes of row `y`.
pub open spec fn row_runes(rows: Seq<Seq<char>>, ws: Seq<Seq<char>>, y: int) -> Seq<bool> {
    Seq::new(rows[y].len(), |x: int| cell_rune(rows, ws, x, y))
}

/// Runes of the first `h` rows, added up.
pub open spec fn grid_total(rows: Seq<Seq<char>>, ws: Seq<Seq<char>>, h: int) -> nat
    decreases h,
{
    if h <= 0 {
        0
    } else {
        grid_total(rows, ws, h - 1) + trues(row_runes(rows, ws, h - 1))
    }
}

/// The grid's rows all have the width of the first.
pub open spec fn rectangular(rows: Seq<Seq<char>>) -> bool {
    rows.len() > 0 && forall|y: int| 0 <= y < rows.len() ==> (#[trigger] rows[y]).len() == rows[0].len()
}

proof fn lemma_grid_prefix(rows: Seq<Seq<char>>, ws: Seq<Seq<char>>, h: int, k: int)
    requires
        0 <= k <= h,
    ensures
        grid_total(rows, ws, k) <= grid_total(rows, ws, h),
    decreases h - k,
{
    if k < h {
        lemma_grid_prefix(rows, ws, h - 1, k);
    }
}

/// What part three of the rune-word day answers for `input`.
pub open spec fn grid_result(input: Seq<char>, r: Option<i32>) -> bool {
    &&& (({
        let ls = split_spec(input, '\n');
        let rows = nonempty_lines(ls.skip(2));
        &&& ls.len() < 3 ==> r is None
        &&& r is Some ==> ls.len() >= 3 && rectangular(rows) && r->0 == grid_total(
            rows,
            words_of(ls[0]),
            rows.len() as int,
        )
        &&& r is None && ls.len() >= 3 ==> !rectangular(rows) || rows[0].len() == usize::MAX
            || rows.len() == usize::MAX || grid_total(
            rows,
            words_of(ls[0]),
            rows.len() as int,
        ) > i32::MAX
    }))
}

impl Day2 {
    /// Part three: the non-empty lines after the blank one form a grid; counts the cells
    /// in a match along their row (a ring) or their column (a plain line). `None` when
    /// there are fewer than three lines, no grid, rows of differing width, or the total
    /// exceeds `i32`.
    pub fn grid_rune_count(input: &str) -> (r: Option<i32>)
        ensures
            grid_result(input@, r),
    {
        let text = chars_of(input);
        let ghost ls = split_spec(input@, '\n');
        let all = split_on(&text, '\n');
        if all.len() < 3 {
            return None;
        }
        let words = parse_words(&all[0]);
        let ghost ws = words@.map_values(|w: Vec<char>| w@);
        assert(ws =~= words_of(ls[0]));
        let ghost tail = ls.skip(2);
        let mut lines: Vec<Vec<char>> = Vec::new();
        let mut i: usize = 2;
        while i < all.len()
            invariant
                2 <= i <= all@.len(),
                all@.len() == ls.len(),
                tail == ls.skip(2),
                forall|j: int| 0 <= j < all@.len() ==> #[trigger] all@[j]@ == ls[j],
                lines@.map_values(|l: Vec<char>| l@) == nonempty_lines(tail.take(i - 2)),
            decreases all.len() - i,
        {
            assert(tail.take(i - 1).drop_last() == tail.take(i - 2));
            assert(tail[i - 2] == ls[i as int]);
            if all[i].len() > 0 {
                let line = all[i].clone();
                assert(line@ =~= all@[i as int]@);
                let ghost before = lines@.map_values(|l: Vec<char>| l@);
                lines.push(line);
                assert(lines@.map_values(|l: Vec<char>| l@) =~= before.push(ls[i as int]));
            }
            i = i + 1;
        }
        assert(tail.take(all.len() - 2) == tail);
        let ghost rows = lines@.map_values(|l: Vec<char>| l@);
        assert(rows == nonempty_lines(tail));
        if lines.len() == 0 {
            return None;
        }
        let width = lines[0].len();
        assert(rows[0] == lines@[0]@);
        if width == usize::MAX {
            return None;
        }
        let mut mask: Vec<Vec<bool>> = Vec::new();
        let mut y: usize = 0;
        while y < lines.len()
            invariant
                y <= lines.len(),
                ls == split_spec(input@, '\n'),
                ls.len() >= 3,
                rows == nonempty_lines(ls.skip(2)),
                ws == words_of(ls[0]),
                rows == lines@.map_values(|l: Vec<char>| l@),
                ws == words@.map_values(|w: Vec<char>| w@),
                width == rows[0].len(),
                width < usize::MAX,
                forall|k: int| 0 <= k < y ==> (#[trigger] rows[k]).len() == width,
                mask@.len() == y,
                forall|k: int| 0 <= k < y ==> (#[trigger] mask@[k])@ == Seq::new(
                    width as nat,
                    |x: int| rune_marked(rows[k], ws, true, ws.len() as int, x),
                ),
            decreases lines.len() - y,
        {
            assert(rows[y as int] == lines@[y as int]@);
            if lines[y].len() != width {
                assert(rows[y as int].len() != rows[0].len());
                return None;
            }
            let row = get_match_mask(&lines[y], &words, true);
            assert(row@ =~= Seq::new(
                width as nat,
                |x: int| rune_marked(rows[y as int], ws, true, ws.len() as int, x),
            ));
            mask.push(row);
            y = y + 1;
        }
        assert(rectangular(rows));
        let height = lines.len();
        if height == usize::MAX {
            return None;
        }
        let mut x: usize = 0;
        while x < width
            invariant
                x <= width,
                rows == lines@.map_values(|l: Vec<char>| l@),
                ws == words@.map_values(|w: Vec<char>| w@),
                rectangular(rows),
                width == rows[0].len(),
                mask@.len() == height,
                height == lines@.len(),
                height < usize::MAX,
                forall|k: int| 0 <= k < height ==> (#[trigger] mask@[k])@ == Seq::new(
                    width as nat,
                    |x2: int|
                        if x2 < x {
                            cell_rune(rows, ws, x2, k)
                        } else {
                            rune_marked(rows[k], ws, true, ws.len() as int, x2)
                        },
                ),
            decreases width - x,
        {
            let mut column: Vec<char> = Vec::new();
            let mut k: usize = 0;
            while k < height
                invariant
                    k <= height,
                    rows == lines@.map_values(|l: Vec<char>| l@),
                    rectangular(rows),
                    width == rows[0].len(),
                    column@ == grid_column(rows, x as int).take(k as int),
                    height < usize::MAX,
                    x < width,
                    height == lines@.len(),
                decreases height - k,
            {
                assert(rows[k as int] == lines@[k as int]@);
                assert(rows[k as int].len() == width);
                column.push(lines[k][x]);
                assert(column@ =~= grid_column(rows, x as int).take(k + 1));
                k = k + 1;
            }
            assert(column@ =~= grid_column(rows, x as int));
            let col_mask = get_match_mask(&column, &words, false);
            let mut yy: usize = 0;
            while yy < height
                invariant
                    yy <= height,
                    x < width,
                    rows == lines@.map_values(|l: Vec<char>| l@),
                    ws == words@.map_values(|w: Vec<char>| w@),
                    column@ == grid_column(rows, x as int),
                    col_mask@.len() == height + 1,
                    forall|p: int| 0 <= p < height ==> #[trigger] col_mask@[p] == rune_marked(
                        column@,
                        ws,
                        false,
                        ws.len() as int,
                        p,
                    ),
                    mask@.len() == height,
                    height == lines@.len(),
                    forall|t: int| 0 <= t < height ==> (#[trigger] mask@[t])@ == Seq::new(
                        width as nat,
                        |x2: int|
                            if x2 < x || (x2 == x && t < yy) {
                                cell_rune(rows, ws, x2, t)
                            } else {
                                rune_marked(rows[t], ws, true, ws.len() as int, x2)
                            },
                    ),
                decreases height - yy,
            {
                let ghost before = mask@;
                if col_mask[yy] {
                    let mut row = mask[yy].clone();
                    assert(row@ =~= mask@[yy as int]@);
                    row.set(x, true);
                    mask.set(yy, row);
                }
                proof {
                    assert forall|t: int| 0 <= t < height implies (#[trigger] mask@[t])@ == Seq::new(
                        width as nat,
                        |x2: int|
                            if x2 < x || (x2 == x && t < yy + 1) {
                                cell_rune(rows, ws, x2, t)
                            } else {
                                rune_marked(rows[t], ws, true, ws.len() as int, x2)
                            },
                    ) by {
                        assert(mask@[t]@ =~= Seq::new(
                            width as nat,
                            |x2: int|
                                if x2 < x || (x2 == x && t < yy + 1) {
                                    cell_rune(rows, ws, x2, t)
                                } else {
                                    rune_marked(rows[t], ws, true, ws.len() as int, x2)
                                },
                        ));
                    }
                }
                yy = yy + 1;
            }
            x = x + 1;
        }
        let mut total: usize = 0;
        let mut r: usize = 0;
        while r < mask.len()
            invariant
                r <= mask@.len(),
                ls == split_spec(input@, '\n'),
                ls.len() >= 3,
                rows == nonempty_lines(ls.skip(2)),
                ws == words_of(ls[0]),
                mask@.len() == height,
                height == rows.len(),
                rectangular(rows),
                width == rows[0].len(),
                x == width,
                forall|k: int| 0 <= k < height ==> (#[trigger] mask@[k])@ == Seq::new(
                    width as nat,
                    |x2: int|
                        if x2 < x {
                            cell_rune(rows, ws, x2, k)
                        } else {
                            rune_marked(rows[k], ws, true, ws.len() as int, x2)
                        },
                ),
                total <= i32::MAX,
                total == grid_total(rows, ws, r as int),
            decreases mask.len() - r,
        {
            assert(mask@[r as int]@ =~= row_runes(rows, ws, r as int));
            let c = count_true(&mask[r]);
            if c > i32::MAX as usize - total {
                proof {
                    lemma_grid_prefix(rows, ws, height as int, r + 1);
                }
                return None;
            }
            total = total + c;
            r = r + 1;
        }
        Some(total as i32)
    }
}

} // verus!
