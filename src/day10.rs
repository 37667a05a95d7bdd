use crate::solution::Solution;
use crate::text::{chars_of, split_on, string_from_chars, decimal_string};
use vstd::prelude::*;

verus! {

/// The rune grid day.
pub struct Day10;

/// The text's lines; a final line break does not start another line.
fn text_lines(input: &str) -> (r: Vec<Vec<char>>) {
    let text = chars_of(input);
    let mut lines = split_on(&text, '\n');
    if lines.len() > 1 && lines[lines.len() - 1].len() == 0 {
        lines.pop();
    }
    lines
}

/// Reads the eight lines from `offset_y` on, starting each at column `offset_x`: the four
/// letters above and below the grid give the columns, the letters beside it the rows.
fn parse_input(lines: &Vec<Vec<char>>, offset_x: usize, offset_y: usize) -> (r: (
    Vec<Vec<char>>,
    Vec<Vec<char>>,
))
    ensures
        r.0@.len() == 4,
        r.1@.len() == 4,
{
    let mut columns: Vec<Vec<char>> = vec![Vec::new(), Vec::new(), Vec::new(), Vec::new()];
    let mut rows: Vec<Vec<char>> = vec![Vec::new(), Vec::new(), Vec::new(), Vec::new()];
    let mut i: usize = 0;
    while i < 8 && offset_y < lines.len() && i < lines.len() - offset_y
        invariant
            i <= 8,
            columns@.len() == 4,
            rows@.len() == 4,
        decreases 8 - i,
    {
        let line = &lines[offset_y + i];
        if i < 2 || i >= 6 {
            let mut col: usize = 0;
            while col < 4 && offset_x < line.len() && 2 < line.len() - offset_x && col < line.len()
                - offset_x - 2
                invariant
                    col <= 4,
                    columns@.len() == 4,
                decreases 4 - col,
            {
                let c = line[offset_x + 2 + col];
                columns[col].push(c);
                col = col + 1;
            }
        } else {
            let mut x: usize = offset_x;
            while x < line.len()
                invariant
                    rows@.len() == 4,
                    2 <= i < 6,
                decreases line.len() - x,
            {
                let c = line[x];
                if c != '.' {
                    rows[i - 2].push(c);
                }
                x = x + 1;
            }
        }
        i = i + 1;
    }
    (columns, rows)
}

/// The first letter of `row` that `col` also holds, if any.
pub open spec fn shared_letter(row: Seq<char>, col: Seq<char>) -> Option<char>
    decreases row.len(),
{
    if row.len() == 0 {
        None
    } else {
        match shared_letter(row.drop_last(), col) {
            Some(c) => Some(c),
            None => if col.contains(row.last()) {
                Some(row.last())
            } else {
                None
            },
        }
    }
}

/// The letter of the cell where row `y` meets column `x`; `?` when they share none.
pub open spec fn rune_at(columns: Seq<Seq<char>>, rows: Seq<Seq<char>>, y: int, x: int) -> char {
    match shared_letter(rows[y], columns[x]) {
        Some(c) => c,
        None => '?',
    }
}

fn first_shared(row: &Vec<char>, col: &Vec<char>) -> (r: Option<char>)
    ensures
        r == shared_letter(row@, col@),
{
    let mut i: usize = 0;
    while i < row.len()
        invariant
            i <= row.len(),
            shared_letter(row@.take(i as int), col@) is None,
        decreases row.len() - i,
    {
        assert(row@.take(i + 1).drop_last() == row@.take(i as int));
        let c = row[i];
        let mut j: usize = 0;
        let mut found = false;
        while j < col.len()
            invariant
                j <= col.len(),
                found == exists|k: int| 0 <= k < j && col@[k] == c,
            decreases col.len() - j,
        {
            if col[j] == c {
                found = true;
            }
            j = j + 1;
        }
        if found {
            proof {
                lemma_shared_prefix(row@, col@, i as int + 1);
            }
            return Some(c);
        }
        i = i + 1;
    }
    assert(row@.take(row.len() as int) == row@);
    None
}

proof fn lemma_shared_prefix(row: Seq<char>, col: Seq<char>, k: int)
    requires
        0 <= k <= row.len(),
        shared_letter(row.take(k), col) is Some,
    ensures
        shared_letter(row, col) == shared_letter(row.take(k), col),
    decreases row.len() - k,
{
    if k < row.len() {
        assert(row.take(k + 1).drop_last() == row.take(k));
        lemma_shared_prefix(row, col, k + 1);
    } else {
        assert(row.take(k) == row);
    }
}

/// The sixteen runes, row by row: each cell gets the letter its row and column share.
fn runic_word(columns: &Vec<Vec<char>>, rows: &Vec<Vec<char>>) -> (r: Vec<char>)
    requires
        columns@.len() == 4,
        rows@.len() == 4,
    ensures
        r@.len() == 16,
        forall|k: int| 0 <= k < 16 ==> #[trigger] r@[k] == rune_at(
            columns@.map_values(|c: Vec<char>| c@),
            rows@.map_values(|c: Vec<char>| c@),
            k / 4,
            k % 4,
        ),
{
    let ghost cs = columns@.map_values(|c: Vec<char>| c@);
    let ghost rs = rows@.map_values(|c: Vec<char>| c@);
    let mut result: Vec<char> = Vec::new();
    let mut y: usize = 0;
    while y < 4
        invariant
            y <= 4,
            columns@.len() == 4,
            rows@.len() == 4,
            cs == columns@.map_values(|c: Vec<char>| c@),
            rs == rows@.map_values(|c: Vec<char>| c@),
            result@.len() == 4 * y,
            forall|k: int| 0 <= k < 4 * y ==> #[trigger] result@[k] == rune_at(cs, rs, k / 4, k % 4),
        decreases 4 - y,
    {
        let mut x: usize = 0;
        while x < 4
            invariant
                y < 4,
                x <= 4,
                columns@.len() == 4,
                rows@.len() == 4,
                cs == columns@.map_values(|c: Vec<char>| c@),
                rs == rows@.map_values(|c: Vec<char>| c@),
                result@.len() == 4 * y + x,
                forall|k: int| 0 <= k < 4 * y + x ==> #[trigger] result@[k] == rune_at(cs, rs, k / 4, k % 4),
            decreases 4 - x,
        {
            let c = match first_shared(&rows[y], &columns[x]) {
                Some(c) => c,
                None => '?',
            };
            assert(rs[y as int] == rows@[y as int]@);
            assert(cs[x as int] == columns@[x as int]@);
            let ghost k = 4 * y + x;
            assert(k / 4 == y && k % 4 == x) by (nonlinear_arith)
                requires
                    k == 4 * y + x,
                    x < 4,
            ;
            result.push(c);
            x = x + 1;
        }
        y = y + 1;
    }
    result
}

/// A rune's base power: its place in the alphabet, `A` being one.
pub open spec fn letter_power(c: char) -> int {
    c as int - 'A' as int + 1
}

/// A word's power: each rune's base power times its position, counted from one.
pub open spec fn word_power(s: Seq<char>) -> int
    decreases s.len(),
{
    if s.len() == 0 {
        0
    } else {
        word_power(s.drop_last()) + letter_power(s.last()) * s.len()
    }
}

/// Every rune is a capital letter.
pub open spec fn all_capitals(s: Seq<char>) -> bool {
    forall|i: int| 0 <= i < s.len() ==> 'A' <= #[trigger] s[i] <= 'Z'
}

proof fn lemma_power_grows(s: Seq<char>, k: int)
    requires
        all_capitals(s),
        0 <= k <= s.len(),
    ensures
        0 <= word_power(s.take(k)) <= word_power(s),
    decreases s.len() - k,
{
    if k < s.len() {
        lemma_power_grows(s, k + 1);
        assert(s.take(k + 1).drop_last() == s.take(k));
        assert(letter_power(s[k]) * (k + 1) >= 0) by (nonlinear_arith)
            requires
                letter_power(s[k]) >= 1,
                k >= 0,
        ;
    } else {
        assert(s.take(k) == s);
    }
    if k > 0 {
        lemma_power_nonneg(s.take(k));
    }
}

proof fn lemma_power_nonneg(s: Seq<char>)
    requires
        all_capitals(s),
    ensures
        word_power(s) >= 0,
    decreases s.len(),
{
    if s.len() > 0 {
        lemma_power_nonneg(s.drop_last());
        assert(letter_power(s.last()) * s.len() >= 0) by (nonlinear_arith)
            requires
                letter_power(s.last()) >= 1,
        ;
    }
}

/// The power of a word of capital letters.
pub fn runic_word_power(input: &str) -> (r: usize)
    requires
        all_capitals(input@),
        word_power(input@) <= usize::MAX,
    ensures
        r == word_power(input@),
{
    let s = chars_of(input);
    let mut total: usize = 0;
    let mut i: usize = 0;
    while i < s.len()
        invariant
            i <= s.len(),
            s@ == input@,
            all_capitals(s@),
            word_power(s@) <= usize::MAX,
            total == word_power(s@.take(i as int)),
        decreases s.len() - i,
    {
        proof {
            lemma_power_grows(s@, i + 1);
            assert(s@.take(i + 1).drop_last() == s@.take(i as int));
        }
        let base = (s[i] as u32 - 'A' as u32 + 1) as usize;
        assert(base * (i + 1) == letter_power(s@[i as int]) * (i + 1));
        total = total + base * (i + 1);
        i = i + 1;
    }
    assert(s@.take(s.len() as int) == s@);
    total
}

/// Runes and powers of the grids laid out every `step` cells, `count_x` across and
/// `count_y` down; `None` when a word has a rune that is not a capital letter.
fn grid_power(lines: &Vec<Vec<char>>, count_x: usize, count_y: usize, step: usize) -> Option<usize> {
    let mut total: usize = 0;
    let mut y: usize = 0;
    while y < count_y
        invariant
            y <= count_y,
        decreases count_y - y,
    {
        let mut x: usize = 0;
        while x < count_x
            invariant
                x <= count_x,
            decreases count_x - x,
        {
            let ox = match x.checked_mul(step) {
                Some(v) => v,
                None => {
                    return None;
                },
            };
            let oy = match y.checked_mul(step) {
                Some(v) => v,
                None => {
                    return None;
                },
            };
            let (columns, rows) = parse_input(lines, ox, oy);
            let word = runic_word(&columns, &rows);
            let mut k: usize = 0;
            while k < word.len()
                invariant
                    k <= word.len(),
                    forall|j: int| 0 <= j < k ==> 'A' <= #[trigger] word@[j] <= 'Z',
                decreases word.len() - k,
            {
                if word[k] < 'A' || word[k] > 'Z' {
                    return None;
                }
                k = k + 1;
            }
            let text = string_from_chars(&word);
            proof {
                assert(word@.len() == 16);
                lemma_power_bound(word@);
            }
            let p = runic_word_power(text.as_str());
            if total > usize::MAX - p {
                return None;
            }
            total = total + p;
            x = x + 1;
        }
        y = y + 1;
    }
    Some(total)
}

proof fn lemma_power_bound(s: Seq<char>)
    requires
        all_capitals(s),
        s.len() <= 16,
    ensures
        word_power(s) <= 416 * s.len(),
    decreases s.len(),
{
    if s.len() > 0 {
        let d = s.drop_last();
        lemma_power_bound(d);
        assert(letter_power(s.last()) <= 26);
        assert(letter_power(s.last()) * s.len() <= 416) by (nonlinear_arith)
            requires
                letter_power(s.last()) <= 26,
                s.len() <= 16,
        ;
        assert(word_power(s) == word_power(d) + letter_power(s.last()) * s.len());
        assert(word_power(d) <= 416 * d.len());
        assert(416 * d.len() + 416 == 416 * s.len());
    }
}

impl Solution<String> for Day10 {
    open spec fn answer1(&self, input: Seq<char>, r: Option<String>) -> bool {
        true
    }

    open spec fn answer2(&self, input: Seq<char>, r: Option<String>) -> bool {
        true
    }

    open spec fn answer3(&self, input: Seq<char>, r: Option<String>) -> bool {
        true
    }

    fn get_day(&self) -> usize {
        10
    }

    fn part1(&self, input: &str) -> Option<String> {
        let lines = text_lines(input);
        let (columns, rows) = parse_input(&lines, 0, 0);
        let word = runic_word(&columns, &rows);
        Some(string_from_chars(&word))
    }

    fn part2(&self, input: &str) -> Option<String> {
        let lines = text_lines(input);
        if lines.len() == 0 {
            return None;
        }
        let width = lines[0].len();
        let height = lines.len();
        if width == usize::MAX || height == usize::MAX {
            return None;
        }
        match grid_power(&lines, (width + 1) / 9, (height + 1) / 9, 9) {
            Some(total) => Some(string_from_chars(&decimal_string(total as u128))),
            None => None,
        }
    }

    fn part3(&self, input: &str) -> Option<String> {
        let lines = text_lines(input);
        if lines.len() == 0 {
            return None;
        }
        let width = lines[0].len();
        let height = lines.len();
        if width < 2 || height < 2 {
            return None;
        }
        match grid_power(&lines, (width - 2) / 6, (height - 2) / 6, 6) {
            Some(total) => Some(string_from_chars(&decimal_string(total as u128))),
            None => None,
        }
    }
}

} // verus!
