use crate::solution::Solution;
use crate::text::{chars_of, split_on};
use vstd::prelude::*;

verus! {

/// The cell at column `x`, row `y` of a grid `w` wide, stored row by row.
pub open spec fn at(g: Seq<u16>, w: int, x: int, y: int) -> int {
    g[y * w + x] as int
}

/// The cell `(x + dx, y + dy)` holds at least `level`.
pub open spec fn reaches(g: Seq<u16>, w: int, x: int, y: int, dx: int, dy: int, level: int) -> bool {
    at(g, w, x + dx, y + dy) >= level
}

/// Cell `(x, y)` can be dug to `depth`: it is at `depth - 1`, away from the edge, and its
/// four neighbours (eight with diagonals) are at least at `depth - 1`.
pub open spec fn diggable(g: Seq<u16>, w: int, h: int, depth: int, diag: bool, x: int, y: int) -> bool {
    let l = depth - 1;
    &&& at(g, w, x, y) == l
    &&& 0 < x < w - 1
    &&& 0 < y < h - 1
    &&& reaches(g, w, x, y, -1, 0, l) && reaches(g, w, x, y, 1, 0, l)
    &&& reaches(g, w, x, y, 0, -1, l) && reaches(g, w, x, y, 0, 1, l)
    &&& diag ==> (reaches(g, w, x, y, -1, -1, l) && reaches(g, w, x, y, 1, -1, l) && reaches(
        g,
        w,
        x,
        y,
        -1,
        1,
        l,
    ) && reaches(g, w, x, y, 1, 1, l))
}

/// Some cell of row `y` left of column `xlim` can be dug.
pub open spec fn row_diggable(g: Seq<u16>, w: int, h: int, depth: int, diag: bool, y: int, xlim: int) -> bool {
    exists|x: int| 0 <= x < xlim && #[trigger] diggable(g, w, h, depth, diag, x, y)
}

/// Some cell of the rows above `ylim` can be dug.
pub open spec fn any_diggable(g: Seq<u16>, w: int, h: int, depth: int, diag: bool, ylim: int) -> bool {
    exists|y: int| 0 <= y < ylim && #[trigger] row_diggable(g, w, h, depth, diag, y, w)
}

proof fn lemma_any_step(g: Seq<u16>, w: int, h: int, depth: int, diag: bool, y: int)
    requires
        0 <= y,
    ensures
        any_diggable(g, w, h, depth, diag, y + 1) == (any_diggable(g, w, h, depth, diag, y)
            || row_diggable(g, w, h, depth, diag, y, w)),
{
    if any_diggable(g, w, h, depth, diag, y + 1) {
        let yy = choose|yy: int| 0 <= yy < y + 1 && #[trigger] row_diggable(g, w, h, depth, diag, yy, w);
        if yy < y {
            assert(any_diggable(g, w, h, depth, diag, y));
        }
    }
    if any_diggable(g, w, h, depth, diag, y) {
        let yy = choose|yy: int| 0 <= yy < y && #[trigger] row_diggable(g, w, h, depth, diag, yy, w);
        assert(any_diggable(g, w, h, depth, diag, y + 1));
    }
    if row_diggable(g, w, h, depth, diag, y, w) {
        assert(any_diggable(g, w, h, depth, diag, y + 1));
    }
}

proof fn lemma_row_step(g: Seq<u16>, w: int, h: int, depth: int, diag: bool, y: int, x: int)
    requires
        0 <= x,
    ensures
        row_diggable(g, w, h, depth, diag, y, x + 1) == (row_diggable(g, w, h, depth, diag, y, x)
            || diggable(g, w, h, depth, diag, x, y)),
{
    if row_diggable(g, w, h, depth, diag, y, x + 1) {
        let xx = choose|xx: int| 0 <= xx < x + 1 && #[trigger] diggable(g, w, h, depth, diag, xx, y);
        if xx < x {
            assert(row_diggable(g, w, h, depth, diag, y, x));
        }
    }
}

proof fn lemma_cell_index(w: int, h: int, x: int, y: int)
    requires
        0 <= x < w,
        0 <= y < h,
    ensures
        0 <= y * w + x < w * h,
        y * w + x == (y * w) + x,
{
    assert(y * w + x < w * h) by (nonlinear_arith)
        requires
            0 <= x < w,
            0 <= y < h,
    ;
    assert(0 <= y * w) by (nonlinear_arith)
        requires
            0 <= y,
            0 <= w,
    ;
}

/// The cell index of `(x, y)`, bounds proved.
fn cell(w: usize, h: usize, x: usize, y: usize) -> (r: usize)
    requires
        x < w,
        y < h,
        w * h <= usize::MAX,
    ensures
        r == y * w + x,
        r < w * h,
{
    proof {
        lemma_cell_index(w as int, h as int, x as int, y as int);
    }
    y * w + x
}

/// Whether the cell at `(x + dx, y + dy)` (inside the grid) holds at least `level`.
fn at_least(g: &Vec<u16>, w: usize, h: usize, x: usize, y: usize, dx: i8, dy: i8, level: u16) -> (r: bool)
    requires
        g@.len() == w * h,
        w * h <= usize::MAX,
        -1 <= dx <= 1,
        -1 <= dy <= 1,
        0 <= x + dx < w,
        0 <= y + dy < h,
    ensures
        r == reaches(g@, w as int, x as int, y as int, dx as int, dy as int, level as int),
{
    let nx = if dx < 0 { x - 1 } else if dx > 0 { x + 1 } else { x };
    let ny = if dy < 0 { y - 1 } else if dy > 0 { y + 1 } else { y };
    let i = cell(w, h, nx, ny);
    g[i] >= level
}

/// Digs, in one pass, every cell that can be dug to `depth`; returns whether any was.
pub fn carve_deeper(grid: &mut Vec<u16>, depth: u16, width: usize, height: usize, respect_diagonals: bool) -> (r: bool)
    requires
        depth >= 1,
        old(grid)@.len() == width * height,
        width * height <= usize::MAX,
    ensures
        final(grid)@.len() == old(grid)@.len(),
        forall|x: int, y: int|
            0 <= x < width && 0 <= y < height ==> #[trigger] at(final(grid)@, width as int, x, y) == if diggable(
                old(grid)@,
                width as int,
                height as int,
                depth as int,
                respect_diagonals,
                x,
                y,
            ) {
                depth as int
            } else {
                at(old(grid)@, width as int, x, y)
            },
        r == any_diggable(
            old(grid)@,
            width as int,
            height as int,
            depth as int,
            respect_diagonals,
            height as int,
        ),
{
    let ghost g0 = grid@;
    let ghost w = width as int;
    let ghost h = height as int;
    let level = depth - 1;
    let mut did_something = false;
    let mut y: usize = 0;
    while y < height
        invariant
            g0 == old(grid)@,
            g0.len() == width * height,
            w == width,
            h == height,
            depth >= 1,
            level == depth - 1,
            grid@.len() == width * height,
            width * height <= usize::MAX,
            y <= height,
            forall|i: int| 0 <= i < grid@.len() ==> (#[trigger] grid@[i] >= level) == (g0[i] >= level),
            forall|i: int| y * w <= i < grid@.len() ==> #[trigger] grid@[i] == g0[i],
            forall|xx: int, yy: int|
                0 <= xx < width && 0 <= yy < y ==> #[trigger] at(grid@, w, xx, yy) == if diggable(
                    g0, w, h, depth as int, respect_diagonals, xx, yy) {
                    depth as int
                } else {
                    at(g0, w, xx, yy)
                },
            did_something == any_diggable(g0, w, h, depth as int, respect_diagonals, y as int),
        decreases height - y,
    {
        let mut x: usize = 0;
        while x < width
            invariant
                g0 == old(grid)@,
                g0.len() == width * height,
                w == width,
                h == height,
                depth >= 1,
                level == depth - 1,
                grid@.len() == width * height,
                width * height <= usize::MAX,
                y < height,
                x <= width,
                forall|i: int| 0 <= i < grid@.len() ==> (#[trigger] grid@[i] >= level) == (g0[i] >= level),
                forall|i: int| y * w + x <= i < grid@.len() ==> #[trigger] grid@[i] == g0[i],
                forall|xx: int, yy: int|
                    0 <= xx < width && 0 <= yy < y ==> #[trigger] at(grid@, w, xx, yy) == if diggable(
                        g0, w, h, depth as int, respect_diagonals, xx, yy) {
                        depth as int
                    } else {
                        at(g0, w, xx, yy)
                    },
                forall|xx: int|
                    0 <= xx < x ==> #[trigger] at(grid@, w, xx, y as int) == if diggable(
                        g0, w, h, depth as int, respect_diagonals, xx, y as int) {
                        depth as int
                    } else {
                        at(g0, w, xx, y as int)
                    },
                did_something == (any_diggable(g0, w, h, depth as int, respect_diagonals, y as int)
                    || row_diggable(g0, w, h, depth as int, respect_diagonals, y as int, x as int)),
            decreases width - x,
        {
            let idx = cell(width, height, x, y);
            let mut dig = grid[idx] == level && x > 0 && x < width - 1 && y > 0 && y < height - 1;
            proof {
                // the cells read below are unchanged in whether they reach `level`
                assert forall|dx: int, dy: int| -1 <= dx <= 1 && -1 <= dy <= 1 && 0 <= x + dx < w && 0 <= y + dy < h implies
                    #[trigger] reaches(grid@, w, x as int, y as int, dx, dy, level as int) == reaches(g0, w, x as int, y as int, dx, dy, level as int) by {
                    lemma_cell_index(w, h, x + dx, y + dy);
                }
                assert(grid@[idx as int] == g0[idx as int]);
            }
            if dig {
                dig = at_least(grid, width, height, x, y, -1, 0, level) && at_least(grid, width, height, x, y, 1, 0, level)
                    && at_least(grid, width, height, x, y, 0, -1, level) && at_least(grid, width, height, x, y, 0, 1, level);
                if dig && respect_diagonals {
                    dig = at_least(grid, width, height, x, y, -1, -1, level) && at_least(grid, width, height, x, y, 1, -1, level)
                        && at_least(grid, width, height, x, y, -1, 1, level) && at_least(grid, width, height, x, y, 1, 1, level);
                }
            }
            assert(dig == diggable(g0, w, h, depth as int, respect_diagonals, x as int, y as int));
            let ghost before = grid@;
            if dig {
                grid.set(idx, depth);
                did_something = true;
            }
            proof {
                assert forall|xx: int, yy: int| 0 <= xx < width && 0 <= yy < y implies #[trigger] at(grid@, w, xx, yy) == at(before, w, xx, yy) by {
                    lemma_cell_index(w, h, xx, yy);
                    assert(yy * w + xx < y * w) by (nonlinear_arith)
                        requires
                            0 <= xx < w,
                            yy < y,
                            yy * w + xx == yy * w + xx,
                    ;
                }
                assert forall|xx: int| 0 <= xx < x implies #[trigger] at(grid@, w, xx, y as int) == at(before, w, xx, y as int) by {
                    lemma_cell_index(w, h, xx, y as int);
                }
                assert forall|i: int| (y * w + x + 1) <= i < grid@.len() implies #[trigger] grid@[i] == g0[i] by {}
                lemma_row_step(g0, w, h, depth as int, respect_diagonals, y as int, x as int);
            }
            x = x + 1;
        }
        proof {
            assert((y + 1) * w == y * w + w) by (nonlinear_arith);
            lemma_any_step(g0, w, h, depth as int, respect_diagonals, y as int);
        }
        y = y + 1;
    }
    did_something
}

/// The mining day.
pub struct Day3;

impl Day3 {
    /// Digs level after level until none can be dug; the total depth dug over all cells.
    pub fn total_depth(input: &str, respect_diagonals: bool) -> Option<i32> {
        let text = chars_of(input);
        let mut lines = split_on(&text, '\n');
        while lines.len() > 0 && lines[lines.len() - 1].len() == 0
            decreases lines.len(),
        {
            lines.pop();
        }
        if lines.len() == 0 {
            return None;
        }
        let width = lines[0].len();
        let height = lines.len();
        let cells = match width.checked_mul(height) {
            Some(c) => c,
            None => {
                return None;
            },
        };
        let mut grid: Vec<u16> = Vec::new();
        let mut y: usize = 0;
        while y < height
            invariant
                y <= height,
                height == lines@.len(),
                grid@.len() == y * width,
                cells == width * height,
            decreases height - y,
        {
            let line = &lines[y];
            if line.len() != width {
                return None;
            }
            let mut x: usize = 0;
            while x < width
                invariant
                    x <= width,
                    y < height,
                    line@.len() == width,
                    grid@.len() == y * width + x,
                decreases width - x,
            {
                grid.push(if line[x] == '#' { 1 } else { 0 });
                x = x + 1;
            }
            assert((y + 1) * width == y * width + width) by (nonlinear_arith);
            y = y + 1;
        }
        assert(grid@.len() == width * height) by (nonlinear_arith)
            requires
                grid@.len() == y * width,
                y == height,
        ;
        let mut depth: u16 = 2;
        loop
            invariant
                grid@.len() == width * height,
                cells == width * height,
                depth >= 2,
            decreases u16::MAX - depth,
        {
            if !carve_deeper(&mut grid, depth, width, height, respect_diagonals) {
                break;
            }
            if depth == u16::MAX {
                return None;
            }
            depth = depth + 1;
        }
        let mut total: i32 = 0;
        let mut i: usize = 0;
        while i < grid.len()
            invariant
                i <= grid@.len(),
            decreases grid.len() - i,
        {
            if total > i32::MAX - grid[i] as i32 {
                return None;
            }
            total = total + grid[i] as i32;
            i = i + 1;
        }
        Some(total)
    }
}

impl Solution<i32> for Day3 {
    open spec fn answer1(&self, input: Seq<char>, r: Option<i32>) -> bool {
        true
    }

    open spec fn answer2(&self, input: Seq<char>, r: Option<i32>) -> bool {
        true
    }

    open spec fn answer3(&self, input: Seq<char>, r: Option<i32>) -> bool {
        true
    }

    fn get_day(&self) -> usize {
        3
    }

    fn part1(&self, input: &str) -> Option<i32> {
        Day3::total_depth(input, false)
    }

    fn part2(&self, input: &str) -> Option<i32> {
        self.part1(input)
    }

    fn part3(&self, input: &str) -> Option<i32> {
        Day3::total_depth(input, true)
    }
}

} // verus!
