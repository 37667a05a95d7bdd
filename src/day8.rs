use crate::solution::Solution;
use crate::text::{number_in, read_number};
use vstd::prelude::*;

verus! {

/// The largest block count the pyramid is grown to; every quantity stays far within `u128`.
pub const SUM_CAP: u128 = 0x1_0000_0000_0000_0000;

/// A pyramid as a mathematical value.
pub struct PyramidView {
    /// The width of every layer, bottom last.
    pub rows: Seq<int>,
    pub sum: int,
    pub last_thickness: int,
    /// Filled cells of the central column and of each column outwards.
    pub heights: Seq<int>,
}

impl PyramidView {
    pub open spec fn wf(self) -> bool {
        &&& self.rows.len() > 0
        &&& self.heights.len() > 0
        &&& self.rows.last() == 2 * self.heights.len() - 1
        &&& self.rows.last() <= self.sum
        &&& 0 <= self.last_thickness < 1111
        &&& forall|i: int| 0 <= i < self.heights.len() ==> 0 <= #[trigger] self.heights[i] <= self.sum
    }

    /// The width of the widest (bottom) row.
    pub open spec fn width(self) -> int {
        self.rows.last()
    }

    /// The pyramid after adding a row two blocks wider, `t` layers thick.
    pub open spec fn grown(self, t: int) -> PyramidView {
        let w = self.width() + 2;
        PyramidView {
            rows: self.rows + Seq::new(t as nat, |i: int| w),
            sum: self.sum + t * w,
            last_thickness: t,
            heights: if t == 0 {
                self.heights
            } else {
                self.heights.push(0).map_values(|h: int| h + t)
            },
        }
    }

    /// The filled cells of every column of the base, left to right.
    pub open spec fn profile(self) -> Seq<int> {
        let w = self.width();
        let half = w / 2;
        Seq::new(
            w as nat,
            |i: int|
                if i >= half {
                    self.heights[i - half]
                } else {
                    self.heights[half - i]
                },
        )
    }

    /// Empty blocks of the hollow pyramid: with `w` the number of entries of the
    /// half-profile (the axis included) and `first_line = w * p`, the digit
    /// `(first_line * h) % 10` of each entry `h` but the outermost, which is always filled.
    pub open spec fn empty(self, priests: int) -> int {
        let w = self.heights.len() as int;
        if w <= 1 {
            0
        } else {
            hollow_sum(self.heights.subrange(0, w - 1), w * priests)
        }
    }
}

/// Sum of `(first_line * h) % 10` over the columns `hs`.
pub open spec fn hollow_sum(hs: Seq<int>, first_line: int) -> int
    decreases hs.len(),
{
    if hs.len() == 0 {
        0
    } else {
        hollow_sum(hs.drop_last(), first_line) + (first_line * hs.last()) % 10
    }
}

/// Layer thickness of the next row of the thick pyramid.
pub open spec fn thickness_thick(last: int, priests: int) -> int {
    (last * priests) % 1111
}

/// Layer thickness of the next row of the hollow pyramid: always ten or more.
pub open spec fn thickness_hollow(last: int, priests: int) -> int {
    (last * priests) % 10 + 10
}

/// A pyramid grown row by row, with its column profile.
pub struct Pyramid {
    pub rows: Vec<u128>,
    pub sum: u128,
    last_thickness: u128,
    column_heights: Vec<u128>,
}

impl View for Pyramid {
    type V = PyramidView;

    closed spec fn view(&self) -> PyramidView {
        PyramidView {
            rows: self.rows@.map_values(|r: u128| r as int),
            sum: self.sum as int,
            last_thickness: self.last_thickness as int,
            heights: self.column_heights@.map_values(|h: u128| h as int),
        }
    }
}

impl Pyramid {
    /// A single block.
    pub fn new() -> (r: Pyramid)
        ensures
            r@ == (PyramidView {
                rows: seq![1int],
                sum: 1,
                last_thickness: 1,
                heights: seq![1int],
            }),
            r@.wf(),
    {
        let r = Pyramid { rows: vec![1], sum: 1, last_thickness: 1, column_heights: vec![1] };
        assert(r@.rows =~= seq![1int]);
        assert(r@.heights =~= seq![1int]);
        r
    }

    /// The width of the bottom row.
    pub fn width(&self) -> (r: u128)
        requires
            self@.wf(),
        ensures
            r == self@.width(),
    {
        self.rows[self.rows.len() - 1]
    }

    /// Adds a row two blocks wider than the last, `t` layers thick, and raises the
    /// column profile.
    fn grow(&mut self, t: u128)
        requires
            old(self)@.wf(),
            old(self)@.sum < SUM_CAP,
            t < 1111,
        ensures
            final(self)@ == old(self)@.grown(t as int),
            final(self)@.wf(),
            final(self)@.sum >= old(self)@.sum + t,
    {
        let ghost v0 = self@;
        let ghost heights0 = self.column_heights@;
        let w = self.rows[self.rows.len() - 1] + 2;
        assert(t * w <= 1111 * w) by (nonlinear_arith)
            requires
                t < 1111,
                w >= 0,
        ;
        self.sum = self.sum + t * w;
        self.last_thickness = t;
        let mut k: u128 = 0;
        while k < t
            invariant
                k <= t,
                self.rows@.map_values(|r: u128| r as int) == v0.rows + Seq::new(
                    k as nat,
                    |i: int| w as int,
                ),
                self.column_heights@ == heights0,
                self.sum == v0.sum + t * w,
                self.last_thickness == t,
            decreases t - k,
        {
            let ghost before = self.rows@;
            self.rows.push(w);
            assert(self.rows@.map_values(|r: u128| r as int) =~= before.map_values(
                |r: u128| r as int,
            ).push(w as int));
            assert((v0.rows + Seq::new(k as nat, |i: int| w as int)).push(w as int) =~= v0.rows
                + Seq::new((k + 1) as nat, |i: int| w as int));
            k = k + 1;
        }
        let ghost rows1 = self.rows@;
        if t == 0 {
            assert(self@.rows =~= v0.rows + Seq::new(t as nat, |i: int| w as int));
            return;
        }
        self.column_heights.push(0);
        assert(self.column_heights@ == heights0.push(0));
        assert forall|j: int| 0 <= j < self.column_heights@.len() implies #[trigger] self.column_heights@[j] as int == v0.heights.push(0)[j] by {
            if j < heights0.len() {
                assert(v0.heights[j] == heights0[j] as int);
            }
        }
        let mut i: usize = 0;
        while i < self.column_heights.len()
            invariant
                i <= self.column_heights.len(),
                self.column_heights@.len() == v0.heights.len() + 1,
                self.sum == v0.sum + t * w,
                forall|j: int| 0 <= j < i ==> #[trigger] self.column_heights@[j] as int
                    == v0.heights.push(0)[j] + t,
                forall|j: int| i <= j < self.column_heights@.len() ==> #[trigger] self.column_heights@[j]
                    as int == v0.heights.push(0)[j],
                v0.wf(),
                v0.sum < SUM_CAP,
                t < 1111,
                self.rows@ == rows1,
                self.last_thickness == t,
                v0.heights == heights0.map_values(|h: u128| h as int),
            decreases self.column_heights.len() - i,
        {
            assert(v0.heights.push(0)[i as int] <= v0.sum);
            self.column_heights.set(i, self.column_heights[i] + t);
            i = i + 1;
        }
        assert(self@.heights =~= v0.heights.push(0).map_values(|h: int| h + t));
        assert(self@.rows =~= v0.rows + Seq::new(t as nat, |i: int| w as int));
        assert(t <= t * w) by (nonlinear_arith)
            requires
                w >= 1,
                t >= 0,
        ;
    }

    /// Thin variant: one layer, two blocks wider than the last row.
    pub fn add_row(&mut self)
        requires
            old(self)@.wf(),
            old(self)@.sum < SUM_CAP,
        ensures
            final(self)@ == old(self)@.grown(1),
            final(self)@.wf(),
            final(self)@.sum > old(self)@.sum,
    {
        self.grow(1);
    }

    /// Thick variant: `last_thickness * priests % 1111` layers.
    pub fn add_row_p2(&mut self, priests: usize)
        requires
            old(self)@.wf(),
            old(self)@.sum < SUM_CAP,
        ensures
            final(self)@ == old(self)@.grown(
                thickness_thick(old(self)@.last_thickness, priests as int),
            ),
            final(self)@.wf(),
    {
        assert(self.last_thickness * (priests as u128) < 1111 * 0x1_0000_0000_0000_0000)
            by (nonlinear_arith)
            requires
                self.last_thickness < 1111,
                priests < 0x1_0000_0000_0000_0000,
        ;
        let t = (self.last_thickness * priests as u128) % 1111;
        self.grow(t);
    }

    /// Hollow variant: `last_thickness * priests % 10 + 10` layers.
    pub fn add_row_p3(&mut self, priests: usize)
        requires
            old(self)@.wf(),
            old(self)@.sum < SUM_CAP,
        ensures
            final(self)@ == old(self)@.grown(
                thickness_hollow(old(self)@.last_thickness, priests as int),
            ),
            final(self)@.wf(),
            final(self)@.sum > old(self)@.sum,
    {
        assert(self.last_thickness * (priests as u128) < 1111 * 0x1_0000_0000_0000_0000)
            by (nonlinear_arith)
            requires
                self.last_thickness < 1111,
                priests < 0x1_0000_0000_0000_0000,
        ;
        let t = (self.last_thickness * priests as u128) % 10 + 10;
        self.grow(t);
    }

    /// The filled cells of every column of the base, left to right.
    pub fn column_heights(&self) -> (r: Vec<u128>)
        requires
            self@.wf(),
        ensures
            r@.map_values(|h: u128| h as int) == self@.profile(),
    {
        let width = self.rows[self.rows.len() - 1];
        let half = width / 2;
        let mut columnwise: Vec<u128> = Vec::new();
        let hlen: usize = self.column_heights.len();
        let mut i: u128 = 0;
        while i < width
            invariant
                hlen == self.column_heights@.len(),
                self@.wf(),
                width == self@.width(),
                half == width / 2,
                i <= width,
                columnwise@.len() == i,
                forall|j: int| 0 <= j < i ==> #[trigger] columnwise@[j] as int == self@.profile()[j],
            decreases width - i,
        {
            let idx = if i >= half {
                i - half
            } else {
                half - i
            };
            assert(half as int == self@.width() / 2);
            assert(self@.heights.len() == self.column_heights@.len());
            assert(idx < self.column_heights@.len());
            assert(self@.heights[idx as int] == self.column_heights@[idx as int] as int);
            assert(hlen as int == self.column_heights@.len());
            let iu: usize = idx as usize;
            assert(iu as int == idx as int);
            let v = self.column_heights[iu];
            assert(v as int == self@.profile()[i as int]);
            columnwise.push(v);
            i = i + 1;
        }
        assert(columnwise@.map_values(|h: u128| h as int) =~= self@.profile());
        columnwise
    }

    /// The empty blocks of the hollow pyramid for `priests`.
    pub fn empty_blocks(&self, priests: usize) -> (r: u128)
        requires
            self@.wf(),
        ensures
            r == self@.empty(priests as int),
    {
        let ghost hs = self@.heights;
        let hlen = self.column_heights.len();
        assert(hs.len() == hlen);
        if hlen <= 1 {
            return 0;
        }
        let w = hlen as u128;
        assert((w % 10) * (priests as u128 % 10) <= 81) by (nonlinear_arith)
            requires
                w % 10 < 10,
                priests as u128 % 10 < 10,
        ;
        let first_digit = ((w % 10) * (priests as u128 % 10)) % 10;
        proof {
            vstd::arithmetic::div_mod::lemma_mul_mod_noop(w as int, priests as int, 10);
        }
        let mut acc: u128 = 0;
        let mut i: usize = 0;
        while i + 1 < hlen
            invariant
                hlen == self.column_heights@.len(),
                hs == self@.heights,
                hs.len() == hlen,
                hlen >= 2,
                w == hlen,
                i + 1 <= hlen,
                first_digit == (w as int * priests as int) % 10,
                acc == hollow_sum(hs.subrange(0, i as int), w as int * priests as int),
                acc <= 9 * i,
            decreases hlen - i,
        {
            let h = self.column_heights[i];
            assert(hs[i as int] == h as int);
            assert(first_digit * (h % 10) <= 81) by (nonlinear_arith)
                requires
                    first_digit < 10,
                    h % 10 < 10,
            ;
            let d = (first_digit * (h % 10)) % 10;
            proof {
                let fl = w as int * priests as int;
                vstd::arithmetic::div_mod::lemma_mul_mod_noop(fl, h as int, 10);
                vstd::arithmetic::div_mod::lemma_mul_mod_noop(fl % 10, h as int, 10);
                assert(fl % 10 % 10 == fl % 10) by {
                    vstd::arithmetic::div_mod::lemma_mod_twice(fl, 10);
                }
                assert(hs.subrange(0, i + 1).drop_last() == hs.subrange(0, i as int));
            }
            acc = acc + d;
            i = i + 1;
        }
        acc
    }
}

/// Growing a pyramid never shrinks it: the block count does not decrease, the existing
/// rows stay, every new row is at least as wide as the old bottom row, and no column of
/// the profile loses height.
pub proof fn lemma_pyramid_monotone(v: PyramidView, t: int)
    requires
        v.wf(),
        t >= 0,
    ensures
        v.grown(t).sum >= v.sum,
        v.grown(t).rows.len() >= v.rows.len(),
        forall|i: int| 0 <= i < v.rows.len() ==> #[trigger] v.grown(t).rows[i] == v.rows[i],
        forall|i: int|
            v.rows.len() <= i < v.grown(t).rows.len() ==> #[trigger] v.grown(t).rows[i] >= v.rows.last(),
        v.grown(t).heights.len() >= v.heights.len(),
        forall|i: int| 0 <= i < v.heights.len() ==> #[trigger] v.grown(t).heights[i] >= v.heights[i],
{
    assert(t * (v.width() + 2) >= 0) by (nonlinear_arith)
        requires
            t >= 0,
            v.width() >= 0,
    ;
}

/// A thin pyramid of `k + 1` rows is the first to hold `target` blocks.
pub open spec fn thin_stops_at(target: int, k: int) -> bool {
    0 <= k && (k + 1) * (k + 1) >= target && (k == 0 || k * k < target)
}

/// The surplus of a thin pyramid of `k + 1` rows over `target`, times its base width.
pub open spec fn thin_answer(target: int, k: int) -> int {
    (2 * k + 1) * ((k + 1) * (k + 1) - target)
}

/// A single block.
pub open spec fn initial_pyramid() -> PyramidView {
    PyramidView { rows: seq![1int], sum: 1, last_thickness: 1, heights: seq![1int] }
}

/// The thick pyramid after `n` rows were added for `priests`.
pub open spec fn thick_after(priests: int, n: nat) -> PyramidView
    decreases n,
{
    if n == 0 {
        initial_pyramid()
    } else {
        let v = thick_after(priests, (n - 1) as nat);
        v.grown(thickness_thick(v.last_thickness, priests))
    }
}

/// The hollow pyramid after `n` rows were added for `priests`.
pub open spec fn hollow_after(priests: int, n: nat) -> PyramidView
    decreases n,
{
    if n == 0 {
        initial_pyramid()
    } else {
        let v = hollow_after(priests, (n - 1) as nat);
        v.grown(thickness_hollow(v.last_thickness, priests))
    }
}

/// After `n` rows the thick pyramid holds `target` blocks, and not before.
pub open spec fn thick_stops_at(priests: int, target: int, n: nat) -> bool {
    &&& thick_after(priests, n).sum >= target
    &&& forall|m: nat| m < n ==> #[trigger] thick_after(priests, m).sum < target
}

/// After `n` rows the hollow pyramid's filled blocks reach `target`, and not before.
pub open spec fn hollow_stops_at(priests: int, target: int, n: nat) -> bool {
    &&& hollow_after(priests, n).sum >= target + hollow_after(priests, n).empty(priests)
    &&& forall|m: nat|
        m < n ==> #[trigger] hollow_after(priests, m).sum < target + hollow_after(priests, m).empty(
            priests,
        )
}

/// The answer for a thick pyramid of `n` added rows: its surplus over `target` times its
/// base width.
pub open spec fn thick_answer(priests: int, target: int, n: nat) -> int {
    thick_after(priests, n).width() * (thick_after(priests, n).sum - target)
}

/// The thick pyramid stops growing short of `target`: after `n` rows it holds fewer
/// blocks, and the next row has no layers.
pub open spec fn thick_stalls(priests: int, target: int, n: nat) -> bool {
    &&& forall|m: nat| m <= n ==> #[trigger] thick_after(priests, m).sum < target
    &&& thick_after(priests, n + 1).sum == thick_after(priests, n).sum
}

/// The hollow pyramid's search gives up at `n` rows without reaching `target`: the row
/// budget of `target` rows is spent, or the numbers leave their bounds.
pub open spec fn hollow_gives_up(priests: int, target: int, n: nat) -> bool {
    let v = hollow_after(priests, n);
    &&& forall|m: nat|
        m < n ==> #[trigger] hollow_after(priests, m).sum < target + hollow_after(priests, m).empty(
            priests,
        )
    &&& (n >= target && v.sum < target + v.empty(priests)) || v.sum >= SUM_CAP || target + v.empty(
        priests,
    ) > u128::MAX
}

/// The thin pyramid's answer for the number in `input`.
pub open spec fn thin_result(input: Seq<char>, r: Option<u128>) -> bool {
    match number_in(input) {
        None => r is None,
        Some(t) => exists|k: int|
            #[trigger] thin_stops_at(t as int, k) && match r {
                Some(v) => v == thin_answer(t as int, k),
                None => thin_answer(t as int, k) > u128::MAX,
            },
    }
}

/// The pyramid day.
pub struct Day8;

impl Day8 {
    /// Thin pyramid: rows are added until `target` blocks are reached; the surplus times
    /// the bottom width. With `k + 1` rows the pyramid holds `(k + 1)^2` blocks on a base
    /// `2k + 1` wide. `None` when the answer does not fit a `u128`.
    pub fn thin_surplus(target: u64) -> (r: Option<u128>)
        ensures
            exists|k: int|
                #[trigger] thin_stops_at(target as int, k) && match r {
                    Some(v) => v == thin_answer(target as int, k),
                    None => thin_answer(target as int, k) > u128::MAX,
                },
    {
        let mut pyramid = Pyramid::new();
        let ghost mut k: int = 0;
        while pyramid.sum < target as u128
            invariant
                pyramid@.wf(),
                0 <= k,
                pyramid@.sum == (k + 1) * (k + 1),
                pyramid@.width() == 2 * k + 1,
                k == 0 || k * k < target,
                pyramid@.sum < SUM_CAP + 3 * SUM_CAP,
            decreases if pyramid@.sum < target { target - pyramid@.sum } else { 0 },
        {
            pyramid.add_row();
            proof {
                assert((k + 2) * (k + 2) == (k + 1) * (k + 1) + 2 * k + 3) by (nonlinear_arith);
                k = k + 1;
            }
            assert(pyramid@.sum <= 2 * SUM_CAP);
        }
        let diff = pyramid.sum - target as u128;
        let width = pyramid.width();
        assert(thin_stops_at(target as int, k));
        width.checked_mul(diff)
    }

    /// Thick pyramid grown to `target` blocks: its surplus times its base width. `None`
    /// when a row of no layers stops growth, or the answer does not fit a `u128`.
    pub fn thick_surplus(target: u64, priests: usize) -> (r: Option<u128>)
        ensures
            r is Some ==> exists|n: nat|
                #[trigger] thick_stops_at(priests as int, target as int, n) && r->0 == thick_answer(
                    priests as int,
                    target as int,
                    n,
                ),
            r is None ==> (exists|n: nat| #[trigger] thick_stalls(priests as int, target as int, n))
                || (exists|n: nat|
                #[trigger] thick_stops_at(priests as int, target as int, n) && thick_answer(
                    priests as int,
                    target as int,
                    n,
                ) > u128::MAX),
    {
        let mut pyramid = Pyramid::new();
        let ghost mut n: nat = 0;
        while pyramid.sum < target as u128
            invariant
                pyramid@.wf(),
                pyramid@ == thick_after(priests as int, n),
                forall|m: nat| m < n ==> #[trigger] thick_after(priests as int, m).sum < target,
            decreases if pyramid@.sum < target { target - pyramid@.sum } else { 0 },
        {
            let before = pyramid.sum;
            proof {
                assert forall|m: nat| m < n + 1 implies #[trigger] thick_after(priests as int, m).sum < target by {
                    if m == n {
                    }
                }
                n = n + 1;
            }
            pyramid.add_row_p2(priests);
            if pyramid.sum == before {
                assert(thick_stalls(priests as int, target as int, (n - 1) as nat));
                return None;
            }
            assert(pyramid@.sum <= 1111 * (SUM_CAP + 2) + SUM_CAP) by (nonlinear_arith)
                requires
                    pyramid@.sum == before + pyramid@.last_thickness * pyramid@.width(),
                    pyramid@.last_thickness < 1111,
                    pyramid@.width() <= before + 2,
                    before < SUM_CAP,
            ;
        }
        let diff = pyramid.sum - target as u128;
        let width = pyramid.width();
        assert(thick_stops_at(priests as int, target as int, n));
        assert(thick_answer(priests as int, target as int, n) == width * diff);
        width.checked_mul(diff)
    }

    /// Hollow pyramid grown until its blocks less the empty ones reach `target`; the
    /// surplus. `None` if that takes more than `target` rows or leaves the `u128` range.
    pub fn hollow_surplus(target: u64, priests: usize) -> (r: Option<u128>)
        ensures
            r is Some ==> exists|n: nat|
                #[trigger] hollow_stops_at(priests as int, target as int, n) && r->0 == hollow_after(
                    priests as int,
                    n,
                ).sum - target - hollow_after(priests as int, n).empty(priests as int),
            r is None ==> exists|n: nat| #[trigger] hollow_gives_up(priests as int, target as int, n),
    {
        let mut pyramid = Pyramid::new();
        let mut fuel: u64 = target;
        let ghost mut n: nat = 0;
        loop
            invariant
                pyramid@.wf(),
                pyramid@.sum < SUM_CAP,
                pyramid@ == hollow_after(priests as int, n),
                n + fuel == target,
                forall|m: nat|
                    m < n ==> #[trigger] hollow_after(priests as int, m).sum < target + hollow_after(
                        priests as int,
                        m,
                    ).empty(priests as int),
            decreases fuel,
        {
            let empty = pyramid.empty_blocks(priests);
            let goal = match (target as u128).checked_add(empty) {
                Some(g) => g,
                None => {
                    assert(hollow_gives_up(priests as int, target as int, n));
                    return None;
                },
            };
            if pyramid.sum >= goal {
                assert(hollow_stops_at(priests as int, target as int, n));
                return Some(pyramid.sum - goal);
            }
            if fuel == 0 {
                assert(hollow_gives_up(priests as int, target as int, n));
                return None;
            }
            proof {
                assert forall|m: nat|
                    m < n + 1 implies #[trigger] hollow_after(priests as int, m).sum < target + hollow_after(
                    priests as int,
                    m,
                ).empty(priests as int) by {
                    if m == n {
                    }
                }
                n = n + 1;
            }
            pyramid.add_row_p3(priests);
            if pyramid.sum >= SUM_CAP {
                assert(hollow_gives_up(priests as int, target as int, n));
                return None;
            }
            fuel = fuel - 1;
        }
    }
}

/// What the thick pyramid part answers for `input`.
pub open spec fn thick_result(input: Seq<char>, r: Option<u128>) -> bool {
    &&& (number_in(input) is None || number_in(input)->0 > usize::MAX ==> r is None)
    &&& (r is Some ==> exists|n: nat|
        #[trigger] thick_stops_at(number_in(input)->0 as int, 20240000, n) && r->0
            == thick_answer(number_in(input)->0 as int, 20240000, n))
    &&& (r is None && number_in(input) is Some && number_in(input)->0 <= usize::MAX ==> (exists|
        n: nat,
    | #[trigger] thick_stalls(number_in(input)->0 as int, 20240000, n)) || (exists|n: nat|
        #[trigger] thick_stops_at(number_in(input)->0 as int, 20240000, n) && thick_answer(
            number_in(input)->0 as int,
            20240000,
            n,
        ) > u128::MAX))
}

/// What the hollow pyramid part answers for `input`.
pub open spec fn hollow_result(input: Seq<char>, r: Option<u128>) -> bool {
    &&& (number_in(input) is None || number_in(input)->0 > usize::MAX ==> r is None)
    &&& (r is Some ==> exists|n: nat|
        #[trigger] hollow_stops_at(number_in(input)->0 as int, 202400000, n) && r->0
            == hollow_after(number_in(input)->0 as int, n).sum - 202400000 - hollow_after(
            number_in(input)->0 as int,
            n,
        ).empty(number_in(input)->0 as int))
    &&& (r is None && number_in(input) is Some && number_in(input)->0 <= usize::MAX ==> exists|
        n: nat,
    | #[trigger] hollow_gives_up(number_in(input)->0 as int, 202400000, n))
}

impl Day8 {
    /// Part one: the input is the target; the thin pyramid's answer.
    pub fn thin_part(input: &str) -> (r: Option<u128>)
        ensures
            thin_result(input@, r),
    {
        match read_number(input) {
            Some(target) => Day8::thin_surplus(target),
            None => None,
        }
    }

    /// Part two: the input is the number of priests; the thick pyramid's answer for
    /// 20240000 blocks.
    pub fn thick_part(input: &str) -> (r: Option<u128>)
        ensures
            thick_result(input@, r),
    {
        match read_number(input) {
            Some(priests) => {
                if priests as u128 > usize::MAX as u128 {
                    return None;
                }
                Day8::thick_surplus(20240000, priests as usize)
            },
            None => None,
        }
    }

    /// Part three: the input is the number of priests; the hollow pyramid's answer for
    /// 202400000 blocks.
    pub fn hollow_part(input: &str) -> (r: Option<u128>)
        ensures
            hollow_result(input@, r),
    {
        match read_number(input) {
            Some(priests) => {
                if priests as u128 > usize::MAX as u128 {
                    return None;
                }
                Day8::hollow_surplus(202400000, priests as usize)
            },
            None => None,
        }
    }
}

impl Solution<u128> for Day8 {
    open spec fn answer1(&self, input: Seq<char>, r: Option<u128>) -> bool {
        thin_result(input, r)
    }

    open spec fn answer2(&self, input: Seq<char>, r: Option<u128>) -> bool {
        thick_result(input, r)
    }

    open spec fn answer3(&self, input: Seq<char>, r: Option<u128>) -> bool {
        hollow_result(input, r)
    }

    fn get_day(&self) -> usize {
        8
    }

    fn part1(&self, input: &str) -> Option<u128> {
        Day8::thin_part(input)
    }

    fn part2(&self, input: &str) -> Option<u128> {
        Day8::thick_part(input)
    }

    fn part3(&self, input: &str) -> Option<u128> {
        Day8::hollow_part(input)
    }
}

} // verus!
