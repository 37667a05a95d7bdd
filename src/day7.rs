use crate::solution::Solution;
use crate::order::{pair_le, sorted_pairs};
use crate::text::{decimal_digits, chars_of, split_on, split_spec, string_from_chars, decimal_string};
use vstd::prelude::*;

verus! {

/// Why a chariot input cannot be read.
#[derive(Debug, Clone, Copy, PartialEq, Eq, Structural)]
pub enum Day7ParseError {
    /// A chariot line is not `NAME:OP,OP,...` with each `OP` one of `+`, `-`, `=`.
    UnreadableChariot,
    /// The drawn track holds another symbol, or its loop cannot be walked.
    MalformedTrack,
}

/// A heading on the track grid; `y` grows northwards.
#[derive(Debug, Clone, Copy, PartialEq, Eq, Structural)]
pub enum Direction {
    North,
    East,
    South,
    West,
}

impl Direction {
    pub open spec fn clockwise(self) -> Direction {
        match self {
            Direction::North => Direction::East,
            Direction::East => Direction::South,
            Direction::South => Direction::West,
            Direction::West => Direction::North,
        }
    }

    pub open spec fn counterclockwise(self) -> Direction {
        match self {
            Direction::North => Direction::West,
            Direction::East => Direction::North,
            Direction::South => Direction::East,
            Direction::West => Direction::South,
        }
    }

    /// The cell one step along this heading, if it lies inside a `width` x `height` grid.
    pub open spec fn march(self, x: int, y: int, width: int, height: int) -> Option<(int, int)> {
        match self {
            Direction::North => if y == height - 1 { None } else { Some((x, y + 1)) },
            Direction::East => if x == width - 1 { None } else { Some((x + 1, y)) },
            Direction::South => if y == 0 { None } else { Some((x, y - 1)) },
            Direction::West => if x == 0 { None } else { Some((x - 1, y)) },
        }
    }

    pub fn rotate_clockwise(&self) -> (r: Self)
        ensures
            r == self.clockwise(),
    {
        match self {
            Direction::North => Direction::East,
            Direction::East => Direction::South,
            Direction::South => Direction::West,
            Direction::West => Direction::North,
        }
    }

    pub fn rotate_counterclockwise(&self) -> (r: Self)
        ensures
            r == self.counterclockwise(),
    {
        match self {
            Direction::North => Direction::West,
            Direction::East => Direction::North,
            Direction::South => Direction::East,
            Direction::West => Direction::South,
        }
    }

    /// One step from `(x, y)` along this heading, or `None` at the grid's edge.
    pub fn try_march(&self, x: usize, y: usize, width: usize, height: usize) -> (r: Option<
        (usize, usize),
    >)
        requires
            x < width,
            y < height,
        ensures
            match self.march(x as int, y as int, width as int, height as int) {
                Some(p) => r == Some((p.0 as usize, p.1 as usize)),
                None => r is None,
            },
    {
        match self {
            Direction::North => if y == height - 1 { None } else { Some((x, y + 1)) },
            Direction::East => if x == width - 1 { None } else { Some((x + 1, y)) },
            Direction::South => if y == 0 { None } else { Some((x, y - 1)) },
            Direction::West => if x == 0 { None } else { Some((x - 1, y)) },
        }
    }
}

/// What happens to a chariot's power on one tick.
#[derive(Debug, Clone, Copy, PartialEq, Eq, Hash, Structural)]
pub enum Instruction {
    AddOne,
    SubtractOne,
    Maintain,
}

/// The instruction a track or plan symbol stands for; `S` (the start) maintains.
pub open spec fn instruction_of(c: char) -> Option<Instruction> {
    if c == '+' {
        Some(Instruction::AddOne)
    } else if c == '-' {
        Some(Instruction::SubtractOne)
    } else if c == '=' || c == 'S' {
        Some(Instruction::Maintain)
    } else {
        None
    }
}

impl Instruction {
    /// Reads a track or plan symbol.
    pub fn from_symbol(c: char) -> (r: Option<Instruction>)
        ensures
            r == instruction_of(c),
    {
        if c == '+' {
            Some(Instruction::AddOne)
        } else if c == '-' {
            Some(Instruction::SubtractOne)
        } else if c == '=' || c == 'S' {
            Some(Instruction::Maintain)
        } else {
            None
        }
    }
}

/// Power after applying `ins` to power `p`; subtraction stops at zero.
pub open spec fn power_after(p: int, ins: Instruction) -> int {
    match ins {
        Instruction::AddOne => p + 1,
        Instruction::SubtractOne => if p == 0 { 0 } else { p - 1 },
        Instruction::Maintain => p,
    }
}

/// The instruction a chariot follows: the track's, unless the track says maintain.
pub open spec fn effective(external: Instruction, own: Instruction) -> Instruction {
    if external == Instruction::Maintain {
        own
    } else {
        external
    }
}

/// The largest power that the overflow bounds of the simulation allow.
pub const POWER_CAP: u64 = 0x1_0000_0000;

/// A chariot as a mathematical value.
pub struct ChariotView {
    pub name: Seq<char>,
    pub power: int,
    pub essence: int,
    pub index: int,
    pub plan: Seq<Instruction>,
}

impl ChariotView {
    pub open spec fn wf(self) -> bool {
        self.plan.len() > 0 && 0 <= self.index < self.plan.len() && self.power >= 0
            && self.essence >= 0
    }

    /// The chariot after one tick under the external instruction `external`.
    pub open spec fn ticked(self, external: Instruction) -> ChariotView {
        self.applied(effective(external, self.plan[self.index]))
    }

    /// The chariot after applying `ins`: new power, essence collected, plan advanced.
    pub open spec fn applied(self, ins: Instruction) -> ChariotView {
        let p = power_after(self.power, ins);
        ChariotView {
            name: self.name,
            power: p,
            essence: self.essence + p,
            index: (self.index + 1) % (self.plan.len() as int),
            plan: self.plan,
        }
    }

    /// Power and essence stay within `u64` over the next `n` ticks, whatever the track says.
    pub open spec fn fits_for(self, n: int) -> bool {
        self.power + n <= POWER_CAP && self.essence + n * POWER_CAP <= u64::MAX
    }
}

/// An agent with a power level and a cyclic plan, collecting essence each tick.
pub struct Chariot {
    pub name: String,
    pub power: u64,
    pub essence_collected: u64,
    instruction_idx: usize,
    plan: Vec<Instruction>,
}

impl View for Chariot {
    type V = ChariotView;

    closed spec fn view(&self) -> ChariotView {
        ChariotView {
            name: self.name@,
            power: self.power as int,
            essence: self.essence_collected as int,
            index: self.instruction_idx as int,
            plan: self.plan@,
        }
    }
}

impl Chariot {
    /// A fresh chariot: power 10, no essence, at the start of its plan.
    pub fn new(name: String, plan: Vec<Instruction>) -> (r: Chariot)
        requires
            plan@.len() > 0,
        ensures
            r@ == (ChariotView { name: name@, power: 10, essence: 0, index: 0, plan: plan@ }),
    {
        Chariot { name, power: 10, essence_collected: 0, instruction_idx: 0, plan }
    }

    /// The chariot's own next instruction.
    pub fn planned(&self) -> (r: Instruction)
        requires
            self@.wf(),
        ensures
            r == self@.plan[self@.index],
    {
        self.plan[self.instruction_idx]
    }

    /// Applies `instruction`, collects the new power as essence, and moves on in the plan.
    pub fn apply_instruction(&mut self, instruction: Instruction)
        requires
            old(self)@.wf(),
            old(self)@.fits_for(1),
        ensures
            final(self)@ == old(self)@.applied(instruction),
    {
        match instruction {
            Instruction::AddOne => self.power = self.power + 1,
            Instruction::SubtractOne => self.power = self.power.saturating_sub(1),
            Instruction::Maintain => (),
        }
        self.essence_collected = self.essence_collected + self.power;
        assert(self.instruction_idx < self.plan.len());
        self.instruction_idx = (self.instruction_idx + 1) % self.plan.len();
    }
}

/// The world as a mathematical value.
pub struct WorldView {
    pub chariots: Seq<ChariotView>,
    pub segment: int,
    pub track: Option<Seq<Instruction>>,
}

impl WorldView {
    pub open spec fn wf(self) -> bool {
        &&& forall|i: int| 0 <= i < self.chariots.len() ==> (#[trigger] self.chariots[i]).wf()
        &&& match self.track {
            Some(t) => t.len() > 0 && 0 <= self.segment < t.len(),
            None => 0 <= self.segment,
        }
    }

    /// The instruction the track gives on the current tick; maintain without a track.
    pub open spec fn external(self) -> Instruction {
        match self.track {
            Some(t) => t[self.segment],
            None => Instruction::Maintain,
        }
    }

    /// The world after one tick.
    pub open spec fn tick(self) -> WorldView {
        WorldView {
            chariots: Seq::new(
                self.chariots.len(),
                |i: int| self.chariots[i].ticked(self.external()),
            ),
            segment: match self.track {
                Some(t) => (self.segment + 1) % (t.len() as int),
                None => self.segment + 1,
            },
            track: self.track,
        }
    }

    /// The world after `n` ticks.
    pub open spec fn ticks(self, n: nat) -> WorldView
        decreases n,
    {
        if n == 0 {
            self
        } else {
            self.tick().ticks((n - 1) as nat)
        }
    }

    /// Every chariot stays within the overflow bounds over the next `n` ticks.
    pub open spec fn fits_for(self, n: int) -> bool {
        &&& forall|i: int| 0 <= i < self.chariots.len() ==> (#[trigger] self.chariots[i]).fits_for(n)
        &&& self.track is None ==> self.segment + n <= usize::MAX
    }

    /// Essence totals of the chariots, in order.
    pub open spec fn essences(self) -> Seq<int> {
        Seq::new(self.chariots.len(), |i: int| self.chariots[i].essence)
    }
}

proof fn lemma_tick_keeps(w: WorldView, n: int)
    requires
        w.wf(),
        n >= 1,
        w.fits_for(n),
    ensures
        w.tick().wf(),
        w.tick().fits_for(n - 1),
{
    assert forall|i: int| 0 <= i < w.tick().chariots.len() implies (
    #[trigger] w.tick().chariots[i]).wf() && w.tick().chariots[i].fits_for(n - 1) by {
        assert(w.chariots[i].wf());
        assert(w.chariots[i].fits_for(n));
        assert((n - 1) * (POWER_CAP as int) + POWER_CAP == n * (POWER_CAP as int))
            by (nonlinear_arith);
    }
}

/// Chariots, an optional track, and the current track segment.
pub struct Day7World {
    pub chariots: Vec<Chariot>,
    current_segment: usize,
    track: Option<Vec<Instruction>>,
}

impl View for Day7World {
    type V = WorldView;

    closed spec fn view(&self) -> WorldView {
        WorldView {
            chariots: self.chariots@.map_values(|c: Chariot| c@),
            segment: self.current_segment as int,
            track: match self.track {
                Some(t) => Some(t@),
                None => None,
            },
        }
    }
}

impl Day7World {
    /// A world at the track's start.
    pub fn new(chariots: Vec<Chariot>, track: Option<Vec<Instruction>>) -> (r: Day7World)
        ensures
            r@.chariots == chariots@.map_values(|c: Chariot| c@),
            r@.segment == 0,
            r@.track == match track {
                Some(t) => Some(t@),
                None => None,
            },
    {
        Day7World { chariots, current_segment: 0, track }
    }

    /// Every chariot stays within the overflow bounds over the next `n` ticks.
    pub fn can_run(&self, n: u64) -> (r: bool)
        ensures
            r == self@.fits_for(n as int),
    {
        let mut i: usize = 0;
        while i < self.chariots.len()
            invariant
                i <= self.chariots.len(),
                forall|j: int| 0 <= j < i ==> (#[trigger] self@.chariots[j]).fits_for(n as int),
            decreases self.chariots.len() - i,
        {
            let c = &self.chariots[i];
            assert(self@.chariots[i as int] == c@);
            if c.power > POWER_CAP || n > POWER_CAP - c.power {
                return false;
            }
            if n > (u64::MAX - c.essence_collected) / POWER_CAP {
                proof {
                    let q = (u64::MAX - c.essence_collected) as int / POWER_CAP as int;
                    assert((n as int) * (POWER_CAP as int) >= (q + 1) * (POWER_CAP as int))
                        by (nonlinear_arith)
                        requires n as int >= q + 1;
                }
                return false;
            }
            proof {
                let q = (u64::MAX - c.essence_collected) as int / POWER_CAP as int;
                assert((n as int) * (POWER_CAP as int) <= q * (POWER_CAP as int))
                    by (nonlinear_arith)
                    requires n as int <= q;
            }
            i = i + 1;
        }
        match &self.track {
            Some(_) => true,
            None => n as u128 <= (usize::MAX - self.current_segment) as u128,
        }
    }

    /// One tick: every chariot follows the track's instruction, or its own plan where the
    /// track says maintain; then the track advances.
    pub fn run_step(&mut self)
        requires
            old(self)@.wf(),
            old(self)@.fits_for(1),
        ensures
            final(self)@ == old(self)@.tick(),
            final(self)@.wf(),
    {
        let track_action = match &self.track {
            Some(track) => track[self.current_segment],
            None => Instruction::Maintain,
        };
        let ghost w0 = self@;
        let mut i: usize = 0;
        while i < self.chariots.len()
            invariant
                w0.wf(),
                w0.fits_for(1),
                track_action == w0.external(),
                i <= self.chariots.len(),
                self.chariots.len() == w0.chariots.len(),
                self.current_segment == w0.segment,
                self@.track == w0.track,
                forall|j: int| 0 <= j < i ==> (#[trigger] self.chariots@[j])@ == w0.chariots[j].ticked(
                    track_action,
                ),
                forall|j: int| i <= j < self.chariots.len() ==> (#[trigger] self.chariots@[j])@
                    == w0.chariots[j],
            decreases self.chariots.len() - i,
        {
            assert(self.chariots@[i as int]@ == w0.chariots[i as int]);
            assert(w0.chariots[i as int].wf());
            assert(w0.chariots[i as int].fits_for(1));
            let to_execute = match track_action {
                Instruction::AddOne => Instruction::AddOne,
                Instruction::SubtractOne => Instruction::SubtractOne,
                Instruction::Maintain => self.chariots[i].planned(),
            };
            let ghost before = self.chariots@;
            self.chariots[i].apply_instruction(to_execute);
            assert(self.chariots@ == before.update(i as int, self.chariots@[i as int]));
            assert(self.chariots@[i as int]@ == w0.chariots[i as int].ticked(track_action));
            i = i + 1;
        }
        match &self.track {
            Some(track) => {
                assert(self.current_segment < track.len());
                self.current_segment = (self.current_segment + 1) % track.len();
            },
            None => {
                self.current_segment = self.current_segment + 1;
            },
        }
        assert(self@.chariots =~= w0.tick().chariots) by {
            assert forall|j: int| 0 <= j < self.chariots.len() implies #[trigger] self@.chariots[j]
                == self.chariots@[j]@ by {}
        }
        proof {
            lemma_tick_keeps(w0, 1);
        }
    }

    /// Runs `amount` ticks.
    pub fn run_steps(&mut self, amount: usize)
        requires
            old(self)@.wf(),
            old(self)@.fits_for(amount as int),
        ensures
            final(self)@ == old(self)@.ticks(amount as nat),
            final(self)@.wf(),
    {
        let ghost w0 = self@;
        let mut k: usize = 0;
        while k < amount
            invariant
                k <= amount,
                self@.wf(),
                self@.fits_for(amount - k),
                w0.ticks(amount as nat) == self@.ticks((amount - k) as nat),
            decreases amount - k,
        {
            proof {
                lemma_fits_less(self@, amount - k, 1);
            }
            let ghost before = self@;
            self.run_step();
            proof {
                lemma_tick_keeps(before, amount - k);
            }
            k = k + 1;
        }
    }

    /// The number of segments of the track, if there is one.
    pub fn track_len(&self) -> (r: Option<usize>)
        ensures
            match self@.track {
                Some(t) => r == Some(t.len() as usize) && t.len() <= usize::MAX,
                None => r is None,
            },
    {
        match &self.track {
            Some(t) => Some(t.len()),
            None => None,
        }
    }

    /// Runs one full loop of the track: as many ticks as it has segments.
    pub fn run_loop(&mut self)
        requires
            old(self)@.wf(),
            old(self)@.track is Some,
            old(self)@.fits_for(old(self)@.track->0.len() as int),
        ensures
            final(self)@ == old(self)@.ticks(old(self)@.track->0.len()),
            final(self)@.wf(),
    {
        let len = match &self.track {
            Some(t) => t.len(),
            None => 0,
        };
        self.run_steps(len);
    }
}

proof fn lemma_fits_less(w: WorldView, n: int, m: int)
    requires
        w.fits_for(n),
        0 <= m <= n,
    ensures
        w.fits_for(m),
{
    assert forall|i: int| 0 <= i < w.chariots.len() implies (#[trigger] w.chariots[i]).fits_for(
        m,
    ) by {
        assert(w.chariots[i].fits_for(n));
        assert(m * (POWER_CAP as int) <= n * (POWER_CAP as int)) by (nonlinear_arith)
            requires
                m <= n,
        ;
    }
}

/// Running the same world twice, for the same number of ticks, gives the same essence
/// totals.
pub proof fn lemma_chariot_determinism(a: WorldView, b: WorldView, n: nat)
    requires
        a == b,
    ensures
        a.ticks(n).essences() == b.ticks(n).essences(),
{
}

/// Width of a drawn track: its longest line.
pub open spec fn grid_width(lines: Seq<Seq<char>>) -> int
    decreases lines.len(),
{
    if lines.len() == 0 {
        0
    } else {
        let w = grid_width(lines.drop_last());
        if lines.last().len() > w {
            lines.last().len() as int
        } else {
            w
        }
    }
}

/// The character drawn at world position `(x, y)`; short lines are padded with spaces.
pub open spec fn grid_char(lines: Seq<Seq<char>>, x: int, y: int) -> char {
    let row = lines[lines.len() - 1 - y];
    if x < row.len() {
        row[x]
    } else {
        ' '
    }
}

/// The instruction of the track cell at `(x, y)`; `None` where no track is drawn.
pub open spec fn grid_cell(lines: Seq<Seq<char>>, x: int, y: int) -> Option<Instruction> {
    let c = grid_char(lines, x, y);
    if c == ' ' {
        None
    } else {
        instruction_of(c)
    }
}

/// Every drawn character is a space or a track symbol.
pub open spec fn grid_symbols_valid(lines: Seq<Seq<char>>) -> bool {
    forall|r: int, x: int|
        0 <= r < lines.len() && 0 <= x < lines[r].len() ==> (#[trigger] lines[r][x] == ' '
            || instruction_of(lines[r][x]) is Some)
}

/// Whether `p` is a track cell.
pub open spec fn on_track(lines: Seq<Seq<char>>, p: Option<(int, int)>) -> bool {
    match p {
        Some(q) => grid_cell(lines, q.0, q.1) is Some,
        None => false,
    }
}

/// The walker's next cell and heading: a right turn if it lands on track, else straight on,
/// else a left turn; `None` when none of them does.
pub open spec fn turn(lines: Seq<Seq<char>>, pos: (int, int), dir: Direction) -> Option<
    ((int, int), Direction),
> {
    let w = grid_width(lines);
    let h = lines.len() as int;
    let right = dir.clockwise();
    let left = dir.counterclockwise();
    let pr = right.march(pos.0, pos.1, w, h);
    let ps = dir.march(pos.0, pos.1, w, h);
    let pl = left.march(pos.0, pos.1, w, h);
    if on_track(lines, pr) {
        Some((pr->0, right))
    } else if on_track(lines, ps) {
        Some((ps->0, dir))
    } else if on_track(lines, pl) {
        Some((pl->0, left))
    } else {
        None
    }
}

/// The instructions met from `pos` on until the walker is back at the top-left start,
/// which ends the loop as a maintain; `None` when the walk breaks off or takes more than
/// `fuel` steps.
pub open spec fn walk(lines: Seq<Seq<char>>, pos: (int, int), dir: Direction, fuel: nat) -> Option<
    Seq<Instruction>,
>
    decreases fuel,
{
    if pos == (0int, lines.len() - 1) {
        Some(seq![Instruction::Maintain])
    } else if fuel == 0 {
        None
    } else {
        match grid_cell(lines, pos.0, pos.1) {
            None => None,
            Some(ins) => match turn(lines, pos, dir) {
                None => None,
                Some(next) => match walk(lines, next.0, next.1, (fuel - 1) as nat) {
                    Some(rest) => Some(seq![ins] + rest),
                    None => None,
                },
            },
        }
    }
}

/// At most one step per cell, within what a `usize` counts.
pub open spec fn step_budget(cells: int) -> nat {
    if cells <= usize::MAX {
        cells as nat
    } else {
        usize::MAX as nat
    }
}

/// The track drawn by `lines`: the walk that leaves the top-left corner eastwards, with at
/// most one step per cell.
pub open spec fn track_spec(lines: Seq<Seq<char>>) -> Option<Seq<Instruction>> {
    let w = grid_width(lines);
    let h = lines.len() as int;
    if h == 0 || w == 0 || !grid_symbols_valid(lines) {
        None
    } else {
        match Direction::East.march(0, h - 1, w, h) {
            None => None,
            Some(p) => walk(lines, p, Direction::East, step_budget(w * h)),
        }
    }
}

pub open spec fn prepend(s: Seq<Instruction>, o: Option<Seq<Instruction>>) -> Option<
    Seq<Instruction>,
> {
    match o {
        Some(r) => Some(s + r),
        None => None,
    }
}

proof fn lemma_grid_width(lines: Seq<Seq<char>>)
    ensures
        grid_width(lines) >= 0,
        forall|r: int| 0 <= r < lines.len() ==> (#[trigger] lines[r]).len() <= grid_width(lines),
        lines.len() > 0 ==> exists|r: int|
            0 <= r < lines.len() && (#[trigger] lines[r]).len() == grid_width(lines),
    decreases lines.len(),
{
    if lines.len() > 0 {
        let d = lines.drop_last();
        lemma_grid_width(d);
        let last = lines.len() - 1;
        if lines.last().len() > grid_width(d) || d.len() == 0 {
            assert(lines[last].len() == grid_width(lines));
        } else {
            let r0 = choose|r: int| 0 <= r < d.len() && (#[trigger] d[r]).len() == grid_width(d);
            assert(lines[r0] == d[r0]);
            assert(lines[r0].len() == grid_width(lines));
        }
        assert forall|r: int| 0 <= r < lines.len() implies (#[trigger] lines[r]).len()
            <= grid_width(lines) by {
            if r < d.len() {
                assert(lines[r] == d[r]);
            }
        }
    }
}

fn max_width(lines: &Vec<Vec<char>>) -> (r: usize)
    ensures
        r == grid_width(lines@.map_values(|l: Vec<char>| l@)),
{
    let ghost g = lines@.map_values(|l: Vec<char>| l@);
    let mut w: usize = 0;
    let mut i: usize = 0;
    while i < lines.len()
        invariant
            i <= lines.len(),
            g == lines@.map_values(|l: Vec<char>| l@),
            w == grid_width(g.take(i as int)),
        decreases lines.len() - i,
    {
        assert(g.take(i + 1).drop_last() == g.take(i as int));
        assert(g.take(i + 1).last() == lines@[i as int]@);
        if lines[i].len() > w {
            w = lines[i].len();
        }
        i = i + 1;
    }
    assert(g.take(lines.len() as int) == g);
    w
}

/// The drawn track as rows of cells, padded to the full width; row `r` is line `r`.
fn track_cells(lines: &Vec<Vec<char>>, width: usize) -> (r: Option<Vec<Vec<Option<Instruction>>>>)
    requires
        width == grid_width(lines@.map_values(|l: Vec<char>| l@)),
    ensures
        r is Some <==> grid_symbols_valid(lines@.map_values(|l: Vec<char>| l@)),
        r is Some ==> r->0@.len() == lines@.len() && forall|row: int, x: int|
            0 <= row < lines@.len() && 0 <= x < width ==> (#[trigger] r->0@[row]@[x])
                == grid_cell(
                lines@.map_values(|l: Vec<char>| l@),
                x,
                lines@.len() - 1 - row,
            ),
        r is Some ==> forall|row: int| 0 <= row < lines@.len() ==> (#[trigger] r->0@[row]@).len()
            == width,
{
    let ghost g = lines@.map_values(|l: Vec<char>| l@);
    proof {
        lemma_grid_width(g);
    }
    let mut rows: Vec<Vec<Option<Instruction>>> = Vec::new();
    let mut r: usize = 0;
    while r < lines.len()
        invariant
            r <= lines.len(),
            g == lines@.map_values(|l: Vec<char>| l@),
            width == grid_width(g),
            forall|k: int| 0 <= k < g.len() ==> (#[trigger] g[k]).len() <= width,
            rows@.len() == r,
            forall|row: int, x: int|
                0 <= row < r && 0 <= x < width ==> (#[trigger] rows@[row]@[x]) == grid_cell(
                    g,
                    x,
                    g.len() - 1 - row,
                ),
            forall|row: int| 0 <= row < r ==> (#[trigger] rows@[row]@).len() == width,
            forall|row: int, x: int|
                0 <= row < r && 0 <= x < g[row].len() ==> (#[trigger] g[row][x] == ' '
                    || instruction_of(g[row][x]) is Some),
        decreases lines.len() - r,
    {
        let line = &lines[r];
        assert(line@ == g[r as int]);
        let mut cells: Vec<Option<Instruction>> = Vec::new();
        let mut x: usize = 0;
        while x < width
            invariant
                r < lines.len(),
                line@ == g[r as int],
                g == lines@.map_values(|l: Vec<char>| l@),
                line@.len() <= width,
                x <= width,
                cells@.len() == x,
                forall|k: int| 0 <= k < x ==> (#[trigger] cells@[k]) == grid_cell(
                    g,
                    k,
                    g.len() - 1 - r,
                ),
                forall|k: int| 0 <= k < x && k < g[r as int].len() ==> (#[trigger] g[r as int][k]
                    == ' ' || instruction_of(g[r as int][k]) is Some),
            decreases width - x,
        {
            if x < line.len() {
                let c = line[x];
                if c == ' ' {
                    cells.push(None);
                } else {
                    match Instruction::from_symbol(c) {
                        Some(ins) => cells.push(Some(ins)),
                        None => {
                            return None;
                        },
                    }
                }
            } else {
                cells.push(None);
            }
            x = x + 1;
        }
        rows.push(cells);
        r = r + 1;
    }
    Some(rows)
}

fn cell_at(rows: &Vec<Vec<Option<Instruction>>>, width: usize, pos: (usize, usize)) -> (r: Option<
    Instruction,
>)
    requires
        pos.0 < width,
        pos.1 < rows@.len(),
        rows@[rows@.len() - 1 - pos.1]@.len() == width,
    ensures
        r == rows@[rows@.len() - 1 - pos.1]@[pos.0 as int],
{
    rows[rows.len() - 1 - pos.1][pos.0]
}

/// Whether the cell one step from `pos` along `dir` is on the track, and where it is.
fn step_onto_track(
    rows: &Vec<Vec<Option<Instruction>>>,
    width: usize,
    pos: (usize, usize),
    dir: Direction,
    Ghost(g): Ghost<Seq<Seq<char>>>,
) -> (r: Option<(usize, usize)>)
    requires
        pos.0 < width,
        pos.1 < rows@.len(),
        width == grid_width(g),
        rows@.len() == g.len(),
        forall|row: int| 0 <= row < g.len() ==> (#[trigger] rows@[row]@).len() == width,
        forall|row: int, x: int|
            0 <= row < g.len() && 0 <= x < width ==> (#[trigger] rows@[row]@[x]) == grid_cell(
                g,
                x,
                g.len() - 1 - row,
            ),
    ensures
        on_track(g, dir.march(pos.0 as int, pos.1 as int, width as int, g.len() as int)) <==> r
            is Some,
        match r {
            Some(q) => dir.march(pos.0 as int, pos.1 as int, width as int, g.len() as int) == Some(
                (q.0 as int, q.1 as int),
            ) && q.0 < width && q.1 < g.len(),
            None => true,
        },
{
    match dir.try_march(pos.0, pos.1, width, rows.len()) {
        None => None,
        Some(p) => {
            let c = cell_at(rows, width, p);
            assert(c == grid_cell(g, p.0 as int, p.1 as int));
            if c.is_some() {
                Some(p)
            } else {
                None
            }
        },
    }
}

/// The walker's next cell and heading, as `turn` chooses them.
fn next_move(
    rows: &Vec<Vec<Option<Instruction>>>,
    width: usize,
    pos: (usize, usize),
    dir: Direction,
    Ghost(g): Ghost<Seq<Seq<char>>>,
) -> (r: Option<(usize, usize, Direction)>)
    requires
        pos.0 < width,
        pos.1 < rows@.len(),
        width == grid_width(g),
        rows@.len() == g.len(),
        forall|row: int| 0 <= row < g.len() ==> (#[trigger] rows@[row]@).len() == width,
        forall|row: int, x: int|
            0 <= row < g.len() && 0 <= x < width ==> (#[trigger] rows@[row]@[x]) == grid_cell(
                g,
                x,
                g.len() - 1 - row,
            ),
    ensures
        match turn(g, (pos.0 as int, pos.1 as int), dir) {
            Some(t) => match r {
                Some(q) => t == ((q.0 as int, q.1 as int), q.2) && q.0 < width && q.1 < g.len(),
                None => false,
            },
            None => r is None,
        },
{
    let right = dir.rotate_clockwise();
    match step_onto_track(rows, width, pos, right, Ghost(g)) {
        Some(p) => {
            return Some((p.0, p.1, right));
        },
        None => {},
    }
    match step_onto_track(rows, width, pos, dir, Ghost(g)) {
        Some(p) => {
            return Some((p.0, p.1, dir));
        },
        None => {},
    }
    let left = dir.rotate_counterclockwise();
    match step_onto_track(rows, width, pos, left, Ghost(g)) {
        Some(p) => Some((p.0, p.1, left)),
        None => None,
    }
}

impl Day7World {
    /// Reads the track drawn by `lines` by walking its loop from the top-left corner,
    /// heading east; `None` when the drawing holds another symbol or the loop is broken.
    pub fn track_from_ascii(lines: &Vec<Vec<char>>) -> (r: Result<Vec<Instruction>, Day7ParseError>)
        ensures
            match track_spec(lines@.map_values(|l: Vec<char>| l@)) {
                Some(t) => r is Ok && r->Ok_0@ == t,
                None => r == Err::<Vec<Instruction>, Day7ParseError>(Day7ParseError::MalformedTrack),
            },
    {
        let ghost g = lines@.map_values(|l: Vec<char>| l@);
        let width = max_width(lines);
        let height = lines.len();
        if height == 0 || width == 0 {
            return Err(Day7ParseError::MalformedTrack);
        }
        let rows = match track_cells(lines, width) {
            Some(rows) => rows,
            None => {
                return Err(Day7ParseError::MalformedTrack);
            },
        };
        let start: (usize, usize) = (0, height - 1);
        let mut pos = match Direction::East.try_march(0, height - 1, width, height) {
            Some(p) => p,
            None => {
                return Err(Day7ParseError::MalformedTrack);
            },
        };
        let mut dir = Direction::East;
        let mut fuel: usize = match width.checked_mul(height) {
            Some(f) => f,
            None => usize::MAX,
        };
        let mut track: Vec<Instruction> = Vec::new();
        assert(track@ + walk(g, (pos.0 as int, pos.1 as int), dir, fuel as nat)->0 == walk(
            g,
            (pos.0 as int, pos.1 as int),
            dir,
            fuel as nat,
        )->0);
        while !(pos.0 == start.0 && pos.1 == start.1)
            invariant
                g == lines@.map_values(|l: Vec<char>| l@),
                width == grid_width(g),
                height == g.len(),
                height > 0,
                start == (0usize, (height - 1) as usize),
                rows@.len() == g.len(),
                forall|row: int| 0 <= row < g.len() ==> (#[trigger] rows@[row]@).len() == width,
                forall|row: int, x: int|
                    0 <= row < g.len() && 0 <= x < width ==> (#[trigger] rows@[row]@[x])
                        == grid_cell(g, x, g.len() - 1 - row),
                pos.0 < width,
                pos.1 < height,
                track_spec(g) == prepend(
                    track@,
                    walk(g, (pos.0 as int, pos.1 as int), dir, fuel as nat),
                ),
            decreases fuel,
        {
            if fuel == 0 {
                return Err(Day7ParseError::MalformedTrack);
            }
            let ins = match cell_at(&rows, width, pos) {
                Some(ins) => ins,
                None => {
                    return Err(Day7ParseError::MalformedTrack);
                },
            };
            let next = match next_move(&rows, width, pos, dir, Ghost(g)) {
                Some(n) => n,
                None => {
                    return Err(Day7ParseError::MalformedTrack);
                },
            };
            let ghost before = track@;
            track.push(ins);
            let (nx, ny, nd) = next;
            proof {
                let rest = walk(g, (nx as int, ny as int), nd, (fuel - 1) as nat);
                if rest is Some {
                    assert(before + (seq![ins] + rest->0) == track@ + rest->0);
                }
            }
            pos = (nx, ny);
            dir = nd;
            fuel = fuel - 1;
        }
        track.push(Instruction::Maintain);
        Ok(track)
    }
}

/// Chariot `a` ranks before chariot `b`: more essence, or as much and listed earlier.
pub open spec fn ranks_before(essence: Seq<u64>, a: int, b: int) -> bool {
    essence[a] > essence[b] || (essence[a] == essence[b] && a < b)
}

/// The indices of the chariots from most to least essence; ties keep the listed order.
pub fn rank_order(essence: &Vec<u64>) -> (r: Vec<usize>)
    ensures
        r@.len() == essence@.len(),
        forall|k: usize| k < essence@.len() ==> #[trigger] r@.contains(k),
        forall|i: int| 0 <= i < r@.len() ==> #[trigger] r@[i] < essence@.len(),
        forall|i: int, j: int|
            0 <= i < j < r@.len() ==> ranks_before(essence@, #[trigger] r@[i] as int, #[trigger] r@[j] as int),
{
    broadcast use vstd::seq_lib::group_to_multiset_ensures;

    let mut keys: Vec<(u64, usize)> = Vec::new();
    let mut i: usize = 0;
    while i < essence.len()
        invariant
            i <= essence.len(),
            keys@.len() == i,
            forall|k: int| 0 <= k < i ==> #[trigger] keys@[k] == ((u64::MAX - essence@[k]) as u64, k as usize),
        decreases essence.len() - i,
    {
        keys.push((u64::MAX - essence[i], i));
        i = i + 1;
    }
    let ghost kv = keys@;
    let sorted = sorted_pairs(keys);
    let mut out: Vec<usize> = Vec::new();
    let mut j: usize = 0;
    while j < sorted.len()
        invariant
            j <= sorted.len(),
            out@.len() == j,
            forall|k: int| 0 <= k < j ==> #[trigger] out@[k] == sorted@[k].1,
        decreases sorted.len() - j,
    {
        out.push(sorted[j].1);
        j = j + 1;
    }
    proof {
        assert(sorted@.len() == kv.len()) by {
            assert(sorted@.to_multiset().len() == kv.to_multiset().len());
        }
        assert forall|i: int| 0 <= i < sorted@.len() implies sorted@[i] == kv[sorted@[i].1 as int]
            && sorted@[i].1 < essence@.len() by {
            assert(sorted@.to_multiset().contains(sorted@[i]));
            assert(kv.contains(sorted@[i]));
        }
        assert forall|k: usize| k < essence@.len() implies #[trigger] out@.contains(k) by {
            assert(kv.to_multiset().contains(kv[k as int]));
            assert(sorted@.contains(kv[k as int]));
            let i = choose|i: int| 0 <= i < sorted@.len() && sorted@[i] == kv[k as int];
            assert(out@[i] == k);
        }
        assert forall|i: int, j: int| 0 <= i < j < out@.len() implies ranks_before(
            essence@,
            #[trigger] out@[i] as int,
            #[trigger] out@[j] as int,
        ) by {
            assert(pair_le(sorted@[i], sorted@[j]));
            assert(sorted@[i] == kv[sorted@[i].1 as int]);
            assert(sorted@[j] == kv[sorted@[j].1 as int]);
            if sorted@[i].1 == sorted@[j].1 {
                // two equal pairs at different places cannot both stand for one index
                assert(sorted@.to_multiset().count(sorted@[i]) >= 2) by {
                    lemma_two_places_count(sorted@, i, j);
                }
                assert(kv.to_multiset().count(sorted@[i]) <= 1) by {
                    lemma_distinct_count(kv, sorted@[i]);
                }
            }
        }
    }
    out
}

proof fn lemma_two_places_count(s: Seq<(u64, usize)>, i: int, j: int)
    requires
        0 <= i < j < s.len(),
        s[i] == s[j],
    ensures
        s.to_multiset().count(s[i]) >= 2,
{
    broadcast use vstd::seq_lib::group_to_multiset_ensures;

    let t = s.remove(j);
    assert(t[i] == s[i]);
    assert(t.to_multiset().contains(s[i]));
}

proof fn lemma_distinct_count(s: Seq<(u64, usize)>, a: (u64, usize))
    requires
        forall|k: int| 0 <= k < s.len() ==> #[trigger] s[k].1 == k,
    ensures
        s.to_multiset().count(a) <= 1,
    decreases s.len(),
{
    broadcast use vstd::seq_lib::group_to_multiset_ensures;

    if s.len() > 0 {
        let d = s.drop_last();
        assert(forall|k: int| 0 <= k < d.len() ==> #[trigger] d[k].1 == k);
        lemma_distinct_count(d, a);
        assert(s == d.push(s.last()));
        if a == s.last() {
            if d.to_multiset().count(a) > 0 {
                assert(d.contains(a));
                let k = choose|k: int| 0 <= k < d.len() && d[k] == a;
                assert(d[k].1 == k);
            }
        }
    }
}

/// A plan piece: exactly one of `+`, `-`, `=`.
pub open spec fn plan_symbol(p: Seq<char>) -> Option<Instruction> {
    if p.len() == 1 && p[0] != 'S' {
        instruction_of(p[0])
    } else {
        None
    }
}

/// `k` is the position of the first `:` of `line`.
pub open spec fn first_colon(line: Seq<char>, k: int) -> bool {
    0 <= k < line.len() && line[k] == ':' && forall|j: int| 0 <= j < k ==> line[j] != ':'
}

/// The plan written after the first colon of `line`, if every piece of it is a symbol.
pub open spec fn plan_spec(line: Seq<char>, k: int) -> Option<Seq<Instruction>> {
    let pieces = split_spec(line.skip(k + 1), ',');
    if forall|i: int| 0 <= i < pieces.len() ==> (#[trigger] plan_symbol(pieces[i])) is Some {
        Some(Seq::new(pieces.len(), |i: int| plan_symbol(pieces[i])->0))
    } else {
        None
    }
}

fn find_char(s: &Vec<char>, c: char) -> (r: Option<usize>)
    ensures
        match r {
            Some(k) => k < s@.len() && s@[k as int] == c && forall|j: int| 0 <= j < k ==> s@[j] != c,
            None => forall|j: int| 0 <= j < s@.len() ==> s@[j] != c,
        },
{
    let mut i: usize = 0;
    while i < s.len()
        invariant
            i <= s.len(),
            forall|j: int| 0 <= j < i ==> s@[j] != c,
        decreases s.len() - i,
    {
        if s[i] == c {
            return Some(i);
        }
        i = i + 1;
    }
    None
}

fn sub_chars(s: &Vec<char>, from: usize, to: usize) -> (r: Vec<char>)
    requires
        from <= to <= s@.len(),
    ensures
        r@ == s@.subrange(from as int, to as int),
{
    let mut out: Vec<char> = Vec::new();
    let mut i: usize = from;
    while i < to
        invariant
            from <= i <= to <= s@.len(),
            out@ == s@.subrange(from as int, i as int),
        decreases to - i,
    {
        out.push(s[i]);
        i = i + 1;
    }
    out
}

proof fn lemma_no_plan(line: Seq<char>, k: int, i: int)
    requires
        first_colon(line, k),
        0 <= i < split_spec(line.skip(k + 1), ',').len(),
        plan_symbol(split_spec(line.skip(k + 1), ',')[i]) is None,
    ensures
        forall|k2: int| first_colon(line, k2) ==> plan_spec(line, k2) is None,
{
    assert forall|k2: int| first_colon(line, k2) implies plan_spec(line, k2) is None by {
        if k2 < k {
            assert(line[k2] != ':');
        } else if k2 > k {
            assert(line[k] != ':');
        }
    }
}

impl Chariot {
    /// Reads a chariot line `NAME:OP,OP,...`; a fresh chariot, or `None` when the line has
    /// no colon or a piece of the plan is not one of `+`, `-`, `=`.
    pub fn from_line(line: &Vec<char>) -> (r: Option<Chariot>)
        ensures
            match r {
                Some(c) => exists|k: int|
                    first_colon(line@, k) && plan_spec(line@, k) == Some(c@.plan) && c@ == (
                    ChariotView {
                        name: line@.take(k),
                        power: 10,
                        essence: 0,
                        index: 0,
                        plan: c@.plan,
                    }),
                None => forall|k: int| first_colon(line@, k) ==> plan_spec(line@, k) is None,
            },
            r is Some ==> r->0@.wf(),
            match r {
                Some(c) => chariot_of(line@) == Some(c@),
                None => chariot_of(line@) is None,
            },
    {
        let k = match find_char(line, ':') {
            Some(k) => k,
            None => {
                return None;
            },
        };
        assert(k < line.len());
        assert(first_colon(line@, k as int));
        let name_chars = sub_chars(line, 0, k);
        let rest = sub_chars(line, k + 1, line.len());
        assert(rest@ == line@.skip(k + 1));
        let pieces = split_on(&rest, ',');
        let mut plan: Vec<Instruction> = Vec::new();
        let mut i: usize = 0;
        while i < pieces.len()
            invariant
                first_colon(line@, k as int),
                i <= pieces.len(),
                pieces@.len() == split_spec(line@.skip(k + 1), ',').len(),
                forall|j: int| 0 <= j < pieces@.len() ==> #[trigger] pieces@[j]@ == split_spec(
                    line@.skip(k + 1),
                    ',',
                )[j],
                plan@.len() == i,
                forall|j: int| 0 <= j < i ==> plan_symbol(pieces@[j]@) == Some(#[trigger] plan@[j]),
            decreases pieces.len() - i,
        {
            let p = &pieces[i];
            if p.len() != 1 || p[0] == 'S' {
                proof {
                    lemma_no_plan(line@, k as int, i as int);
                }
                return None;
            }
            match Instruction::from_symbol(p[0]) {
                Some(ins) => plan.push(ins),
                None => {
                    proof {
                        lemma_no_plan(line@, k as int, i as int);
                    }
                    return None;
                },
            }
            i = i + 1;
        }
        proof {
            crate::text::lemma_split_nonempty(line@.skip(k + 1), ',');
            assert(plan_spec(line@, k as int) == Some(plan@)) by {
                let pieces_s = split_spec(line@.skip(k + 1), ',');
                assert forall|j: int| 0 <= j < pieces_s.len() implies (#[trigger] plan_symbol(
                    pieces_s[j],
                )) is Some by {
                    assert(pieces@[j]@ == pieces_s[j]);
                    assert(plan_symbol(pieces@[j]@) == Some(plan@[j]));
                }
                assert(Seq::new(pieces_s.len(), |j: int| plan_symbol(pieces_s[j])->0) =~= plan@);
            }
        }
        let name = string_from_chars(&name_chars);
        let c = Chariot::new(name, plan);
        proof {
            let k2 = choose|k2: int| first_colon(line@, k2);
            lemma_first_colon_unique(line@, k as int, k2);
        }
        Some(c)
    }
}

/// Chariot `a` ranks before chariot `b`: more essence, or as much and listed earlier.
pub open spec fn chariot_ranks_before(w: WorldView, a: usize, b: usize) -> bool {
    w.chariots[a as int].essence > w.chariots[b as int].essence || (w.chariots[a as int].essence
        == w.chariots[b as int].essence && a < b)
}

/// `order` lists every chariot of `w` once, from most to least essence, ties in listed order.
pub open spec fn is_ranking(w: WorldView, order: Seq<usize>) -> bool {
    &&& order.len() == w.chariots.len()
    &&& forall|k: usize| k < order.len() ==> #[trigger] order.contains(k)
    &&& forall|i: int, j: int|
        0 <= i < j < order.len() ==> chariot_ranks_before(w, #[trigger] order[i], #[trigger] order[j])
}

/// The names of the chariots listed by `order`, joined.
pub open spec fn names_in(w: WorldView, order: Seq<usize>) -> Seq<char> {
    order.fold_left(Seq::<char>::empty(), |acc: Seq<char>, o: usize| acc + w.chariots[o as int].name)
}

/// The chariot a line describes, if it reads as one.
pub open spec fn chariot_of(line: Seq<char>) -> Option<ChariotView> {
    if exists|k: int| first_colon(line, k) {
        let k = choose|k: int| first_colon(line, k);
        match plan_spec(line, k) {
            Some(p) => Some(
                ChariotView { name: line.take(k), power: 10, essence: 0, index: 0, plan: p },
            ),
            None => None,
        }
    } else {
        None
    }
}

proof fn lemma_first_empty_after(lines: Seq<Seq<char>>, i: int)
    requires
        0 <= i < lines.len(),
        lines[i].len() > 0,
        first_empty(lines, 0) == first_empty(lines, i),
    ensures
        i < first_empty(lines, 0),
{
    lemma_first_empty_ge(lines, i + 1);
}

proof fn lemma_first_empty_ge(lines: Seq<Seq<char>>, i: int)
    requires
        0 <= i,
    ensures
        first_empty(lines, i) >= i || first_empty(lines, i) == lines.len(),
        first_empty(lines, i) <= lines.len(),
    decreases lines.len() - i,
{
    if i < lines.len() && lines[i].len() > 0 {
        lemma_first_empty_ge(lines, i + 1);
    }
}

proof fn lemma_world_none(text: Seq<char>, i: int)
    requires
        0 <= i < first_empty(split_spec(text, '\n'), 0),
        chariot_of(split_spec(text, '\n')[i]) is None,
    ensures
        world_of(text) is None,
{
    let lines = split_spec(text, '\n');
    let cb = first_empty(lines, 0);
    assert(0 <= i < cb && chariot_of(lines[i]) is None);
    assert(exists|t: int| 0 <= t < cb && #[trigger] chariot_of(lines[t]) is None);
}

proof fn lemma_first_colon_unique(line: Seq<char>, k1: int, k2: int)
    requires
        first_colon(line, k1),
        first_colon(line, k2),
    ensures
        k1 == k2,
{
    if k1 < k2 {
        assert(line[k1] != ':');
    } else if k2 < k1 {
        assert(line[k2] != ':');
    }
}

/// The first empty line at or after `i`, or the number of lines.
pub open spec fn first_empty(lines: Seq<Seq<char>>, i: int) -> int
    decreases lines.len() - i,
{
    if i < 0 || i >= lines.len() {
        lines.len() as int
    } else if lines[i].len() == 0 {
        i
    } else {
        first_empty(lines, i + 1)
    }
}

/// `lines` without the empty lines at their end.
pub open spec fn drop_trailing_empty(lines: Seq<Seq<char>>) -> Seq<Seq<char>>
    decreases lines.len(),
{
    if lines.len() > 0 && lines.last().len() == 0 {
        drop_trailing_empty(lines.drop_last())
    } else {
        lines
    }
}

/// The lines of the drawn track: those after the blank line, trailing blank lines aside.
pub open spec fn track_block(lines: Seq<Seq<char>>) -> Seq<Seq<char>> {
    let cb = first_empty(lines, 0);
    if cb < lines.len() {
        drop_trailing_empty(lines.skip(cb + 1))
    } else {
        Seq::empty()
    }
}

/// The world `text` describes: chariot lines up to the first blank line, then a drawn
/// track if any lines follow; `None` when a chariot line or the drawing cannot be read.
pub open spec fn world_of(text: Seq<char>) -> Option<WorldView> {
    let lines = split_spec(text, '\n');
    let cb = first_empty(lines, 0);
    let block = track_block(lines);
    if exists|i: int| 0 <= i < cb && #[trigger] chariot_of(lines[i]) is None {
        None
    } else if block.len() > 0 && (track_spec(block) is None || track_spec(block)->0.len() == 0) {
        None
    } else {
        Some(
            WorldView {
                chariots: Seq::new(cb as nat, |i: int| chariot_of(lines[i])->0),
                segment: 0,
                track: if block.len() == 0 {
                    None
                } else {
                    track_spec(block)
                },
            },
        )
    }
}

impl Day7World {
    /// Reads the chariot lines and, after a blank line, the drawn track; `None` when a
    /// chariot line or the track cannot be read.
    pub fn from_text(text: &Vec<char>) -> (r: Result<Day7World, Day7ParseError>)
        ensures
            r is Ok <==> world_of(text@) is Some,
            r is Ok ==> r->Ok_0@ == world_of(text@)->0,
            r is Ok ==> r->Ok_0@.wf() && forall|i: int| 0 <= i < r->Ok_0@.chariots.len() ==> (
            #[trigger] r->Ok_0@.chariots[i]).power == 10 && r->Ok_0@.chariots[i].essence == 0,
            r == Err::<Day7World, Day7ParseError>(Day7ParseError::UnreadableChariot) <==> exists|i: int|
                0 <= i < first_empty(split_spec(text@, '\n'), 0) && #[trigger] chariot_of(
                    split_spec(text@, '\n')[i],
                ) is None,
    {
        let ghost ls = split_spec(text@, '\n');
        let lines = split_on(text, '\n');
        let mut chariots: Vec<Chariot> = Vec::new();
        let mut i: usize = 0;
        while i < lines.len() && lines[i].len() > 0
            invariant
                ls == split_spec(text@, '\n'),
                i <= lines.len(),
                lines@.len() == ls.len(),
                forall|j: int| 0 <= j < lines@.len() ==> #[trigger] lines@[j]@ == ls[j],
                first_empty(ls, 0) == first_empty(ls, i as int),
                chariots@.len() == i,
                forall|j: int| 0 <= j < i ==> chariot_of(ls[j]) == Some(#[trigger] chariots@[j]@),
                forall|j: int| 0 <= j < chariots@.len() ==> (#[trigger] chariots@[j])@.wf()
                    && chariots@[j]@.power == 10 && chariots@[j]@.essence == 0,
            decreases lines.len() - i,
        {
            assert(lines@[i as int]@ == ls[i as int]);
            match Chariot::from_line(&lines[i]) {
                Some(c) => chariots.push(c),
                None => {
                    proof {
                        lemma_first_empty_after(ls, i as int);
                        assert(chariot_of(ls[i as int]) is None);
                        let cb0 = first_empty(ls, 0);
                        assert(0 <= i < cb0 && chariot_of(ls[i as int]) is None);
                        lemma_world_none(text@, i as int);
                    }
                    return Err(Day7ParseError::UnreadableChariot);
                },
            }
            i = i + 1;
        }
        let ghost cb = first_empty(ls, 0);
        assert(cb == i);
        assert forall|t: int| 0 <= t < cb implies !(#[trigger] chariot_of(ls[t]) is None) by {
            assert(chariot_of(ls[t]) == Some(chariots@[t]@));
        }
        let mut track_lines: Vec<Vec<char>> = Vec::new();
        let mut j: usize = i;
        if j < lines.len() {
            j = j + 1;
        }
        let j0 = j;
        while j < lines.len()
            invariant
                j0 <= j,
                j0 <= lines.len() ==> j <= lines.len(),
                lines@.len() == ls.len(),
                forall|t: int| 0 <= t < lines@.len() ==> #[trigger] lines@[t]@ == ls[t],
                track_lines@.len() == if j0 <= lines@.len() { j - j0 } else { 0 },
                forall|t: int| 0 <= t < track_lines@.len() ==> #[trigger] track_lines@[t]@ == ls[j0 + t],
            decreases lines.len() - j,
        {
            let line = lines[j].clone();
            assert(line@ =~= lines@[j as int]@);
            track_lines.push(line);
            j = j + 1;
        }
        let ghost block0 = if cb < ls.len() { ls.skip(cb + 1) } else { Seq::<Seq<char>>::empty() };
        assert(track_lines@.map_values(|l: Vec<char>| l@) =~= block0);
        while track_lines.len() > 0 && track_lines[track_lines.len() - 1].len() == 0
            invariant
                drop_trailing_empty(block0) == drop_trailing_empty(
                    track_lines@.map_values(|l: Vec<char>| l@),
                ),
            decreases track_lines.len(),
        {
            let ghost before = track_lines@.map_values(|l: Vec<char>| l@);
            track_lines.pop();
            assert(track_lines@.map_values(|l: Vec<char>| l@) =~= before.drop_last());
        }
        assert(track_block(ls) == track_lines@.map_values(|l: Vec<char>| l@));
        let track = if track_lines.len() == 0 {
            None
        } else {
            match Day7World::track_from_ascii(&track_lines) {
                Ok(t) => {
                    if t.len() == 0 {
                        return Err(Day7ParseError::MalformedTrack);
                    }
                    Some(t)
                },
                Err(e) => {
                    return Err(Day7ParseError::MalformedTrack);
                },
            }
        };
        let w = Day7World::new(chariots, track);
        assert forall|k: int| 0 <= k < w@.chariots.len() implies (#[trigger] w@.chariots[k]).wf()
            && w@.chariots[k].power == 10 && w@.chariots[k].essence == 0 by {}
        proof {
            assert forall|t: int| 0 <= t < cb implies !(#[trigger] chariot_of(ls[t]) is None) by {
                assert(chariot_of(ls[t]) == Some(chariots@[t]@));
            }
            assert(w@.chariots =~= Seq::new(cb as nat, |t: int| chariot_of(ls[t])->0));
        }
        Ok(w)
    }

    /// The chariots' names, from most to least essence collected; ties keep the listed
    /// order.
    pub fn ranking(&self) -> (r: Vec<char>)
        ensures
            exists|order: Seq<usize>| #[trigger] is_ranking(self@, order) && r@ == names_in(self@, order),
    {
        let mut essence: Vec<u64> = Vec::new();
        let mut i: usize = 0;
        while i < self.chariots.len()
            invariant
                i <= self.chariots.len(),
                essence@.len() == i,
                forall|k: int| 0 <= k < i ==> #[trigger] essence@[k] as int == self@.chariots[k].essence,
            decreases self.chariots.len() - i,
        {
            assert(self@.chariots[i as int] == self.chariots@[i as int]@);
            essence.push(self.chariots[i].essence_collected);
            i = i + 1;
        }
        let order = rank_order(&essence);
        let mut out: Vec<char> = Vec::new();
        let mut j: usize = 0;
        while j < order.len()
            invariant
                j <= order.len(),
                order@.len() == self.chariots@.len(),
                forall|k: int| 0 <= k < order@.len() ==> #[trigger] order@[k] < essence@.len(),
                essence@.len() == self.chariots@.len(),
                out@ == names_in(self@, order@.take(j as int)),
            decreases order.len() - j,
        {
            let c = &self.chariots[order[j]];
            assert(self@.chariots[order@[j as int] as int] == c@);
            let name = chars_of(c.name.as_str());
            let mut t: usize = 0;
            let ghost before = out@;
            while t < name.len()
                invariant
                    t <= name.len(),
                    out@ == before + name@.take(t as int),
                decreases name.len() - t,
            {
                out.push(name[t]);
                t = t + 1;
            }
            assert(name@.take(name.len() as int) == name@);
            assert(order@.take(j + 1).drop_last() == order@.take(j as int));
            j = j + 1;
        }
        assert(order@.take(order.len() as int) == order@);
        assert forall|i: int, k: int|
            0 <= i < k < order@.len() implies chariot_ranks_before(
            self@,
            #[trigger] order@[i],
            #[trigger] order@[k],
        ) by {
            assert(ranks_before(essence@, order@[i] as int, order@[k] as int));
        }
        assert(is_ranking(self@, order@));
        out
    }
}

/// How often `ins` occurs in `s`.
pub open spec fn count_ins(s: Seq<Instruction>, ins: Instruction) -> nat
    decreases s.len(),
{
    if s.len() == 0 {
        0
    } else {
        count_ins(s.drop_last(), ins) + if s.last() == ins {
            1nat
        } else {
            0nat
        }
    }
}

/// A plan of the fixed composition: five raises, three lowers, three maintains.
pub open spec fn is_full_plan(s: Seq<Instruction>) -> bool {
    &&& s.len() == 11
    &&& count_ins(s, Instruction::AddOne) == 5
    &&& count_ins(s, Instruction::SubtractOne) == 3
    &&& count_ins(s, Instruction::Maintain) == 3
}

proof fn lemma_counts_sum(s: Seq<Instruction>)
    ensures
        count_ins(s, Instruction::AddOne) + count_ins(s, Instruction::SubtractOne) + count_ins(
            s,
            Instruction::Maintain,
        ) == s.len(),
    decreases s.len(),
{
    if s.len() > 0 {
        lemma_counts_sum(s.drop_last());
    }
}

fn count_of(s: &Vec<Instruction>, ins: Instruction) -> (r: usize)
    ensures
        r == count_ins(s@, ins),
{
    let mut n: usize = 0;
    let mut i: usize = 0;
    while i < s.len()
        invariant
            i <= s.len(),
            n == count_ins(s@.take(i as int), ins),
            n <= i,
        decreases s.len() - i,
    {
        assert(s@.take(i + 1).drop_last() == s@.take(i as int));
        if s[i] == ins {
            n = n + 1;
        }
        i = i + 1;
    }
    assert(s@.take(s.len() as int) == s@);
    n
}

/// `a` is how `b` begins.
pub open spec fn starts_with(b: Seq<Instruction>, a: Seq<Instruction>) -> bool {
    a.len() <= b.len() && b.take(a.len() as int) == a
}

/// No plan occurs twice.
pub open spec fn plans_distinct(plans: Seq<Vec<Instruction>>) -> bool {
    forall|i: int, j: int| 0 <= i < j < plans.len() ==> (#[trigger] plans[i])@ != (#[trigger] plans[j])@
}

proof fn lemma_count_prefix(p: Seq<Instruction>, m: int, x: Instruction)
    requires
        0 <= m <= p.len(),
    ensures
        count_ins(p.take(m), x) <= count_ins(p, x),
    decreases p.len() - m,
{
    if m < p.len() {
        lemma_count_prefix(p, m + 1, x);
        assert(p.take(m + 1).drop_last() == p.take(m));
    } else {
        assert(p.take(m) == p);
    }
}

/// The plans listed, as a set.
pub open spec fn plan_set(plans: Seq<Vec<Instruction>>) -> Set<Seq<Instruction>> {
    plans.map_values(|p: Vec<Instruction>| p@).to_set()
}

/// The plans of the fixed composition that begin with `prefix`.
pub open spec fn completions(prefix: Seq<Instruction>) -> Set<Seq<Instruction>> {
    Set::new(|p: Seq<Instruction>| is_full_plan(p) && starts_with(p, prefix))
}

proof fn lemma_plan_union(before: Seq<Vec<Instruction>>, after: Seq<Vec<Instruction>>, c: Seq<Instruction>)
    requires
        after.len() >= before.len(),
        forall|i: int| 0 <= i < before.len() ==> #[trigger] after[i] == before[i],
        forall|i: int| before.len() <= i < after.len() ==> is_full_plan(#[trigger] after[i]@),
        forall|i: int| before.len() <= i < after.len() ==> starts_with(#[trigger] after[i]@, c),
        forall|p: Seq<Instruction>|
            #[trigger] is_full_plan(p) && starts_with(p, c) ==> exists|i: int|
                before.len() <= i < after.len() && after[i]@ == p,
    ensures
        plan_set(after) == plan_set(before).union(completions(c)),
{
    let f = |p: Vec<Instruction>| p@;
    assert forall|x: Seq<Instruction>| plan_set(after).contains(x) <==> plan_set(before).union(
        completions(c),
    ).contains(x) by {
        if plan_set(after).contains(x) {
            let i = choose|i: int| 0 <= i < after.len() && after.map_values(f)[i] == x;
            if i < before.len() {
                assert(before.map_values(f)[i] == x);
                assert(plan_set(before).contains(x));
            } else {
                assert(is_full_plan(after[i]@) && starts_with(after[i]@, c));
            }
        }
        if plan_set(before).contains(x) {
            let i = choose|i: int| 0 <= i < before.len() && before.map_values(f)[i] == x;
            assert(after.map_values(f)[i] == x);
        }
        if completions(c).contains(x) {
            assert(is_full_plan(x) && starts_with(x, c));
            let i = choose|i: int| before.len() <= i < after.len() && after[i]@ == x;
            assert(after.map_values(f)[i] == x);
        }
    }
    assert(plan_set(after) =~= plan_set(before).union(completions(c)));
}

/// Extends `current_plan` in every way allowed by the fixed composition and appends each
/// completed plan to `plans`, each once.
fn generate_plans_recursive(current_plan: Vec<Instruction>, plans: &mut Vec<Vec<Instruction>>)
    requires
        current_plan@.len() <= 11,
        count_ins(current_plan@, Instruction::AddOne) <= 5,
        count_ins(current_plan@, Instruction::SubtractOne) <= 3,
        count_ins(current_plan@, Instruction::Maintain) <= 3,
    ensures
        plan_set(final(plans)@) == plan_set(old(plans)@).union(completions(current_plan@)),
        forall|i: int|
            old(plans)@.len() <= i < final(plans)@.len() ==> is_full_plan(#[trigger] final(plans)@[i]@),
        plans_distinct(old(plans)@) && (forall|i: int|
            0 <= i < old(plans)@.len() ==> !starts_with(#[trigger] old(plans)@[i]@, current_plan@))
            ==> plans_distinct(final(plans)@),
        final(plans)@.len() >= old(plans)@.len(),
        forall|i: int| 0 <= i < old(plans)@.len() ==> #[trigger] final(plans)@[i] == old(plans)@[i],
        forall|i: int|
            old(plans)@.len() <= i < final(plans)@.len() ==> starts_with(#[trigger] final(plans)@[i]@, current_plan@),
        forall|p: Seq<Instruction>|
            #[trigger] is_full_plan(p) && starts_with(p, current_plan@) ==> exists|i: int|
                old(plans)@.len() <= i < final(plans)@.len() && final(plans)@[i]@ == p,
    decreases 11 - current_plan@.len(),
{
    proof {
        lemma_counts_sum(current_plan@);
    }
    if current_plan.len() == 11 {
        let ghost before = plans@;
        plans.push(current_plan);
        proof {
            assert(plans@[before.len() as int]@.take(11) == plans@[before.len() as int]@);
            if plans_distinct(before) && (forall|i: int|
                0 <= i < before.len() ==> !starts_with(#[trigger] before[i]@, current_plan@)) {
                assert forall|i: int, j: int| 0 <= i < j < plans@.len() implies (#[trigger] plans@[i])@ != (#[trigger] plans@[j])@ by {
                    if j == before.len() {
                        assert(plans@[j]@.len() == 11);
                        assert(!starts_with(before[i]@, plans@[j]@));
                        if plans@[i]@ == plans@[j]@ {
                            assert(plans@[i]@.take(11) == plans@[i]@);
                        }
                    }
                }
            }
            assert forall|p: Seq<Instruction>| #[trigger] is_full_plan(p) && starts_with(p, current_plan@) implies exists|i: int|
                before.len() <= i < plans@.len() && plans@[i]@ == p by {
                assert(p.take(11) == p);
                assert(plans@[before.len() as int]@ == p);
            }
            lemma_plan_union(before, plans@, current_plan@);
        }
        return;
    }
    let ghost start = plans@;
    let ghost good = plans_distinct(start) && (forall|i: int|
        0 <= i < start.len() ==> !starts_with(#[trigger] start[i]@, current_plan@));
    let add = count_of(&current_plan, Instruction::AddOne);
    let subtract = count_of(&current_plan, Instruction::SubtractOne);
    let maintain = count_of(&current_plan, Instruction::Maintain);
    let options = [Instruction::AddOne, Instruction::SubtractOne, Instruction::Maintain];
    let room = [add < 5, subtract < 3, maintain < 3];
    let ghost c = current_plan@;
    let mut k: usize = 0;
    while k < 3
        invariant
            k <= 3,
            c == current_plan@,
            current_plan@.len() < 11,
            options@ == seq![Instruction::AddOne, Instruction::SubtractOne, Instruction::Maintain],
            room@ == seq![add < 5, subtract < 3, maintain < 3],
            add == count_ins(current_plan@, Instruction::AddOne),
            subtract == count_ins(current_plan@, Instruction::SubtractOne),
            maintain == count_ins(current_plan@, Instruction::Maintain),
            add <= 5 && subtract <= 3 && maintain <= 3,
            forall|i: int| start.len() <= i < plans@.len() ==> is_full_plan(#[trigger] plans@[i]@),
            good == (plans_distinct(start) && (forall|i: int|
                0 <= i < start.len() ==> !starts_with(#[trigger] start[i]@, c))),
            good ==> plans_distinct(plans@),
            plans@.len() >= start.len(),
            forall|i: int| 0 <= i < start.len() ==> #[trigger] plans@[i] == start[i],
            forall|i: int|
                start.len() <= i < plans@.len() ==> starts_with(#[trigger] plans@[i]@, c) && (exists|t: int|
                    0 <= t < k && plans@[i]@[c.len() as int] == options@[t]),
            forall|p: Seq<Instruction>|
                #[trigger] is_full_plan(p) && starts_with(p, c) && (exists|t: int|
                    0 <= t < k && p[c.len() as int] == options@[t]) ==> exists|i: int|
                    start.len() <= i < plans@.len() && plans@[i]@ == p,
        decreases 3 - k,
    {
        let ghost pk = plans@;
        if room[k] {
            let mut new_plan = current_plan.clone();
            new_plan.push(options[k]);
            let ghost np = new_plan@;
            assert(np.drop_last() == c);
            let ghost mid = plans@;
            proof {
                if good {
                assert forall|i: int| 0 <= i < mid.len() implies !starts_with(#[trigger] mid[i]@, np) by {
                    if starts_with(mid[i]@, np) {
                        assert(mid[i]@.take(c.len() as int) == np.take(c.len() as int));
                        assert(np.take(c.len() as int) == c);
                        if i < start.len() {
                            assert(mid[i] == start[i]);
                            assert(starts_with(start[i]@, c));
                        } else {
                            let t = choose|t: int| 0 <= t < k && mid[i]@[c.len() as int] == options@[t];
                            assert(mid[i]@[c.len() as int] == mid[i]@.take(np.len() as int)[c.len() as int]);
                        }
                    }
                }
                }
            }
            generate_plans_recursive(new_plan, plans);
            proof {
                assert forall|p: Seq<Instruction>|
                    #[trigger] is_full_plan(p) && starts_with(p, c) && (exists|t: int|
                        0 <= t < k && p[c.len() as int] == options@[t]) implies exists|i: int|
                        start.len() <= i < plans@.len() && plans@[i]@ == p by {
                    let i = choose|i: int| start.len() <= i < mid.len() && mid[i]@ == p;
                    assert(plans@[i] == mid[i]);
                }
                assert forall|p: Seq<Instruction>| #[trigger] is_full_plan(p) && starts_with(p, np) implies exists|i: int|
                    start.len() <= i < plans@.len() && plans@[i]@ == p by {
                    let i = choose|i: int| mid.len() <= i < plans@.len() && plans@[i]@ == p;
                }
                assert forall|i: int|
                    start.len() <= i < plans@.len() implies starts_with(#[trigger] plans@[i]@, c) && (exists|t: int|
                        0 <= t < k + 1 && plans@[i]@[c.len() as int] == options@[t]) by {
                    if i < mid.len() {
                        assert(plans@[i] == mid[i]);
                        let t = choose|t: int| 0 <= t < k && mid[i]@[c.len() as int] == options@[t];
                        assert(0 <= t < k + 1 && plans@[i]@[c.len() as int] == options@[t]);
                    } else {
                        assert(starts_with(plans@[i]@, np));
                        assert(plans@[i]@.take(np.len() as int)[c.len() as int] == np[c.len() as int]);
                        assert(plans@[i]@.take(c.len() as int) == plans@[i]@.take(np.len() as int).take(c.len() as int));
                        assert(np.take(c.len() as int) == c);
                        assert(plans@[i]@[c.len() as int] == options@[k as int]);
                    }
                }
            }
        } else {
            proof {
                assert forall|i: int|
                    start.len() <= i < plans@.len() implies starts_with(#[trigger] plans@[i]@, c) && (exists|t: int|
                        0 <= t < k + 1 && plans@[i]@[c.len() as int] == options@[t]) by {
                    let t = choose|t: int| 0 <= t < k && plans@[i]@[c.len() as int] == options@[t];
                    assert(0 <= t < k + 1 && plans@[i]@[c.len() as int] == options@[t]);
                }
            }
        }
        proof {
            assert forall|p: Seq<Instruction>|
                #[trigger] is_full_plan(p) && starts_with(p, c) && (exists|t: int|
                    0 <= t < k + 1 && p[c.len() as int] == options@[t]) implies exists|i: int|
                    start.len() <= i < plans@.len() && plans@[i]@ == p by {
                let t = choose|t: int| 0 <= t < k + 1 && p[c.len() as int] == options@[t];
                if t < k {
                    let i = choose|i: int| start.len() <= i < pk.len() && pk[i]@ == p;
                    assert(plans@[i] == pk[i]);
                } else {
                    let ins = options@[k as int];
                    lemma_count_prefix(p, c.len() as int + 1, ins);
                    assert(p.take(c.len() as int + 1).drop_last() == c);
                    assert(p.take(c.len() as int + 1).last() == ins);
                    assert(room@[k as int]);
                    let np = c.push(ins);
                    assert(p.take(c.len() as int + 1) == np);
                    assert(starts_with(p, np));
                }
            }
        }
        k = k + 1;
    }
    proof {
        assert forall|i: int| start.len() <= i < plans@.len() implies starts_with(#[trigger] plans@[i]@, c) by {}
        assert forall|p: Seq<Instruction>| #[trigger] is_full_plan(p) && starts_with(p, c) implies exists|i: int|
            start.len() <= i < plans@.len() && plans@[i]@ == p by {
            let ins = p[c.len() as int];
            let t: int = if ins == Instruction::AddOne { 0 } else if ins == Instruction::SubtractOne { 1 } else { 2 };
            assert(p[c.len() as int] == options@[t]);
        }
        lemma_plan_union(start, plans@, c);
    }
}

/// Every plan of the fixed composition, each once.
pub fn generate_possible_plans() -> (r: Vec<Vec<Instruction>>)
    ensures
        forall|i: int| 0 <= i < r@.len() ==> is_full_plan(#[trigger] r@[i]@),
        plans_distinct(r@),
        forall|p: Seq<Instruction>| #[trigger] is_full_plan(p) ==> exists|i: int| 0 <= i < r@.len() && r@[i]@ == p,
{
    let mut plans: Vec<Vec<Instruction>> = Vec::new();
    let start: Vec<Instruction> = Vec::new();
    generate_plans_recursive(start, &mut plans);
    proof {
        assert forall|p: Seq<Instruction>| #[trigger] is_full_plan(p) implies exists|i: int| 0 <= i < plans@.len() && plans@[i]@ == p by {
            assert(p.take(0) == start@);
            assert(starts_with(p, start@));
        }
    }
    plans
}

/// How many ticks a ranking runs: ten, or ten loops of the track.
pub open spec fn ranking_ticks(w: WorldView, loops: bool) -> Option<int> {
    if loops {
        match w.track {
            Some(t) => Some(10 * (t.len() as int)),
            None => None,
        }
    } else {
        Some(10)
    }
}

/// The chariot-track day.
pub struct Day7;

/// The chariot ranking that `ranking_after` gives for `input`: defined exactly when the input reads, has the ticks to run and stays in bounds; the names in ranking order.
pub open spec fn ranking_result(input: Seq<char>, loops: bool, r: Option<String>) -> bool {
    &&& (r is Some <==> match world_of(input) {
        Some(w) => match ranking_ticks(w, loops) {
            Some(n) => n <= usize::MAX && n <= u64::MAX && w.fits_for(n),
            None => false,
        },
        None => false,
    })
    &&& (r is Some ==> exists|order: Seq<usize>|
        #[trigger] is_ranking(
            world_of(input)->0.ticks(ranking_ticks(world_of(input)->0, loops)->0 as nat),
            order,
        ) && r->0@ == names_in(
            world_of(input)->0.ticks(ranking_ticks(world_of(input)->0, loops)->0 as nat),
            order,
        ))
}

impl Day7 {
    /// Ranks the chariots of `input` after ten ticks, or, with `loops`, after ten loops of
    /// the track. `None` when the input cannot be read, there is no track to loop, or the
    /// run would leave the overflow bounds.
    pub fn ranking_after(input: &str, loops: bool) -> (r: Option<String>)
        ensures
            ranking_result(input@, loops, r),
    {
        let text = chars_of(input);
        let mut world = match Day7World::from_text(&text) {
            Ok(w) => w,
            Err(_) => {
                return None;
            },
        };
        let ghost w0 = world@;
        assert(text@ == input@);
        let ticks: usize = if loops {
            match world.track_len() {
                Some(len) => match len.checked_mul(10) {
                    Some(t) => t,
                    None => {
                        return None;
                    },
                },
                None => {
                    return None;
                },
            }
        } else {
            10
        };
        if ticks as u128 > u64::MAX as u128 || !world.can_run(ticks as u64) {
            return None;
        }
        assert(ranking_ticks(w0, loops) == Some(ticks as int));
        world.run_steps(ticks);
        let names = world.ranking();
        let out = string_from_chars(&names);
        assert(out@ == names@);
        Some(out)
    }
}

impl Solution<String> for Day7 {
    open spec fn answer1(&self, input: Seq<char>, r: Option<String>) -> bool {
        ranking_result(input, false, r)
    }

    open spec fn answer2(&self, input: Seq<char>, r: Option<String>) -> bool {
        ranking_result(input, true, r)
    }

    open spec fn answer3(&self, input: Seq<char>, r: Option<String>) -> bool {
        strategies_result(input, r)
    }

    fn get_day(&self) -> usize {
        7
    }

    fn part1(&self, input: &str) -> Option<String> {
        Day7::ranking_after(input, false)
    }

    fn part2(&self, input: &str) -> Option<String> {
        Day7::ranking_after(input, true)
    }

    fn part3(&self, input: &str) -> Option<String> {
        Day7::strategies_beating_first(input)
    }
}

/// A fresh synthetic chariot, named `S`, that follows `plan`.
pub open spec fn synthetic(plan: Seq<Instruction>) -> ChariotView {
    ChariotView { name: seq!['S'], power: 10, essence: 0, index: 0, plan }
}

/// `ps` lists every plan of the fixed composition exactly once.
pub open spec fn enumerates_plans(ps: Seq<Seq<Instruction>>) -> bool {
    &&& forall|i: int| 0 <= i < ps.len() ==> is_full_plan(#[trigger] ps[i])
    &&& forall|i: int, j: int| 0 <= i < j < ps.len() ==> #[trigger] ps[i] != #[trigger] ps[j]
    &&& forall|p: Seq<Instruction>| #[trigger] is_full_plan(p) ==> ps.contains(p)
}

/// The world `w` with one synthetic chariot per plan of `ps` added after its own.
pub open spec fn with_strategies(w: WorldView, ps: Seq<Seq<Instruction>>) -> WorldView {
    WorldView {
        chariots: w.chariots + Seq::new(ps.len(), |i: int| synthetic(ps[i])),
        segment: w.segment,
        track: w.track,
    }
}

/// Chariots among `cs[from..to]` with more essence than `bar`.
pub open spec fn count_above(cs: Seq<ChariotView>, from: int, to: int, bar: int) -> nat
    decreases to - from,
{
    if to <= from {
        0
    } else {
        count_above(cs, from, to - 1, bar) + if cs[to - 1].essence > bar {
            1nat
        } else {
            0nat
        }
    }
}

proof fn lemma_ticks_keep_count(w: WorldView, n: nat)
    ensures
        w.ticks(n).chariots.len() == w.chariots.len(),
    decreases n,
{
    if n > 0 {
        lemma_ticks_keep_count(w.tick(), (n - 1) as nat);
    }
}

/// What `strategies_beating_first` answers for `input`.
pub open spec fn strategies_result(input: Seq<char>, r: Option<String>) -> bool {
    &&& (r is Some ==> exists|ps: Seq<Seq<Instruction>>|
        #[trigger] enumerates_plans(ps) && ({
            let w = world_of(input)->0;
            let m = w.chariots.len() as int;
            let after = with_strategies(w, ps).ticks((2024 * w.track->0.len()) as nat);
            &&& world_of(input) is Some
            &&& m >= 1
            &&& w.track is Some
            &&& r->0@ == decimal_digits(
                count_above(after.chariots, m, after.chariots.len() as int, after.chariots[0].essence),
            )
        }))
    &&& ((world_of(input) is None || world_of(input)->0.chariots.len() == 0
        || world_of(input)->0.track is None) ==> r is None)
    &&& (strategies_run_fits(input) ==> r is Some)
}

/// The input reads with a chariot and a track, and 2024 loops stay within the overflow
/// bounds for its chariots and for fresh synthetic ones.
pub open spec fn strategies_run_fits(input: Seq<char>) -> bool {
    &&& world_of(input) is Some
    &&& world_of(input)->0.chariots.len() >= 1
    &&& world_of(input)->0.track is Some
    &&& ({
        let n = 2024 * (world_of(input)->0.track->0.len() as int);
        &&& n <= usize::MAX
        &&& n <= u64::MAX
        &&& world_of(input)->0.fits_for(n)
        &&& 10 + n <= POWER_CAP
        &&& n * (POWER_CAP as int) <= u64::MAX
    })
}

impl Day7 {
    /// Part three: adds one synthetic chariot per plan of the fixed composition, runs
    /// 2024 loops of the track, and counts the synthetic chariots that collected more
    /// essence than the first chariot of the input. `None` when the input cannot be read,
    /// has no chariot or no track, or the run would leave the overflow bounds.
    pub fn strategies_beating_first(input: &str) -> (r: Option<String>)
        ensures
            strategies_result(input@, r),
    {
        let text = chars_of(input);
        assert(text@ == input@);
        let world = match Day7World::from_text(&text) {
            Ok(w) => w,
            Err(_) => {
                return None;
            },
        };
        if world.chariots.len() == 0 {
            return None;
        }
        let len = match world.track_len() {
            Some(len) => len,
            None => {
                return None;
            },
        };
        let plans = generate_possible_plans();
        let ghost ps = plans@.map_values(|p: Vec<Instruction>| p@);
        proof {
            assert forall|p: Seq<Instruction>| #[trigger] is_full_plan(p) implies ps.contains(p) by {
                let i = choose|i: int| 0 <= i < plans@.len() && plans@[i]@ == p;
                assert(ps[i] == p);
            }
            assert(enumerates_plans(ps));
        }
        let ghost w0 = world@;
        let Day7World { mut chariots, current_segment, track } = world;
        let existing = chariots.len();
        assert forall|k: int| 0 <= k < chariots@.len() implies (#[trigger] chariots@[k])@.wf() by {
            assert(w0.chariots[k] == chariots@[k]@);
        }
        let mut i: usize = 0;
        while i < plans.len()
            invariant
                i <= plans.len(),
                existing > 0,
                ps == plans@.map_values(|p: Vec<Instruction>| p@),
                chariots@.len() == existing + i,
                forall|k: int| 0 <= k < existing ==> (#[trigger] chariots@[k])@ == w0.chariots[k],
                existing == w0.chariots.len(),
                forall|k: int| existing <= k < chariots@.len() ==> (#[trigger] chariots@[k])@
                    == synthetic(ps[k - existing]),
                forall|k: int| 0 <= k < chariots@.len() ==> (#[trigger] chariots@[k])@.wf(),
                forall|k: int| 0 <= k < plans@.len() ==> is_full_plan(#[trigger] plans@[k]@),
            decreases plans.len() - i,
        {
            let name = string_from_chars(&vec!['S']);
            assert(name@ == seq!['S']);
            assert(is_full_plan(plans@[i as int]@));
            let plan = plans[i].clone();
            assert(plan@ =~= plans@[i as int]@);
            let c = Chariot::new(name, plan);
            chariots.push(c);
            i = i + 1;
        }
        let mut world = Day7World::new(chariots, track);
        proof {
            assert(world@.chariots =~= with_strategies(w0, ps).chariots) by {
                assert forall|k: int| 0 <= k < world@.chariots.len() implies #[trigger] world@.chariots[k]
                    == with_strategies(w0, ps).chariots[k] by {
                    assert(world@.chariots[k] == chariots@[k]@);
                }
            }
            assert(world@ == with_strategies(w0, ps));
        }
        let ticks = match len.checked_mul(2024) {
            Some(t) => t,
            None => {
                return None;
            },
        };
        proof {
            if strategies_run_fits(input@) {
                let n = ticks as int;
                assert(n == 2024 * w0.track->0.len());
                let ws = with_strategies(w0, ps);
                assert forall|k: int| 0 <= k < ws.chariots.len() implies (#[trigger] ws.chariots[k]).fits_for(n) by {
                    if k < w0.chariots.len() {
                        assert(w0.chariots[k].fits_for(n));
                    } else {
                        assert(ws.chariots[k] == synthetic(ps[k - w0.chariots.len()]));
                    }
                }
                assert(ws.fits_for(n));
            }
        }
        if ticks as u128 > u64::MAX as u128 || !world.can_run(ticks as u64) {
            return None;
        }
        world.run_steps(ticks);
        proof {
            lemma_ticks_keep_count(with_strategies(w0, ps), ticks as nat);
        }
        let ghost after = world@;
        assert(after.chariots[0] == world.chariots@[0]@);
        let to_beat = world.chariots[0].essence_collected;
        let mut beating: usize = 0;
        let mut j: usize = existing;
        while j < world.chariots.len()
            invariant
                existing <= j <= world.chariots@.len(),
                after == world@,
                beating <= j,
                beating == count_above(after.chariots, existing as int, j as int, to_beat as int),
            decreases world.chariots.len() - j,
        {
            assert(after.chariots[j as int] == world.chariots@[j as int]@);
            if world.chariots[j].essence_collected > to_beat {
                beating = beating + 1;
            }
            j = j + 1;
        }
        let out = string_from_chars(&decimal_string(beating as u128));
        assert(ticks as int == 2024 * w0.track->0.len());
        Some(out)
    }
}

} // verus!
