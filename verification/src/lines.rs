//! The thirteen output lines of the matrix: their names, their levels, and
//! what a sequence of line commands does to the levels.
//!
//! Levels are modelled as a sequence of thirteen `PinState` values in the
//! order of `Line::index`. `run` carries a sequence of commands out on such
//! levels, and `sampled` stops after some of them, as an observer would
//! who looks at the lines in the middle of a transfer.

use vstd::prelude::*;

verus! {

/// The level of a digital output line.
#[derive(Clone, Copy, Debug, PartialEq, Eq, Structural)]
pub enum PinState {
    Low,
    High,
}

/// The thirteen output lines: standby, latch, reset, clock, data and the
/// eight row selects.
#[derive(Clone, Copy, Debug, PartialEq, Eq, Structural)]
pub enum Line {
    Sb,
    Lat,
    Rst,
    Sck,
    Sda,
    C0,
    C1,
    C2,
    C3,
    C4,
    C5,
    C6,
    C7,
}

/// One thing to do on the hardware.
#[derive(Clone, Copy, Debug, PartialEq, Eq, Structural)]
pub enum Command {
    /// Drive a line to a level.
    Drive(Line, PinState),
    /// Hold every line as it is for a number of milliseconds.
    Wait(u32),
}

/// The levels of all thirteen lines, in the order of `Line::index`.
#[derive(Clone, Copy, Debug, PartialEq, Eq)]
pub struct Levels {
    pub lines: [PinState; 13],
}

/// The level that stands for a bit: high for one, low for zero.
pub open spec fn level_of(bit: bool) -> PinState {
    if bit {
        PinState::High
    } else {
        PinState::Low
    }
}

/// The select line of row `row`, for `row` in `0..8`.
pub open spec fn row_line(row: int) -> Line {
    if row == 0 {
        Line::C0
    } else if row == 1 {
        Line::C1
    } else if row == 2 {
        Line::C2
    } else if row == 3 {
        Line::C3
    } else if row == 4 {
        Line::C4
    } else if row == 5 {
        Line::C5
    } else if row == 6 {
        Line::C6
    } else {
        Line::C7
    }
}

/// The row shown before `row` in the refresh cycle: `row - 1`, and 7 for 0.
pub open spec fn previous_row(row: int) -> int {
    if row > 0 {
        row - 1
    } else {
        7
    }
}

impl PinState {
    /// High for `true`, low for `false`.
    pub fn from(bit: bool) -> (state: PinState)
        ensures
            state == level_of(bit),
    {
        if bit {
            PinState::High
        } else {
            PinState::Low
        }
    }
}

impl Line {
    /// The place of the line among the thirteen: standby, latch, reset,
    /// clock and data come first, then the row selects from row 0 to row 7.
    pub open spec fn index(self) -> int {
        match self {
            Line::Sb => 0,
            Line::Lat => 1,
            Line::Rst => 2,
            Line::Sck => 3,
            Line::Sda => 4,
            Line::C0 => 5,
            Line::C1 => 6,
            Line::C2 => 7,
            Line::C3 => 8,
            Line::C4 => 9,
            Line::C5 => 10,
            Line::C6 => 11,
            Line::C7 => 12,
        }
    }

    /// The place of the line among the thirteen.
    pub fn position(self) -> (at: usize)
        ensures
            at == self.index(),
            at < 13,
    {
        match self {
            Line::Sb => 0,
            Line::Lat => 1,
            Line::Rst => 2,
            Line::Sck => 3,
            Line::Sda => 4,
            Line::C0 => 5,
            Line::C1 => 6,
            Line::C2 => 7,
            Line::C3 => 8,
            Line::C4 => 9,
            Line::C5 => 10,
            Line::C6 => 11,
            Line::C7 => 12,
        }
    }
}

/// The level of one line among thirteen levels.
pub open spec fn level(lines: Seq<PinState>, line: Line) -> PinState {
    lines[line.index()]
}

/// Thirteen levels after one line is driven to `state`.
pub open spec fn driven(lines: Seq<PinState>, line: Line, state: PinState) -> Seq<PinState> {
    lines.update(line.index(), state)
}

/// The level of the select line of `row`.
pub open spec fn row_level(lines: Seq<PinState>, row: int) -> PinState {
    lines[5 + row]
}

/// Whether the select line of `row` is high.
pub open spec fn row_high(lines: Seq<PinState>, row: int) -> bool {
    row_level(lines, row) == PinState::High
}

/// No row is selected.
pub open spec fn no_row(lines: Seq<PinState>) -> bool {
    forall|row: int| 0 <= row < 8 ==> !row_high(lines, row)
}

/// Row `row` is selected and no other.
pub open spec fn only_row(lines: Seq<PinState>, row: int) -> bool {
    forall|other: int| 0 <= other < 8 ==> (row_high(lines, other) <==> other == row)
}

/// No two rows are selected together.
pub open spec fn at_most_one_row(lines: Seq<PinState>) -> bool {
    forall|a: int, b: int|
        0 <= a < 8 && 0 <= b < 8 && row_high(lines, a) && row_high(lines, b) ==> a == b
}

/// The levels that the lines are configured with at power-on: standby and
/// latch high, everything else low.
pub open spec fn power_on_levels() -> Seq<PinState> {
    Seq::new(
        13,
        |i: int|
            if i == 0 || i == 1 {
                PinState::High
            } else {
                PinState::Low
            },
    )
}

impl View for Levels {
    type V = Seq<PinState>;

    open spec fn view(&self) -> Seq<PinState> {
        self.lines@
    }
}

impl Levels {
    /// The power-on levels.
    pub fn power_on() -> (levels: Levels)
        ensures
            levels@ == power_on_levels(),
    {
        let mut lines = [PinState::Low;13];
        lines[0] = PinState::High;
        lines[1] = PinState::High;
        assert(lines@ =~= power_on_levels());
        Levels { lines }
    }

    /// Reads the level of one line.
    pub fn get(&self, line: Line) -> (state: PinState)
        ensures
            state == level(self@, line),
    {
        self.lines[line.position()]
    }

    /// Drives one line to `state`.
    pub fn set(&mut self, line: Line, state: PinState)
        ensures
            final(self)@ == driven(old(self)@, line, state),
    {
        self.lines[line.position()] = state;
    }

    /// Carries out one command on the levels.
    pub fn apply(&mut self, command: Command)
        ensures
            final(self)@ == after(old(self)@, command),
    {
        match command {
            Command::Drive(line, state) => self.set(line, state),
            Command::Wait(_) => {},
        }
    }

    /// The row that is selected, if exactly one is.
    pub fn active_row(&self) -> (row: Option<usize>)
        ensures
            match row {
                Some(r) => r < 8 && only_row(self@, r as int),
                None => forall|r: int| 0 <= r < 8 ==> !only_row(self@, r),
            },
    {
        let mut found: Option<usize> = None;
        let mut many = false;
        for r in 0..8usize
            invariant
                match found {
                    Some(f) => f < r && row_high(self@, f as int) && (!many ==> forall|i: int|
                        0 <= i < r && i != f ==> !row_high(self@, i)),
                    None => !many && forall|i: int| 0 <= i < r ==> !row_high(self@, i),
                },
                many ==> exists|a: int, b: int|
                    0 <= a < b < 8 && row_high(self@, a) && row_high(self@, b),
        {
            if self.lines[5 + r] == PinState::High {
                if let Some(f) = found {
                    many = true;
                    assert(row_high(self@, f as int) && row_high(self@, r as int));
                } else {
                    found = Some(r);
                }
            }
        }
        if many {
            let ghost (a, b) = choose|a: int, b: int|
                0 <= a < b < 8 && row_high(self@, a) && row_high(self@, b);
            assert forall|r: int| 0 <= r < 8 implies !only_row(self@, r) by {
                if only_row(self@, r) {
                    assert(row_high(self@, a) <==> a == r);
                    assert(row_high(self@, b) <==> b == r);
                }
            }
            None
        } else {
            match found {
                Some(f) => {},
                None => {
                    assert forall|r: int| 0 <= r < 8 implies !only_row(self@, r) by {
                        if only_row(self@, r) {
                            assert(row_high(self@, r) <==> r == r);
                        }
                    }
                },
            }
            found
        }
    }
}

/// The levels after one command.
pub open spec fn after(lines: Seq<PinState>, command: Command) -> Seq<PinState> {
    match command {
        Command::Drive(line, state) => driven(lines, line, state),
        Command::Wait(_) => lines,
    }
}

/// The levels after a sequence of commands, carried out in order.
pub open spec fn run(lines: Seq<PinState>, commands: Seq<Command>) -> Seq<PinState>
    decreases commands.len(),
{
    if commands.len() == 0 {
        lines
    } else {
        after(run(lines, commands.drop_last()), commands.last())
    }
}

/// Whether two sets of levels agree on the eight row selects.
pub open spec fn same_rows(a: Seq<PinState>, b: Seq<PinState>) -> bool {
    forall|row: int| 0 <= row < 8 ==> row_level(a, row) == row_level(b, row)
}

/// The levels after the first `k` commands of a sequence: the lines as an
/// observer finds them who samples at that instant.
pub open spec fn sampled(lines: Seq<PinState>, commands: Seq<Command>, k: int) -> Seq<PinState> {
    run(lines, commands.take(k))
}

/// Every line has its place among the thirteen.
pub proof fn lemma_index_bounds(line: Line)
    ensures
        0 <= line.index() < 13,
{
}

/// The select line of row `row` is line `5 + row`.
pub proof fn lemma_row_line_index(row: int)
    requires
        0 <= row < 8,
    ensures
        row_line(row).index() == 5 + row,
{
}

/// Carrying out one more command after a sequence.
pub proof fn lemma_run_push(lines: Seq<PinState>, commands: Seq<Command>, command: Command)
    ensures
        run(lines, commands.push(command)) == after(run(lines, commands), command),
{
    assert(commands.push(command).drop_last() =~= commands);
}

/// Carrying out two sequences one after the other.
pub proof fn lemma_run_concat(lines: Seq<PinState>, first: Seq<Command>, second: Seq<Command>)
    ensures
        run(lines, first + second) == run(run(lines, first), second),
    decreases second.len(),
{
    if second.len() == 0 {
        assert(first + second =~= first);
    } else {
        lemma_run_concat(lines, first, second.drop_last());
        assert((first + second).drop_last() =~= first + second.drop_last());
    }
}

/// Levels that agree on the row selects still agree after one command.
pub proof fn lemma_same_rows_after(a: Seq<PinState>, b: Seq<PinState>, command: Command)
    requires
        a.len() == 13,
        b.len() == 13,
        same_rows(a, b),
    ensures
        same_rows(after(a, command), after(b, command)),
{
    match command {
        Command::Drive(line, state) => {
            lemma_index_bounds(line);
            assert forall|row: int| 0 <= row < 8 implies row_level(after(a, command), row)
                == row_level(after(b, command), row) by {
                assert(row_level(a, row) == row_level(b, row));
            }
        },
        Command::Wait(_) => {},
    }
}

/// A command on the standby, latch, reset, clock or data line, or a wait,
/// moves no row select.
pub proof fn lemma_rows_kept(lines: Seq<PinState>, command: Command)
    requires
        lines.len() == 13,
        match command {
            Command::Drive(line, _) => line.index() < 5,
            Command::Wait(_) => true,
        },
    ensures
        same_rows(after(lines, command), lines),
{
}

/// One command keeps the number of levels.
pub proof fn lemma_after_len(lines: Seq<PinState>, command: Command)
    requires
        lines.len() == 13,
    ensures
        after(lines, command).len() == 13,
{
    match command {
        Command::Drive(line, _) => {
            lemma_index_bounds(line);
        },
        Command::Wait(_) => {},
    }
}

/// Carrying out commands keeps the number of levels.
pub proof fn lemma_run_len(lines: Seq<PinState>, commands: Seq<Command>)
    requires
        lines.len() == 13,
    ensures
        run(lines, commands).len() == 13,
    decreases commands.len(),
{
    if commands.len() > 0 {
        lemma_run_len(lines, commands.drop_last());
        lemma_after_len(run(lines, commands.drop_last()), commands.last());
    }
}

/// Sampling one command later.
pub proof fn lemma_sampled_next(lines: Seq<PinState>, commands: Seq<Command>, k: int)
    requires
        0 <= k < commands.len(),
    ensures
        sampled(lines, commands, k + 1) == after(sampled(lines, commands, k), commands[k]),
{
    assert(commands.take(k + 1) =~= commands.take(k).push(commands[k]));
    lemma_run_push(lines, commands.take(k), commands[k]);
}

/// Sampling across two sequences carried out one after the other.
pub proof fn lemma_sampled_concat(
    lines: Seq<PinState>,
    first: Seq<Command>,
    second: Seq<Command>,
    k: int,
)
    requires
        0 <= k <= first.len() + second.len(),
    ensures
        sampled(lines, first + second, k) == if k <= first.len() {
            sampled(lines, first, k)
        } else {
            sampled(run(lines, first), second, k - first.len())
        },
{
    if k <= first.len() {
        assert((first + second).take(k) =~= first.take(k));
    } else {
        assert((first + second).take(k) =~= first + second.take(k - first.len()));
        lemma_run_concat(lines, first, second.take(k - first.len()));
    }
}

/// Carrying out a single command.
pub proof fn lemma_run_one(lines: Seq<PinState>, command: Command)
    ensures
        run(lines, seq![command]) == after(lines, command),
{
    assert(seq![command] =~= Seq::<Command>::empty().push(command));
    lemma_run_push(lines, Seq::empty(), command);
}

/// Sampling after the last command gives the levels after the sequence.
pub proof fn lemma_sampled_all(lines: Seq<PinState>, commands: Seq<Command>)
    ensures
        sampled(lines, commands, commands.len() as int) == run(lines, commands),
{
    assert(commands.take(commands.len() as int) =~= commands);
}

} // verus!
