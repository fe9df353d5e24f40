//! The wire protocol of the matrix as sequences of line commands: what is
//! sent for a bit, a byte, a row, a frame and at start-up, and what those
//! sequences do to the lines.
//!
//! One row takes 773 commands. Its 192 data bits go out first, four
//! commands a bit; the previous row is deselected after the first 72 of
//! them; the latch is pulsed after the last; then the row is selected. So
//! no two rows are ever selected together, and a row comes on only once its
//! own data is latched.

use vstd::prelude::*;
use crate::image::Color;
use crate::lines::{
    Command, Line, PinState, at_most_one_row, driven, lemma_row_line_index, lemma_rows_kept,
    lemma_run_concat, lemma_run_len, lemma_run_one, lemma_run_push, lemma_same_rows_after,
    lemma_sampled_all, lemma_sampled_concat, lemma_sampled_next, level_of, no_row, only_row,
    power_on_levels, previous_row, row_high, row_level, row_line, run, same_rows, sampled,
};

verus! {

/// A pulse on the clock line: low, high, low. The shift register samples
/// the data line on the rising edge.
pub open spec fn clock_pulse() -> Seq<Command> {
    seq![
        Command::Drive(Line::Sck, PinState::Low),
        Command::Drive(Line::Sck, PinState::High),
        Command::Drive(Line::Sck, PinState::Low),
    ]
}

/// A pulse on the latch line: high, low, high. It commits what was shifted
/// in to the output drivers.
pub open spec fn latch_pulse() -> Seq<Command> {
    seq![
        Command::Drive(Line::Lat, PinState::High),
        Command::Drive(Line::Lat, PinState::Low),
        Command::Drive(Line::Lat, PinState::High),
    ]
}

/// The commands that shift a sequence of bits into the register: for each
/// bit in order, the data line is set to the bit and the clock is pulsed.
pub open spec fn shift_out(bits: Seq<bool>) -> Seq<Command> {
    Seq::new(
        4 * bits.len(),
        |k: int|
            if k % 4 == 0 {
                Command::Drive(Line::Sda, level_of(bits[k / 4]))
            } else if k % 4 == 2 {
                Command::Drive(Line::Sck, PinState::High)
            } else {
                Command::Drive(Line::Sck, PinState::Low)
            },
    )
}

/// Bit `i` of a byte, bit 0 being the least significant.
pub open spec fn bit_of(byte: u8, i: u32) -> bool {
    byte & (1u8 << i) != 0
}

/// The bits of a byte in the order they are sent: most significant first.
pub open spec fn byte_bits(byte: u8) -> Seq<bool> {
    Seq::new(8, |j: int| bit_of(byte, (7 - j) as u32))
}

/// Byte `n` of the 24 that a row shifts out: columns go from 7 down to 0,
/// and each pixel gives its gamma-corrected blue, green and red, in that
/// order. The pixels are always corrected here, just before they are sent.
pub open spec fn wire_byte(pixels: Seq<Color>, n: int) -> u8 {
    let sent = pixels[7 - n / 3].corrected();
    if n % 3 == 0 {
        sent.b
    } else if n % 3 == 1 {
        sent.g
    } else {
        sent.r
    }
}

/// The 192 bits that a row shifts out, in order.
pub open spec fn row_bits(pixels: Seq<Color>) -> Seq<bool> {
    Seq::new(192, |j: int| bit_of(wire_byte(pixels, j / 8), (7 - j % 8) as u32))
}

/// The command that deselects the row shown before `row`.
pub open spec fn deselect_previous(row: int) -> Command {
    Command::Drive(row_line(previous_row(row)), PinState::Low)
}

/// The command that selects `row`.
pub open spec fn select(row: int) -> Command {
    Command::Drive(row_line(row), PinState::High)
}

/// The commands of a row once `n` of its eight columns are shifted out.
/// The previous row is deselected right after the third column sent,
/// which is column 5.
pub open spec fn row_data(row: int, pixels: Seq<Color>, n: int) -> Seq<Command> {
    if n < 3 {
        shift_out(row_bits(pixels).take(24 * n))
    } else {
        shift_out(row_bits(pixels).take(72)) + seq![deselect_previous(row)] + shift_out(
            row_bits(pixels).subrange(72, 24 * n),
        )
    }
}

/// The commands that show one row: its 192 bits are shifted out, with the
/// previous row deselected after the first 72; then the latch is pulsed;
/// then the row is selected.
pub open spec fn row_commands(row: int, pixels: Seq<Color>) -> Seq<Command> {
    shift_out(row_bits(pixels).take(72)) + seq![deselect_previous(row)] + shift_out(
        row_bits(pixels).subrange(72, 192),
    ) + latch_pulse() + seq![select(row)]
}

/// The commands that show the first `n` rows of an image, top row first.
pub open spec fn frame_head(image: Seq<Color>, n: int) -> Seq<Command>
    decreases n,
{
    if n <= 0 {
        Seq::empty()
    } else {
        frame_head(image, n - 1) + row_commands(n - 1, image.subrange(8 * (n - 1), 8 * n))
    }
}

/// The commands that show a whole image once: rows 0 to 7 in order.
pub open spec fn frame_commands(image: Seq<Color>) -> Seq<Command> {
    frame_head(image, 8)
}

/// The commands that set up bank 0 of the controller: standby low, 144 one
/// bits, a latch pulse, standby high.
pub open spec fn bank_commands() -> Seq<Command> {
    seq![Command::Drive(Line::Sb, PinState::Low)] + shift_out(Seq::new(144, |j: int| true))
        + latch_pulse() + seq![Command::Drive(Line::Sb, PinState::High)]
}

/// The commands of the start-up sequence: hold reset for 100 ms, release
/// it, set up bank 0.
pub open spec fn startup_commands() -> Seq<Command> {
    seq![Command::Wait(100), Command::Drive(Line::Rst, PinState::High)] + bank_commands()
}

/// The commands of one column: its blue, green and red byte.
pub open spec fn column_commands(pixels: Seq<Color>, n: int) -> Seq<Command> {
    shift_out(byte_bits(wire_byte(pixels, 3 * n))) + shift_out(
        byte_bits(wire_byte(pixels, 3 * n + 1)),
    ) + shift_out(byte_bits(wire_byte(pixels, 3 * n + 2)))
}

/// Whether a command only moves the data or the clock line.
pub open spec fn is_shift(command: Command) -> bool {
    match command {
        Command::Drive(line, _) => line == Line::Sda || line == Line::Sck,
        Command::Wait(_) => false,
    }
}

/// The levels after bits are shifted out, the last of them `bit`: the data
/// line at the bit, the clock low, no other line moved.
pub open spec fn shifted(lines: Seq<PinState>, bit: bool) -> Seq<PinState> {
    driven(driven(lines, Line::Sda, level_of(bit)), Line::Sck, PinState::Low)
}

/// The levels that showing a row leaves: the data line at the last bit
/// sent, the clock low, the previous row deselected, the latch high and
/// the row selected. No other line moves.
pub open spec fn levels_after_row(lines: Seq<PinState>, row: int, pixels: Seq<Color>) -> Seq<
    PinState,
> {
    driven(
        driven(
            driven(
                shifted(lines, bit_of(wire_byte(pixels, 23), 0)),
                row_line(previous_row(row)),
                PinState::Low,
            ),
            Line::Lat,
            PinState::High,
        ),
        row_line(row),
        PinState::High,
    )
}

/// The row selects while a row is being shown, sampled after `k` of its
/// commands: untouched up to the deselection, then with the previous row
/// off, and with the new row on only after the last command.
pub open spec fn rows_during_row(lines: Seq<PinState>, row: int, k: int) -> Seq<PinState> {
    if k <= 288 {
        lines
    } else if k <= 772 {
        driven(lines, row_line(previous_row(row)), PinState::Low)
    } else {
        driven(
            driven(lines, row_line(previous_row(row)), PinState::Low),
            row_line(row),
            PinState::High,
        )
    }
}

/// The levels once the start-up sequence is carried out: standby, latch,
/// reset and data high, the clock and every row select low.
pub open spec fn ready_levels() -> Seq<PinState> {
    Seq::new(
        13,
        |i: int|
            if i == 0 || i == 1 || i == 2 || i == 4 {
                PinState::High
            } else {
                PinState::Low
            },
    )
}

/// Shifting out two runs of bits one after the other.
pub proof fn lemma_shift_out_concat(first: Seq<bool>, second: Seq<bool>)
    ensures
        shift_out(first + second) == shift_out(first) + shift_out(second),
{
    assert(shift_out(first + second) =~= shift_out(first) + shift_out(second));
}

/// Shifting out one bit: the data line, then a clock pulse.
pub proof fn lemma_shift_out_bit(bit: bool)
    ensures
        shift_out(seq![bit]) == seq![Command::Drive(Line::Sda, level_of(bit))] + clock_pulse(),
{
    assert(shift_out(seq![bit]) =~= seq![Command::Drive(Line::Sda, level_of(bit))]
        + clock_pulse());
}

/// The eight bits of byte `m` of a row, within the bits of the row.
pub proof fn lemma_row_bits_byte(pixels: Seq<Color>, m: int)
    requires
        0 <= m < 24,
    ensures
        row_bits(pixels).subrange(8 * m, 8 * m + 8) == byte_bits(wire_byte(pixels, m)),
{
    let part = row_bits(pixels).subrange(8 * m, 8 * m + 8);
    assert forall|j: int| 0 <= j < 8 implies part[j] == byte_bits(wire_byte(pixels, m))[j] by {
        assert((8 * m + j) / 8 == m && (8 * m + j) % 8 == j);
    }
    assert(part =~= byte_bits(wire_byte(pixels, m)));
}

/// The commands of a column are the commands of its 24 bits.
pub proof fn lemma_column_commands(pixels: Seq<Color>, n: int)
    requires
        0 <= n < 8,
    ensures
        column_commands(pixels, n) == shift_out(row_bits(pixels).subrange(24 * n, 24 * n + 24)),
{
    let bits = row_bits(pixels);
    let b0 = bits.subrange(24 * n, 24 * n + 8);
    let b1 = bits.subrange(24 * n + 8, 24 * n + 16);
    let b2 = bits.subrange(24 * n + 16, 24 * n + 24);
    lemma_row_bits_byte(pixels, 3 * n);
    lemma_row_bits_byte(pixels, 3 * n + 1);
    lemma_row_bits_byte(pixels, 3 * n + 2);
    lemma_shift_out_concat(b0, b1);
    lemma_shift_out_concat(b0 + b1, b2);
    assert(b0 + b1 + b2 =~= bits.subrange(24 * n, 24 * n + 24));
}

/// One more column after `n` of them.
pub proof fn lemma_row_data_step(row: int, pixels: Seq<Color>, n: int)
    requires
        0 <= n < 8,
    ensures
        row_data(row, pixels, n + 1) == row_data(row, pixels, n) + column_commands(pixels, n) + (
        if n == 2 {
            seq![deselect_previous(row)]
        } else {
            Seq::empty()
        }),
{
    let bits = row_bits(pixels);
    let column = bits.subrange(24 * n, 24 * n + 24);
    lemma_column_commands(pixels, n);
    if n < 2 {
        lemma_shift_out_concat(bits.take(24 * n), column);
        assert(bits.take(24 * n) + column =~= bits.take(24 * (n + 1)));
        assert(row_data(row, pixels, n) + shift_out(column) + Seq::<Command>::empty()
            =~= row_data(row, pixels, n + 1));
    } else if n == 2 {
        lemma_shift_out_concat(bits.take(48), column);
        assert(bits.take(48) + column =~= bits.take(72));
        assert(shift_out(bits.subrange(72, 72)) =~= Seq::<Command>::empty());
        assert(row_data(row, pixels, 2) + shift_out(column) + seq![deselect_previous(row)]
            =~= row_data(row, pixels, 3));
    } else {
        lemma_shift_out_concat(bits.subrange(72, 24 * n), column);
        assert(bits.subrange(72, 24 * n) + column =~= bits.subrange(72, 24 * (n + 1)));
        assert(row_data(row, pixels, n) + shift_out(column) + Seq::<Command>::empty()
            =~= row_data(row, pixels, n + 1));
    }
}

/// Shifting one bit out leaves the data line at the bit and the clock low.
pub proof fn lemma_run_bit(lines: Seq<PinState>, bit: bool)
    requires
        lines.len() == 13,
    ensures
        run(lines, shift_out(seq![bit])) == shifted(lines, bit),
{
    let c0 = Command::Drive(Line::Sda, level_of(bit));
    let c1 = Command::Drive(Line::Sck, PinState::Low);
    let c2 = Command::Drive(Line::Sck, PinState::High);
    let none = Seq::<Command>::empty();
    lemma_shift_out_bit(bit);
    assert(shift_out(seq![bit]) =~= none.push(c0).push(c1).push(c2).push(c1));
    lemma_run_push(lines, none, c0);
    lemma_run_push(lines, none.push(c0), c1);
    lemma_run_push(lines, none.push(c0).push(c1), c2);
    lemma_run_push(lines, none.push(c0).push(c1).push(c2), c1);
    assert(run(lines, shift_out(seq![bit])) =~= shifted(lines, bit));
}

/// Shifting bits out leaves the data line at the last bit and the clock
/// low, and moves no other line.
pub proof fn lemma_run_shift_out(lines: Seq<PinState>, bits: Seq<bool>)
    requires
        lines.len() == 13,
    ensures
        run(lines, shift_out(bits)) == if bits.len() == 0 {
            lines
        } else {
            shifted(lines, bits.last())
        },
    decreases bits.len(),
{
    if bits.len() == 0 {
        assert(shift_out(bits) =~= Seq::<Command>::empty());
    } else {
        let head = bits.drop_last();
        let tail = seq![bits.last()];
        assert(head + tail =~= bits);
        lemma_shift_out_concat(head, tail);
        lemma_run_concat(lines, shift_out(head), shift_out(tail));
        lemma_run_shift_out(lines, head);
        lemma_run_len(lines, shift_out(head));
        lemma_run_bit(run(lines, shift_out(head)), bits.last());
        assert(shifted(run(lines, shift_out(head)), bits.last()) =~= shifted(lines, bits.last()));
    }
}

/// A latch pulse leaves the latch line high and moves no other line.
pub proof fn lemma_run_latch(lines: Seq<PinState>)
    requires
        lines.len() == 13,
    ensures
        run(lines, latch_pulse()) == driven(lines, Line::Lat, PinState::High),
{
    let c0 = Command::Drive(Line::Lat, PinState::High);
    let c1 = Command::Drive(Line::Lat, PinState::Low);
    let none = Seq::<Command>::empty();
    assert(latch_pulse() =~= none.push(c0).push(c1).push(c0));
    lemma_run_push(lines, none, c0);
    lemma_run_push(lines, none.push(c0), c1);
    lemma_run_push(lines, none.push(c0).push(c1), c0);
    assert(run(lines, latch_pulse()) =~= driven(lines, Line::Lat, PinState::High));
}

/// Carrying out the commands of a row, part by part.
proof fn lemma_row_run_parts(lines: Seq<PinState>, row: int, pixels: Seq<Color>)
    ensures
        run(lines, row_commands(row, pixels)) == run(
            run(
                run(
                    run(run(lines, shift_out(row_bits(pixels).take(72))), seq![
                        deselect_previous(row),
                    ]),
                    shift_out(row_bits(pixels).subrange(72, 192)),
                ),
                latch_pulse(),
            ),
            seq![select(row)],
        ),
{
    let a = shift_out(row_bits(pixels).take(72));
    let d = seq![deselect_previous(row)];
    let b = shift_out(row_bits(pixels).subrange(72, 192));
    let l = latch_pulse();
    let s = seq![select(row)];
    lemma_run_concat(lines, a + d + b + l, s);
    lemma_run_concat(lines, a + d + b, l);
    lemma_run_concat(lines, a + d, b);
    lemma_run_concat(lines, a, d);
}

/// The last bit that a row shifts out is bit 0 of its last byte.
proof fn lemma_row_last_bit(pixels: Seq<Color>)
    ensures
        row_bits(pixels).take(72).len() == 72,
        row_bits(pixels).subrange(72, 192).len() == 120,
        row_bits(pixels).subrange(72, 192).last() == bit_of(wire_byte(pixels, 23), 0),
{
    let bits = row_bits(pixels);
    assert(bits.subrange(72, 192).last() == bits[191]);
    assert(191int / 8 == 23 && 191int % 8 == 7);
}

/// Showing a row leaves the levels that `levels_after_row` gives.
pub proof fn lemma_row_levels(lines: Seq<PinState>, row: int, pixels: Seq<Color>)
    requires
        lines.len() == 13,
        0 <= row < 8,
    ensures
        run(lines, row_commands(row, pixels)) == levels_after_row(lines, row, pixels),
{
    let first = row_bits(pixels).take(72);
    let rest = row_bits(pixels).subrange(72, 192);
    let l1 = run(lines, shift_out(first));
    let l2 = run(l1, seq![deselect_previous(row)]);
    let l3 = run(l2, shift_out(rest));
    let l4 = run(l3, latch_pulse());
    let l5 = run(l4, seq![select(row)]);
    lemma_row_run_parts(lines, row, pixels);
    lemma_row_last_bit(pixels);
    lemma_run_shift_out(lines, first);
    lemma_run_len(lines, shift_out(first));
    lemma_run_one(l1, deselect_previous(row));
    lemma_run_len(l1, seq![deselect_previous(row)]);
    lemma_run_shift_out(l2, rest);
    lemma_run_len(l2, shift_out(rest));
    lemma_run_latch(l3);
    lemma_run_one(l4, select(row));
    lemma_row_line_index(previous_row(row));
    lemma_row_line_index(row);
    assert(l5 =~= levels_after_row(lines, row, pixels));
}

/// Where each command of a row stands: 288 commands shift out the first
/// three columns, command 288 deselects the previous row, 480 more shift
/// out the other five columns, commands 769 to 771 pulse the latch, and
/// command 772, the last, selects the row.
pub proof fn lemma_row_shape(row: int, pixels: Seq<Color>, k: int)
    requires
        0 <= k < 773,
    ensures
        row_commands(row, pixels).len() == 773,
        k < 288 || 288 < k < 769 ==> is_shift(row_commands(row, pixels)[k]),
        k == 288 ==> row_commands(row, pixels)[k] == deselect_previous(row),
        769 <= k < 772 ==> row_commands(row, pixels)[k] == latch_pulse()[k - 769],
        k == 772 ==> row_commands(row, pixels)[k] == select(row),
{
}

/// At every instant while a row is shown the row selects are as
/// `rows_during_row` gives them. So the previous row goes off strictly
/// before the latch pulse (commands 769 to 771), and the new row comes on
/// only after it.
pub proof fn lemma_rows_during_row(lines: Seq<PinState>, row: int, pixels: Seq<Color>, k: int)
    requires
        lines.len() == 13,
        0 <= row < 8,
        0 <= k <= 773,
    ensures
        sampled(lines, row_commands(row, pixels), k).len() == 13,
        same_rows(sampled(lines, row_commands(row, pixels), k), rows_during_row(lines, row, k)),
    decreases k,
{
    let commands = row_commands(row, pixels);
    lemma_run_len(lines, commands.take(k));
    if k == 0 {
        assert(commands.take(0) =~= Seq::<Command>::empty());
    } else {
        let before = sampled(lines, commands, k - 1);
        let command = commands[k - 1];
        lemma_rows_during_row(lines, row, pixels, k - 1);
        lemma_row_shape(row, pixels, k - 1);
        lemma_sampled_next(lines, commands, k - 1);
        lemma_row_line_index(previous_row(row));
        lemma_row_line_index(row);
        if k - 1 == 288 || k - 1 == 772 {
            lemma_same_rows_after(before, rows_during_row(lines, row, k - 1), command);
        } else {
            if 769 <= k - 1 {
                assert(command == Command::Drive(Line::Lat, PinState::High) || command
                    == Command::Drive(Line::Lat, PinState::Low));
            }
            lemma_rows_kept(before, command);
        }
    }
}

/// The rows that `rows_during_row` leaves selected, when the row follows
/// its predecessor.
proof fn lemma_rows_during_row_high(lines: Seq<PinState>, row: int, k: int)
    requires
        lines.len() == 13,
        0 <= row < 8,
        at_most_one_row(lines),
        forall|other: int|
            0 <= other < 8 && row_high(lines, other) ==> other == previous_row(row) || other
                == row,
    ensures
        at_most_one_row(rows_during_row(lines, row, k)),
        k > 772 ==> only_row(rows_during_row(lines, row, k), row),
{
    lemma_row_line_index(previous_row(row));
    lemma_row_line_index(row);
    let off = driven(lines, row_line(previous_row(row)), PinState::Low);
    let on = driven(off, row_line(row), PinState::High);
    assert forall|other: int| 0 <= other < 8 && row_high(off, other) implies other == row by {
        assert(row_high(lines, other));
    }
    assert forall|other: int| 0 <= other < 8 implies (row_high(on, other) <==> other == row) by {
        if other != row && row_high(on, other) {
            assert(row_high(off, other));
        }
    }
}

/// While a row is shown no two rows are ever selected together, and at
/// the end the row is the only one selected. This holds whenever the row
/// follows its predecessor: before the first command no row is selected
/// but, at most, the previous row or the row itself.
pub proof fn lemma_row_one_at_a_time(lines: Seq<PinState>, row: int, pixels: Seq<Color>, k: int)
    requires
        lines.len() == 13,
        0 <= row < 8,
        0 <= k <= 773,
        at_most_one_row(lines),
        forall|other: int|
            0 <= other < 8 && row_high(lines, other) ==> other == previous_row(row) || other
                == row,
    ensures
        at_most_one_row(sampled(lines, row_commands(row, pixels), k)),
        k == 773 ==> only_row(sampled(lines, row_commands(row, pixels), k), row),
{
    let now = sampled(lines, row_commands(row, pixels), k);
    let model = rows_during_row(lines, row, k);
    lemma_rows_during_row(lines, row, pixels, k);
    lemma_rows_during_row_high(lines, row, k);
    assert forall|other: int| 0 <= other < 8 implies row_high(now, other) == row_high(
        model,
        other,
    ) by {}
}

/// Which row is selected at each instant while a row is shown in its turn,
/// that is when the previous row is the one selected before: up to the
/// deselection, command 288, the previous row and no other; from then
/// through the latch pulse, commands 769 to 771, no row at all; after the
/// last command the new row and no other.
pub proof fn lemma_row_selection(lines: Seq<PinState>, row: int, pixels: Seq<Color>, k: int)
    requires
        lines.len() == 13,
        0 <= row < 8,
        0 <= k <= 773,
        only_row(lines, previous_row(row)),
    ensures
        k <= 288 ==> only_row(sampled(lines, row_commands(row, pixels), k), previous_row(row)),
        288 < k <= 772 ==> no_row(sampled(lines, row_commands(row, pixels), k)),
        k == 773 ==> only_row(sampled(lines, row_commands(row, pixels), k), row),
{
    let now = sampled(lines, row_commands(row, pixels), k);
    let model = rows_during_row(lines, row, k);
    let before = previous_row(row);
    lemma_rows_during_row(lines, row, pixels, k);
    lemma_row_line_index(before);
    lemma_row_line_index(row);
    let off = driven(lines, row_line(before), PinState::Low);
    let on = driven(off, row_line(row), PinState::High);
    assert forall|other: int| 0 <= other < 8 implies !row_high(off, other) by {
        assert(row_high(lines, other) <==> other == before);
    }
    assert forall|other: int| 0 <= other < 8 implies (row_high(on, other) <==> other == row) by {
        assert(!row_high(off, other));
    }
    assert forall|other: int| 0 <= other < 8 implies row_high(now, other) == row_high(
        model,
        other,
    ) by {
        assert(row_level(now, other) == row_level(model, other));
    }
    if k <= 288 {
        assert forall|other: int| 0 <= other < 8 implies (row_high(now, other) <==> other
            == before) by {
            assert(row_high(lines, other) <==> other == before);
        }
    } else if k <= 772 {
        assert forall|other: int| 0 <= other < 8 implies !row_high(now, other) by {
            assert(!row_high(off, other));
        }
    } else {
        assert forall|other: int| 0 <= other < 8 implies (row_high(now, other) <==> other
            == row) by {
            assert(row_high(on, other) <==> other == row);
        }
    }
}

/// The commands of the first `n` rows of a frame are `773 * n`.
pub proof fn lemma_frame_head_len(image: Seq<Color>, n: int)
    requires
        0 <= n <= 8,
    ensures
        frame_head(image, n).len() == 773 * n,
    decreases n,
{
    if n > 0 {
        lemma_frame_head_len(image, n - 1);
        lemma_row_shape(n - 1, image.subrange(8 * (n - 1), 8 * n), 0);
    }
}

/// While the first `n` rows of a frame are shown no two rows are ever
/// selected together, and after them row `n - 1` is the only one selected.
/// This holds when before the frame no row is selected but, at most, row 7
/// or row 0: the state after start-up and the state after every frame.
pub proof fn lemma_frame_head_one_at_a_time(
    lines: Seq<PinState>,
    image: Seq<Color>,
    n: int,
    k: int,
)
    requires
        lines.len() == 13,
        0 <= n <= 8,
        0 <= k <= 773 * n,
        at_most_one_row(lines),
        forall|other: int| 0 <= other < 8 && row_high(lines, other) ==> other == 7 || other == 0,
    ensures
        at_most_one_row(sampled(lines, frame_head(image, n), k)),
        n > 0 ==> only_row(run(lines, frame_head(image, n)), n - 1),
    decreases n,
{
    if n == 0 {
        assert(frame_head(image, 0).take(k) =~= Seq::<Command>::empty());
    } else {
        let head = frame_head(image, n - 1);
        let pixels = image.subrange(8 * (n - 1), 8 * n);
        let tail = row_commands(n - 1, pixels);
        let between = run(lines, head);
        lemma_frame_head_len(image, n - 1);
        lemma_row_shape(n - 1, pixels, 0);
        lemma_run_len(lines, head);
        lemma_frame_head_one_at_a_time(lines, image, n - 1, 773 * (n - 1));
        if n == 1 {
            assert(head =~= Seq::<Command>::empty());
        } else {
            assert(only_row(between, n - 2));
        }
        assert(at_most_one_row(between));
        assert forall|other: int| 0 <= other < 8 && row_high(between, other) implies other
            == previous_row(n - 1) || other == n - 1 by {}
        lemma_run_concat(lines, head, tail);
        lemma_row_one_at_a_time(between, n - 1, pixels, 773);
        lemma_sampled_all(between, tail);
        if k <= 773 * (n - 1) {
            lemma_frame_head_one_at_a_time(lines, image, n - 1, k);
            lemma_sampled_concat(lines, head, tail, k);
        } else {
            lemma_row_one_at_a_time(between, n - 1, pixels, k - 773 * (n - 1));
            lemma_sampled_concat(lines, head, tail, k);
        }
    }
}

/// Which row is selected at each instant of the first `n` rows of a frame
/// that follows another frame, that is when row 7 is the one selected
/// before: within the commands of each row, up to the deselection the row
/// before it and no other, after the deselection no row, and after the last
/// command of a row that row and no other.
pub proof fn lemma_frame_head_selection(lines: Seq<PinState>, image: Seq<Color>, n: int, k: int)
    requires
        lines.len() == 13,
        0 <= n <= 8,
        0 <= k <= 773 * n,
        only_row(lines, 7),
    ensures
        k % 773 <= 288 ==> only_row(
            sampled(lines, frame_head(image, n), k),
            previous_row(k / 773),
        ),
        k % 773 > 288 ==> no_row(sampled(lines, frame_head(image, n), k)),
        run(lines, frame_head(image, n)).len() == 13,
        only_row(run(lines, frame_head(image, n)), previous_row(n)),
    decreases n,
{
    lemma_run_len(lines, frame_head(image, n));
    if n == 0 {
        assert(frame_head(image, 0).take(k) =~= Seq::<Command>::empty());
    } else {
        let head = frame_head(image, n - 1);
        let pixels = image.subrange(8 * (n - 1), 8 * n);
        let tail = row_commands(n - 1, pixels);
        let between = run(lines, head);
        lemma_frame_head_len(image, n - 1);
        lemma_row_shape(n - 1, pixels, 0);
        lemma_frame_head_selection(lines, image, n - 1, 773 * (n - 1));
        lemma_run_concat(lines, head, tail);
        lemma_row_selection(between, n - 1, pixels, 773);
        lemma_sampled_all(between, tail);
        lemma_sampled_concat(lines, head, tail, k);
        if k <= 773 * (n - 1) {
            lemma_frame_head_selection(lines, image, n - 1, k);
        } else {
            let j = k - 773 * (n - 1);
            lemma_row_selection(between, n - 1, pixels, j);
            if j == 773 {
                assert(k / 773 == n && k % 773 == 0);
            } else {
                assert(k / 773 == n - 1 && k % 773 == j);
            }
        }
    }
}

/// Which row is selected at each instant of a frame that follows another
/// frame: see `lemma_frame_head_selection`. After the frame row 7 is
/// selected again, so that frames can follow each other for ever.
pub proof fn lemma_frame_selection(lines: Seq<PinState>, image: Seq<Color>, k: int)
    requires
        lines.len() == 13,
        0 <= k <= 6184,
        only_row(lines, 7),
    ensures
        k % 773 <= 288 ==> only_row(sampled(lines, frame_commands(image), k), previous_row(k / 773)),
        k % 773 > 288 ==> no_row(sampled(lines, frame_commands(image), k)),
        only_row(run(lines, frame_commands(image)), 7),
{
    lemma_frame_head_selection(lines, image, 8, k);
}

/// While a frame is shown no two rows are ever selected together, at any
/// instant an observer may sample the lines; after it row 7 is the only one
/// selected. This holds when before the frame no row is selected but, at
/// most, row 7 or row 0.
pub proof fn lemma_frame_one_at_a_time(lines: Seq<PinState>, image: Seq<Color>, k: int)
    requires
        lines.len() == 13,
        0 <= k <= 6184,
        at_most_one_row(lines),
        forall|other: int| 0 <= other < 8 && row_high(lines, other) ==> other == 7 || other == 0,
    ensures
        frame_commands(image).len() == 6184,
        at_most_one_row(sampled(lines, frame_commands(image), k)),
        only_row(run(lines, frame_commands(image)), 7),
{
    lemma_frame_head_len(image, 8);
    lemma_frame_head_one_at_a_time(lines, image, 8, k);
}

/// The start-up sequence leaves the lines at `ready_levels`, with no row
/// selected.
pub proof fn lemma_startup_levels()
    ensures
        run(power_on_levels(), startup_commands()) == ready_levels(),
        no_row(ready_levels()),
{
    let ones = Seq::new(144, |j: int| true);
    let wait = seq![Command::Wait(100)];
    let release = seq![Command::Drive(Line::Rst, PinState::High)];
    let lower = seq![Command::Drive(Line::Sb, PinState::Low)];
    let raise = seq![Command::Drive(Line::Sb, PinState::High)];
    let l0 = power_on_levels();
    lemma_run_one(l0, Command::Wait(100));
    let l1 = run(l0, wait);
    lemma_run_one(l1, Command::Drive(Line::Rst, PinState::High));
    let l2 = run(l1, release);
    lemma_run_len(l1, release);
    lemma_run_one(l2, Command::Drive(Line::Sb, PinState::Low));
    let l3 = run(l2, lower);
    lemma_run_len(l2, lower);
    lemma_run_shift_out(l3, ones);
    let l4 = run(l3, shift_out(ones));
    lemma_run_len(l3, shift_out(ones));
    lemma_run_latch(l4);
    let l5 = run(l4, latch_pulse());
    lemma_run_len(l4, latch_pulse());
    lemma_run_one(l5, Command::Drive(Line::Sb, PinState::High));
    let l6 = run(l5, raise);
    assert(l6 =~= ready_levels());
    lemma_run_concat(l0, wait, release);
    lemma_run_concat(l2, lower, shift_out(ones));
    lemma_run_concat(l2, lower + shift_out(ones), latch_pulse());
    lemma_run_concat(l2, lower + shift_out(ones) + latch_pulse(), raise);
    lemma_run_concat(l0, wait + release, bank_commands());
    assert(wait + release =~= seq![
        Command::Wait(100),
        Command::Drive(Line::Rst, PinState::High),
    ]);
}

} // verus!
