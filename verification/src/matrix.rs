//! The driver of the LED matrix.
//!
//! The driver owns the thirteen output lines of the matrix as a model of
//! their levels. Each operation updates that model and queues the line
//! commands that bring the hardware to the same levels, in order; whoever
//! holds the pins takes the queue and carries it out.

use vstd::prelude::*;
use crate::image::{Color, Image};
use crate::lines::{
    Command, Levels, Line, PinState, lemma_run_concat, lemma_run_push, level_of, no_row,
    power_on_levels, row_line, run,
};
use crate::protocol::{
    bank_commands, byte_bits, clock_pulse, column_commands, deselect_previous, frame_commands,
    frame_head, latch_pulse, lemma_row_data_step, lemma_row_levels, lemma_shift_out_bit,
    lemma_shift_out_concat, lemma_startup_levels, levels_after_row, ready_levels, row_commands,
    row_data, select, shift_out, startup_commands, wire_byte,
};

verus! {

/// The driver of the matrix: the levels of its lines and the commands that
/// are queued for the hardware.
pub struct Matrix {
    levels: Levels,
    pending: Vec<Command>,
    start: Ghost<Seq<PinState>>,
}

impl Matrix {
    /// The levels of the lines, once every queued command is carried out.
    pub closed spec fn levels(&self) -> Seq<PinState> {
        self.levels@
    }

    /// The commands that are queued, oldest first.
    pub closed spec fn pending(&self) -> Seq<Command> {
        self.pending@
    }

    /// The levels of the lines before the first queued command.
    pub closed spec fn start(&self) -> Seq<PinState> {
        self.start@
    }

    /// The model agrees with the queue: carrying out the queue from the
    /// starting levels gives the modelled levels.
    pub closed spec fn wf(&self) -> bool {
        self.levels@ == run(self.start@, self.pending@)
    }

    /// What an operation that queues `commands` leaves behind.
    pub open spec fn queued(&self, before: &Matrix, commands: Seq<Command>) -> bool {
        &&& self.wf()
        &&& self.start() == before.start()
        &&& self.pending() == before.pending() + commands
        &&& self.levels() == run(before.levels(), commands)
        &&& self.levels().len() == 13
    }

    /// An operation that queues `first` and one that queues `second` after
    /// it together queue `first + second`.
    pub proof fn lemma_queued_chain(
        &self,
        before: &Matrix,
        between: &Matrix,
        first: Seq<Command>,
        second: Seq<Command>,
    )
        requires
            between.queued(before, first),
            self.queued(between, second),
        ensures
            self.queued(before, first + second),
    {
        lemma_run_concat(before.levels(), first, second);
        assert(before.pending() + first + second =~= before.pending() + (first + second));
    }

    /// Drives one line and queues the command for it.
    fn drive(&mut self, line: Line, state: PinState)
        requires
            old(self).wf(),
        ensures
            final(self).queued(old(self), seq![Command::Drive(line, state)]),
    {
        let command = Command::Drive(line, state);
        self.pending.push(command);
        self.levels.set(line, state);
        proof {
            lemma_run_push(self.start@, old(self).pending@, command);
            lemma_run_push(old(self).levels@, Seq::empty(), command);
            assert(seq![command] =~= Seq::<Command>::empty().push(command));
            assert(old(self).pending@.push(command) =~= old(self).pending@ + seq![command]);
        }
    }

    /// Pulses the clock line.
    fn pulse_sck(&mut self)
        requires
            old(self).wf(),
        ensures
            final(self).queued(old(self), clock_pulse()),
    {
        let ghost m0 = *self;
        self.drive(Line::Sck, PinState::Low);
        let ghost m1 = *self;
        self.drive(Line::Sck, PinState::High);
        let ghost m2 = *self;
        self.drive(Line::Sck, PinState::Low);
        proof {
            let a = seq![Command::Drive(Line::Sck, PinState::Low)];
            let b = seq![Command::Drive(Line::Sck, PinState::High)];
            m2.lemma_queued_chain(&m0, &m1, a, b);
            self.lemma_queued_chain(&m0, &m2, a + b, a);
            assert(a + b + a =~= clock_pulse());
        }
    }

    /// Pulses the latch line.
    fn pulse_lat(&mut self)
        requires
            old(self).wf(),
        ensures
            final(self).queued(old(self), latch_pulse()),
    {
        let ghost m0 = *self;
        self.drive(Line::Lat, PinState::High);
        let ghost m1 = *self;
        self.drive(Line::Lat, PinState::Low);
        let ghost m2 = *self;
        self.drive(Line::Lat, PinState::High);
        proof {
            let a = seq![Command::Drive(Line::Lat, PinState::High)];
            let b = seq![Command::Drive(Line::Lat, PinState::Low)];
            m2.lemma_queued_chain(&m0, &m1, a, b);
            self.lemma_queued_chain(&m0, &m2, a + b, a);
            assert(a + b + a =~= latch_pulse());
        }
    }

    /// Drives the select line of one row.
    fn row(&mut self, row: usize, state: PinState)
        requires
            old(self).wf(),
            row < 8,
        ensures
            final(self).queued(old(self), seq![Command::Drive(row_line(row as int), state)]),
    {
        match row {
            0 => self.drive(Line::C0, state),
            1 => self.drive(Line::C1, state),
            2 => self.drive(Line::C2, state),
            3 => self.drive(Line::C3, state),
            4 => self.drive(Line::C4, state),
            5 => self.drive(Line::C5, state),
            6 => self.drive(Line::C6, state),
            _ => self.drive(Line::C7, state),
        }
    }

    /// Shifts one byte out on the data line, most significant bit first,
    /// with a clock pulse after each bit.
    fn send_byte(&mut self, pixel: u8)
        requires
            old(self).wf(),
        ensures
            final(self).queued(old(self), shift_out(byte_bits(pixel))),
    {
        let mut sent: u32 = 0;
        proof {
            assert(shift_out(byte_bits(pixel).take(0)) =~= Seq::<Command>::empty());
            assert(old(self).pending() + Seq::<Command>::empty() =~= old(self).pending());
        }
        while sent < 8
            invariant
                sent <= 8,
                self.queued(old(self), shift_out(byte_bits(pixel).take(sent as int))),
            decreases 8 - sent,
        {
            let i: u32 = 7 - sent;
            let ghost m0 = *self;
            let ghost done = byte_bits(pixel).take(sent as int);
            let bit = (pixel & (1u8 << i)) != 0;
            self.drive(Line::Sda, PinState::from(bit));
            let ghost m1 = *self;
            self.pulse_sck();
            sent = sent + 1;
            proof {
                let data = seq![Command::Drive(Line::Sda, level_of(bit))];
                self.lemma_queued_chain(&m0, &m1, data, clock_pulse());
                lemma_shift_out_bit(bit);
                self.lemma_queued_chain(old(self), &m0, shift_out(done), shift_out(seq![bit]));
                lemma_shift_out_concat(done, seq![bit]);
                assert(done + seq![bit] =~= byte_bits(pixel).take(sent as int));
            }
        }
        assert(byte_bits(pixel).take(8) =~= byte_bits(pixel));
    }

    /// Selects one row.
    fn activate_row(&mut self, row: usize)
        requires
            old(self).wf(),
            row < 8,
        ensures
            final(self).queued(old(self), seq![select(row as int)]),
    {
        match row {
            0 => self.row(0, PinState::High),
            1 => self.row(1, PinState::High),
            2 => self.row(2, PinState::High),
            3 => self.row(3, PinState::High),
            4 => self.row(4, PinState::High),
            5 => self.row(5, PinState::High),
            6 => self.row(6, PinState::High),
            _ => self.row(7, PinState::High),
        }
    }

    /// Shifts out the three bytes of one column of a row.
    fn send_column(&mut self, pixel: Color, Ghost(pixels): Ghost<Seq<Color>>, Ghost(n): Ghost<int>)
        requires
            old(self).wf(),
            0 <= n < 8,
            pixels.len() >= 8,
            pixel == pixels[7 - n],
        ensures
            final(self).queued(old(self), column_commands(pixels, n)),
    {
        let sent = pixel.gamma_correct();
        let ghost m0 = *self;
        self.send_byte(sent.b);
        let ghost m1 = *self;
        self.send_byte(sent.g);
        let ghost m2 = *self;
        self.send_byte(sent.r);
        proof {
            assert((3 * n) / 3 == n && (3 * n) % 3 == 0);
            assert((3 * n + 1) / 3 == n && (3 * n + 1) % 3 == 1);
            assert((3 * n + 2) / 3 == n && (3 * n + 2) % 3 == 2);
            let a = shift_out(byte_bits(wire_byte(pixels, 3 * n)));
            let b = shift_out(byte_bits(wire_byte(pixels, 3 * n + 1)));
            let c = shift_out(byte_bits(wire_byte(pixels, 3 * n + 2)));
            m2.lemma_queued_chain(&m0, &m1, a, b);
            self.lemma_queued_chain(&m0, &m2, a + b, c);
        }
    }

    /// Shows one row: shifts out its pixels, gamma-corrected, from column 7
    /// down to column 0 and each as blue, green, red; deselects the previous
    /// row after column 5; pulses the latch; selects the row.
    pub fn send_row(&mut self, row: usize, pixels: &[Color])
        requires
            old(self).wf(),
            row < 8,
            pixels@.len() >= 8,
        ensures
            final(self).queued(old(self), row_commands(row as int, pixels@)),
            final(self).levels() == levels_after_row(old(self).levels(), row as int, pixels@),
    {
        let mut n: usize = 0;
        proof {
            assert(row_data(row as int, pixels@, 0) =~= Seq::<Command>::empty());
            assert(old(self).pending() + Seq::<Command>::empty() =~= old(self).pending());
        }
        while n < 8
            invariant
                n <= 8,
                row < 8,
                pixels@.len() >= 8,
                self.queued(old(self), row_data(row as int, pixels@, n as int)),
            decreases 8 - n,
        {
            let i: usize = 7 - n;
            let ghost m0 = *self;
            self.send_column(pixels[i], Ghost(pixels@), Ghost(n as int));
            let ghost m1 = *self;
            if i == 5 {
                if row > 0 {
                    self.row(row - 1, PinState::Low);
                } else {
                    self.row(7, PinState::Low);
                }
            }
            proof {
                let column = column_commands(pixels@, n as int);
                let extra = if n == 2 {
                    seq![deselect_previous(row as int)]
                } else {
                    Seq::empty()
                };
                if n == 2 {
                    self.lemma_queued_chain(&m0, &m1, column, extra);
                } else {
                    assert(column + extra =~= column);
                }
                self.lemma_queued_chain(
                    old(self),
                    &m0,
                    row_data(row as int, pixels@, n as int),
                    column + extra,
                );
                lemma_row_data_step(row as int, pixels@, n as int);
                assert(row_data(row as int, pixels@, n as int) + (column + extra) =~= row_data(
                    row as int,
                    pixels@,
                    n as int,
                ) + column + extra);
            }
            n = n + 1;
        }
        let ghost m2 = *self;
        self.pulse_lat();
        let ghost m3 = *self;
        self.activate_row(row);
        proof {
            let data = row_data(row as int, pixels@, 8);
            let pick = seq![select(row as int)];
            self.lemma_queued_chain(&m2, &m3, latch_pulse(), pick);
            self.lemma_queued_chain(old(self), &m2, data, latch_pulse() + pick);
            assert(data + (latch_pulse() + pick) =~= row_commands(row as int, pixels@));
            lemma_row_levels(old(self).levels(), row as int, pixels@);
        }
    }

    /// Sets up bank 0 of the controller: standby low, eighteen bytes of
    /// ones, a latch pulse, standby high.
    fn init_bank0(&mut self)
        requires
            old(self).wf(),
        ensures
            final(self).queued(old(self), bank_commands()),
    {
        let ghost m0 = *self;
        let ghost lower = seq![Command::Drive(Line::Sb, PinState::Low)];
        self.drive(Line::Sb, PinState::Low);
        proof {
            assert(shift_out(Seq::new(0, |j: int| true)) =~= Seq::<Command>::empty());
            assert(lower + Seq::<Command>::empty() =~= lower);
        }
        let mut sent: usize = 0;
        while sent < 18
            invariant
                sent <= 18,
                lower == seq![Command::Drive(Line::Sb, PinState::Low)],
                self.queued(&m0, lower + shift_out(Seq::new(8 * sent as nat, |j: int| true))),
            decreases 18 - sent,
        {
            let ghost m1 = *self;
            self.send_byte(255u8);
            proof {
                let ones = Seq::new(8 * sent as nat, |j: int| true);
                let more = Seq::new(8 * (sent + 1) as nat, |j: int| true);
                assert forall|j: int| 0 <= j < 8 implies #[trigger] byte_bits(255u8)[j] by {
                    let i = (7 - j) as u32;
                    assert(255u8 & (1u8 << i) != 0) by (bit_vector)
                        requires
                            i < 8,
                    ;
                }
                assert(ones + byte_bits(255u8) =~= more);
                lemma_shift_out_concat(ones, byte_bits(255u8));
                self.lemma_queued_chain(
                    &m0,
                    &m1,
                    lower + shift_out(ones),
                    shift_out(byte_bits(255u8)),
                );
                assert(lower + shift_out(ones) + shift_out(byte_bits(255u8)) =~= lower
                    + shift_out(more));
            }
            sent = sent + 1;
        }
        let ghost m2 = *self;
        self.pulse_lat();
        let ghost m3 = *self;
        self.drive(Line::Sb, PinState::High);
        proof {
            let head = lower + shift_out(Seq::new(144, |j: int| true));
            let raise = seq![Command::Drive(Line::Sb, PinState::High)];
            self.lemma_queued_chain(&m2, &m3, latch_pulse(), raise);
            self.lemma_queued_chain(&m0, &m2, head, latch_pulse() + raise);
            assert(head + (latch_pulse() + raise) =~= bank_commands());
        }
    }

    /// Shows a whole image once, row by row from the top. Repeating this at
    /// a steady pace is up to the caller.
    pub fn display_image(&mut self, image: &Image)
        requires
            old(self).wf(),
        ensures
            final(self).queued(old(self), frame_commands(image@)),
    {
        proof {
            image.lemma_len();
            assert(old(self).pending() + Seq::<Command>::empty() =~= old(self).pending());
        }
        let mut i: usize = 0;
        while i < 8
            invariant
                i <= 8,
                image@.len() == 64,
                self.queued(old(self), frame_head(image@, i as int)),
            decreases 8 - i,
        {
            let ghost m0 = *self;
            let pixels = image.row(i);
            self.send_row(i, pixels);
            proof {
                self.lemma_queued_chain(
                    old(self),
                    &m0,
                    frame_head(image@, i as int),
                    row_commands(i as int, pixels@),
                );
            }
            i = i + 1;
        }
    }

    /// A driver for lines that were just configured at their power-on
    /// levels. The start-up sequence is queued: wait 100 ms, release reset,
    /// set up bank 0.
    pub fn new() -> (matrix: Self)
        ensures
            matrix.wf(),
            matrix.start() == power_on_levels(),
            matrix.pending() == startup_commands(),
            matrix.levels() == run(power_on_levels(), startup_commands()),
            matrix.levels() == ready_levels(),
            no_row(matrix.levels()),
    {
        proof {
            lemma_startup_levels();
        }
        let mut matrix = Matrix {
            levels: Levels::power_on(),
            pending: Vec::new(),
            start: Ghost(power_on_levels()),
        };
        let ghost m0 = matrix;
        matrix.pending.push(Command::Wait(100));
        proof {
            lemma_run_push(power_on_levels(), Seq::empty(), Command::Wait(100));
            assert(m0.pending() + seq![Command::Wait(100)] =~= matrix.pending());
            assert(seq![Command::Wait(100)] =~= Seq::<Command>::empty().push(Command::Wait(100)));
        }
        let ghost m1 = matrix;
        matrix.drive(Line::Rst, PinState::High);
        let ghost m2 = matrix;
        matrix.init_bank0();
        proof {
            let wait = seq![Command::Wait(100)];
            let release = seq![Command::Drive(Line::Rst, PinState::High)];
            m2.lemma_queued_chain(&m0, &m1, wait, release);
            matrix.lemma_queued_chain(&m0, &m2, wait + release, bank_commands());
            assert(wait + release =~= seq![
                Command::Wait(100),
                Command::Drive(Line::Rst, PinState::High),
            ]);
            assert(Seq::<Command>::empty() + startup_commands() =~= startup_commands());
        }
        matrix
    }

    /// Hands over the queued commands, oldest first, and empties the queue.
    pub fn take_commands(&mut self) -> (commands: Vec<Command>)
        requires
            old(self).wf(),
        ensures
            commands@ == old(self).pending(),
            final(self).wf(),
            final(self).pending() == Seq::<Command>::empty(),
            final(self).start() == old(self).levels(),
            final(self).levels() == old(self).levels(),
    {
        let mut commands: Vec<Command> = Vec::new();
        core::mem::swap(&mut self.pending, &mut commands);
        self.start = Ghost(self.levels@);
        commands
    }

    /// The levels of the lines, once every queued command is carried out.
    pub fn line_levels(&self) -> (levels: Levels)
        ensures
            levels@ == self.levels(),
    {
        self.levels
    }
}

} // verus!
