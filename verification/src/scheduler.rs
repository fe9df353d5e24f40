//! The two tasks that share the frame buffer, and the clock arithmetic of
//! the refresh.
//!
//! The receive task assembles a frame from the serial link, byte by byte,
//! in a scratch image of its own and exchanges it with the shared image
//! only when the frame is whole. The display task shows one row of the
//! shared image per activation and computes its next deadline. Whoever
//! runs the tasks holds the shared image under a lock whenever a task is
//! handed a reference to it.

use vstd::prelude::*;
use crate::image::{bytes_of, pixels_of, with_byte, Color, Image};
use crate::image::{lemma_pixels_round_trip, lemma_with_byte};
use crate::lines::{
    Command, at_most_one_row, lemma_run_len, lemma_sampled_all, no_row, only_row, power_on_levels,
    previous_row, row_high, sampled,
};
use crate::matrix::Matrix;
use crate::protocol::{lemma_row_one_at_a_time, lemma_row_shape, row_commands, startup_commands};
use dwt_systick_monotonic::fugit::{TimerDurationU32, TimerInstantU32};
use dwt_systick_monotonic::ExtU32;

verus! {

/// Ticks of the monotonic timer per second.
pub const TIMER_HZ: u32 = 80_000_000;

/// Rows shown per second: eight rows, sixty frames.
pub const ROWS_PER_SECOND: u32 = 480;

/// Ticks between two activations of the display task.
pub const PERIOD_TICKS: u32 = 166_666;

/// The byte that resets the receiver's cursor.
pub const MARKER: u8 = 0xff;

/// Ticks of the timer in a whole number of seconds.
///
/// Calls `fugit::ExtU32::secs`, which `dwt_systick_monotonic` hands on, for the timer's
/// time base and reads the ticks of the duration: the seconds times the timer frequency.
/// The product must fit in 32 bits.
#[verifier::external_body]
fn ticks_of_secs(secs: u32) -> (ticks: u32)
    requires
        secs * TIMER_HZ <= u32::MAX,
    ensures
        ticks == secs * TIMER_HZ,
{
    let span: TimerDurationU32<TIMER_HZ> = secs.secs();
    span.ticks()
}

/// Ticks of a duration divided by a whole number.
///
/// Calls the division of a `fugit::Duration` by a `u32`, which divides the ticks and
/// drops the remainder. The divisor must not be zero.
#[verifier::external_body]
fn ticks_divided(ticks: u32, by: u32) -> (part: u32)
    requires
        by > 0,
    ensures
        part == ticks / by,
{
    (TimerDurationU32::<TIMER_HZ>::from_ticks(ticks) / by).ticks()
}

/// The instant a number of ticks after another.
///
/// Calls the `+=` of a `fugit::Instant` with a `fugit::Duration` of the same time
/// base, which adds the ticks and wraps around at 32 bits.
#[verifier::external_body]
fn instant_after(at: u32, ticks: u32) -> (then: u32)
    ensures
        then == (at + ticks) % 0x1_0000_0000,
{
    let mut then = TimerInstantU32::<TIMER_HZ>::from_ticks(at);
    then += TimerDurationU32::<TIMER_HZ>::from_ticks(ticks);
    then.ticks()
}

/// The deadline one refresh period after `at`, on the wrapping 32-bit
/// clock.
pub open spec fn deadline_after(at: u32) -> u32 {
    ((at + PERIOD_TICKS) % 0x1_0000_0000) as u32
}

/// The next deadline of the display task: one period after the current
/// one, not after the time at which the task happened to run, so that
/// delays do not add up.
pub fn next_deadline(at: u32) -> (then: u32)
    ensures
        then == deadline_after(at),
{
    let period = ticks_divided(ticks_of_secs(1), ROWS_PER_SECOND);
    instant_after(at, period)
}

/// The state of the serial link as the two tasks see it: the scratch image
/// that the receive task fills, its cursor, and the shared image that the
/// display task reads.
pub struct Link {
    pub scratch: Seq<Color>,
    pub cursor: int,
    pub shared: Seq<Color>,
}

/// The link after one byte arrives. A marker resets the cursor and is
/// dropped. Any other byte is stored at the cursor; when it was the last
/// byte of a frame the scratch image and the shared image change places
/// and the cursor returns to the start.
pub open spec fn received(link: Link, byte: u8) -> Link {
    if byte == MARKER {
        Link { cursor: 0, ..link }
    } else if link.cursor + 1 == 192 {
        Link {
            scratch: link.shared,
            cursor: 0,
            shared: with_byte(link.scratch, link.cursor, byte),
        }
    } else {
        Link {
            scratch: with_byte(link.scratch, link.cursor, byte),
            cursor: link.cursor + 1,
            ..link
        }
    }
}

/// The link after a sequence of bytes arrives, in order.
pub open spec fn fed(link: Link, bytes: Seq<u8>) -> Link
    decreases bytes.len(),
{
    if bytes.len() == 0 {
        link
    } else {
        received(fed(link, bytes.drop_last()), bytes.last())
    }
}

/// Whether a link is in a state that the receive task can be in.
pub open spec fn link_wf(link: Link) -> bool {
    &&& link.scratch.len() == 64
    &&& link.shared.len() == 64
    &&& 0 <= link.cursor < 192
}

/// Whether no byte of a sequence is the marker.
pub open spec fn clean(bytes: Seq<u8>) -> bool {
    forall|i: int| 0 <= i < bytes.len() ==> bytes[i] != MARKER
}

/// Feeding two sequences one after the other.
pub proof fn lemma_fed_concat(link: Link, first: Seq<u8>, second: Seq<u8>)
    ensures
        fed(link, first + second) == fed(fed(link, first), second),
    decreases second.len(),
{
    if second.len() == 0 {
        assert(first + second =~= first);
    } else {
        lemma_fed_concat(link, first, second.drop_last());
        assert((first + second).drop_last() =~= first + second.drop_last());
    }
}

/// Every byte keeps the link well formed.
pub proof fn lemma_fed_wf(link: Link, bytes: Seq<u8>)
    requires
        link_wf(link),
    ensures
        link_wf(fed(link, bytes)),
    decreases bytes.len(),
{
    if bytes.len() > 0 {
        lemma_fed_wf(link, bytes.drop_last());
    }
}

/// A marker returns the cursor to the start whatever came before it.
pub proof fn lemma_marker_resets(link: Link, bytes: Seq<u8>)
    ensures
        fed(link, bytes.push(MARKER)).cursor == 0,
        fed(link, bytes.push(MARKER)).shared == fed(link, bytes).shared,
{
    assert(bytes.push(MARKER).drop_last() =~= bytes);
}

/// While a frame is incomplete the shared image does not change: bytes
/// without a marker that do not fill the scratch image only move the
/// cursor and fill the scratch image.
pub proof fn lemma_partial_frame(link: Link, bytes: Seq<u8>)
    requires
        link_wf(link),
        clean(bytes),
        link.cursor + bytes.len() < 192,
    ensures
        fed(link, bytes).shared == link.shared,
        fed(link, bytes).cursor == link.cursor + bytes.len(),
        fed(link, bytes).scratch.len() == 64,
        forall|i: int|
            0 <= i < bytes.len() ==> bytes_of(fed(link, bytes).scratch)[link.cursor + i]
                == bytes[i],
        forall|i: int|
            0 <= i < link.cursor ==> bytes_of(fed(link, bytes).scratch)[i] == bytes_of(
                link.scratch,
            )[i],
    decreases bytes.len(),
{
    if bytes.len() > 0 {
        let head = bytes.drop_last();
        lemma_partial_frame(link, head);
        let before = fed(link, head);
        let after = fed(link, bytes);
        lemma_with_byte(before.scratch, before.cursor, bytes.last());
        assert(bytes_of(before.scratch).len() == 192);
        assert forall|i: int| 0 <= i < bytes.len() implies bytes_of(after.scratch)[link.cursor
            + i] == bytes[i] by {
            if i < head.len() {
                assert(bytes_of(before.scratch)[link.cursor + i] == head[i]);
            }
        }
        assert forall|i: int| 0 <= i < link.cursor implies bytes_of(after.scratch)[i] == bytes_of(
            link.scratch,
        )[i] by {
            assert(bytes_of(before.scratch)[i] == bytes_of(link.scratch)[i]);
        }
    }
}

/// A whole frame: 192 bytes without a marker, arriving when the cursor is
/// at the start, are published as the image they stand for. The scratch
/// image becomes what was shared before, and the cursor is back at the
/// start.
pub proof fn lemma_whole_frame(link: Link, bytes: Seq<u8>)
    requires
        link_wf(link),
        link.cursor == 0,
        bytes.len() == 192,
        clean(bytes),
    ensures
        fed(link, bytes).shared == pixels_of(bytes),
        fed(link, bytes).scratch == link.shared,
        fed(link, bytes).cursor == 0,
{
    let head = bytes.drop_last();
    lemma_partial_frame(link, head);
    let before = fed(link, head);
    let full = with_byte(before.scratch, 191, bytes.last());
    lemma_with_byte(before.scratch, 191, bytes.last());
    assert forall|i: int| 0 <= i < 192 implies bytes_of(full)[i] == bytes[i] by {
        if i < 191 {
            assert(bytes_of(before.scratch)[link.cursor + i] == head[i]);
        }
    }
    assert(bytes_of(full) =~= bytes);
    lemma_pixels_round_trip(full);
}

/// A frame that follows a marker is published whatever came before the
/// marker.
pub proof fn lemma_frame_after_marker(link: Link, before: Seq<u8>, frame: Seq<u8>)
    requires
        link_wf(link),
        frame.len() == 192,
        clean(frame),
    ensures
        fed(link, before.push(MARKER) + frame).shared == pixels_of(frame),
        fed(link, before.push(MARKER) + frame).cursor == 0,
{
    lemma_fed_concat(link, before.push(MARKER), frame);
    lemma_marker_resets(link, before);
    lemma_fed_wf(link, before.push(MARKER));
    lemma_whole_frame(fed(link, before.push(MARKER)), frame);
}

/// Whether the shared image is a frame that arrived whole: the image that
/// some 192 bytes in a row of the stream, none of them a marker, stand for.
pub open spec fn is_frame_of(shared: Seq<Color>, stream: Seq<u8>) -> bool {
    exists|start: int|
        0 <= start && start + 192 <= stream.len() && clean(
            #[trigger] stream.subrange(start, start + 192),
        ) && shared == pixels_of(stream.subrange(start, start + 192))
}

/// What holds of the link after any stream that began at the start of a
/// frame: the shared image is the first one or a frame that arrived whole,
/// and the filled part of the scratch image is the tail of the stream.
pub open spec fn whole(first: Seq<Color>, link: Link, stream: Seq<u8>) -> bool {
    &&& link_wf(link)
    &&& link.cursor <= stream.len()
    &&& clean(stream.subrange(stream.len() - link.cursor, stream.len() as int))
    &&& bytes_of(link.scratch).take(link.cursor) == stream.subrange(
        stream.len() - link.cursor,
        stream.len() as int,
    )
    &&& (link.shared == first || is_frame_of(link.shared, stream))
}

/// One more byte keeps what `whole` states.
proof fn lemma_whole_step(first: Seq<Color>, link: Link, stream: Seq<u8>, byte: u8)
    requires
        whole(first, link, stream),
    ensures
        whole(first, received(link, byte), stream.push(byte)),
{
    let next = received(link, byte);
    let longer = stream.push(byte);
    let n = stream.len() as int;
    if is_frame_of(link.shared, stream) {
        let start = choose|start: int|
            0 <= start && start + 192 <= stream.len() && clean(
                #[trigger] stream.subrange(start, start + 192),
            ) && link.shared == pixels_of(stream.subrange(start, start + 192));
        assert(longer.subrange(start, start + 192) =~= stream.subrange(start, start + 192));
        assert(is_frame_of(link.shared, longer));
    }
    if byte == MARKER {
        assert(longer.subrange(n + 1, n + 1) =~= Seq::<u8>::empty());
        assert(bytes_of(next.scratch).take(0) =~= Seq::<u8>::empty());
    } else {
        let tail = stream.subrange(n - link.cursor, n);
        let grown = longer.subrange(n - link.cursor, n + 1);
        let filled = with_byte(link.scratch, link.cursor, byte);
        lemma_with_byte(link.scratch, link.cursor, byte);
        assert(grown =~= tail.push(byte));
        assert(bytes_of(filled).take(link.cursor + 1) =~= bytes_of(link.scratch).take(
            link.cursor,
        ).push(byte));
        assert(clean(grown));
        if link.cursor + 1 == 192 {
            assert(bytes_of(filled).take(192) =~= bytes_of(filled));
            lemma_pixels_round_trip(filled);
            let start = n + 1 - 192;
            assert(bytes_of(filled) == grown);
            assert(pixels_of(grown) == filled);
            assert(longer.subrange(start, start + 192) == grown);
            assert(is_frame_of(filled, longer));
            assert(longer.subrange(n + 1, n + 1) =~= Seq::<u8>::empty());
            assert(bytes_of(next.scratch).take(0) =~= Seq::<u8>::empty());
        }
    }
}

/// The exchange is atomic. After any stream of bytes, cut at any point,
/// the shared image is the one from before the stream or a frame that
/// arrived whole in the stream: never a mix of two frames, never a frame
/// in part.
pub proof fn lemma_shared_is_whole(link: Link, stream: Seq<u8>)
    requires
        link_wf(link),
        link.cursor == 0,
    ensures
        fed(link, stream).shared == link.shared || is_frame_of(fed(link, stream).shared, stream),
        whole(link.shared, fed(link, stream), stream),
    decreases stream.len(),
{
    if stream.len() == 0 {
        assert(stream.subrange(0, 0) =~= Seq::<u8>::empty());
        assert(bytes_of(link.scratch).take(0) =~= Seq::<u8>::empty());
    } else {
        lemma_shared_is_whole(link, stream.drop_last());
        lemma_whole_step(link.shared, fed(link, stream.drop_last()), stream.drop_last(), stream.last());
        assert(stream.drop_last().push(stream.last()) =~= stream);
    }
}

/// The receive task: the scratch image and the cursor into its bytes.
pub struct Receiver {
    next_image: Image,
    next_pos: usize,
}

impl Receiver {
    /// The scratch image.
    pub closed spec fn scratch(&self) -> Seq<Color> {
        self.next_image@
    }

    /// The cursor: the number of bytes of the current frame that arrived.
    /// It is 192 only between the last byte of a frame and the exchange.
    pub closed spec fn cursor(&self) -> int {
        self.next_pos as int
    }

    /// The link that this receiver forms with a shared image.
    pub open spec fn link(&self, shared: Seq<Color>) -> Link {
        Link { scratch: self.scratch(), cursor: self.cursor(), shared }
    }

    /// A receiver at the start of a frame, with a black scratch image.
    pub fn new() -> (receiver: Self)
        ensures
            receiver.cursor() == 0,
            receiver.scratch() == Seq::new(64, |i: int| Color { r: 0, g: 0, b: 0 }),
    {
        Receiver { next_image: <Image as crate::image::Default>::default(), next_pos: 0 }
    }

    /// The number of bytes of the current frame that arrived.
    pub fn position(&self) -> (pos: usize)
        ensures
            pos == self.cursor(),
    {
        self.next_pos
    }

    /// Takes one byte into the scratch image and says whether the frame is
    /// now whole. A marker resets the cursor and is dropped; any other byte
    /// is stored at the cursor, which moves on by one. The shared image is
    /// not needed for this.
    pub fn store_byte(&mut self, b: u8) -> (full: bool)
        requires
            old(self).cursor() < 192,
        ensures
            b == MARKER ==> !full && final(self).cursor() == 0 && final(self).scratch() == old(self).scratch(),
            b != MARKER ==> final(self).cursor() == old(self).cursor() + 1 && final(self).scratch() == with_byte(old(self).scratch(), old(self).cursor(), b),
            full <==> final(self).cursor() == 192,
    {
        if b == 0xff {
            self.next_pos = 0;
            return false;
        }
        self.next_image.set_byte(self.next_pos, b);
        self.next_pos += 1;
        self.next_pos == 8 * 8 * 3
    }

    /// Exchanges the whole frame in the scratch image with the shared
    /// image and returns the cursor to the start. What was shown before
    /// becomes the next scratch image. This is the one short moment for
    /// which the receive task needs the shared image.
    pub fn publish(&mut self, image: &mut Image)
        requires
            old(self).cursor() == 192,
        ensures
            final(image)@ == old(self).scratch(),
            final(self).scratch() == old(image)@,
            final(self).cursor() == 0,
    {
        core::mem::swap(image, &mut self.next_image);
        self.next_pos = 0;
    }

    /// Takes one byte from the serial link. A marker resets the cursor. Any
    /// other byte is stored in the scratch image; with the last byte of a
    /// frame the scratch image and the shared image are exchanged, which
    /// is the only time the shared image is touched.
    pub fn receive_byte(&mut self, image: &mut Image, b: u8)
        requires
            old(self).cursor() < 192,
        ensures
            final(self).cursor() < 192,
            final(self).link(final(image)@) == received(old(self).link(old(image)@), b),
            link_wf(final(self).link(final(image)@)),
            final(image)@ == old(image)@ || (b != MARKER && old(self).cursor() == 191 && final(image)@ == with_byte(old(self).scratch(), 191, b)),
    {
        if self.store_byte(b) {
            self.publish(image);
        }
        proof {
            self.next_image.lemma_len();
            image.lemma_len();
        }
    }
}

/// The display task: the driver of the matrix and the row to show next.
pub struct Display {
    matrix: Matrix,
    next_line: usize,
}

impl Display {
    /// The driver.
    pub closed spec fn matrix(&self) -> Matrix {
        self.matrix
    }

    /// The row that the next activation shows.
    pub closed spec fn line(&self) -> int {
        self.next_line as int
    }

    /// The rows follow each other: the row to show is in range, and no row
    /// is selected but, once the first row was shown, the one before it.
    pub closed spec fn wf(&self) -> bool {
        &&& self.matrix.wf()
        &&& self.matrix.levels().len() == 13
        &&& self.next_line < 8
        &&& (no_row(self.matrix.levels()) || only_row(
            self.matrix.levels(),
            previous_row(self.next_line as int),
        ))
    }

    /// What a well-formed task guarantees, in terms that a caller can use.
    pub proof fn lemma_wf(&self)
        requires
            self.wf(),
        ensures
            self.matrix().wf(),
            self.matrix().levels().len() == 13,
            0 <= self.line() < 8,
            no_row(self.matrix().levels()) || only_row(
                self.matrix().levels(),
                previous_row(self.line()),
            ),
            at_most_one_row(self.matrix().levels()),
    {
        let lines = self.matrix.levels();
        if !no_row(lines) {
            assert forall|a: int, b: int|
                0 <= a < 8 && 0 <= b < 8 && row_high(lines, a) && row_high(
                    lines,
                    b,
                ) implies a == b by {
                assert(row_high(lines, a) <==> a == previous_row(self.next_line as int));
                assert(row_high(lines, b) <==> b == previous_row(self.next_line as int));
            }
        }
    }

    /// A display task for lines that were just configured at their
    /// power-on levels. The start-up sequence of the matrix is queued, and
    /// the first row to show is row 0.
    pub fn new() -> (task: Self)
        ensures
            task.wf(),
            task.line() == 0,
            task.matrix().pending() == startup_commands(),
            task.matrix().start() == power_on_levels(),
            no_row(task.matrix().levels()),
    {
        let matrix = Matrix::new();
        proof {
            lemma_run_len(
                power_on_levels(),
                startup_commands(),
            );
        }
        Display { matrix, next_line: 0 }
    }

    /// One activation: shows the current row of the shared image, moves on
    /// to the next row, wrapping from 7 to 0, and gives the deadline of the
    /// next activation. While the commands of the row are carried out no
    /// two rows are ever selected together, and after them the row shown is
    /// the only one selected.
    pub fn display(&mut self, image: &Image, at: u32) -> (next: u32)
        requires
            old(self).wf(),
        ensures
            final(self).wf(),
            final(self).line() == (old(self).line() + 1) % 8,
            final(self).matrix().queued(
                &old(self).matrix(),
                row_commands(
                    old(self).line(),
                    image@.subrange(8 * old(self).line(), 8 * old(self).line() + 8),
                ),
            ),
            only_row(final(self).matrix().levels(), old(self).line()),
            forall|k: int|
                0 <= k <= 773 ==> at_most_one_row(
                    #[trigger] sampled(
                        old(self).matrix().levels(),
                        row_commands(
                            old(self).line(),
                            image@.subrange(8 * old(self).line(), 8 * old(self).line() + 8),
                        ),
                        k,
                    ),
                ),
            next == deadline_after(at),
    {
        proof {
            self.lemma_wf();
            image.lemma_len();
        }
        let pixels = image.row(self.next_line);
        self.matrix.send_row(self.next_line, pixels);
        proof {
            let before = old(self).matrix.levels();
            let row = old(self).next_line as int;
            let commands = row_commands(row, pixels@);
            assert forall|other: int| 0 <= other < 8 && row_high(before, other) implies other
                == previous_row(row) || other == row by {
                assert(row_high(before, other) <==> other == previous_row(row));
            }
            assert forall|k: int| 0 <= k <= 773 implies at_most_one_row(
                #[trigger] sampled(before, commands, k),
            ) by {
                lemma_row_one_at_a_time(before, row, pixels@, k);
            }
            lemma_row_one_at_a_time(before, row, pixels@, 773);
            lemma_row_shape(row, pixels@, 0);
            lemma_sampled_all(before, commands);
        }
        self.next_line = (self.next_line + 1) % 8;
        next_deadline(at)
    }

    /// Hands over the commands that the task queued for the hardware,
    /// oldest first.
    pub fn take_commands(&mut self) -> (commands: Vec<Command>)
        requires
            old(self).wf(),
        ensures
            final(self).wf(),
            final(self).line() == old(self).line(),
            commands@ == old(self).matrix().pending(),
            final(self).matrix().pending() == Seq::<Command>::empty(),
            final(self).matrix().levels() == old(self).matrix().levels(),
            final(self).matrix().start() == old(self).matrix().levels(),
    {
        self.matrix.take_commands()
    }

    /// The row that the next activation shows.
    pub fn next_line(&self) -> (line: usize)
        ensures
            line == self.line(),
    {
        self.next_line
    }
}

/// The state that the tasks start from: a black shared image, a display
/// task whose first row is row 0 and whose matrix is about to start up,
/// and a receiver at the start of a frame.
pub fn init() -> (state: (Image, Display, Receiver))
    ensures
        state.0@ == Seq::new(64, |i: int| Color { r: 0, g: 0, b: 0 }),
        state.1.wf(),
        state.1.line() == 0,
        state.1.matrix().pending() == startup_commands(),
        state.2.cursor() == 0,
        state.2.scratch() == state.0@,
{
    let image = <Image as crate::image::Default>::default();
    (image, Display::new(), Receiver::new())
}

} // verus!
