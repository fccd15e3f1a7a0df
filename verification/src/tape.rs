//! The tape: an unbounded row of byte cells with a pointer, realised as a
//! buffer that grows at either end, together with the queues through which
//! a running program reads and writes.
use std::collections::VecDeque;
use vstd::math::{max, min};
use vstd::prelude::*;

verus! {

/// How an emitted cell is turned into text.
#[derive(Debug, Clone, Copy, PartialEq, Eq)]
pub enum OutputMode {
    /// The character whose code is the cell's value.
    Ascii,
    /// `0x`, two lower-case hexadecimal digits, and a line feed.
    Hex,
    /// Nothing.
    Silent,
}

impl OutputMode {
    /// The mode that the two output switches select: silence wins over hexadecimal.
    pub open spec fn select(hex_output: bool, silent: bool) -> OutputMode {
        if silent {
            OutputMode::Silent
        } else if hex_output {
            OutputMode::Hex
        } else {
            OutputMode::Ascii
        }
    }
}

/// The lower-case hexadecimal digit for a value below 16.
pub open spec fn hex_digit_of(nibble: int) -> char {
    if nibble < 10 {
        (48 + nibble) as char
    } else {
        (87 + nibble) as char
    }
}

/// The text that emitting `value` produces in `mode`.
pub open spec fn rendered(mode: OutputMode, value: u8) -> Seq<char> {
    match mode {
        OutputMode::Ascii => seq![value as char],
        OutputMode::Hex => seq![
            '0',
            'x',
            hex_digit_of(value as int / 16),
            hex_digit_of(value as int % 16),
            '\n',
        ],
        OutputMode::Silent => Seq::empty(),
    }
}

/// The mathematical model of a [`Tape`].
///
/// Every integer index has a cell. The cells from `first` to `last` are the
/// ones the buffer holds; all others are 0. `first..=last` always reaches from
/// a non-positive index to at least -1, so that an empty buffer is `0..=-1`.
#[verifier::ext_equal]
pub struct TapeView {
    /// The value of every cell.
    pub cells: Map<int, u8>,
    /// The index of the current cell.
    pub cursor: int,
    /// The lowest index that the buffer holds.
    pub first: int,
    /// The highest index that the buffer holds.
    pub last: int,
    /// The bytes that were fed and not yet read, oldest first.
    pub input: Seq<u8>,
    /// The text that was emitted and not yet taken.
    pub output: Seq<char>,
    /// How emitted cells are rendered.
    pub mode: OutputMode,
}

impl TapeView {
    /// A fresh tape: all cells 0, pointer at 0, nothing buffered.
    pub open spec fn blank(mode: OutputMode) -> TapeView {
        TapeView {
            cells: Map::total(|i: int| 0u8),
            cursor: 0,
            first: 0,
            last: -1,
            input: Seq::empty(),
            output: Seq::empty(),
            mode,
        }
    }

    /// What holds of the model of every tape.
    pub open spec fn wf(self) -> bool {
        &&& self.first <= 0
        &&& -1 <= self.last
        &&& self.last - self.first < isize::MAX
        &&& isize::MIN <= self.cursor <= isize::MAX
        &&& self.is_total()
        &&& forall|i: int| !(self.first <= i <= self.last) ==> #[trigger] self.cells[i] == 0
    }

    /// Whether every index has a cell.
    pub open spec fn is_total(self) -> bool {
        forall|i: int| self.cells.dom().contains(i)
    }

    /// Whether the two tapes hold the same cells, pointer, input, output and
    /// mode. Only what their buffers hold may differ.
    pub open spec fn same_content(self, other: TapeView) -> bool {
        &&& self.cells == other.cells
        &&& self.cursor == other.cursor
        &&& self.input == other.input
        &&& self.output == other.output
        &&& self.mode == other.mode
    }

    /// The value of the cell at `offset` from the current cell.
    pub open spec fn cell(self, offset: int) -> u8 {
        self.cells[self.cursor + offset]
    }

    /// The value of the current cell.
    pub open spec fn current(self) -> u8 {
        self.cells[self.cursor]
    }

    /// Whether the pointer can move by `amount` and stay a machine integer.
    pub open spec fn can_shift(self, amount: int) -> bool {
        isize::MIN <= self.cursor + amount <= isize::MAX
    }

    /// Whether the buffer can grow to hold the cells `from..=to` beside those
    /// it holds already: its length must stay within `isize::MAX`.
    pub open spec fn can_hold_range(self, from: int, to: int) -> bool {
        max(self.last, to) - min(self.first, from) < isize::MAX
    }

    /// Whether the buffer can grow to hold the cell at `index`.
    pub open spec fn can_hold(self, index: int) -> bool {
        self.can_hold_range(index, index)
    }

    /// Whether the cell at `offset` from the current cell can be written.
    pub open spec fn can_write(self, offset: int) -> bool {
        self.can_hold(self.cursor + offset)
    }

    /// Whether all cells from `low` to `high`, counted from the current cell,
    /// can be written.
    pub open spec fn can_span(self, low: int, high: int) -> bool {
        self.can_hold_range(self.cursor + low, self.cursor + high)
    }

    /// Whether all cells between the current cell and the one at `max_offset`
    /// from it can be written.
    pub open spec fn can_fill(self, max_offset: int) -> bool {
        self.can_hold_range(
            min(self.cursor, self.cursor + max_offset),
            max(self.cursor, self.cursor + max_offset),
        )
    }

    /// The tape after the pointer moved by `amount`.
    pub open spec fn shifted(self, amount: int) -> TapeView {
        TapeView { cursor: self.cursor + amount, ..self }
    }

    /// The tape after the buffer grew to hold the cell at `index`. No cell changes.
    pub open spec fn grown(self, index: int) -> TapeView {
        TapeView { first: min(self.first, index), last: max(self.last, index), ..self }
    }

    /// The tape after `value` was stored in the cell at `index`.
    pub open spec fn stored(self, index: int, value: u8) -> TapeView {
        TapeView { cells: self.cells.insert(index, value), ..self.grown(index) }
    }

    /// The tape after `value` was written at `offset` from the current cell.
    pub open spec fn written(self, offset: int, value: u8) -> TapeView {
        self.stored(self.cursor + offset, value)
    }

    /// The tape after `amount` was added, modulo 256, at `offset` from the current cell.
    pub open spec fn added(self, offset: int, amount: u8) -> TapeView {
        self.written(offset, ((self.cell(offset) + amount) % 256) as u8)
    }

    /// The tape after every cell between the current cell and the one at
    /// `max_offset` from it, both included, was set to `value`.
    pub open spec fn filled(self, max_offset: int, value: u8) -> TapeView {
        let from = min(self.cursor, self.cursor + max_offset);
        let to = max(self.cursor, self.cursor + max_offset);
        TapeView {
            cells: Map::total(
                |i: int|
                    if from <= i <= to {
                        value
                    } else {
                        self.cells[i]
                    },
            ),
            first: min(self.first, from),
            last: max(self.last, to),
            ..self
        }
    }

    /// The tape after the current cell was emitted.
    pub open spec fn emitted(self) -> TapeView {
        TapeView { output: self.output + rendered(self.mode, self.current()), ..self }
    }

    /// The tape after the oldest fed byte was read into the current cell.
    pub open spec fn consumed(self) -> TapeView {
        TapeView { input: self.input.skip(1), ..self.written(0, self.input[0]) }
    }

    /// The tape after `byte` was fed.
    pub open spec fn fed(self, byte: u8) -> TapeView {
        TapeView { input: self.input.push(byte), ..self }
    }

    /// The tape after the emitted text was taken.
    pub open spec fn drained(self) -> TapeView {
        TapeView { output: Seq::empty(), ..self }
    }
}

/// A cell that was written reads back as written, however far away it lies;
/// a write leaves every other cell as it was; and on a blank tape every cell
/// reads as 0.
pub proof fn lemma_write_then_read(tape: TapeView, index: int, value: u8, other: int)
    requires
        tape.wf(),
    ensures
        tape.stored(index, value).cells[index] == value,
        other != index ==> tape.stored(index, value).cells[other] == tape.cells[other],
        forall|mode: OutputMode| (#[trigger] TapeView::blank(mode)).cells[other] == 0,
{
}

/// A tape of byte cells that extends without bound in both directions.
///
/// The cells are kept in one buffer; `origin` is the place in it of the cell
/// with index 0. A cell outside the buffer reads as 0 and is created by the
/// first write to it.
pub struct Tape {
    /// The index of the current cell.
    pointer: isize,
    /// The values of the cells that the buffer holds.
    values: Vec<u8>,
    /// The place in `values` of the cell with index 0.
    origin: isize,
    /// How `output` renders a cell.
    output_mode: OutputMode,
    /// The bytes that `input` will read.
    stdin: VecDeque<u8>,
    /// The text that `output` has written.
    stdout: Vec<char>,
}

/// Puts `count` zeroes in front of what `values` holds.
fn prepend_zeroes(values: &mut Vec<u8>, count: usize)
    requires
        old(values)@.len() + count <= usize::MAX,
    ensures
        final(values)@.len() == old(values)@.len() + count,
        forall|i: int| 0 <= i < count ==> final(values)@[i] == 0,
        forall|i: int| 0 <= i < old(values)@.len() ==> final(values)@[count + i] == old(values)@[i],
{
    let mut grown: Vec<u8> = Vec::new();
    grown.resize(count, 0);
    grown.append(values);
    std::mem::swap(values, &mut grown);
}

/// The lower-case hexadecimal digit for a value below 16.
fn hex_digit(nibble: u8) -> (digit: char)
    requires
        nibble < 16,
    ensures
        digit == hex_digit_of(nibble as int),
{
    if nibble < 10 {
        (48 + nibble) as char
    } else {
        (87 + nibble) as char
    }
}

impl View for Tape {
    type V = TapeView;

    closed spec fn view(&self) -> TapeView {
        TapeView {
            cells: Map::total(|i: int| self.slot_value(i)),
            cursor: self.pointer as int,
            first: -self.origin,
            last: self.values@.len() - self.origin - 1,
            input: self.stdin@,
            output: self.stdout@,
            mode: self.output_mode,
        }
    }
}

impl Default for Tape {
    fn default() -> (tape: Tape)
        ensures
            tape.wf(),
            tape@ == TapeView::blank(OutputMode::Ascii),
    {
        Tape::new(false, false)
    }
}

impl Tape {
    /// The origin lies within the buffer, and the buffer's length is a machine integer.
    pub closed spec fn wf(&self) -> bool {
        0 <= self.origin <= self.values@.len() <= isize::MAX
    }

    /// The value of the cell at `index`: what the buffer holds there, or 0.
    spec fn slot_value(self, index: int) -> u8 {
        let slot = self.origin + index;
        if 0 <= slot < self.values@.len() {
            self.values@[slot]
        } else {
            0
        }
    }

    /// The model of a well-formed tape is well-formed.
    pub proof fn lemma_view_wf(&self)
        requires
            self.wf(),
        ensures
            self@.wf(),
    {
    }

    /// Creates a blank tape whose output is rendered as the switches say.
    pub fn new(hex_output: bool, silent: bool) -> (tape: Tape)
        ensures
            tape.wf(),
            tape@ == TapeView::blank(OutputMode::select(hex_output, silent)),
    {
        let output_mode = if silent {
            OutputMode::Silent
        } else if hex_output {
            OutputMode::Hex
        } else {
            OutputMode::Ascii
        };
        let tape = Tape {
            pointer: 0,
            values: Vec::new(),
            origin: 0,
            output_mode,
            stdin: VecDeque::new(),
            stdout: Vec::new(),
        };
        assert(tape@ =~= TapeView::blank(OutputMode::select(hex_output, silent)));
        tape
    }

    /// Tells whether the pointer can move by `amount`.
    pub fn can_shift(&self, amount: isize) -> (fits: bool)
        ensures
            fits == self@.can_shift(amount as int),
    {
        self.pointer.checked_add(amount).is_some()
    }

    /// Moves the pointer to the right by `amount` (to the left if negative).
    pub fn right_by(&mut self, amount: isize)
        requires
            old(self).wf(),
            old(self)@.can_shift(amount as int),
        ensures
            final(self).wf(),
            final(self)@ == old(self)@.shifted(amount as int),
    {
        self.pointer = self.pointer + amount;
        assert(self@ =~= old(self)@.shifted(amount as int));
    }

    /// The index of the current cell.
    pub fn pointer(&self) -> (index: isize)
        ensures
            index == self@.cursor,
    {
        self.pointer
    }

    /// The lowest index that the buffer holds.
    pub fn first_index(&self) -> (index: isize)
        requires
            self.wf(),
        ensures
            index == self@.first,
    {
        -self.origin
    }

    /// The highest index that the buffer holds.
    pub fn last_index(&self) -> (index: isize)
        requires
            self.wf(),
        ensures
            index == self@.last,
    {
        (self.values.len() as isize) - self.origin - 1
    }

    /// The value of the cell at `index`.
    pub fn read_cell(&self, index: isize) -> (value: u8)
        requires
            self.wf(),
        ensures
            value == self@.cells[index as int],
    {
        if self.first_index() <= index && index <= self.last_index() {
            self.values[(self.origin + index) as usize]
        } else {
            0
        }
    }

    /// The value of the cell at `offset` to the right of the pointer.
    pub fn read_relative(&self, offset: isize) -> (value: u8)
        requires
            self.wf(),
        ensures
            value == self@.cell(offset as int),
    {
        match self.pointer.checked_add(offset) {
            Some(index) => self.read_cell(index),
            None => 0,
        }
    }

    /// The value of the current cell.
    pub fn read(&self) -> (value: u8)
        requires
            self.wf(),
        ensures
            value == self@.current(),
    {
        self.read_relative(0)
    }

    /// Tells whether the buffer can grow to hold the cells `from..=to`.
    fn can_hold_range(&self, from: isize, to: isize) -> (fits: bool)
        requires
            self.wf(),
            from <= to,
        ensures
            fits == self@.can_hold_range(from as int, to as int),
    {
        let first = self.first_index();
        let last = self.last_index();
        let low = if from < first {
            from
        } else {
            first
        };
        let high = if to > last {
            to
        } else {
            last
        };
        high < isize::MAX + low
    }

    /// Tells whether the cell at `offset` to the right of the pointer can be written.
    pub fn can_write(&self, offset: isize) -> (fits: bool)
        requires
            self.wf(),
        ensures
            fits == self@.can_write(offset as int),
    {
        match self.pointer.checked_add(offset) {
            Some(index) => self.can_hold_range(index, index),
            None => false,
        }
    }

    /// Tells whether the cells from `low` to `high`, counted from the current
    /// cell, can all be written.
    pub fn can_span(&self, low: isize, high: isize) -> (fits: bool)
        requires
            self.wf(),
            low <= high,
        ensures
            fits == self@.can_span(low as int, high as int),
    {
        match self.pointer.checked_add(low) {
            Some(from) => match self.pointer.checked_add(high) {
                Some(to) => self.can_hold_range(from, to),
                None => false,
            },
            None => false,
        }
    }

    /// Tells whether the cells between the current cell and the one at
    /// `max_offset` from it can all be written.
    pub fn can_fill(&self, max_offset: isize) -> (fits: bool)
        requires
            self.wf(),
        ensures
            fits == self@.can_fill(max_offset as int),
    {
        match self.pointer.checked_add(max_offset) {
            Some(target) => {
                if target < self.pointer {
                    self.can_hold_range(target, self.pointer)
                } else {
                    self.can_hold_range(self.pointer, target)
                }
            },
            None => false,
        }
    }

    /// Extends the buffer so that it holds the cell at `index`.
    fn extend_to_index(&mut self, index: isize)
        requires
            old(self).wf(),
            old(self)@.can_hold(index as int),
        ensures
            final(self).wf(),
            final(self)@ == old(self)@.grown(index as int),
            0 <= final(self).origin + index < final(self).values@.len(),
    {
        if index > self.last_index() {
            let length: usize = (self.origin + index + 1) as usize;
            self.values.resize(length, 0);
        } else if index < self.first_index() {
            let count: usize = (-index - self.origin) as usize;
            prepend_zeroes(&mut self.values, count);
            self.origin = -index;
        }
        assert(self@ =~= old(self)@.grown(index as int));
    }

    /// Extends the buffer to the cell at `index` and returns its place in the buffer.
    fn get_cell(&mut self, index: isize) -> (slot: usize)
        requires
            old(self).wf(),
            old(self)@.can_hold(index as int),
        ensures
            final(self).wf(),
            final(self)@ == old(self)@.grown(index as int),
            slot == final(self).origin + index,
            slot < final(self).values@.len(),
    {
        self.extend_to_index(index);
        (self.origin + index) as usize
    }

    /// Extends the buffer to the cells `from..=to` and returns the places in
    /// the buffer of the first and the last of them.
    fn get_slice(&mut self, from: isize, to: isize) -> (slots: (usize, usize))
        requires
            old(self).wf(),
            from <= to,
            old(self)@.can_hold_range(from as int, to as int),
        ensures
            final(self).wf(),
            final(self)@ == old(self)@.grown(to as int).grown(from as int),
            slots.0 == final(self).origin + from,
            slots.1 == final(self).origin + to,
            slots.1 < final(self).values@.len(),
    {
        self.extend_to_index(to);
        self.extend_to_index(from);
        ((self.origin + from) as usize, (self.origin + to) as usize)
    }

    /// Sets the cell at `offset` to the right of the pointer to `value`.
    pub fn write_relative(&mut self, offset: isize, value: u8)
        requires
            old(self).wf(),
            old(self)@.can_write(offset as int),
        ensures
            final(self).wf(),
            final(self)@ == old(self)@.written(offset as int, value),
    {
        let index = self.pointer + offset;
        let slot = self.get_cell(index);
        self.values[slot] = value;
        assert(self@ =~= old(self)@.written(offset as int, value));
    }

    /// Sets the current cell to `value`.
    pub fn write(&mut self, value: u8)
        requires
            old(self).wf(),
            old(self)@.can_write(0),
        ensures
            final(self).wf(),
            final(self)@ == old(self)@.written(0, value),
    {
        self.write_relative(0, value)
    }

    /// Sets every cell between the current cell and the one at `max_offset`
    /// to the right of the pointer, both included, to `value`.
    pub fn fill(&mut self, max_offset: isize, value: u8)
        requires
            old(self).wf(),
            old(self)@.can_fill(max_offset as int),
        ensures
            final(self).wf(),
            final(self)@ == old(self)@.filled(max_offset as int, value),
    {
        let target = self.pointer + max_offset;
        let from = if target < self.pointer {
            target
        } else {
            self.pointer
        };
        let to = if target < self.pointer {
            self.pointer
        } else {
            target
        };
        let (start, end) = self.get_slice(from, to);
        let ghost held = self.values@;
        let mut slot = start;
        while slot <= end
            invariant
                start <= slot <= end + 1,
                end < self.values@.len() <= isize::MAX,
                self.values@.len() == held.len(),
                forall|i: int| start <= i < slot ==> self.values@[i] == value,
                forall|i: int| 0 <= i < start || slot <= i < held.len() ==> self.values@[i] == held[i],
                self.pointer == old(self).pointer,
                self.origin == start - from,
                0 <= self.origin <= held.len(),
                self.output_mode == old(self).output_mode,
                self.stdin@ == old(self).stdin@,
                self.stdout@ == old(self).stdout@,
            decreases end + 1 - slot,
        {
            self.values[slot] = value;
            slot = slot + 1;
        }
        assert(self@ =~= old(self)@.filled(max_offset as int, value));
    }

    /// Adds `amount`, modulo 256, to the cell at `offset` to the right of the pointer.
    pub fn add(&mut self, offset: isize, amount: u8)
        requires
            old(self).wf(),
            old(self)@.can_write(offset as int),
        ensures
            final(self).wf(),
            final(self)@ == old(self)@.added(offset as int, amount),
    {
        let index = self.pointer + offset;
        let slot = self.get_cell(index);
        let value = self.values[slot];
        self.values[slot] = value.wrapping_add(amount);
        assert(self@ =~= old(self)@.added(offset as int, amount));
    }

    /// Emits the current cell: appends its rendering to the text that
    /// `take_output` hands out.
    pub fn output(&mut self)
        requires
            old(self).wf(),
        ensures
            final(self).wf(),
            final(self)@ == old(self)@.emitted(),
    {
        let value = self.read();
        match self.output_mode {
            OutputMode::Ascii => {
                self.stdout.push(value as char);
            },
            OutputMode::Hex => {
                self.stdout.push('0');
                self.stdout.push('x');
                self.stdout.push(hex_digit(value / 16));
                self.stdout.push(hex_digit(value % 16));
                self.stdout.push('\n');
            },
            OutputMode::Silent => {},
        }
        assert(self@ =~= old(self)@.emitted());
    }

    /// Tells whether a fed byte is waiting to be read.
    pub fn has_input(&self) -> (waiting: bool)
        ensures
            waiting == (self@.input.len() > 0),
    {
        self.stdin.len() > 0
    }

    /// Reads the oldest fed byte into the current cell.
    pub fn input(&mut self)
        requires
            old(self).wf(),
            old(self)@.input.len() > 0,
            old(self)@.can_write(0),
        ensures
            final(self).wf(),
            final(self)@ == old(self)@.consumed(),
    {
        match self.stdin.pop_front() {
            Some(value) => {
                self.write_relative(0, value);
            },
            None => {},
        }
        assert(self@ =~= old(self)@.consumed());
    }

    /// Queues `byte` behind the bytes that `input` will read.
    pub fn feed(&mut self, byte: u8)
        requires
            old(self).wf(),
        ensures
            final(self).wf(),
            final(self)@ == old(self)@.fed(byte),
    {
        self.stdin.push_back(byte);
        assert(self@ =~= old(self)@.fed(byte));
    }

    /// Hands out the text emitted since the last call, and forgets it.
    pub fn take_output(&mut self) -> (text: Vec<char>)
        requires
            old(self).wf(),
        ensures
            final(self).wf(),
            text@ == old(self)@.output,
            final(self)@ == old(self)@.drained(),
    {
        let mut text: Vec<char> = Vec::new();
        std::mem::swap(&mut self.stdout, &mut text);
        assert(self@ =~= old(self)@.drained());
        text
    }
}

} // verus!
