//! The executor: a walk over the command tree that applies each command to a tape.
//!
//! The walk is cut into steps so that whoever drives it can feed input and
//! take output between them, and can let a program run for as long as it
//! wants to. A step never blocks and never fails: it reports what it could
//! not do.
use crate::command::{lemma_loop_body, node_of, nodes_of, targets_of, Command, Node};
use crate::tape::{Tape, TapeView};
use vstd::math::{max, min};
use vstd::prelude::*;

verus! {

/// What a step, or a run of steps, reports.
#[derive(Debug, Clone, Copy, PartialEq, Eq)]
pub enum Status {
    /// The step was taken, or the run's budget was spent: there is more to do.
    Running,
    /// The walk has reached the end of the program.
    Halted,
    /// The next command reads input and no byte is waiting. Feed the tape and go on.
    AwaitingInput,
    /// The next command would take the pointer or the buffer beyond what the
    /// machine can address.
    TapeLimit,
}

/// The lowest of 0 and the offsets of the first `count` targets.
pub open spec fn lowest(targets: Seq<(int, u8)>, count: int) -> int
    decreases count,
{
    if count <= 0 {
        0
    } else {
        min(lowest(targets, count - 1), targets[count - 1].0)
    }
}

/// The highest of 0 and the offsets of the first `count` targets.
pub open spec fn highest(targets: Seq<(int, u8)>, count: int) -> int
    decreases count,
{
    if count <= 0 {
        0
    } else {
        max(highest(targets, count - 1), targets[count - 1].0)
    }
}

/// The tape after each of the first `count` targets received `value` times
/// its factor, modulo 256, one after the other.
pub open spec fn spread(tape: TapeView, targets: Seq<(int, u8)>, value: u8, count: int) -> TapeView
    decreases count,
{
    if count <= 0 {
        tape
    } else {
        spread(tape, targets, value, count - 1).added(
            targets[count - 1].0,
            ((value * targets[count - 1].1) % 256) as u8,
        )
    }
}

/// The tape after a move: every target received its share of the current
/// cell's value, and the current cell was then set to 0.
pub open spec fn moved(tape: TapeView, targets: Seq<(int, u8)>) -> TapeView {
    spread(tape, targets, tape.current(), targets.len() as int).written(0, 0)
}

/// Whether the machine can carry out `node` on `tape`: the pointer stays a
/// machine integer and the buffer can hold every cell that is written.
pub open spec fn admits(node: Node, tape: TapeView) -> bool {
    match node {
        Node::Right(amount) => tape.can_shift(amount),
        Node::Add(_) => tape.can_write(0),
        Node::Reset => tape.can_write(0),
        Node::Input => tape.can_write(0),
        Node::ResetChunk(max_offset) => tape.can_fill(max_offset),
        Node::Move(targets) => tape.can_span(
            lowest(targets, targets.len() as int),
            highest(targets, targets.len() as int),
        ),
        Node::Output => true,
        Node::Loop(_) => true,
    }
}

/// The tape after `node` was carried out on it. A loop is not carried out in
/// one piece: as far as this function goes it leaves the tape alone.
pub open spec fn effect(node: Node, tape: TapeView) -> TapeView {
    match node {
        Node::Right(amount) => tape.shifted(amount),
        Node::Add(amount) => tape.added(0, amount),
        Node::Reset => tape.written(0, 0),
        Node::Input => tape.consumed(),
        Node::Output => tape.emitted(),
        Node::ResetChunk(max_offset) => tape.filled(max_offset, 0),
        Node::Move(targets) => moved(tape, targets),
        Node::Loop(_) => tape,
    }
}

/// A list of commands that is being walked, and the place of the next one.
pub struct Frame {
    /// The commands.
    pub body: Seq<Node>,
    /// How many of them are done.
    pub at: int,
}

/// The frames with the innermost one moved on by one command.
pub open spec fn advanced(frames: Seq<Frame>) -> Seq<Frame> {
    frames.drop_last().push(Frame { at: frames.last().at + 1, ..frames.last() })
}

/// One step of the walk: the frames and the tape after it, and what it reports.
///
/// The innermost frame is the last. At the end of a loop's body the current
/// cell decides: if it is not 0 the body starts again, else the walk goes on
/// behind the loop. At the end of the program the walk halts. A loop is
/// entered if the current cell is not 0 and skipped otherwise. Any other
/// command is carried out if the machine admits it; an input command waits
/// where no byte has been fed.
pub open spec fn step(frames: Seq<Frame>, tape: TapeView) -> (Seq<Frame>, TapeView, Status) {
    let top = frames.last();
    if top.at >= top.body.len() {
        if frames.len() <= 1 {
            (frames, tape, Status::Halted)
        } else if tape.current() != 0 {
            (frames.drop_last().push(Frame { at: 0, ..top }), tape, Status::Running)
        } else {
            (advanced(frames.drop_last()), tape, Status::Running)
        }
    } else {
        match top.body[top.at] {
            Node::Loop(body) => if tape.current() != 0 {
                (frames.push(Frame { body, at: 0 }), tape, Status::Running)
            } else {
                (advanced(frames), tape, Status::Running)
            },
            node => if node is Input && tape.input.len() == 0 {
                (frames, tape, Status::AwaitingInput)
            } else if admits(node, tape) {
                (advanced(frames), effect(node, tape), Status::Running)
            } else {
                (frames, tape, Status::TapeLimit)
            },
        }
    }
}

/// Up to `fuel` steps of the walk: it stops early at the first step that
/// does not report `Running`.
pub open spec fn run(frames: Seq<Frame>, tape: TapeView, fuel: nat) -> (
    Seq<Frame>,
    TapeView,
    Status,
)
    decreases fuel,
{
    if fuel == 0 {
        (frames, tape, Status::Running)
    } else {
        let next = step(frames, tape);
        if next.2 == Status::Running {
            run(next.0, next.1, (fuel - 1) as nat)
        } else {
            next
        }
    }
}

/// Once the buffer can hold a span around the current cell, it can take a
/// write anywhere in the span, and can still hold the span afterwards.
pub proof fn lemma_span_admits_write(tape: TapeView, low: int, high: int, offset: int, value: u8)
    requires
        tape.wf(),
        tape.can_span(low, high),
        low <= offset <= high,
    ensures
        tape.can_write(offset),
        tape.written(offset, value).wf(),
        tape.written(offset, value).can_span(low, high),
{
}

/// A walk over a program: the stack of command lists that are entered and
/// not yet left, outermost first, each with the place of its next command.
pub struct Executor<'a> {
    frames: Vec<(&'a Vec<Command>, usize)>,
}

impl<'a> View for Executor<'a> {
    type V = Seq<Frame>;

    closed spec fn view(&self) -> Seq<Frame> {
        Seq::new(
            self.frames@.len(),
            |i: int| Frame { body: nodes_of(self.frames@[i].0@), at: self.frames@[i].1 as int },
        )
    }
}

/// The lowest and the highest of 0 and the offsets of `cells`.
fn reach(cells: &Vec<(isize, u8)>) -> (bounds: (isize, isize))
    ensures
        bounds.0 == lowest(targets_of(cells@), cells@.len() as int),
        bounds.1 == highest(targets_of(cells@), cells@.len() as int),
        bounds.0 <= 0 <= bounds.1,
{
    let mut low: isize = 0;
    let mut high: isize = 0;
    let mut at: usize = 0;
    while at < cells.len()
        invariant
            at <= cells.len(),
            low == lowest(targets_of(cells@), at as int),
            high == highest(targets_of(cells@), at as int),
            low <= 0 <= high,
        decreases cells.len() - at,
    {
        let offset = cells[at].0;
        if offset < low {
            low = offset;
        }
        if offset > high {
            high = offset;
        }
        at = at + 1;
    }
    (low, high)
}

/// Carries out a move with the targets `cells`.
fn spread_over(tape: &mut Tape, cells: &Vec<(isize, u8)>, Ghost(low): Ghost<int>, Ghost(high): Ghost<int>)
    requires
        old(tape).wf(),
        low == lowest(targets_of(cells@), cells@.len() as int),
        high == highest(targets_of(cells@), cells@.len() as int),
        old(tape)@.can_span(low, high),
    ensures
        final(tape).wf(),
        final(tape)@ == moved(old(tape)@, targets_of(cells@)),
{
    let ghost targets = targets_of(cells@);
    let value = tape.read();
    let mut at: usize = 0;
    proof {
        tape.lemma_view_wf();
        lemma_reach_bounds(targets, cells@.len() as int, cells@.len() as int);
    }
    while at < cells.len()
        invariant
            at <= cells.len(),
            targets == targets_of(cells@),
            tape.wf(),
            tape@.wf(),
            tape@ == spread(old(tape)@, targets, value, at as int),
            tape@.can_span(low, high),
            low == lowest(targets, cells@.len() as int),
            high == highest(targets, cells@.len() as int),
            low <= 0 <= high,
        decreases cells.len() - at,
    {
        let (offset, factor) = cells[at];
        proof {
            lemma_reach_bounds(targets, at as int + 1, cells@.len() as int);
            lemma_span_admits_write(tape@, low, high, offset as int, 0);
        }
        let ghost before = tape@;
        tape.add(offset, value.wrapping_mul(factor));
        proof {
            lemma_span_admits_write(
                before,
                low,
                high,
                offset as int,
                ((before.cell(offset as int) + ((value * factor) % 256) as u8) % 256) as u8,
            );
        }
        at = at + 1;
    }
    proof {
        lemma_span_admits_write(tape@, low, high, 0, 0);
    }
    tape.write(0);
}

/// Every target among the first `count` lies between the lowest and the
/// highest offset of any longer prefix, and so does 0.
pub proof fn lemma_reach_bounds(targets: Seq<(int, u8)>, count: int, all: int)
    requires
        count <= all,
    ensures
        lowest(targets, all) <= lowest(targets, count) <= 0,
        0 <= highest(targets, count) <= highest(targets, all),
        count >= 1 ==> lowest(targets, all) <= targets[count - 1].0 <= highest(targets, all),
    decreases all - count, all,
{
    if count < all {
        lemma_reach_bounds(targets, count, all - 1);
    } else if all > 0 {
        lemma_reach_bounds(targets, count - 1, all - 1);
    }
}

impl<'a> Executor<'a> {
    /// Every frame's place lies within its list, and each frame but the
    /// innermost stands at the loop whose body the next frame walks.
    pub closed spec fn wf(&self) -> bool {
        &&& self.frames@.len() >= 1
        &&& forall|i: int|
            0 <= i < self.frames@.len() ==> (#[trigger] self.frames@[i]).1 <= self.frames@[i].0@.len()
        &&& forall|i: int|
            0 <= i < self.frames@.len() - 1 ==> {
                &&& (#[trigger] self.frames@[i]).1 < self.frames@[i].0@.len()
                &&& self.frames@[i].0@[self.frames@[i].1 as int] == Command::Loop(
                    *self.frames@[i + 1].0,
                )
            }
    }

    /// A walk at the start of `commands`.
    pub fn new(commands: &'a Vec<Command>) -> (executor: Executor<'a>)
        ensures
            executor.wf(),
            executor@ == seq![Frame { body: nodes_of(commands@), at: 0 }],
    {
        let mut frames: Vec<(&'a Vec<Command>, usize)> = Vec::new();
        frames.push((commands, 0));
        let executor = Executor { frames };
        assert(executor@ =~= seq![Frame { body: nodes_of(commands@), at: 0 }]);
        executor
    }

    /// Moves the innermost frame on by one command.
    fn advance(&mut self)
        requires
            old(self).wf(),
            old(self).frames@.last().1 < old(self).frames@.last().0@.len(),
        ensures
            final(self).wf(),
            final(self)@ == advanced(old(self)@),
    {
        let depth = self.frames.len();
        let (body, at) = self.frames[depth - 1];
        let length = body.len();
        self.frames[depth - 1] = (body, at + 1);
        assert(self@ =~= advanced(old(self)@));
    }

    /// Takes one step of the walk on `tape`.
    pub fn step(&mut self, tape: &mut Tape) -> (status: Status)
        requires
            old(self).wf(),
            old(tape).wf(),
        ensures
            final(self).wf(),
            final(tape).wf(),
            final(self)@ == step(old(self)@, old(tape)@).0,
            final(tape)@ == step(old(self)@, old(tape)@).1,
            status == step(old(self)@, old(tape)@).2,
    {
        let depth = self.frames.len();
        let (body, at) = self.frames[depth - 1];
        assert(self@.last() == Frame { body: nodes_of(body@), at: at as int });
        if at >= body.len() {
            if depth == 1 {
                return Status::Halted;
            }
            if tape.read() != 0 {
                self.frames[depth - 1] = (body, 0);
                assert(self@ =~= old(self)@.drop_last().push(
                    Frame { at: 0, ..old(self)@.last() },
                ));
            } else {
                self.frames.pop();
                assert(self@ =~= old(self)@.drop_last());
                self.advance();
            }
            return Status::Running;
        }
        assert(nodes_of(body@)[at as int] == node_of(body@[at as int]));
        match &body[at] {
            Command::Loop(inner) => {
                proof {
                    lemma_loop_body(Command::Loop(*inner));
                }
                if tape.read() != 0 {
                    self.frames.push((inner, 0));
                    assert(self@ =~= old(self)@.push(Frame { body: nodes_of(inner@), at: 0 }));
                } else {
                    self.advance();
                }
                Status::Running
            },
            Command::Right(amount) => {
                if tape.can_shift(*amount) {
                    tape.right_by(*amount);
                    self.advance();
                    Status::Running
                } else {
                    Status::TapeLimit
                }
            },
            Command::Add(amount) => {
                if tape.can_write(0) {
                    tape.add(0, *amount);
                    self.advance();
                    Status::Running
                } else {
                    Status::TapeLimit
                }
            },
            Command::Input => {
                if !tape.has_input() {
                    Status::AwaitingInput
                } else if tape.can_write(0) {
                    tape.input();
                    self.advance();
                    Status::Running
                } else {
                    Status::TapeLimit
                }
            },
            Command::Output => {
                tape.output();
                self.advance();
                Status::Running
            },
            Command::Reset => {
                if tape.can_write(0) {
                    tape.write(0);
                    self.advance();
                    Status::Running
                } else {
                    Status::TapeLimit
                }
            },
            Command::ResetChunk(max_offset) => {
                if tape.can_fill(*max_offset) {
                    tape.fill(*max_offset, 0);
                    self.advance();
                    Status::Running
                } else {
                    Status::TapeLimit
                }
            },
            Command::Move(cells) => {
                let (low, high) = reach(cells);
                if tape.can_span(low, high) {
                    spread_over(tape, cells, Ghost(low as int), Ghost(high as int));
                    self.advance();
                    Status::Running
                } else {
                    Status::TapeLimit
                }
            },
        }
    }
}

/// Walks on for up to `fuel` steps and reports why it stopped: `Running` if
/// the budget was spent, and else what the last step reported.
///
/// A program that never halts is walked for as long as the caller keeps
/// calling.
pub fn execute(executor: &mut Executor, tape: &mut Tape, fuel: u64) -> (status: Status)
    requires
        old(executor).wf(),
        old(tape).wf(),
    ensures
        final(executor).wf(),
        final(tape).wf(),
        final(executor)@ == run(old(executor)@, old(tape)@, fuel as nat).0,
        final(tape)@ == run(old(executor)@, old(tape)@, fuel as nat).1,
        status == run(old(executor)@, old(tape)@, fuel as nat).2,
{
    let mut left = fuel;
    while left > 0
        invariant
            executor.wf(),
            tape.wf(),
            run(old(executor)@, old(tape)@, fuel as nat) == run(executor@, tape@, left as nat),
        decreases left,
    {
        match executor.step(tape) {
            Status::Running => {},
            other => {
                return other;
            },
        }
        left = left - 1;
    }
    Status::Running
}

} // verus!
