//! Loading: from program text to a tree of commands.
//!
//! Eight symbols mean something; every other character is a comment. Runs of
//! `<` `>` and of `+` `-` are folded into one command as they are read.
use crate::command::{coalesced, lemma_loop_body, node_of, nodes_of, Command, Node};
use vstd::prelude::*;

verus! {

/// Why a program text cannot be loaded.
#[derive(Debug, Clone, Copy, PartialEq, Eq)]
pub enum SyntaxError {
    /// A `]` stands where no loop is open.
    UnexpectedClose,
    /// The text ends inside a loop, or before the terminator asked for.
    UnexpectedEof,
}

/// The commands `done` with a pointer move by `delta` folded in: into the last
/// command if that is a move, as a new command otherwise.
pub open spec fn with_right(done: Seq<Node>, delta: int) -> Seq<Node> {
    if done.len() > 0 && done.last() is Right {
        done.drop_last().push(Node::Right(done.last()->Right_0 + delta))
    } else {
        done.push(Node::Right(delta))
    }
}

/// The commands `done` with an addition of `delta` folded in, modulo 256: into
/// the last command if that is an addition, as a new command otherwise.
pub open spec fn with_add(done: Seq<Node>, delta: u8) -> Seq<Node> {
    if done.len() > 0 && done.last() is Add {
        done.drop_last().push(Node::Add(((done.last()->Add_0 + delta) % 256) as u8))
    } else {
        done.push(Node::Add(delta))
    }
}

/// What reading `text` from place `at` yields, up to the terminator `end` (the
/// end of the text if `None`), when the commands `done` were read before:
/// the commands and the place behind the terminator, or the error.
///
/// The seven symbols `<` `>` `+` `-` `[` `.` `,` are read as commands even
/// where one of them is the terminator.
pub open spec fn parse(text: Seq<char>, at: int, end: Option<char>, done: Seq<Node>) -> Result<
    (Seq<Node>, int),
    SyntaxError,
>
    decreases text.len() - at,
{
    if at < 0 || at >= text.len() {
        if end is None {
            Ok((done, at))
        } else {
            Err(SyntaxError::UnexpectedEof)
        }
    } else {
        let symbol = text[at];
        if symbol == '<' {
            parse(text, at + 1, end, with_right(done, -1))
        } else if symbol == '>' {
            parse(text, at + 1, end, with_right(done, 1))
        } else if symbol == '+' {
            parse(text, at + 1, end, with_add(done, 1))
        } else if symbol == '-' {
            parse(text, at + 1, end, with_add(done, 255))
        } else if symbol == '[' {
            match parse(text, at + 1, Some(']'), Seq::empty()) {
                Ok((body, after)) => {
                    if at < after <= text.len() {
                        parse(text, after, end, done.push(Node::Loop(body)))
                    } else {
                        Err(SyntaxError::UnexpectedEof)
                    }
                },
                Err(error) => Err(error),
            }
        } else if symbol == '.' {
            parse(text, at + 1, end, done.push(Node::Output))
        } else if symbol == ',' {
            parse(text, at + 1, end, done.push(Node::Input))
        } else if end == Some(symbol) {
            Ok((done, at + 1))
        } else if symbol == ']' {
            Err(SyntaxError::UnexpectedClose)
        } else {
            parse(text, at + 1, end, done)
        }
    }
}

/// Reading never goes back and never passes the end of the text; reading up
/// to a terminator consumes it, and reading without one consumes everything.
pub proof fn lemma_parse_bounds(text: Seq<char>, at: int, end: Option<char>, done: Seq<Node>)
    requires
        0 <= at <= text.len(),
    ensures
        parse(text, at, end, done) matches Ok((_, after)) ==> {
            &&& at <= after <= text.len()
            &&& end is Some ==> at < after
            &&& end is None ==> after == text.len()
        },
    decreases text.len() - at,
{
    if at < text.len() {
        let symbol = text[at];
        if symbol == '<' {
            lemma_parse_bounds(text, at + 1, end, with_right(done, -1));
        } else if symbol == '>' {
            lemma_parse_bounds(text, at + 1, end, with_right(done, 1));
        } else if symbol == '+' {
            lemma_parse_bounds(text, at + 1, end, with_add(done, 1));
        } else if symbol == '-' {
            lemma_parse_bounds(text, at + 1, end, with_add(done, 255));
        } else if symbol == '[' {
            lemma_parse_bounds(text, at + 1, Some(']'), Seq::empty());
            if let Ok((body, after)) = parse(text, at + 1, Some(']'), Seq::empty()) {
                lemma_parse_bounds(text, after, end, done.push(Node::Loop(body)));
            }
        } else if symbol == '.' {
            lemma_parse_bounds(text, at + 1, end, done.push(Node::Output));
        } else if symbol == ',' {
            lemma_parse_bounds(text, at + 1, end, done.push(Node::Input));
        } else if end == Some(symbol) {
        } else if symbol == ']' {
        } else {
            lemma_parse_bounds(text, at + 1, end, done);
        }
    }
}

/// Folding a pointer move or an addition into folded commands leaves them folded.
proof fn lemma_fold_coalesced(done: Seq<Node>, delta: int, amount: u8)
    requires
        coalesced(done),
    ensures
        coalesced(with_right(done, delta)),
        coalesced(with_add(done, amount)),
{
    let moved = with_right(done, delta);
    assert forall|i: int| 0 <= i < moved.len() - 1 implies !(#[trigger] moved[i] is Right && moved[i
        + 1] is Right) && !(moved[i] is Add && moved[i + 1] is Add) by {
        if i < done.len() - 1 {
            assert(!(done[i] is Right && done[i + 1] is Right));
            assert(!(done[i] is Add && done[i + 1] is Add));
        }
    }
    assert forall|i: int| 0 <= i < moved.len() implies crate::command::coalesced_tree(
        #[trigger] moved[i],
    ) by {
        if i < done.len() {
            assert(crate::command::coalesced_tree(done[i]));
        }
    }
    let summed = with_add(done, amount);
    assert forall|i: int| 0 <= i < summed.len() - 1 implies !(#[trigger] summed[i] is Right
        && summed[i + 1] is Right) && !(summed[i] is Add && summed[i + 1] is Add) by {
        if i < done.len() - 1 {
            assert(!(done[i] is Right && done[i + 1] is Right));
            assert(!(done[i] is Add && done[i + 1] is Add));
        }
    }
    assert forall|i: int| 0 <= i < summed.len() implies crate::command::coalesced_tree(
        #[trigger] summed[i],
    ) by {
        if i < done.len() {
            assert(crate::command::coalesced_tree(done[i]));
        }
    }
}

/// Appending a command that is neither a pointer move nor an addition, and
/// whose body, if it is a loop, is folded, leaves folded commands folded.
proof fn lemma_push_coalesced(done: Seq<Node>, node: Node)
    requires
        coalesced(done),
        !(node is Right),
        !(node is Add),
        crate::command::coalesced_tree(node),
    ensures
        coalesced(done.push(node)),
{
    let all = done.push(node);
    assert forall|i: int| 0 <= i < all.len() - 1 implies !(#[trigger] all[i] is Right && all[i
        + 1] is Right) && !(all[i] is Add && all[i + 1] is Add) by {
        if i < done.len() - 1 {
            assert(!(done[i] is Right && done[i + 1] is Right));
            assert(!(done[i] is Add && done[i + 1] is Add));
        }
    }
    assert forall|i: int| 0 <= i < all.len() implies crate::command::coalesced_tree(
        #[trigger] all[i],
    ) by {
        if i < done.len() {
            assert(crate::command::coalesced_tree(done[i]));
        }
    }
}

/// What is read is folded: in the commands that `parse` yields no pointer
/// move stands next to a pointer move and no addition next to an addition, at
/// any depth, if that holds of the commands read before.
pub proof fn lemma_parse_coalesced(text: Seq<char>, at: int, end: Option<char>, done: Seq<Node>)
    requires
        0 <= at <= text.len(),
        coalesced(done),
    ensures
        parse(text, at, end, done) matches Ok((nodes, _)) ==> coalesced(nodes),
    decreases text.len() - at,
{
    if at < text.len() {
        let symbol = text[at];
        lemma_fold_coalesced(done, -1, 1);
        lemma_fold_coalesced(done, 1, 255);
        if symbol == '<' {
            lemma_parse_coalesced(text, at + 1, end, with_right(done, -1));
        } else if symbol == '>' {
            lemma_parse_coalesced(text, at + 1, end, with_right(done, 1));
        } else if symbol == '+' {
            lemma_parse_coalesced(text, at + 1, end, with_add(done, 1));
        } else if symbol == '-' {
            lemma_parse_coalesced(text, at + 1, end, with_add(done, 255));
        } else if symbol == '[' {
            assert(coalesced(Seq::<Node>::empty()));
            lemma_parse_coalesced(text, at + 1, Some(']'), Seq::empty());
            lemma_parse_bounds(text, at + 1, Some(']'), Seq::empty());
            if let Ok((body, after)) = parse(text, at + 1, Some(']'), Seq::empty()) {
                lemma_push_coalesced(done, Node::Loop(body));
                lemma_parse_coalesced(text, after, end, done.push(Node::Loop(body)));
            }
        } else if symbol == '.' {
            lemma_push_coalesced(done, Node::Output);
            lemma_parse_coalesced(text, at + 1, end, done.push(Node::Output));
        } else if symbol == ',' {
            lemma_push_coalesced(done, Node::Input);
            lemma_parse_coalesced(text, at + 1, end, done.push(Node::Input));
        } else if end == Some(symbol) {
        } else if symbol == ']' {
        } else {
            lemma_parse_coalesced(text, at + 1, end, done);
        }
    }
}

/// Program text with a reading position.
pub struct Source {
    chars: Vec<char>,
    position: usize,
}

impl Source {
    /// The position lies within the text, and the text's length is a machine integer.
    pub closed spec fn wf(&self) -> bool {
        self.position <= self.chars@.len() <= isize::MAX
    }

    /// The whole text.
    pub closed spec fn text(&self) -> Seq<char> {
        self.chars@
    }

    /// How many characters have been read.
    pub closed spec fn consumed(&self) -> int {
        self.position as int
    }

    /// A reader at the start of `chars`.
    pub fn new(chars: Vec<char>) -> (source: Source)
        requires
            chars@.len() <= isize::MAX,
        ensures
            source.wf(),
            source.text() == chars@,
            source.consumed() == 0,
    {
        Source { chars, position: 0 }
    }

    /// Reads the next character, if there is one.
    pub fn next(&mut self) -> (symbol: Option<char>)
        requires
            old(self).wf(),
        ensures
            final(self).wf(),
            final(self).text() == old(self).text(),
            0 <= old(self).consumed() <= old(self).text().len() <= isize::MAX,
            match symbol {
                Some(c) => {
                    &&& old(self).consumed() < old(self).text().len()
                    &&& c == old(self).text()[old(self).consumed()]
                    &&& final(self).consumed() == old(self).consumed() + 1
                },
                None => {
                    &&& old(self).consumed() == old(self).text().len()
                    &&& final(self).consumed() == old(self).consumed()
                },
            },
    {
        if self.position < self.chars.len() {
            let c = self.chars[self.position];
            self.position = self.position + 1;
            Some(c)
        } else {
            None
        }
    }
}

/// Folds a pointer move by `delta` into `commands`.
fn push_right(commands: &mut Vec<Command>, delta: isize, Ghost(bound): Ghost<int>)
    requires
        -1 <= delta <= 1,
        0 <= bound < isize::MAX,
        old(commands)@.len() > 0 ==> (old(commands)@.last() matches Command::Right(amount) ==> -bound
            <= amount <= bound),
    ensures
        nodes_of(final(commands)@) == with_right(nodes_of(old(commands)@), delta as int),
        final(commands)@.len() > 0,
        final(commands)@.last() matches Command::Right(amount) ==> -(bound + 1) <= amount <= bound
            + 1,
{
    let count = commands.len();
    let merged: Option<isize> = if count > 0 {
        match &commands[count - 1] {
            Command::Right(amount) => Some(*amount + delta),
            _ => None,
        }
    } else {
        None
    };
    match merged {
        Some(amount) => {
            commands[count - 1] = Command::Right(amount);
        },
        None => {
            commands.push(Command::Right(delta));
        },
    }
    assert(nodes_of(commands@) =~= with_right(nodes_of(old(commands)@), delta as int));
}

/// Folds an addition of `delta`, modulo 256, into `commands`.
fn push_add(commands: &mut Vec<Command>, delta: u8)
    ensures
        nodes_of(final(commands)@) == with_add(nodes_of(old(commands)@), delta),
        final(commands)@.len() > 0,
        !(final(commands)@.last() is Right),
{
    let count = commands.len();
    let merged: Option<u8> = if count > 0 {
        match &commands[count - 1] {
            Command::Add(amount) => Some(amount.wrapping_add(delta)),
            _ => None,
        }
    } else {
        None
    };
    match merged {
        Some(amount) => {
            commands[count - 1] = Command::Add(amount);
        },
        None => {
            commands.push(Command::Add(delta));
        },
    }
    assert(nodes_of(commands@) =~= with_add(nodes_of(old(commands)@), delta));
}

/// Appends `command`, which is no pointer move, to `commands`.
fn push_plain(commands: &mut Vec<Command>, command: Command)
    requires
        !(command is Right),
    ensures
        final(commands)@ == old(commands)@.push(command),
        nodes_of(final(commands)@) == nodes_of(old(commands)@).push(node_of(command)),
{
    commands.push(command);
    assert(nodes_of(commands@) =~= nodes_of(old(commands)@).push(node_of(command)));
}

/// Loads commands from `instructions` until the terminator `end` is read (the
/// end of the text if `None`), and returns them.
///
/// Fails with `UnexpectedClose` at a `]` that is not the terminator, and with
/// `UnexpectedEof` where the text ends before a terminator was read.
pub fn load(instructions: &mut Source, end: Option<char>) -> (result: Result<
    Vec<Command>,
    SyntaxError,
>)
    requires
        old(instructions).wf(),
    ensures
        final(instructions).wf(),
        final(instructions).text() == old(instructions).text(),
        match parse(old(instructions).text(), old(instructions).consumed(), end, Seq::empty()) {
            Ok((nodes, after)) => {
                &&& result matches Ok(commands)
                &&& nodes_of(commands@) == nodes
                &&& coalesced(nodes)
                &&& final(instructions).consumed() == after
            },
            Err(error) => result == Err::<Vec<Command>, SyntaxError>(error),
        },
    decreases old(instructions).text().len() - old(instructions).consumed(),
{
    let ghost text = instructions.text();
    let ghost start = instructions.consumed();
    proof {
        assert(coalesced(Seq::<Node>::empty()));
        lemma_parse_coalesced(text, start, end, Seq::empty());
    }
    let mut commands: Vec<Command> = Vec::new();
    assert(nodes_of(commands@) =~= Seq::empty());
    loop
        invariant
            instructions.wf(),
            instructions.text() == text,
            text == old(instructions).text(),
            start == old(instructions).consumed(),
            0 <= start <= instructions.consumed() <= text.len() <= isize::MAX,
            parse(text, start, end, Seq::empty()) == parse(
                text,
                instructions.consumed(),
                end,
                nodes_of(commands@),
            ),
            commands@.len() > 0 ==> (commands@.last() matches Command::Right(amount)
                ==> -instructions.consumed() <= amount <= instructions.consumed()),
            parse(text, start, end, Seq::empty()) matches Ok((nodes, _)) ==> coalesced(nodes),
        decreases text.len() - instructions.consumed(),
    {
        let ghost at = instructions.consumed();
        let ghost done = nodes_of(commands@);
        let symbol = match instructions.next() {
            Some(symbol) => symbol,
            None => {
                return match end {
                    None => Ok(commands),
                    Some(_) => Err(SyntaxError::UnexpectedEof),
                };
            },
        };
        let is_end = match end {
            Some(terminator) => terminator == symbol,
            None => false,
        };
        if symbol == '<' {
            push_right(&mut commands, -1, Ghost(at));
        } else if symbol == '>' {
            push_right(&mut commands, 1, Ghost(at));
        } else if symbol == '+' {
            push_add(&mut commands, 1);
        } else if symbol == '-' {
            push_add(&mut commands, u8::MAX);
        } else if symbol == '[' {
            proof {
                lemma_parse_bounds(text, at + 1, Some(']'), Seq::empty());
            }
            match load(instructions, Some(']')) {
                Ok(body) => {
                    proof {
                        lemma_loop_body(Command::Loop(body));
                    }
                    push_plain(&mut commands, Command::Loop(body));
                },
                Err(error) => {
                    return Err(error);
                },
            }
        } else if symbol == '.' {
            push_plain(&mut commands, Command::Output);
        } else if symbol == ',' {
            push_plain(&mut commands, Command::Input);
        } else if is_end {
            return Ok(commands);
        } else if symbol == ']' {
            return Err(SyntaxError::UnexpectedClose);
        }
    }
}

} // verus!
