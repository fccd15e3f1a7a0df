//! The intermediate representation: a tree of commands, and its mathematical model.
use vstd::prelude::*;

verus! {

/// A command of the intermediate representation.
///
/// One command stands for a run of source symbols, so that it can be carried
/// out in less time than the symbols one by one.
#[derive(Debug, PartialEq, Eq)]
pub enum Command {
    /// Moves the pointer to the right by the amount (to the left if negative).
    Right(isize),
    /// Adds the amount to the current cell, modulo 256.
    Add(u8),
    /// Repeats the body until the current cell is 0.
    Loop(Vec<Command>),
    /// Stores the next input byte in the current cell.
    Input,
    /// Emits the current cell.
    Output,
    /// Sets the current cell to 0.
    Reset,
    /// Sets to 0 every cell between the current cell and the cell at the given
    /// offset from it, both included.
    ResetChunk(isize),
    /// For each `(offset, factor)`, adds `factor` times the current cell to the
    /// cell at `offset` from it; then sets the current cell to 0. The pointer
    /// stays where it is.
    Move(Vec<(isize, u8)>),
}

/// The model of a [`Command`]: the same tree over unbounded integers and sequences.
pub enum Node {
    Right(int),
    Add(u8),
    Loop(Seq<Node>),
    Input,
    Output,
    Reset,
    ResetChunk(int),
    Move(Seq<(int, u8)>),
}

/// The model of a list of move targets.
pub open spec fn targets_of(targets: Seq<(isize, u8)>) -> Seq<(int, u8)> {
    Seq::new(targets.len(), |i: int| (targets[i].0 as int, targets[i].1))
}

/// The model of one command.
pub open spec fn node_of(command: Command) -> Node
    decreases command,
{
    match command {
        Command::Right(amount) => Node::Right(amount as int),
        Command::Add(amount) => Node::Add(amount),
        Command::Loop(body) => Node::Loop(
            Seq::new(
                body@.len(),
                |i: int|
                    if 0 <= i < body@.len() {
                        node_of(body@[i])
                    } else {
                        Node::Reset
                    },
            ),
        ),
        Command::Input => Node::Input,
        Command::Output => Node::Output,
        Command::Reset => Node::Reset,
        Command::ResetChunk(max_offset) => Node::ResetChunk(max_offset as int),
        Command::Move(targets) => Node::Move(targets_of(targets@)),
    }
}

/// The model of a list of commands, element by element.
pub open spec fn nodes_of(commands: Seq<Command>) -> Seq<Node> {
    Seq::new(commands.len(), |i: int| node_of(commands[i]))
}

impl View for Command {
    type V = Node;

    open spec fn view(&self) -> Node {
        node_of(*self)
    }
}

impl Node {
    /// A node is useful unless it does nothing: a move by 0 or an addition of 0.
    pub open spec fn is_useful(self) -> bool {
        match self {
            Node::Right(amount) => amount != 0,
            Node::Add(amount) => amount != 0,
            _ => true,
        }
    }

    /// Whether the node adds an odd amount to the current cell.
    pub open spec fn is_odd_increment(self) -> bool {
        match self {
            Node::Add(amount) => amount % 2 == 1,
            _ => false,
        }
    }
}

/// Whether no node of the tree does nothing: there is no pointer move by 0
/// and no addition of 0, in the list or in any loop body below it.
pub open spec fn all_useful(nodes: Seq<Node>) -> bool
    decreases nodes, 1int,
{
    forall|i: int| 0 <= i < nodes.len() ==> useful_tree(#[trigger] nodes[i])
}

/// Whether the node is useful and, if it is a loop, no node of its body does nothing.
pub open spec fn useful_tree(node: Node) -> bool
    decreases node, 0int,
{
    &&& node.is_useful()
    &&& match node {
        Node::Loop(body) => all_useful(body),
        _ => true,
    }
}

/// Whether runs are folded: no pointer move stands next to a pointer move, and
/// no addition next to an addition, in the list or in any loop body below it.
pub open spec fn coalesced(nodes: Seq<Node>) -> bool
    decreases nodes, 1int,
{
    &&& forall|i: int|
        0 <= i < nodes.len() - 1 ==> !(#[trigger] nodes[i] is Right && nodes[i + 1] is Right) && !(
        nodes[i] is Add && nodes[i + 1] is Add)
    &&& forall|i: int| 0 <= i < nodes.len() ==> coalesced_tree(#[trigger] nodes[i])
}

/// Whether, if the node is a loop, runs are folded in its body.
pub open spec fn coalesced_tree(node: Node) -> bool
    decreases node, 0int,
{
    match node {
        Node::Loop(body) => coalesced(body),
        _ => true,
    }
}

/// The body of a loop command has the model that the loop's node holds.
pub proof fn lemma_loop_body(command: Command)
    ensures
        command matches Command::Loop(body) ==> node_of(command) == Node::Loop(nodes_of(body@)),
{
    if let Command::Loop(body) = command {
        assert(node_of(command)->Loop_0 =~= nodes_of(body@));
    }
}

impl Command {
    /// Tests whether this command is useful, that is, not the same as doing nothing.
    pub fn is_useful(&self) -> (useful: bool)
        ensures
            useful == self@.is_useful(),
    {
        match self {
            Command::Right(amount) => *amount != 0,
            Command::Add(amount) => *amount != 0,
            _ => true,
        }
    }

    /// Tests whether this command increments the current cell by an odd amount.
    pub fn is_odd_increment(&self) -> (odd: bool)
        ensures
            odd == self@.is_odd_increment(),
    {
        match self {
            Command::Add(amount) => *amount % 2 == 1,
            _ => false,
        }
    }
}

} // verus!
