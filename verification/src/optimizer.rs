//! The two rewriting passes, and the function that applies them to a whole tree.
//!
//! The loop pass replaces a loop whose body is one odd addition by `Reset`,
//! and a loop that only spreads its counter over other cells by `Move`. The
//! chunk pass merges a run of `Reset` commands, each one step apart from the
//! last, into one `ResetChunk` and one `Right`.
use crate::args::Args;
use crate::command::{
    all_useful, lemma_loop_body, node_of, nodes_of, targets_of, useful_tree, Command, Node,
};
use vstd::prelude::*;

verus! {

/// Where the pointer stands, counted from where the body began, before the
/// command at place `at` of `body` runs: the sum of the moves before it.
pub open spec fn offset_before(body: Seq<Node>, at: int) -> int
    decreases at,
{
    if at <= 0 {
        0
    } else {
        offset_before(body, at - 1) + match body[at - 1] {
            Node::Right(amount) => amount,
            _ => 0,
        }
    }
}

/// Whether the command at place `at` of `body` takes 1 from the cell on which
/// the body began.
pub open spec fn is_origin_decrement(body: Seq<Node>, at: int) -> bool {
    body[at] == Node::Add(255) && offset_before(body, at) == 0
}

/// How many of the first `count` commands of `body` take 1 from the cell on
/// which the body began.
pub open spec fn origin_decrements(body: Seq<Node>, count: int) -> int
    decreases count,
{
    if count <= 0 {
        0
    } else {
        origin_decrements(body, count - 1) + if is_origin_decrement(body, count - 1) {
            1int
        } else {
            0int
        }
    }
}

/// The additions among the first `count` commands of `body` that do not take
/// 1 from the cell on which the body began, in order, each with the offset at
/// which it happens.
pub open spec fn targets_before(body: Seq<Node>, count: int) -> Seq<(int, u8)>
    decreases count,
{
    if count <= 0 {
        Seq::empty()
    } else {
        let earlier = targets_before(body, count - 1);
        match body[count - 1] {
            Node::Add(amount) => if is_origin_decrement(body, count - 1) {
                earlier
            } else {
                earlier.push((offset_before(body, count - 1), amount))
            },
            _ => earlier,
        }
    }
}

/// Whether a loop with this body only moves its counter: the body holds
/// nothing but additions and pointer moves, takes 1 from the counter exactly
/// once, brings the pointer back to where it began, and never takes the
/// pointer's offset out of the machine integers on the way.
pub open spec fn is_move_body(body: Seq<Node>) -> bool {
    &&& forall|i: int| 0 <= i < body.len() ==> (#[trigger] body[i] is Add || body[i] is Right)
    &&& forall|i: int|
        0 <= i <= body.len() ==> isize::MIN <= #[trigger] offset_before(body, i) <= isize::MAX
    &&& origin_decrements(body, body.len() as int) == 1
    &&& offset_before(body, body.len() as int) == 0
}

/// The targets of the move that a loop with this body amounts to, if it is one.
pub open spec fn as_move(body: Seq<Node>) -> Option<Seq<(int, u8)>> {
    if is_move_body(body) {
        Some(targets_before(body, body.len() as int))
    } else {
        None
    }
}

/// The command that stands for a loop with this body: `Reset` for a single
/// odd addition, `Move` for a move body, the loop itself otherwise.
pub open spec fn loop_rewritten(body: Seq<Node>) -> Node {
    if body.len() == 1 && body[0].is_odd_increment() {
        Node::Reset
    } else {
        match as_move(body) {
            Some(targets) => Node::Move(targets),
            None => Node::Loop(body),
        }
    }
}

/// The count of origin decrements never goes down as more commands are counted.
pub proof fn lemma_origin_decrements_grow(body: Seq<Node>, fewer: int, more: int)
    requires
        fewer <= more,
    ensures
        origin_decrements(body, fewer) <= origin_decrements(body, more),
        0 <= origin_decrements(body, fewer),
    decreases more - fewer, more,
{
    if fewer < more {
        lemma_origin_decrements_grow(body, fewer, more - 1);
    } else if more > 0 {
        lemma_origin_decrements_grow(body, fewer - 1, more - 1);
    }
}

/// Tries to read a loop with the body `commands` as a move.
///
/// Returns the targets for `Command::Move` if the body is a move body, and
/// `None` otherwise. A cell that is added to at several places of the body
/// has as many targets.
pub fn try_optimize_as_move(commands: &Vec<Command>) -> (result: Option<Vec<(isize, u8)>>)
    ensures
        match as_move(nodes_of(commands@)) {
            Some(targets) => result matches Some(increments) && targets_of(increments@) == targets,
            None => result is None,
        },
{
    let ghost body = nodes_of(commands@);
    let mut is_origin_decremented = false;
    let mut increments: Vec<(isize, u8)> = Vec::new();
    let mut offset: isize = 0;
    let mut at: usize = 0;
    assert(targets_of(increments@) =~= targets_before(body, 0));
    while at < commands.len()
        invariant
            body == nodes_of(commands@),
            at <= commands.len(),
            offset == offset_before(body, at as int),
            forall|i: int| 0 <= i < at ==> (#[trigger] body[i] is Add || body[i] is Right),
            forall|i: int|
                0 <= i <= at ==> isize::MIN <= #[trigger] offset_before(body, i) <= isize::MAX,
            origin_decrements(body, at as int) == if is_origin_decremented {
                1int
            } else {
                0int
            },
            targets_of(increments@) == targets_before(body, at as int),
        decreases commands.len() - at,
    {
        let ghost earlier = increments@;
        assert(body[at as int] == node_of(commands@[at as int]));
        match &commands[at] {
            Command::Add(amount) => {
                if *amount == u8::MAX && offset == 0 {
                    if is_origin_decremented {
                        proof {
                            lemma_origin_decrements_grow(body, at + 1, body.len() as int);
                        }
                        return None;
                    } else {
                        is_origin_decremented = true;
                    }
                } else {
                    increments.push((offset, *amount));
                    assert(targets_of(increments@) =~= targets_of(earlier).push(
                        (offset as int, *amount),
                    ));
                }
            },
            Command::Right(amount) => {
                match offset.checked_add(*amount) {
                    Some(moved) => {
                        offset = moved;
                    },
                    None => {
                        assert(!(isize::MIN <= offset_before(body, at + 1) <= isize::MAX));
                        return None;
                    },
                }
            },
            _ => {
                return None;
            },
        }
        at = at + 1;
    }
    if is_origin_decremented && offset == 0 {
        Some(increments)
    } else {
        None
    }
}

/// Returns a command that does what a loop with the body `commands` does.
pub fn optimize_loop(commands: Vec<Command>) -> (result: Command)
    ensures
        node_of(result) == loop_rewritten(nodes_of(commands@)),
{
    if commands.len() == 1 && commands[0].is_odd_increment() {
        return Command::Reset;
    }
    match try_optimize_as_move(&commands) {
        Some(increments) => Command::Move(increments),
        None => {
            proof {
                lemma_loop_body(Command::Loop(commands));
            }
            Command::Loop(commands)
        },
    }
}

/// Where the chunk pass stands in a run of resets.
///
/// The offset counts the steps taken since the run's first reset; its sign is
/// the run's direction.
pub enum Scan {
    /// No run is open.
    Idle,
    /// The cell at the offset was just reset; a step in the run's direction
    /// (either direction at offset 0) would continue the run.
    ExpectStep(int),
    /// A step just led to the offset; a reset would continue the run.
    ExpectReset(int),
}

/// -1, 0 or 1 as `k` is negative, zero or positive.
pub open spec fn sign(k: int) -> int {
    if k > 0 {
        1
    } else if k < 0 {
        -1
    } else {
        0
    }
}

/// What stands for the run when it ends in `state`: nothing where no run is
/// open, one `Reset` at offset 0, and else a `ResetChunk` to the cell one step
/// short of the offset, followed by a `Right` to the offset.
pub open spec fn flushed(state: Scan) -> Seq<Node> {
    match state {
        Scan::Idle => Seq::empty(),
        Scan::ExpectStep(k) | Scan::ExpectReset(k) => if k == 0 {
            seq![Node::Reset]
        } else {
            seq![Node::ResetChunk(k - sign(k)), Node::Right(k)]
        },
    }
}

/// Whether `node` opens a run or continues the one open in `state`.
///
/// A step continues a run only while the offset stays a machine integer.
pub open spec fn continues(state: Scan, node: Node) -> bool {
    match state {
        Scan::Idle => node is Reset,
        Scan::ExpectStep(k) => match node {
            Node::Right(step) => {
                &&& if k == 0 {
                    step == 1 || step == -1
                } else {
                    step == sign(k)
                }
                &&& isize::MIN <= k + step <= isize::MAX
            },
            _ => false,
        },
        Scan::ExpectReset(_) => node is Reset,
    }
}

/// The state after `node`, and what is put out on reading it.
///
/// A node that continues the run puts out nothing. Any other node ends the
/// run: what stands for the run is put out, and the node is then read with no
/// run open, where a `Reset` opens a new run and any other node is put out
/// unchanged.
pub open spec fn scan_step(state: Scan, node: Node) -> (Scan, Seq<Node>) {
    if continues(state, node) {
        (
            match state {
                Scan::Idle => Scan::ExpectStep(0),
                Scan::ExpectStep(k) => Scan::ExpectReset(k + node->Right_0),
                Scan::ExpectReset(k) => Scan::ExpectStep(k),
            },
            Seq::empty(),
        )
    } else if node is Reset {
        (Scan::ExpectStep(0), flushed(state))
    } else {
        (Scan::Idle, flushed(state).push(node))
    }
}

/// What the chunk pass puts out for `nodes` from place `at` on, when it
/// stands in `state` and has put out `out` so far.
pub open spec fn scan(nodes: Seq<Node>, at: int, state: Scan, out: Seq<Node>) -> Seq<Node>
    decreases nodes.len() - at,
{
    if at < 0 || at >= nodes.len() {
        out + flushed(state)
    } else {
        let (next, emitted) = scan_step(state, nodes[at]);
        scan(nodes, at + 1, next, out + emitted)
    }
}

/// What the chunk pass makes of `nodes`. Loop bodies are left as they are.
pub open spec fn chunk_resets(nodes: Seq<Node>) -> Seq<Node> {
    scan(nodes, 0, Scan::Idle, Seq::empty())
}

/// The state of the chunk pass while it runs.
#[derive(Clone, Copy)]
enum State {
    OutsideChunk,
    ExpectReset(isize),
    ExpectRight(isize),
}

impl State {
    spec fn model(self) -> Scan {
        match self {
            State::OutsideChunk => Scan::Idle,
            State::ExpectReset(offset) => Scan::ExpectReset(offset as int),
            State::ExpectRight(offset) => Scan::ExpectStep(offset as int),
        }
    }

}

/// -1, 0 or 1 as `k` is negative, zero or positive.
fn signum(k: isize) -> (s: isize)
    ensures
        s == sign(k as int),
{
    if k > 0 {
        1
    } else if k < 0 {
        -1
    } else {
        0
    }
}

/// The state that follows `state` if `command` opens or continues a run.
fn continued(state: State, command: &Command) -> (next: Option<State>)
    ensures
        match next {
            Some(follow) => {
                &&& continues(state.model(), node_of(*command))
                &&& follow.model() == scan_step(state.model(), node_of(*command)).0
            },
            None => !continues(state.model(), node_of(*command)),
        },
{
    match state {
        State::OutsideChunk => match command {
            Command::Reset => Some(State::ExpectRight(0)),
            _ => None,
        },
        State::ExpectRight(offset) => match command {
            Command::Right(step) => {
                let matches = if offset == 0 {
                    *step == 1 || *step == -1
                } else {
                    *step == signum(offset)
                };
                if matches {
                    match offset.checked_add(*step) {
                        Some(moved) => Some(State::ExpectReset(moved)),
                        None => None,
                    }
                } else {
                    None
                }
            },
            _ => None,
        },
        State::ExpectReset(offset) => match command {
            Command::Reset => Some(State::ExpectRight(offset)),
            _ => None,
        },
    }
}

/// Puts out what stands for the run that ends in `state`.
fn flush(out: &mut Vec<Command>, state: State)
    ensures
        nodes_of(final(out)@) == nodes_of(old(out)@) + flushed(state.model()),
{
    match state {
        State::OutsideChunk => {},
        State::ExpectReset(offset) | State::ExpectRight(offset) => {
            if offset == 0 {
                out.push(Command::Reset);
            } else {
                out.push(Command::ResetChunk(offset - signum(offset)));
                out.push(Command::Right(offset));
            }
        },
    }
    assert(nodes_of(out@) =~= nodes_of(old(out)@) + flushed(state.model()));
}

/// Merges each run of resets in `commands` into a chunk reset. Loop bodies
/// are left as they are.
pub fn optimize_chunk_resets(commands: Vec<Command>) -> (result: Vec<Command>)
    ensures
        nodes_of(result@) == chunk_resets(nodes_of(commands@)),
{
    let ghost nodes = nodes_of(commands@);
    let mut optimized_commands: Vec<Command> = Vec::new();
    let mut state = State::OutsideChunk;
    assert(nodes_of(optimized_commands@) =~= Seq::empty());
    for command in iter: commands.into_iter()
        invariant
            iter.seq() == commands@,
            nodes == nodes_of(commands@),
            chunk_resets(nodes) == scan(
                nodes,
                iter.index() as int,
                state.model(),
                nodes_of(optimized_commands@),
            ),
    {
        let ghost before = nodes_of(optimized_commands@);
        let ghost previous = state.model();
        assert(nodes[iter.index() as int] == node_of(command));
        match continued(state, &command) {
            Some(next) => {
                state = next;
                assert(before + Seq::<Node>::empty() =~= before);
            },
            None => {
                flush(&mut optimized_commands, state);
                match command {
                    Command::Reset => {
                        state = State::ExpectRight(0);
                    },
                    other => {
                        let ghost node = node_of(other);
                        let ghost flushed_out = nodes_of(optimized_commands@);
                        optimized_commands.push(other);
                        state = State::OutsideChunk;
                        assert(nodes_of(optimized_commands@) =~= flushed_out.push(node));
                        assert(flushed_out.push(node) =~= before + flushed(previous).push(node));
                    },
                }
            },
        }
    }
    flush(&mut optimized_commands, state);
    optimized_commands
}

/// The predicate that holds of the useful nodes.
pub open spec fn useful() -> spec_fn(Node) -> bool {
    |node: Node| node.is_useful()
}

/// What the optimizer makes of one node: a loop has its body optimized and,
/// if `loops` is set, is then rewritten; any other node stays.
pub open spec fn optimized_node(node: Node, loops: bool, chunks: bool) -> Node
    decreases node, 0int,
{
    match node {
        Node::Loop(body) => {
            let inner = optimized(body, loops, chunks);
            if loops {
                loop_rewritten(inner)
            } else {
                Node::Loop(inner)
            }
        },
        _ => node,
    }
}

/// The nodes of `nodes`, each as the optimizer makes it.
pub open spec fn rewritten(nodes: Seq<Node>, loops: bool, chunks: bool) -> Seq<Node>
    decreases nodes, 0int,
{
    Seq::new(
        nodes.len(),
        |i: int|
            if 0 <= i < nodes.len() {
                optimized_node(nodes[i], loops, chunks)
            } else {
                Node::Reset
            },
    )
}

/// What the optimizer makes of `nodes`: each node is optimized, the nodes
/// that do nothing are dropped, and, if `chunks` is set, the chunk pass runs
/// over what is left.
pub open spec fn optimized(nodes: Seq<Node>, loops: bool, chunks: bool) -> Seq<Node>
    decreases nodes, 1int,
{
    let kept = rewritten(nodes, loops, chunks).filter(useful());
    if chunks {
        chunk_resets(kept)
    } else {
        kept
    }
}

/// The chunk pass puts out no node that does nothing, if it reads none.
proof fn lemma_scan_useful(nodes: Seq<Node>, at: int, state: Scan, out: Seq<Node>)
    requires
        0 <= at <= nodes.len(),
        all_useful(nodes),
        all_useful(out),
    ensures
        all_useful(scan(nodes, at, state, out)),
    decreases nodes.len() - at,
{
    let last = flushed(state);
    assert(all_useful(last)) by {
        assert forall|i: int| 0 <= i < last.len() implies useful_tree(#[trigger] last[i]) by {}
    }
    if at >= nodes.len() {
        let all = out + last;
        assert forall|i: int| 0 <= i < all.len() implies useful_tree(#[trigger] all[i]) by {
            if i < out.len() {
                assert(useful_tree(out[i]));
            } else {
                assert(useful_tree(last[i - out.len()]));
            }
        }
    } else {
        let (next, emitted) = scan_step(state, nodes[at]);
        assert(useful_tree(nodes[at]));
        let all = out + emitted;
        assert forall|i: int| 0 <= i < all.len() implies useful_tree(#[trigger] all[i]) by {
            if i < out.len() {
                assert(useful_tree(out[i]));
            } else if i - out.len() < last.len() {
                assert(useful_tree(last[i - out.len()]));
            }
        }
        lemma_scan_useful(nodes, at + 1, next, all);
    }
}

/// What the optimizer makes of a node is a loop only with a body in which no
/// node does nothing.
proof fn lemma_optimized_node_useful(node: Node, loops: bool, chunks: bool)
    ensures
        ({
            let made = optimized_node(node, loops, chunks);
            made.is_useful() ==> useful_tree(made)
        }),
    decreases node, 0int,
{
    match node {
        Node::Loop(body) => {
            lemma_optimized_useful(body, loops, chunks);
        },
        _ => {},
    }
}

/// In what the optimizer makes of a list of nodes, no node does nothing: no
/// pointer move by 0 and no addition of 0 is left, at any depth.
pub proof fn lemma_optimized_useful(nodes: Seq<Node>, loops: bool, chunks: bool)
    ensures
        all_useful(optimized(nodes, loops, chunks)),
    decreases nodes, 1int,
{
    let made = rewritten(nodes, loops, chunks);
    let kept = made.filter(useful());
    assert forall|i: int| 0 <= i < kept.len() implies useful_tree(#[trigger] kept[i]) by {
        made.lemma_filter_pred(useful(), i);
        assert(kept.contains(kept[i]));
        made.lemma_filter_contains_rev(useful(), kept[i]);
        let j = choose|j: int| 0 <= j < made.len() && made[j] == kept[i];
        lemma_optimized_node_useful(nodes[j], loops, chunks);
    }
    if chunks {
        assert(all_useful(Seq::<Node>::empty()));
        lemma_scan_useful(kept, 0, Scan::Idle, Seq::empty());
    }
}

/// Returns commands that do what `commands` do, rewritten as the two
/// optimization switches of `args` say. Loop bodies are optimized whether or
/// not their loops are rewritten.
pub fn optimize(commands: Vec<Command>, args: &Args) -> (result: Vec<Command>)
    ensures
        nodes_of(result@) == optimized(
            nodes_of(commands@),
            args.optimize_loops,
            args.optimize_chunk_resets,
        ),
        all_useful(nodes_of(result@)),
    decreases commands,
{
    let ghost nodes = nodes_of(commands@);
    proof {
        lemma_optimized_useful(nodes, args.optimize_loops, args.optimize_chunk_resets);
    }
    let ghost target = rewritten(nodes, args.optimize_loops, args.optimize_chunk_resets);
    let mut kept: Vec<Command> = Vec::new();
    proof {
        reveal(Seq::filter);
        assert(target.take(0) =~= Seq::empty());
        assert(nodes_of(kept@) =~= target.take(0).filter(useful()));
    }
    for command in iter: commands.into_iter()
        invariant
            iter.seq() == commands@,
            nodes == nodes_of(commands@),
            target == rewritten(nodes, args.optimize_loops, args.optimize_chunk_resets),
            nodes_of(kept@) == target.take(iter.index() as int).filter(useful()),
    {
        let ghost at = iter.index() as int;
        let ghost before = nodes_of(kept@);
        assert(nodes[at] == node_of(command));
        let replacement = match command {
            Command::Loop(content) => {
                proof {
                    lemma_loop_body(Command::Loop(content));
                }
                let inner = optimize(content, args);
                if args.optimize_loops {
                    optimize_loop(inner)
                } else {
                    proof {
                        lemma_loop_body(Command::Loop(inner));
                    }
                    Command::Loop(inner)
                }
            },
            other => other,
        };
        assert(node_of(replacement) == target[at]);
        if replacement.is_useful() {
            kept.push(replacement);
        }
        proof {
            reveal(Seq::filter);
            assert(target.take(at + 1).drop_last() =~= target.take(at));
            assert(target.take(at + 1).last() == target[at]);
            assert(nodes_of(kept@) =~= target.take(at + 1).filter(useful()));
        }
    }
    proof {
        assert(target.take(commands@.len() as int) =~= target);
    }
    if args.optimize_chunk_resets {
        optimize_chunk_resets(kept)
    } else {
        kept
    }
}

} // verus!
