//! What the rewrites of the optimizer mean on the tape.
//!
//! A loop whose body holds no loop and no input can be followed round by
//! round. This module states what such a loop does, and proves that the
//! command the loop pass puts in its place does the same, and that the two
//! commands the chunk pass puts in place of a walk of resets do what the walk
//! does.
use crate::command::Node;
use crate::executor::{effect, moved, spread};
use crate::optimizer::{
    chunk_resets, flushed, is_move_body, offset_before, origin_decrements, scan, scan_step,
    targets_before, Scan,
};
use crate::tape::TapeView;
use vstd::prelude::*;

verus! {

/// The tape after the first `count` of `nodes` were carried out on it, in order.
pub open spec fn effect_all(nodes: Seq<Node>, tape: TapeView, count: int) -> TapeView
    decreases count,
{
    if count <= 0 {
        tape
    } else {
        effect(nodes[count - 1], effect_all(nodes, tape, count - 1))
    }
}

/// The tape after a loop with the given body has run on it: the body is
/// carried out as long as the current cell is not 0. `None` if the loop is
/// still running after `rounds` rounds.
pub open spec fn looped(body: Seq<Node>, tape: TapeView, rounds: nat) -> Option<TapeView>
    decreases rounds,
{
    if tape.current() == 0 {
        Some(tape)
    } else if rounds == 0 {
        None
    } else {
        looped(body, effect_all(body, tape, body.len() as int), (rounds - 1) as nat)
    }
}

/// For an odd `amount`, a number of additions of it that brings `value` to 0
/// modulo 256.
proof fn rounds_to_zero(value: u8, amount: u8) -> (rounds: nat)
    requires
        amount % 2 == 1,
    ensures
        rounds <= 255,
        (value + rounds * amount) % 256 == 0,
{
    let k: u32 = amount as u32;
    let v: u32 = value as u32;
    let x2: u32 = ((k * ((65538 - (k * k) % 256) as u32)) % 256) as u32;
    let x3: u32 = ((x2 * ((65538 - (k * x2) % 256) as u32)) % 256) as u32;
    let n: u32 = ((((256 - v) as u32) * x3) % 256) as u32;
    assert(k < 256 && v < 256 && k % 2 == 1 ==> {
        let x2: u32 = ((k * ((65538 - (k * k) % 256) as u32)) % 256) as u32;
        let x3: u32 = ((x2 * ((65538 - (k * x2) % 256) as u32)) % 256) as u32;
        let n: u32 = ((((256 - v) as u32) * x3) % 256) as u32;
        n < 256 && (v + n * k) % 256 == 0
    }) by (bit_vector);
    n as nat
}

/// If `needed` additions of `amount` bring a value other than 0 to 0, then
/// `needed` is not 0, and one addition fewer brings the next value to 0.
proof fn lemma_one_round_less(value: int, amount: int, needed: int)
    requires
        0 < value < 256,
        0 <= needed,
        (value + needed * amount) % 256 == 0,
    ensures
        1 <= needed,
        ((value + amount) % 256 + (needed - 1) * amount) % 256 == 0,
{
    if needed == 0 {
        assert(needed * amount == 0) by (nonlinear_arith)
            requires
                needed == 0,
        ;
    }
    assert((needed - 1) * amount == needed * amount - amount) by (nonlinear_arith);
}

/// A loop that only adds `amount` ends once the additions have brought the
/// cell to 0, and has then done what a reset does.
proof fn lemma_add_loop(tape: TapeView, amount: u8, needed: nat, rounds: nat)
    requires
        tape.is_total(),
        needed <= rounds,
        (tape.current() + needed * amount) % 256 == 0,
    ensures
        looped(seq![Node::Add(amount)], tape, rounds) matches Some(after) && after.same_content(
            effect(Node::Reset, tape),
        ),
    decreases rounds,
{
    let body = seq![Node::Add(amount)];
    if tape.current() == 0 {
        assert(tape.cells =~= effect(Node::Reset, tape).cells);
    } else {
        lemma_one_round_less(tape.current() as int, amount as int, needed as int);
        assert(effect_all(body, tape, 0) == tape);
        let next = effect_all(body, tape, 1);
        assert(next == tape.added(0, amount));
        assert(next.current() == (tape.current() + amount) % 256);
        lemma_add_loop(next, amount, (needed - 1) as nat, (rounds - 1) as nat);
        assert(effect(Node::Reset, next).cells =~= effect(Node::Reset, tape).cells);
    }
}

/// A loop whose body is one odd addition ends within 255 rounds, whatever the
/// current cell holds, and leaves the tape as `Reset` does.
pub proof fn lemma_reset_idiom(tape: TapeView, amount: u8)
    requires
        tape.wf(),
        amount % 2 == 1,
    ensures
        looped(seq![Node::Add(amount)], tape, 255) matches Some(after) && after.same_content(
            effect(Node::Reset, tape),
        ),
{
    let needed = rounds_to_zero(tape.current(), amount);
    lemma_add_loop(tape, amount, needed, 255);
}

/// The sum of the factors of those of the first `count` targets that have
/// the offset `offset`.
pub open spec fn share_at(targets: Seq<(int, u8)>, count: int, offset: int) -> int
    decreases count,
{
    if count <= 0 {
        0
    } else {
        share_at(targets, count - 1, offset) + if targets[count - 1].0 == offset {
            targets[count - 1].1 as int
        } else {
            0
        }
    }
}

/// The sum of the amounts that the first `count` commands of `body` add at
/// the offset `offset` from where the body began.
pub open spec fn added_at(body: Seq<Node>, count: int, offset: int) -> int
    decreases count,
{
    if count <= 0 {
        0
    } else {
        added_at(body, count - 1, offset) + match body[count - 1] {
            Node::Add(amount) => if offset_before(body, count - 1) == offset {
                amount as int
            } else {
                0
            },
            _ => 0,
        }
    }
}

/// The shares of a list of targets do not depend on what follows the targets counted.
proof fn lemma_share_prefix(targets: Seq<(int, u8)>, more: (int, u8), count: int, offset: int)
    requires
        count <= targets.len(),
    ensures
        share_at(targets.push(more), count, offset) == share_at(targets, count, offset),
    decreases count,
{
    if count > 0 {
        lemma_share_prefix(targets, more, count - 1, offset);
    }
}

/// What a body adds at an offset is what its targets share out there, and at
/// offset 0 also 255 for each time it takes 1 from the cell on which it began.
proof fn lemma_added_split(body: Seq<Node>, count: int, offset: int)
    requires
        0 <= count <= body.len(),
    ensures
        added_at(body, count, offset) == share_at(
            targets_before(body, count),
            targets_before(body, count).len() as int,
            offset,
        ) + if offset == 0 {
            255 * origin_decrements(body, count)
        } else {
            0
        },
    decreases count,
{
    if count > 0 {
        lemma_added_split(body, count - 1, offset);
        let earlier = targets_before(body, count - 1);
        match body[count - 1] {
            Node::Add(amount) => {
                if !(amount == 255 && offset_before(body, count - 1) == 0) {
                    let target = (offset_before(body, count - 1), amount);
                    lemma_share_prefix(earlier, target, earlier.len() as int, offset);
                    assert(earlier.push(target).len() == earlier.len() + 1);
                    assert(earlier.push(target)[earlier.len() as int] == target);
                }
            },
            _ => {},
        }
    }
}

/// `((held + share) % 256 + (value - 1) * share) % 256` is `(held + value * share) % 256`.
proof fn lemma_share_rounds(held: int, share: int, value: int)
    ensures
        ((held + share) % 256 + (value - 1) * share) % 256 == (held + value * share) % 256,
{
    assert((value - 1) * share == value * share - share) by (nonlinear_arith);
}

/// After the first `count` targets had their share, each cell holds what it
/// held plus `value` times the factors of the targets at its offset; nothing
/// else has changed.
proof fn lemma_spread(tape: TapeView, targets: Seq<(int, u8)>, value: u8, count: int, index: int)
    requires
        0 <= count <= targets.len(),
        tape.is_total(),
    ensures
        ({
            let after = spread(tape, targets, value, count);
            &&& after.is_total()
            &&& after.cursor == tape.cursor
            &&& after.input == tape.input
            &&& after.output == tape.output
            &&& after.mode == tape.mode
            &&& after.cells[index] == (tape.cells[index] + value * share_at(
                targets,
                count,
                index - tape.cursor,
            )) % 256
        }),
    decreases count,
{
    if count > 0 {
        lemma_spread(tape, targets, value, count - 1, index);
        let before = spread(tape, targets, value, count - 1);
        let offset = targets[count - 1].0;
        let factor = targets[count - 1].1;
        let share = share_at(targets, count - 1, index - tape.cursor);
        let after = spread(tape, targets, value, count);
        assert(after == before.added(offset, ((value * factor) % 256) as u8));
        assert(value * (share + factor) == value * share + value * factor) by (nonlinear_arith);
        if tape.cursor + offset == index {
            assert(after.cells[index] == (before.cells[index] + (value * factor) % 256) % 256);
        }
    } else {
        assert(value * 0 == 0) by (nonlinear_arith);
    }
}

/// After the first `count` commands of a body of additions and pointer moves,
/// the pointer has moved by the sum of the moves, each cell holds what it held
/// plus what was added at its offset, and nothing else has changed.
proof fn lemma_pass(body: Seq<Node>, tape: TapeView, count: int, index: int)
    requires
        0 <= count <= body.len(),
        forall|i: int| 0 <= i < count ==> (#[trigger] body[i] is Add || body[i] is Right),
        tape.is_total(),
    ensures
        ({
            let after = effect_all(body, tape, count);
            &&& after.is_total()
            &&& after.cursor == tape.cursor + offset_before(body, count)
            &&& after.input == tape.input
            &&& after.output == tape.output
            &&& after.mode == tape.mode
            &&& after.cells[index] == (tape.cells[index] + added_at(
                body,
                count,
                index - tape.cursor,
            )) % 256
        }),
    decreases count,
{
    if count > 0 {
        lemma_pass(body, tape, count - 1, index);
        assert(body[count - 1] is Add || body[count - 1] is Right);
    }
}

/// A loop with a move body whose targets leave its counter alone ends after
/// as many rounds as the counter holds, and has then done what the move does.
proof fn lemma_move_loop(body: Seq<Node>, targets: Seq<(int, u8)>, tape: TapeView, rounds: nat)
    requires
        is_move_body(body),
        targets == targets_before(body, body.len() as int),
        share_at(targets, targets.len() as int, 0) % 256 == 0,
        tape.is_total(),
        tape.current() <= rounds,
    ensures
        looped(body, tape, rounds) matches Some(after) && after.same_content(moved(tape, targets)),
    decreases rounds,
{
    let count = targets.len() as int;
    let value = tape.current();
    let goal = moved(tape, targets);
    lemma_spread(tape, targets, value, count, tape.cursor);
    if value == 0 {
        assert forall|i: int| goal.cells[i] == tape.cells[i] by {
            lemma_spread(tape, targets, value, count, i);
            assert(value * share_at(targets, count, i - tape.cursor) == 0) by (nonlinear_arith)
                requires
                    value == 0,
            ;
        }
        assert(goal.cells =~= tape.cells);
    } else {
        let next = effect_all(body, tape, body.len() as int);
        lemma_pass(body, tape, body.len() as int, tape.cursor);
        lemma_added_split(body, body.len() as int, 0);
        assert(next.current() == value - 1);
        lemma_move_loop(body, targets, next, (rounds - 1) as nat);
        let after = looped(body, next, (rounds - 1) as nat)->Some_0;
        let other = moved(next, targets);
        lemma_spread(next, targets, next.current(), count, next.cursor);
        assert forall|i: int| other.cells[i] == goal.cells[i] by {
            lemma_spread(tape, targets, value, count, i);
            lemma_spread(next, targets, next.current(), count, i);
            lemma_pass(body, tape, body.len() as int, i);
            lemma_added_split(body, body.len() as int, i - tape.cursor);
            if i != tape.cursor {
                lemma_share_rounds(
                    tape.cells[i] as int,
                    share_at(targets, count, i - tape.cursor),
                    value as int,
                );
            }
        }
        assert(other.cells =~= goal.cells);
    }
}

/// A loop with a move body ends after as many rounds as its counter holds and
/// leaves the tape as `Move` with the body's targets does, provided that the
/// factors of the targets at offset 0 add up to 0 modulo 256, so that a round
/// takes exactly 1 from the counter.
pub proof fn lemma_move_idiom(body: Seq<Node>, tape: TapeView)
    requires
        tape.wf(),
        is_move_body(body),
        share_at(
            targets_before(body, body.len() as int),
            targets_before(body, body.len() as int).len() as int,
            0,
        ) % 256 == 0,
    ensures
        looped(body, tape, tape.current() as nat) matches Some(after) && after.same_content(
            effect(Node::Move(targets_before(body, body.len() as int)), tape),
        ),
{
    lemma_move_loop(body, targets_before(body, body.len() as int), tape, tape.current() as nat);
}

/// `count` steps in the direction `direction`: `count` if that is positive,
/// `-count` otherwise.
pub open spec fn steps(direction: int, count: int) -> int {
    if direction > 0 {
        count
    } else {
        -count
    }
}

/// A walk of resets over `cells` cells: a reset, then one step in the
/// direction `direction`, and so on, ending with a step.
pub open spec fn reset_walk(direction: int, cells: int) -> Seq<Node> {
    Seq::new(
        (2 * cells) as nat,
        |i: int|
            if i % 2 == 0 {
                Node::Reset
            } else {
                Node::Right(steps(direction, 1))
            },
    )
}

/// The two commands that stand for a walk of resets over `cells` cells.
pub open spec fn reset_chunk(direction: int, cells: int) -> Seq<Node> {
    seq![Node::ResetChunk(steps(direction, cells - 1)), Node::Right(steps(direction, cells))]
}

/// From the step that follows the `done`-th reset on, the chunk pass reads
/// the rest of a walk of resets without putting anything out until the end.
proof fn lemma_scan_walk(direction: int, cells: int, done: int)
    requires
        1 <= done <= cells <= isize::MAX,
    ensures
        scan(
            reset_walk(direction, cells),
            2 * done,
            Scan::ExpectReset(steps(direction, done)),
            Seq::empty(),
        ) == reset_chunk(direction, cells),
    decreases cells - done,
{
    let walk = reset_walk(direction, cells);
    let state = Scan::ExpectReset(steps(direction, done));
    let nothing = Seq::<Node>::empty();
    if done == cells {
        assert(nothing + flushed(state) =~= reset_chunk(direction, cells));
    } else {
        assert(nothing + nothing =~= nothing);
        assert(walk[2 * done] == Node::Reset);
        assert(walk[2 * done + 1] == Node::Right(steps(direction, 1)));
        let waiting = Scan::ExpectStep(steps(direction, done));
        assert(scan_step(state, walk[2 * done]) == (waiting, nothing));
        assert(scan_step(waiting, walk[2 * done + 1]) == (
            Scan::ExpectReset(steps(direction, done + 1)),
            nothing,
        ));
        assert(scan(walk, 2 * done, state, nothing) == scan(walk, 2 * done + 1, waiting, nothing));
        assert(scan(walk, 2 * done + 1, waiting, nothing) == scan(
            walk,
            2 * done + 2,
            Scan::ExpectReset(steps(direction, done + 1)),
            nothing,
        ));
        lemma_scan_walk(direction, cells, done + 1);
    }
}

/// A walk of resets over `done` cells leaves the tape as a chunk reset over
/// these cells, followed by a pointer move behind them, does.
proof fn lemma_walk_effect(direction: int, cells: int, done: int, tape: TapeView)
    requires
        1 <= done <= cells,
        tape.is_total(),
    ensures
        effect_all(reset_walk(direction, cells), tape, 2 * done) == tape.filled(
            steps(direction, done - 1),
            0,
        ).shifted(steps(direction, done)),
    decreases done,
{
    let walk = reset_walk(direction, cells);
    assert(walk[2 * done - 2] == Node::Reset);
    assert(walk[2 * done - 1] == Node::Right(steps(direction, 1)));
    let before = effect_all(walk, tape, 2 * done - 2);
    assert(effect_all(walk, tape, 2 * done - 1) == before.written(0, 0));
    assert(effect_all(walk, tape, 2 * done) == before.written(0, 0).shifted(steps(direction, 1)));
    let goal = tape.filled(steps(direction, done - 1), 0).shifted(steps(direction, done));
    if done == 1 {
        assert(before == tape);
    } else {
        lemma_walk_effect(direction, cells, done - 1, tape);
    }
    assert(effect_all(walk, tape, 2 * done).cells =~= goal.cells);
    assert(effect_all(walk, tape, 2 * done) =~= goal);
}

/// The chunk pass turns a walk of resets over one cell or more into one chunk
/// reset and one pointer move, and the two leave every tape exactly as the
/// walk leaves it.
pub proof fn lemma_chunk_idiom(direction: int, cells: int, tape: TapeView)
    requires
        direction == 1 || direction == -1,
        1 <= cells <= isize::MAX,
        tape.wf(),
    ensures
        chunk_resets(reset_walk(direction, cells)) == reset_chunk(direction, cells),
        effect_all(reset_chunk(direction, cells), tape, 2) == effect_all(
            reset_walk(direction, cells),
            tape,
            2 * cells,
        ),
{
    let walk = reset_walk(direction, cells);
    let nothing = Seq::<Node>::empty();
    assert(nothing + nothing =~= nothing);
    assert(walk[0] == Node::Reset);
    assert(walk[1] == Node::Right(steps(direction, 1)));
    assert(scan_step(Scan::Idle, walk[0]) == (Scan::ExpectStep(0), nothing));
    assert(scan_step(Scan::ExpectStep(0), walk[1]) == (
        Scan::ExpectReset(steps(direction, 1)),
        nothing,
    ));
    assert(scan(walk, 0, Scan::Idle, nothing) == scan(walk, 1, Scan::ExpectStep(0), nothing));
    assert(scan(walk, 1, Scan::ExpectStep(0), nothing) == scan(
        walk,
        2,
        Scan::ExpectReset(steps(direction, 1)),
        nothing,
    ));
    lemma_scan_walk(direction, cells, 1);
    lemma_walk_effect(direction, cells, cells, tape);
    let chunk = reset_chunk(direction, cells);
    assert(effect_all(chunk, tape, 0) == tape);
    assert(effect_all(chunk, tape, 1) == tape.filled(steps(direction, cells - 1), 0));
}

} // verus!
