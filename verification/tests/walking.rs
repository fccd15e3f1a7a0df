use bf_interp::args::Args;
use bf_interp::command::Command;
use bf_interp::executor::{execute, Executor, Status};
use bf_interp::loader::{load, Source};
use bf_interp::optimizer::{optimize, optimize_chunk_resets};
use bf_interp::tape::Tape;
use std::path::PathBuf;

const PLENTY: u64 = 50_000_000;

fn switches(loops: bool, chunks: bool) -> Args {
    Args {
        file: PathBuf::new(),
        hex_output: false,
        no_output: false,
        optimize_loops: loops,
        optimize_chunk_resets: chunks,
        time: false,
        debug: false,
    }
}

fn compile(text: &str, loops: bool, chunks: bool) -> Vec<Command> {
    let mut source = Source::new(text.chars().collect());
    let commands = load(&mut source, None).expect("the text is a program");
    optimize(commands, &switches(loops, chunks))
}

fn walk(commands: &Vec<Command>, tape: &mut Tape) -> Status {
    let mut executor = Executor::new(commands);
    execute(&mut executor, tape, PLENTY)
}

fn text(tape: &mut Tape) -> String {
    tape.take_output().into_iter().collect()
}

fn cells(tape: &Tape, from: isize, to: isize) -> Vec<u8> {
    (from..=to).map(|index| tape.read_cell(index)).collect()
}

/// Runs `program` with each combination of the two switches and returns what
/// each run reported, emitted and left on the tape around the origin.
fn outcomes(program: &str, input: &[u8]) -> Vec<(Status, String, isize, Vec<u8>)> {
    let mut all = Vec::new();
    for loops in [false, true] {
        for chunks in [false, true] {
            let commands = compile(program, loops, chunks);
            let mut tape = Tape::new(false, false);
            for byte in input {
                tape.feed(*byte);
            }
            let status = walk(&commands, &mut tape);
            let emitted = text(&mut tape);
            let pointer = tape.pointer();
            all.push((status, emitted, pointer, cells(&tape, -40, 40)));
        }
    }
    all
}

#[test]
fn an_odd_addition_loop_ends_at_zero_like_a_reset() {
    for amount in (1..=255u8).step_by(2) {
        for start in 0..=255u8 {
            let naive = vec![
                Command::Add(start),
                Command::Loop(vec![Command::Add(amount)]),
            ];
            let mut naive_tape = Tape::new(false, false);
            // The addition, the test at the loop's head, two steps for each of
            // at most 255 rounds, and the step that finds the end.
            let mut executor = Executor::new(&naive);
            assert_eq!(execute(&mut executor, &mut naive_tape, 3 + 2 * 255), Status::Halted);
            let reset = vec![Command::Add(start), Command::Reset];
            let mut reset_tape = Tape::new(false, false);
            assert_eq!(walk(&reset, &mut reset_tape), Status::Halted);
            assert_eq!(naive_tape.read(), 0);
            assert_eq!(reset_tape.read(), 0);
            assert_eq!(cells(&naive_tape, -2, 2), cells(&reset_tape, -2, 2));
            assert_eq!(naive_tape.pointer(), reset_tape.pointer());
        }
    }
}

#[test]
fn an_even_addition_loop_need_not_end() {
    let commands = vec![Command::Add(1), Command::Loop(vec![Command::Add(2)])];
    let mut tape = Tape::new(false, false);
    let mut executor = Executor::new(&commands);
    assert_eq!(execute(&mut executor, &mut tape, 100_000), Status::Running);
    assert_eq!(tape.read() % 2, 1);
}

#[test]
fn a_move_loop_does_what_the_move_does() {
    let target_sets: Vec<Vec<(isize, u8)>> = vec![
        vec![(1, 1), (2, 2)],
        vec![(-1, 1), (3, 255)],
        vec![(2, 3), (2, 5)],
        vec![(-3, 128), (1, 7)],
        vec![(1, 0), (-1, 254)],
    ];
    for targets in target_sets {
        // The loop: take 1 from the counter, then visit each target in turn.
        let mut body = vec![Command::Add(255)];
        let mut offset = 0;
        for (target, factor) in &targets {
            body.push(Command::Right(target - offset));
            body.push(Command::Add(*factor));
            offset = *target;
        }
        body.push(Command::Right(-offset));
        for value in 0..=255u8 {
            let setup = vec![
                Command::Right(-3),
                Command::Add(11),
                Command::Right(1),
                Command::Add(22),
                Command::Right(1),
                Command::Add(33),
                Command::Right(2),
                Command::Add(44),
                Command::Right(1),
                Command::Add(55),
                Command::Right(1),
                Command::Add(66),
                Command::Right(-3),
                Command::Add(value),
            ];
            let mut naive_tape = Tape::new(false, false);
            assert_eq!(walk(&setup, &mut naive_tape), Status::Halted);
            let mut moved_tape = Tape::new(false, false);
            assert_eq!(walk(&setup, &mut moved_tape), Status::Halted);
            let before = cells(&naive_tape, -5, 5);

            let naive = vec![Command::Loop(body.clone_commands())];
            let mut executor = Executor::new(&naive);
            let rounds = value as u64;
            let steps = 1 + rounds * (body.len() as u64 + 1);
            assert_eq!(execute(&mut executor, &mut naive_tape, steps), Status::Running);
            assert_eq!(execute(&mut executor, &mut naive_tape, 1), Status::Halted);
            let moved = vec![Command::Move(targets.clone())];
            assert_eq!(walk(&moved, &mut moved_tape), Status::Halted);

            assert_eq!(cells(&naive_tape, -5, 5), cells(&moved_tape, -5, 5));
            assert_eq!(naive_tape.pointer(), 0);
            assert_eq!(moved_tape.pointer(), 0);
            assert_eq!(moved_tape.read(), 0);
            let mut expected = before.clone();
            expected[5] = 0;
            for (target, factor) in &targets {
                let place = (5 + target) as usize;
                expected[place] = expected[place].wrapping_add(value.wrapping_mul(*factor));
            }
            assert_eq!(cells(&moved_tape, -5, 5), expected);
        }
    }
}

trait CloneCommands {
    fn clone_commands(&self) -> Vec<Command>;
}

impl CloneCommands for Vec<Command> {
    fn clone_commands(&self) -> Vec<Command> {
        self.iter()
            .map(|command| match command {
                Command::Right(amount) => Command::Right(*amount),
                Command::Add(amount) => Command::Add(*amount),
                Command::Loop(body) => Command::Loop(body.clone_commands()),
                Command::Input => Command::Input,
                Command::Output => Command::Output,
                Command::Reset => Command::Reset,
                Command::ResetChunk(offset) => Command::ResetChunk(*offset),
                Command::Move(targets) => Command::Move(targets.clone()),
            })
            .collect()
    }
}

#[test]
fn a_move_with_a_target_on_its_counter_adds_before_it_resets() {
    let commands = vec![Command::Add(3), Command::Move(vec![(0, 5), (1, 2)])];
    let mut tape = Tape::new(false, false);
    assert_eq!(walk(&commands, &mut tape), Status::Halted);
    assert_eq!(cells(&tape, -1, 2), vec![0, 0, 6, 0]);
}

#[test]
fn a_chunk_reset_does_what_the_walk_of_resets_does() {
    for count in [1isize, 2, 10] {
        for direction in [1isize, -1] {
            let mut naive = Vec::new();
            for _ in 0..count {
                naive.push(Command::Reset);
                naive.push(Command::Right(direction));
            }
            let chunked = optimize_chunk_resets(naive.clone_commands());
            assert_eq!(
                chunked,
                vec![
                    Command::ResetChunk(direction * (count - 1)),
                    Command::Right(direction * count),
                ]
            );
            for start in [0isize, 3, -4] {
                let mut naive_tape = Tape::new(false, false);
                let mut chunked_tape = Tape::new(false, false);
                for tape in [&mut naive_tape, &mut chunked_tape] {
                    for index in -15isize..=15 {
                        let value = (index * 37 + 101) as u8;
                        tape.write_relative(index, value);
                    }
                    tape.right_by(start);
                }
                assert_eq!(walk(&naive, &mut naive_tape), Status::Halted);
                assert_eq!(walk(&chunked, &mut chunked_tape), Status::Halted);
                assert_eq!(cells(&naive_tape, -20, 20), cells(&chunked_tape, -20, 20));
                assert_eq!(naive_tape.pointer(), start + direction * count);
                assert_eq!(chunked_tape.pointer(), start + direction * count);
                assert_eq!(naive_tape.first_index(), chunked_tape.first_index());
                assert_eq!(naive_tape.last_index(), chunked_tape.last_index());
                for index in -15isize..=15 {
                    let walked = (index - start) * direction;
                    let expected = if 0 <= walked && walked < count {
                        0
                    } else {
                        (index * 37 + 101) as u8
                    };
                    assert_eq!(chunked_tape.read_cell(index), expected);
                }
            }
        }
    }
}

#[test]
fn a_chunk_reset_on_a_blank_tape_grows_the_buffer_as_the_walk_does() {
    for direction in [1isize, -1] {
        let naive = vec![
            Command::Reset,
            Command::Right(direction),
            Command::Reset,
            Command::Right(direction),
        ];
        let chunked = vec![Command::ResetChunk(direction), Command::Right(2 * direction)];
        let mut naive_tape = Tape::new(false, false);
        let mut chunked_tape = Tape::new(false, false);
        assert_eq!(walk(&naive, &mut naive_tape), Status::Halted);
        assert_eq!(walk(&chunked, &mut chunked_tape), Status::Halted);
        assert_eq!(naive_tape.first_index(), chunked_tape.first_index());
        assert_eq!(naive_tape.last_index(), chunked_tape.last_index());
        assert_eq!(naive_tape.pointer(), chunked_tape.pointer());
    }
}

#[test]
fn adding_two_cells_emits_their_sum() {
    for loops in [false, true] {
        for chunks in [false, true] {
            let commands = compile("++>+++[<+>-]<.", loops, chunks);
            let mut tape = Tape::new(false, false);
            assert_eq!(walk(&commands, &mut tape), Status::Halted);
            assert_eq!(tape.take_output(), vec!['\u{5}']);
            assert_eq!(cells(&tape, -1, 2), vec![0, 5, 0, 0]);
            assert_eq!(tape.pointer(), 0);
        }
    }
    assert_eq!(
        compile("++>+++[<+>-]<.", true, false),
        vec![
            Command::Add(2),
            Command::Right(1),
            Command::Add(3),
            Command::Move(vec![(-1, 1)]),
            Command::Right(-1),
            Command::Output,
        ]
    );
}

#[test]
fn an_optimized_reset_takes_one_step() {
    let commands = compile("+[-]", true, false);
    assert_eq!(commands, vec![Command::Add(1), Command::Reset]);
    let mut tape = Tape::new(false, false);
    let mut executor = Executor::new(&commands);
    assert_eq!(executor.step(&mut tape), Status::Running);
    assert_eq!(tape.read(), 1);
    assert_eq!(executor.step(&mut tape), Status::Running);
    assert_eq!(tape.read(), 0);
    assert_eq!(executor.step(&mut tape), Status::Halted);
    assert_eq!(tape.read(), 0);

    // However large the counter, the reset is one step; the loop is two steps a round.
    let commands = compile("-[-]", true, false);
    let mut tape = Tape::new(false, false);
    let mut executor = Executor::new(&commands);
    assert_eq!(execute(&mut executor, &mut tape, 2), Status::Running);
    assert_eq!(execute(&mut executor, &mut tape, 1), Status::Halted);
    assert_eq!(tape.read(), 0);
    let commands = compile("-[-]", false, false);
    let mut tape = Tape::new(false, false);
    let mut executor = Executor::new(&commands);
    assert_eq!(execute(&mut executor, &mut tape, 2 + 2 * 255), Status::Running);
    assert_eq!(tape.read(), 0);
    assert_eq!(execute(&mut executor, &mut tape, 1), Status::Halted);
}

#[test]
fn a_byte_read_is_emitted_in_hexadecimal() {
    let commands = compile(",.", true, false);
    let mut tape = Tape::new(true, false);
    tape.feed(65);
    assert_eq!(walk(&commands, &mut tape), Status::Halted);
    assert_eq!(text(&mut tape), "0x41\n");
    assert_eq!(tape.read(), 65);
}

#[test]
fn an_input_command_waits_for_a_byte() {
    let commands = compile("+,.", false, false);
    let mut tape = Tape::new(false, false);
    let mut executor = Executor::new(&commands);
    assert_eq!(execute(&mut executor, &mut tape, PLENTY), Status::AwaitingInput);
    assert_eq!(tape.read(), 1);
    // Nothing changes while no byte is fed.
    assert_eq!(execute(&mut executor, &mut tape, PLENTY), Status::AwaitingInput);
    assert_eq!(executor.step(&mut tape), Status::AwaitingInput);
    assert_eq!(tape.read(), 1);
    assert_eq!(text(&mut tape), "");
    tape.feed(120);
    assert_eq!(execute(&mut executor, &mut tape, PLENTY), Status::Halted);
    assert_eq!(tape.read(), 120);
    assert_eq!(text(&mut tape), "x");
}

#[test]
fn an_echo_loop_reads_what_is_fed_and_then_waits() {
    let commands = compile(",[.,]", true, true);
    let mut tape = Tape::new(false, false);
    for byte in "hi!".bytes() {
        tape.feed(byte);
    }
    let mut executor = Executor::new(&commands);
    assert_eq!(execute(&mut executor, &mut tape, PLENTY), Status::AwaitingInput);
    assert_eq!(text(&mut tape), "hi!");
    tape.feed(0);
    assert_eq!(execute(&mut executor, &mut tape, PLENTY), Status::Halted);
    assert_eq!(text(&mut tape), "");
}

#[test]
fn a_spent_budget_reports_running_and_the_walk_goes_on() {
    let program = "++++++++[>++++++++<-]>+.";
    let commands = compile(program, false, false);
    let mut whole = Tape::new(false, false);
    assert_eq!(walk(&commands, &mut whole), Status::Halted);
    assert_eq!(text(&mut whole), "A");

    let mut tape = Tape::new(false, false);
    let mut executor = Executor::new(&commands);
    let mut calls = 0;
    loop {
        calls += 1;
        match execute(&mut executor, &mut tape, 3) {
            Status::Running => {}
            Status::Halted => break,
            other => panic!("unexpected {:?}", other),
        }
    }
    assert!(calls > 10);
    assert_eq!(text(&mut tape), "A");
    assert_eq!(cells(&tape, -1, 2), cells(&whole, -1, 2));
    assert_eq!(execute(&mut executor, &mut tape, 0), Status::Running);
    assert_eq!(execute(&mut executor, &mut tape, 1), Status::Halted);
}

#[test]
fn a_halted_walk_stays_halted() {
    let commands: Vec<Command> = vec![];
    let mut tape = Tape::new(false, false);
    let mut executor = Executor::new(&commands);
    assert_eq!(executor.step(&mut tape), Status::Halted);
    assert_eq!(executor.step(&mut tape), Status::Halted);
    assert_eq!(execute(&mut executor, &mut tape, 10), Status::Halted);
    assert_eq!(tape.first_index(), 0);
    assert_eq!(tape.last_index(), -1);
}

#[test]
fn a_loop_is_skipped_on_a_zero_cell() {
    let commands = vec![Command::Loop(vec![Command::Output]), Command::Add(1)];
    let mut tape = Tape::new(false, false);
    let mut executor = Executor::new(&commands);
    assert_eq!(executor.step(&mut tape), Status::Running);
    assert_eq!(executor.step(&mut tape), Status::Running);
    assert_eq!(executor.step(&mut tape), Status::Halted);
    assert_eq!(tape.read(), 1);
    assert_eq!(text(&mut tape), "");
}

#[test]
fn the_pointer_cannot_leave_the_machine_integers() {
    let commands = vec![
        Command::Right(isize::MAX),
        Command::Right(1),
        Command::Output,
    ];
    let mut tape = Tape::new(true, false);
    let mut executor = Executor::new(&commands);
    assert_eq!(execute(&mut executor, &mut tape, PLENTY), Status::TapeLimit);
    assert_eq!(tape.pointer(), isize::MAX);
    assert_eq!(execute(&mut executor, &mut tape, PLENTY), Status::TapeLimit);
    assert_eq!(text(&mut tape), "");
}

#[test]
fn a_write_out_of_reach_is_refused_and_changes_nothing() {
    for refused in [
        Command::Add(1),
        Command::Reset,
        Command::ResetChunk(0),
        Command::ResetChunk(-1),
        Command::Input,
        Command::Move(vec![]),
        Command::Move(vec![(-5, 1), (1, 1)]),
    ] {
        let commands = vec![Command::Right(isize::MAX), refused, Command::Output];
        let mut tape = Tape::new(true, false);
        tape.feed(9);
        let mut executor = Executor::new(&commands);
        assert_eq!(execute(&mut executor, &mut tape, PLENTY), Status::TapeLimit);
        assert_eq!(tape.pointer(), isize::MAX);
        assert_eq!((tape.first_index(), tape.last_index()), (0, -1));
        assert!(tape.has_input());
        assert_eq!(text(&mut tape), "");
    }
    // With room on one side only, a chunk reset or a move that reaches to the
    // other side is refused as a whole.
    let commands = vec![
        Command::Right(isize::MAX - 1),
        Command::Move(vec![(-1, 1), (1, 1)]),
    ];
    let mut tape = Tape::new(false, false);
    let mut executor = Executor::new(&commands);
    assert_eq!(execute(&mut executor, &mut tape, PLENTY), Status::TapeLimit);
    assert_eq!((tape.first_index(), tape.last_index()), (0, -1));
}

#[test]
fn the_greeting_is_the_same_under_every_switch() {
    let program = "++++++++[>++++[>++>+++>+++>+<<<<-]>+>+>->>+[<]<-]>>.>---.+++++++..+++.>>.<-.<.+++.------.--------.>>+.>++.";
    let all = outcomes(program, &[]);
    assert_eq!(all[0].0, Status::Halted);
    assert_eq!(all[0].1, "Hello World!\n");
    for outcome in &all {
        assert_eq!(outcome, &all[0]);
    }
}

#[test]
fn the_switches_do_not_change_what_a_program_does() {
    let corpus: Vec<(&str, Vec<u8>)> = vec![
        ("++>+++[<+>-]<.", vec![]),
        ("+[-]", vec![]),
        (",.", vec![65]),
        (",[.,]", vec![104, 105, 0]),
        ("+++++[>++<-]>.", vec![]),
        ("++++[>+++[>++<-]<-]>>.", vec![]),
        (",>,<[->>+<<]>[->+<]>.", vec![20, 22]),
        ("+>++>+++<<[-]>[-]>[-]>+.<<<.", vec![]),
        ("->->-<<[+]>[+]>[+]>-.", vec![]),
        (">>+++<<--[-]<[-]<[-]<+.", vec![]),
        ("+++[->+>++>+++<<<]>.>.>.", vec![]),
        ("++[>+++[>[-]>[-]>+<<<-]<-]>>>>.", vec![]),
        (",----------[++++++++++.,----------]", vec![97, 98, 99, 10]),
        ("+++[>+++[>+++<-]<-]>>[<+>-]<.", vec![]),
        ("-[---]+.", vec![]),
        ("<<<+>>>>>++<<[-]<[-]<.", vec![]),
    ];
    for (program, input) in corpus {
        let all = outcomes(program, &input);
        for outcome in &all {
            assert_eq!(outcome, &all[0], "{}", program);
        }
        assert_eq!(all[0].0, Status::Halted, "{}", program);
    }
}

#[test]
fn nested_loops_multiply() {
    let commands = compile("++++[>+++[>++<-]<-]>>.", true, true);
    let mut tape = Tape::new(true, false);
    assert_eq!(walk(&commands, &mut tape), Status::Halted);
    assert_eq!(text(&mut tape), "0x18\n");
    assert_eq!(cells(&tape, 0, 2), vec![0, 0, 24]);
}
