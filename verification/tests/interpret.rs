use bfjit::{interpret, parse, Error, Instruction, Machine, Step, NO_CELLS};

const HELLO: &str = "++++++++[>++++[>++>+++>+++>+<<<<-]>+>+>->>+[<]<-]>>.>---.+++++++..+++.>>.<-.<.+++.------.--------.>>+.>++.";

const LIMIT: usize = 1_000_000;

fn run(source: &str, input: &[u8]) -> (Vec<u8>, Option<Result<(), Error>>) {
    let program: Vec<Instruction> = parse(source).unwrap();
    interpret(&program, input, LIMIT)
}

#[test]
fn interpreter_hello() {
    let (output, result) = run(HELLO, b"");
    assert_eq!(output, b"Hello World!\n");
    assert_eq!(output.len(), 13);
    assert_eq!(result, Some(Ok(())));
}

#[test]
fn input_is_incremented_and_written() {
    let (output, result) = run(",+.", b"A");
    assert_eq!(output, b"B");
    assert_eq!(result, Some(Ok(())));
}

#[test]
fn echo_stops_at_the_zero_byte() {
    let (output, result) = run(",[.,]", b"abc\0");
    assert_eq!(output, b"abc");
    assert_eq!(result, Some(Ok(())));
}

#[test]
fn echo_does_not_read_past_the_zero_byte() {
    let (output, result) = run(",[.,]", b"ab\0cd");
    assert_eq!(output, b"ab");
    assert_eq!(result, Some(Ok(())));
}

#[test]
fn left_at_the_first_cell_underflows() {
    let (output, result) = run("<", b"");
    assert!(output.is_empty());
    assert_eq!(result, Some(Err(Error::CursorUnderflow)));
}

#[test]
fn left_further_than_the_cursor_underflows() {
    let (output, result) = run("+.>>><<<<.", b"");
    assert_eq!(output, vec![1]);
    assert_eq!(result, Some(Err(Error::CursorUnderflow)));
}

#[test]
fn right_to_the_last_cell_is_fine() {
    let source: String = format!("{}+.", ">".repeat(NO_CELLS - 1));
    let (output, result) = run(&source, b"");
    assert_eq!(output, vec![1]);
    assert_eq!(result, Some(Ok(())));
}

#[test]
fn right_past_the_last_cell_overflows() {
    let source: String = format!("+.{}.", ">".repeat(NO_CELLS));
    let (output, result) = run(&source, b"");
    assert_eq!(output, vec![1]);
    assert_eq!(result, Some(Err(Error::CursorOverflow)));
}

#[test]
fn right_overflows_from_any_cell() {
    let source: String = format!(">>>>>{}", ">".repeat(NO_CELLS - 5));
    let program: Vec<Instruction> = vec![Instruction::Right(5), Instruction::Right(NO_CELLS - 5)];
    assert_eq!(interpret(&program, b"", LIMIT), (vec![], Some(Err(Error::CursorOverflow))));
    let program: Vec<Instruction> = vec![Instruction::Right(5), Instruction::Right(NO_CELLS - 6)];
    assert_eq!(interpret(&program, b"", LIMIT), (vec![], Some(Ok(()))));
    assert_eq!(run(&source, b"").1, Some(Err(Error::CursorOverflow)));
}

#[test]
fn a_huge_move_overflows() {
    let program: Vec<Instruction> = vec![Instruction::Right(usize::MAX)];
    assert_eq!(interpret(&program, b"", LIMIT), (vec![], Some(Err(Error::CursorOverflow))));
    let program: Vec<Instruction> = vec![Instruction::Right(3), Instruction::Right(usize::MAX)];
    assert_eq!(interpret(&program, b"", LIMIT), (vec![], Some(Err(Error::CursorOverflow))));
    let program: Vec<Instruction> = vec![Instruction::Right(3), Instruction::Left(usize::MAX)];
    assert_eq!(interpret(&program, b"", LIMIT), (vec![], Some(Err(Error::CursorUnderflow))));
}

#[test]
fn input_at_the_end_of_input_fails() {
    let (output, result) = run(",", b"");
    assert!(output.is_empty());
    assert_eq!(result, Some(Err(Error::IO)));
}

#[test]
fn input_after_the_last_byte_fails() {
    let (output, result) = run(",.,.,.", b"xy");
    assert_eq!(output, b"xy");
    assert_eq!(result, Some(Err(Error::IO)));
}

#[test]
fn decrement_from_zero_gives_255() {
    let (output, result) = run("-.", b"");
    assert_eq!(output, vec![255]);
    assert_eq!(result, Some(Ok(())));
}

#[test]
fn increments_wrap_around() {
    let source: String = format!("+++.{}.", "+".repeat(256));
    let (output, _) = run(&source, b"");
    assert_eq!(output, vec![3, 3]);
    let source: String = format!("{}.", "+".repeat(255));
    assert_eq!(run(&source, b"").0, vec![255]);
    let source: String = format!("{} +.", "+".repeat(255));
    assert_eq!(run(&source, b"").0, vec![0]);
    let program: Vec<Instruction> =
        vec![Instruction::Increment(200), Instruction::Increment(100), Instruction::Output];
    assert_eq!(interpret(&program, b"", LIMIT).0, vec![44]);
    let program: Vec<Instruction> =
        vec![Instruction::Increment(5), Instruction::Decrement(10), Instruction::Output];
    assert_eq!(interpret(&program, b"", LIMIT).0, vec![251]);
}

#[test]
fn single_increments_256_times_leave_the_cell_unchanged() {
    let mut program: Vec<Instruction> = vec![Instruction::Increment(7), Instruction::Output];
    let mut i: usize = 0;
    while i < 256 {
        program.push(Instruction::Increment(1));
        i += 1;
    }
    program.push(Instruction::Output);
    assert_eq!(interpret(&program, b"", LIMIT), (vec![7, 7], Some(Ok(()))));
}

#[test]
fn empty_loop_on_a_zero_cell_does_nothing() {
    let program: Vec<Instruction> = parse("[]").unwrap();
    assert_eq!(interpret(&program, b"", 1), (vec![], Some(Ok(()))));
    let (output, result) = run("[].", b"");
    assert_eq!(output, vec![0]);
    assert_eq!(result, Some(Ok(())));
}

#[test]
fn a_loop_is_skipped_on_zero_and_run_on_nonzero() {
    assert_eq!(run("[+.]", b"").0, Vec::<u8>::new());
    assert_eq!(run("+++[.-]", b"").0, vec![3, 2, 1]);
}

#[test]
fn cells_are_separate() {
    assert_eq!(run("+>++>+++.<.<.", b"").0, vec![3, 2, 1]);
}

#[test]
fn an_endless_loop_runs_out_of_steps() {
    let program: Vec<Instruction> = parse("+[.]").unwrap();
    let (output, result) = interpret(&program, b"", 7);
    assert_eq!(output, vec![1, 1, 1]);
    assert_eq!(result, None);
}

#[test]
fn a_program_needs_one_step_for_each_instruction_run() {
    let program: Vec<Instruction> = parse("+.+.").unwrap();
    assert_eq!(interpret(&program, b"", 4), (vec![1, 2], Some(Ok(()))));
    assert_eq!(interpret(&program, b"", 3), (vec![1], None));
    assert_eq!(interpret(&program, b"", 0), (vec![], None));
    assert_eq!(interpret(&[], b"", 0), (vec![], Some(Ok(()))));
}

#[test]
fn a_failure_keeps_what_was_written() {
    let (output, result) = run("+.+.<", b"");
    assert_eq!(output, vec![1, 2]);
    assert_eq!(result, Some(Err(Error::CursorUnderflow)));
}

#[test]
fn a_jump_past_the_end_halts() {
    let program: Vec<Instruction> = vec![Instruction::JumpIfZero(100), Instruction::Output];
    assert_eq!(interpret(&program, b"", LIMIT), (vec![], Some(Ok(()))));
    let program: Vec<Instruction> =
        vec![Instruction::Increment(1), Instruction::JumpIfNonZero(3), Instruction::Output];
    assert_eq!(interpret(&program, b"", LIMIT), (vec![], Some(Ok(()))));
}

#[test]
fn machine_steps_one_instruction_at_a_time() {
    let program: Vec<Instruction> = parse("+.,.<").unwrap();
    let mut machine: Machine = Machine::new();
    assert!(!machine.halted(&program));
    assert!(!machine.wants_input(&program));
    assert_eq!(machine.step(&program, None), Step::Continue);
    assert_eq!(machine.step(&program, None), Step::Write(1));
    assert!(machine.wants_input(&program));
    assert_eq!(machine.step(&program, Some(9)), Step::Continue);
    assert!(!machine.wants_input(&program));
    assert_eq!(machine.step(&program, Some(77)), Step::Write(9));
    assert_eq!(machine.step(&program, None), Step::Fail(Error::CursorUnderflow));
    assert_eq!(machine.step(&program, None), Step::Fail(Error::CursorUnderflow));
    assert!(!machine.halted(&program));
}

#[test]
fn machine_halts_past_the_last_instruction() {
    let program: Vec<Instruction> = parse("+").unwrap();
    let mut machine: Machine = Machine::new();
    assert_eq!(machine.step(&program, None), Step::Continue);
    assert!(machine.halted(&program));
    assert!(!machine.wants_input(&program));
    assert_eq!(machine.step(&program, None), Step::Halt);
    assert_eq!(machine.step(&program, Some(1)), Step::Halt);
}

#[test]
fn machine_fails_an_input_without_a_byte_and_stays() {
    let program: Vec<Instruction> = parse(",.").unwrap();
    let mut machine: Machine = Machine::new();
    assert_eq!(machine.step(&program, None), Step::Fail(Error::IO));
    assert!(machine.wants_input(&program));
    assert_eq!(machine.step(&program, Some(5)), Step::Continue);
    assert_eq!(machine.step(&program, None), Step::Write(5));
}

#[test]
fn the_tape_has_30000_cells() {
    assert_eq!(NO_CELLS, 30000);
}
