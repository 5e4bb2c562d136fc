//! The interpreter: bytecode run one instruction at a time on a tape of
//! [`NO_CELLS`] cells.
//!
//! The interpreter itself reads and writes nothing. [`Machine::step`] takes
//! the byte that was read for it, if any, and hands back the byte to write,
//! if any; [`interpret`] runs a program on input that is already in memory.

use vstd::prelude::*;
use crate::common::{Instruction, NO_CELLS};
use crate::error::Error;

verus! {

/// The tape, the cursor and the instruction pointer, as plain values.
pub struct State {
    pub cells: Seq<u8>,
    pub cursor: int,
    pub ip: int,
}

/// What one step did.
#[derive(Debug, PartialEq, Eq)]
pub enum Step {
    /// An instruction ran and nothing is to be written.
    Continue,
    /// An `Output` ran: this byte is to be written.
    Write(u8),
    /// The instruction pointer is past the last instruction.
    Halt,
    /// The instruction could not run.
    Fail(Error),
}

/// The state in which every run begins: all cells zero, cursor and
/// instruction pointer at zero.
pub open spec fn initial() -> State {
    State { cells: Seq::new(NO_CELLS as nat, |i: int| 0u8), cursor: 0, ip: 0 }
}

/// The tape has its length and the cursor is on it.
pub open spec fn valid(st: State) -> bool {
    &&& st.cells.len() == NO_CELLS
    &&& 0 <= st.cursor < NO_CELLS
    &&& 0 <= st.ip
}

/// The instruction pointer is past the last instruction.
pub open spec fn halted(program: Seq<Instruction>, st: State) -> bool {
    !(0 <= st.ip < program.len())
}

/// The next instruction is an `Input`.
pub open spec fn wants_input(program: Seq<Instruction>, st: State) -> bool {
    !halted(program, st) && program[st.ip] is Input
}

/// One step of the machine: the state after it and what it did. `input` is
/// the byte read for an `Input`, `None` where none could be read.
pub open spec fn step(program: Seq<Instruction>, st: State, input: Option<u8>) -> (State, Step) {
    if halted(program, st) {
        (st, Step::Halt)
    } else {
        let cell = st.cells[st.cursor];
        let next = st.ip + 1;
        match program[st.ip] {
            Instruction::Right(n) => if st.cursor + n >= NO_CELLS {
                (st, Step::Fail(Error::CursorOverflow))
            } else {
                (State { cursor: st.cursor + n, ip: next, ..st }, Step::Continue)
            },
            Instruction::Left(n) => if st.cursor < n {
                (st, Step::Fail(Error::CursorUnderflow))
            } else {
                (State { cursor: st.cursor - n, ip: next, ..st }, Step::Continue)
            },
            Instruction::Increment(d) => (
                State { cells: st.cells.update(st.cursor, ((cell + d) % 256) as u8), ip: next, ..st },
                Step::Continue,
            ),
            Instruction::Decrement(d) => (
                State { cells: st.cells.update(st.cursor, ((cell - d) % 256) as u8), ip: next, ..st },
                Step::Continue,
            ),
            Instruction::Output => (State { ip: next, ..st }, Step::Write(cell)),
            Instruction::Input => match input {
                Some(b) => (
                    State { cells: st.cells.update(st.cursor, b), ip: next, ..st },
                    Step::Continue,
                ),
                None => (st, Step::Fail(Error::IO)),
            },
            Instruction::JumpIfZero(target) => (
                State { ip: if cell == 0 { target as int } else { next }, ..st },
                Step::Continue,
            ),
            Instruction::JumpIfNonZero(target) => (
                State { ip: if cell != 0 { target as int } else { next }, ..st },
                Step::Continue,
            ),
        }
    }
}

/// A run of at most `limit` steps from `st`, with the first `consumed` bytes
/// of `input` already read and `output` already written: what has been
/// written at its end, and how it ended. `Some(Ok(()))` says that the program
/// came to its end, `Some(Err(..))` that an instruction failed, `None` that
/// the steps ran out.
pub open spec fn run(
    program: Seq<Instruction>,
    input: Seq<u8>,
    st: State,
    consumed: int,
    output: Seq<u8>,
    limit: nat,
) -> (Seq<u8>, Option<Result<(), Error>>)
    decreases limit,
{
    if halted(program, st) {
        (output, Some(Ok(())))
    } else if limit == 0 {
        (output, None)
    } else {
        let reads = wants_input(program, st);
        let fed = if reads && 0 <= consumed < input.len() {
            Some(input[consumed])
        } else {
            None
        };
        let (next, did) = step(program, st, fed);
        match did {
            Step::Continue => run(
                program,
                input,
                next,
                if reads {
                    consumed + 1
                } else {
                    consumed
                },
                output,
                (limit - 1) as nat,
            ),
            Step::Write(b) => run(program, input, next, consumed, output.push(b), (limit - 1) as nat),
            Step::Halt => (output, Some(Ok(()))),
            Step::Fail(e) => (output, Some(Err(e))),
        }
    }
}

/// A step from a valid state ends in a valid state: the cursor never leaves
/// the tape.
pub proof fn lemma_step_valid(program: Seq<Instruction>, st: State, input: Option<u8>)
    requires
        valid(st),
    ensures
        valid(step(program, st, input).0),
{
}

/// The state after `n` steps that are given nothing to read.
pub open spec fn after(program: Seq<Instruction>, st: State, n: nat) -> State
    decreases n,
{
    if n == 0 {
        st
    } else {
        step(program, after(program, st, (n - 1) as nat), None).0
    }
}

/// A row of `n` increments by one adds `n` modulo 256 to the current cell
/// and leaves the other cells alone; a row of 256 leaves the tape as it was.
pub proof fn lemma_increments_wrap(program: Seq<Instruction>, st: State, n: nat)
    requires
        valid(st),
        forall|i: int|
            st.ip <= i < st.ip + n ==> i < program.len() && #[trigger] program[i]
                == Instruction::Increment(1),
    ensures
        after(program, st, n).cells == st.cells.update(
            st.cursor,
            ((st.cells[st.cursor] + n) % 256) as u8,
        ),
        after(program, st, n).cursor == st.cursor,
        after(program, st, n).ip == st.ip + n,
        n == 256 ==> after(program, st, n).cells == st.cells,
    decreases n,
{
    let cell = st.cells[st.cursor];
    if n == 0 {
        assert(st.cells.update(st.cursor, cell) =~= st.cells);
    } else {
        let m = (n - 1) as nat;
        lemma_increments_wrap(program, st, m);
        let before = after(program, st, m);
        assert(program[before.ip] == Instruction::Increment(1));
        assert(after(program, st, n).cells =~= st.cells.update(
            st.cursor,
            ((cell + n) % 256) as u8,
        ));
        if n == 256 {
            assert(st.cells.update(st.cursor, cell) =~= st.cells);
        }
    }
}

/// A tape with its cursor, and the place in the program.
pub struct Machine {
    cells: Vec<u8>,
    cursor: usize,
    ip: usize,
}

impl View for Machine {
    type V = State;

    closed spec fn view(&self) -> State {
        State { cells: self.cells@, cursor: self.cursor as int, ip: self.ip as int }
    }
}

impl Machine {
    #[verifier::type_invariant]
    spec fn well_formed(self) -> bool {
        self.cells.len() == NO_CELLS && self.cursor < NO_CELLS
    }

    /// A machine in the initial state.
    pub fn new() -> (m: Machine)
        ensures
            m@ == initial(),
            valid(m@),
    {
        let mut cells: Vec<u8> = Vec::new();
        let mut i: usize = 0;
        while i < NO_CELLS
            invariant
                i <= NO_CELLS,
                cells.len() == i,
                forall|x: int| 0 <= x < i ==> cells[x] == 0,
            decreases NO_CELLS - i,
        {
            cells.push(0);
            i += 1;
        }
        assert(cells@ =~= initial().cells);
        Machine { cells, cursor: 0, ip: 0 }
    }

    /// Whether the program has come to its end.
    pub fn halted(&self, program: &[Instruction]) -> (r: bool)
        ensures
            r == halted(program@, self@),
    {
        self.ip >= program.len()
    }

    /// Whether the next step needs a byte of input.
    pub fn wants_input(&self, program: &[Instruction]) -> (r: bool)
        ensures
            r == wants_input(program@, self@),
    {
        if self.ip < program.len() {
            match program[self.ip] {
                Instruction::Input => true,
                _ => false,
            }
        } else {
            false
        }
    }

    /// Runs one instruction. `input` is the byte that was read for an
    /// `Input`, `None` where none could be read; other instructions ignore it.
    pub fn step(&mut self, program: &[Instruction], input: Option<u8>) -> (r: Step)
        ensures
            (final(self)@, r) == step(program@, old(self)@, input),
            valid(old(self)@),
            valid(final(self)@),
    {
        proof {
            use_type_invariant(&*self);
        }
        if self.ip >= program.len() {
            return Step::Halt;
        }
        let cell = self.cells[self.cursor];
        match program[self.ip] {
            Instruction::Right(n) => {
                if n >= NO_CELLS - self.cursor {
                    return Step::Fail(Error::CursorOverflow);
                }
                self.cursor = self.cursor + n;
                self.ip = self.ip + 1;
            },
            Instruction::Left(n) => {
                if self.cursor < n {
                    return Step::Fail(Error::CursorUnderflow);
                }
                self.cursor = self.cursor - n;
                self.ip = self.ip + 1;
            },
            Instruction::Increment(d) => {
                self.cells[self.cursor] = cell.wrapping_add(d);
                self.ip = self.ip + 1;
            },
            Instruction::Decrement(d) => {
                self.cells[self.cursor] = cell.wrapping_sub(d);
                self.ip = self.ip + 1;
            },
            Instruction::Output => {
                self.ip = self.ip + 1;
                return Step::Write(cell);
            },
            Instruction::Input => {
                match input {
                    Some(b) => {
                        self.cells[self.cursor] = b;
                        self.ip = self.ip + 1;
                    },
                    None => {
                        return Step::Fail(Error::IO);
                    },
                }
            },
            Instruction::JumpIfZero(target) => {
                if cell == 0 {
                    self.ip = target;
                } else {
                    self.ip = self.ip + 1;
                }
            },
            Instruction::JumpIfNonZero(target) => {
                if cell != 0 {
                    self.ip = target;
                } else {
                    self.ip = self.ip + 1;
                }
            },
        }
        Step::Continue
    }
}

/// Runs a program from the initial state for at most `limit` steps, reading
/// from `input`. Returns what the program wrote, and how the run ended:
/// `Some(Ok(()))` when the program came to its end, `Some(Err(..))` when an
/// instruction failed (`Error::IO` when the input was used up), `None` when
/// the steps ran out.
pub fn interpret(program: &[Instruction], input: &[u8], limit: usize) -> (r: (
    Vec<u8>,
    Option<Result<(), Error>>,
))
    ensures
        (r.0@, r.1) == run(program@, input@, initial(), 0, Seq::empty(), limit as nat),
{
    let mut machine = Machine::new();
    let mut output: Vec<u8> = Vec::new();
    let mut consumed: usize = 0;
    let mut left: usize = limit;
    while left > 0
        invariant
            consumed <= input.len(),
            run(program@, input@, machine@, consumed as int, output@, left as nat) == run(
                program@,
                input@,
                initial(),
                0,
                Seq::empty(),
                limit as nat,
            ),
        decreases left,
    {
        let reads = machine.wants_input(program);
        let fed = if reads && consumed < input.len() {
            Some(input[consumed])
        } else {
            None
        };
        match machine.step(program, fed) {
            Step::Continue => {
                if reads {
                    consumed += 1;
                }
            },
            Step::Write(b) => {
                output.push(b);
            },
            Step::Halt => {
                return (output, Some(Ok(())));
            },
            Step::Fail(e) => {
                return (output, Some(Err(e)));
            },
        }
        left -= 1;
    }
    if machine.halted(program) {
        (output, Some(Ok(())))
    } else {
        (output, None)
    }
}

} // verus!
