use vstd::prelude::*;
use crate::error::BrainfuckError;
use crate::parser::{Instruction, InstrModel, Position, view_seq, view_instr, instr_size, seq_size,
    byte_add, byte_mul, in_isize};

verus! {

broadcast use vstd::seq::axiom_seq_index_decreases, vstd::seq::axiom_seq_subrange_decreases, vstd::std_specs::vec::axiom_vec_decreases_to_view;

/// The largest tape a builder accepts: tape sizes that do not fit a
/// signed 32-bit offset are out of scope.
pub const MAX_TAPE_SIZE: usize = 0x7fff_ffff;

/// The step budget of a single `run` call: a loop that still spins after
/// this many iterations is reported as an error instead of running on.
pub const STEP_BUDGET: u64 = 0xffff_ffff_ffff_ffff;

/// The interpreter's state as contracts see it: the tape, the data
/// pointer, the bytes not yet read from the input (when one is
/// configured), and the bytes written to the output so far (when one is
/// configured).
#[verifier::ext_equal]
pub struct MachineState {
    pub tape: Seq<u8>,
    pub pos: int,
    pub input: Option<Seq<u8>>,
    pub output: Option<Seq<u8>>,
}

/// Why an execution stopped before reaching the end of the program.
pub enum MachineFault {
    /// The data pointer moved below cell zero.
    Underflow,
    /// The data pointer moved past the last cell.
    Overflow,
    /// An `Input` instruction found the configured input exhausted.
    EndOfInput,
}

/// The outcome of a bounded execution: the machine ran to completion, it
/// stopped on a fault, or the step budget ran out. The carried state is
/// the machine's state at that point.
#[verifier::ext_equal]
pub enum Outcome {
    Halted(MachineState),
    Faulted(MachineFault, MachineState),
    Spun(MachineState),
}

/// Executing one instruction. `fuel` bounds how many times each loop may
/// iterate; a loop with no fuel left yields `Spun`.
pub open spec fn run_instr_model(s: MachineState, i: InstrModel, fuel: nat) -> Outcome
    decreases fuel, instr_size(i), 0nat,
{
    match i {
        InstrModel::Add { amount, .. } => Outcome::Halted(
            MachineState { tape: s.tape.update(s.pos, byte_add(s.tape[s.pos], amount)), ..s },
        ),
        InstrModel::Move { offset, .. } => {
            let target = s.pos + offset;
            if target < 0 {
                Outcome::Faulted(MachineFault::Underflow, s)
            } else if target >= s.tape.len() {
                Outcome::Faulted(MachineFault::Overflow, s)
            } else {
                Outcome::Halted(MachineState { pos: target, ..s })
            }
        },
        InstrModel::Input { .. } => match s.input {
            Option::None => Outcome::Halted(
                MachineState { tape: s.tape.update(s.pos, 0u8), ..s },
            ),
            Option::Some(inp) => {
                if inp.len() == 0 {
                    Outcome::Faulted(MachineFault::EndOfInput, s)
                } else {
                    Outcome::Halted(
                        MachineState {
                            tape: s.tape.update(s.pos, inp[0]),
                            input: Option::Some(inp.subrange(1, inp.len() as int)),
                            ..s
                        },
                    )
                }
            },
        },
        InstrModel::Output { .. } => match s.output {
            Option::None => Outcome::Halted(s),
            Option::Some(out) => Outcome::Halted(
                MachineState { output: Option::Some(out.push(s.tape[s.pos])), ..s },
            ),
        },
        InstrModel::Loop { body, .. } => {
            if s.tape[s.pos] == 0 {
                Outcome::Halted(s)
            } else if fuel == 0 {
                Outcome::Spun(s)
            } else {
                match run_seq_model(s, body, (fuel - 1) as nat) {
                    Outcome::Halted(s2) => run_instr_model(s2, i, (fuel - 1) as nat),
                    other => other,
                }
            }
        },
        InstrModel::Clear { .. } => Outcome::Halted(
            MachineState { tape: s.tape.update(s.pos, 0u8), ..s },
        ),
        InstrModel::Mul { offset, amount, .. } => {
            if s.tape[s.pos] == 0 {
                Outcome::Halted(s)
            } else {
                let target = s.pos + offset;
                if target < 0 {
                    Outcome::Faulted(MachineFault::Underflow, s)
                } else if target >= s.tape.len() {
                    Outcome::Faulted(MachineFault::Overflow, s)
                } else {
                    Outcome::Halted(
                        MachineState {
                            tape: s.tape.update(
                                target,
                                byte_add(s.tape[target], byte_mul(s.tape[s.pos], amount)),
                            ),
                            ..s
                        },
                    )
                }
            }
        },
    }
}

/// Executing a sequence of instructions in order, with a shared loop
/// budget.
pub open spec fn run_seq_model(s: MachineState, prog: Seq<InstrModel>, fuel: nat) -> Outcome
    decreases fuel, seq_size(prog), 1nat,
{
    if prog.len() == 0 {
        Outcome::Halted(s)
    } else {
        proof {
            assert(instr_size(prog[0]) >= 1);
        }
        match run_instr_model(s, prog[0], fuel) {
            Outcome::Halted(s2) => run_seq_model(s2, prog.subrange(1, prog.len() as int), fuel),
            other => other,
        }
    }
}

/// The error the interpreter reports for each machine fault.
pub open spec fn fault_error(f: MachineFault) -> BrainfuckError {
    match f {
        MachineFault::Underflow => BrainfuckError::TapeUnderflow,
        MachineFault::Overflow => BrainfuckError::TapeOverflow,
        MachineFault::EndOfInput => BrainfuckError::IoError,
    }
}

/// How one execution of the interpreter stopped early.
enum StopReason {
    Underflow,
    Overflow,
    EndOfInput,
    Spin,
}

spec fn stop_fault(st: StopReason) -> MachineFault {
    match st {
        StopReason::Underflow => MachineFault::Underflow,
        StopReason::Overflow => MachineFault::Overflow,
        StopReason::EndOfInput => MachineFault::EndOfInput,
        StopReason::Spin => arbitrary(),
    }
}

/// Builder for the [`Interpreter`] struct.
pub struct InterpreterBuilder {
    pub tape_size: usize,
    pub input: Option<Vec<u8>>,
    pub output: Option<Vec<u8>>,
}

impl Default for InterpreterBuilder {
    fn default() -> (r: Self)
        ensures
            r.tape_size == 30000,
            r.input is None,
            r.output is None,
    {
        InterpreterBuilder::new()
    }
}

impl InterpreterBuilder {
    /// Creates a new builder with the default settings: a tape of 30 000
    /// cells, no input and no output.
    pub fn new() -> (r: InterpreterBuilder)
        ensures
            r.tape_size == 30000,
            r.input is None,
            r.output is None,
    {
        InterpreterBuilder { tape_size: 30000, input: None, output: None }
    }

    /// Sets the maximum tape size. The size must be at least 1; sizes that
    /// do not fit a signed 32-bit offset are out of scope.
    pub fn tape_size(self, tape_size: usize) -> (r: Self)
        requires
            1 <= tape_size <= MAX_TAPE_SIZE,
        ensures
            r == (InterpreterBuilder { tape_size, ..self }),
    {
        InterpreterBuilder { tape_size, ..self }
    }

    /// Sets the bytes that will serve as input for the `,` instruction.
    pub fn input(self, input: Vec<u8>) -> (r: Self)
        ensures
            r == (InterpreterBuilder { input: Some(input), ..self }),
    {
        InterpreterBuilder { input: Some(input), ..self }
    }

    /// Sets the buffer that the `.` instruction will append to.
    pub fn output(self, output: Vec<u8>) -> (r: Self)
        ensures
            r == (InterpreterBuilder { output: Some(output), ..self }),
    {
        InterpreterBuilder { output: Some(output), ..self }
    }

    /// Builds the actual [`Interpreter`]: a zeroed tape of the configured
    /// size, the data pointer on cell zero, and the configured streams.
    pub fn build(self) -> (r: Interpreter)
        requires
            1 <= self.tape_size <= MAX_TAPE_SIZE,
        ensures
            r.wf(),
            r@.tape =~= Seq::new(self.tape_size as nat, |i: int| 0u8),
            r@.pos == 0,
            r@.input == match self.input {
                Some(v) => Some(v@),
                None => None::<Seq<u8>>,
            },
            r@.output == match self.output {
                Some(v) => Some(v@),
                None => None::<Seq<u8>>,
            },
    {
        let r = Interpreter {
            tape: vec![0u8; self.tape_size],
            tape_position: 0,
            input: self.input,
            input_position: 0,
            output: self.output,
        };
        proof {
            assert(r@.tape =~= Seq::new(self.tape_size as nat, |i: int| 0u8));
            if r.input is Some {
                assert(r@.input.unwrap() =~= r.input.unwrap()@);
            }
        }
        r
    }
}

/// Main entrypoint of the Brainfuck interpreter.
/// This structure holds the state of the tape and can run a set of
/// instructions.
pub struct Interpreter {
    pub tape: Vec<u8>,
    pub tape_position: usize,
    pub input: Option<Vec<u8>>,
    pub input_position: usize,
    pub output: Option<Vec<u8>>,
}

impl View for Interpreter {
    type V = MachineState;

    open spec fn view(&self) -> MachineState {
        MachineState {
            tape: self.tape@,
            pos: self.tape_position as int,
            input: match self.input {
                Some(v) => Some(v@.subrange(self.input_position as int, v@.len() as int)),
                None => None::<Seq<u8>>,
            },
            output: match self.output {
                Some(v) => Some(v@),
                None => None::<Seq<u8>>,
            },
        }
    }
}

impl Default for Interpreter {
    fn default() -> (r: Self)
        ensures
            r.wf(),
            r@.tape =~= Seq::new(30000, |i: int| 0u8),
            r@.pos == 0,
            r@.input is None,
            r@.output is None,
    {
        Interpreter::new()
    }
}

impl Interpreter {
    /// A well-formed interpreter: a nonempty tape of bounded size, the
    /// data pointer on it, and the input cursor within the input.
    pub open spec fn wf(self) -> bool {
        &&& 1 <= self.tape@.len() <= MAX_TAPE_SIZE
        &&& (self.tape_position as int) < self.tape@.len()
        &&& match self.input {
            Some(v) => self.input_position <= v@.len(),
            None => true,
        }
    }

    /// Builds an [`Interpreter`] with the default settings.
    pub fn new() -> (r: Interpreter)
        ensures
            r.wf(),
            r@.tape =~= Seq::new(30000, |i: int| 0u8),
            r@.pos == 0,
            r@.input is None,
            r@.output is None,
    {
        InterpreterBuilder::new().build()
    }

    /// Creates an [`InterpreterBuilder`] to configure a new
    /// [`Interpreter`].
    pub fn builder() -> (r: InterpreterBuilder)
        ensures
            r.tape_size == 30000,
            r.input is None,
            r.output is None,
    {
        InterpreterBuilder::new()
    }

    /// Returns a reference to the underlying tape used by this
    /// [`Interpreter`].
    pub fn tape(&self) -> (r: &Vec<u8>)
        ensures
            r@ == self@.tape,
    {
        &self.tape
    }

    /// Returns the position of the data pointer on the tape.
    pub fn tape_position(&self) -> (r: usize)
        ensures
            r as int == self@.pos,
    {
        self.tape_position
    }

    /// Returns a reference to the input bytes used by this
    /// [`Interpreter`], including those already read.
    pub fn input(&self) -> (r: Option<&Vec<u8>>)
        ensures
            match r {
                Some(v) => self.input matches Some(w) && v@ == w@,
                None => self.input is None,
            },
    {
        self.input.as_ref()
    }

    /// Returns a reference to the bytes written so far by this
    /// [`Interpreter`].
    pub fn output(&self) -> (r: Option<&Vec<u8>>)
        ensures
            match r {
                Some(v) => self@.output == Some(v@),
                None => self@.output is None,
            },
    {
        self.output.as_ref()
    }

    /// Executes the given set of instructions in this [`Interpreter`].
    ///
    /// The result and the new state are exactly those of the machine
    /// model, run with the full step budget: `Ok` when the program
    /// halts, the corresponding error when it underflows or overflows
    /// the tape or exhausts its input, and a generic message in the
    /// practically unreachable case that the step budget runs out.
    pub fn run(&mut self, instructions: &Vec<Instruction>) -> (res: Result<(), BrainfuckError>)
        requires
            old(self).wf(),
        ensures
            final(self).wf(),
            match run_seq_model(old(self)@, view_seq(instructions@), STEP_BUDGET as nat) {
                Outcome::Halted(m) => res is Ok && final(self)@ == m,
                Outcome::Faulted(f, m) => res matches Err(e) && e == fault_error(f) && final(self)@ == m,
                Outcome::Spun(m) => res matches Err(e) && e matches BrainfuckError::Message(_)
                    && final(self)@ == m,
            },
    {
        match self.run_fuel(instructions, STEP_BUDGET) {
            Ok(()) => Ok(()),
            Err(StopReason::Underflow) => Err(BrainfuckError::TapeUnderflow),
            Err(StopReason::Overflow) => Err(BrainfuckError::TapeOverflow),
            Err(StopReason::EndOfInput) => Err(BrainfuckError::IoError),
            Err(StopReason::Spin) => Err(
                BrainfuckError::Message("Execution exceeded the step budget.".to_owned()),
            ),
        }
    }

    /// Runs `instructions` with the given loop budget, mirroring the
    /// machine model step for step.
    #[verifier::loop_isolation(false)]
    #[verifier::rlimit(100)]
    fn run_fuel(&mut self, instructions: &Vec<Instruction>, fuel: u64) -> (res: Result<
        (),
        StopReason,
    >)
        requires
            old(self).wf(),
        ensures
            final(self).wf(),
            match res {
                Ok(()) => run_seq_model(old(self)@, view_seq(instructions@), fuel as nat)
                    == Outcome::Halted(final(self)@),
                Err(StopReason::Spin) => run_seq_model(
                    old(self)@,
                    view_seq(instructions@),
                    fuel as nat,
                ) == Outcome::Spun(final(self)@),
                Err(st) => run_seq_model(old(self)@, view_seq(instructions@), fuel as nat)
                    == Outcome::Faulted(stop_fault(st), final(self)@),
            },
        decreases fuel, seq_size(view_seq(instructions@)),
    {
        let ghost prog = view_seq(instructions@);
        let mut k: usize = 0;

        proof {
            assert(prog.subrange(0, prog.len() as int) =~= prog);
        }

        while k < instructions.len()
            invariant
                self.wf(),
                k <= instructions.len(),
                prog == view_seq(instructions@),
                run_seq_model(old(self)@, prog, fuel as nat) == run_seq_model(
                    self@,
                    prog.subrange(k as int, prog.len() as int),
                    fuel as nat,
                ),
            decreases instructions.len() - k,
        {
            let ghost s_before = self@;
            let ghost rest = prog.subrange(k as int, prog.len() as int);
            proof {
                assert(rest[0] == prog[k as int]);
                assert(rest.subrange(1, rest.len() as int) =~= prog.subrange(
                    k as int + 1,
                    prog.len() as int,
                ));
            }
            match &instructions[k] {
                Instruction::Add { amount, .. } => {
                    let cell = self.tape[self.tape_position];
                    self.tape[self.tape_position] = cell.wrapping_add(*amount);
                    proof {
                        assert(self@ =~= (MachineState {
                            tape: s_before.tape.update(
                                s_before.pos,
                                byte_add(s_before.tape[s_before.pos], *amount),
                            ),
                            ..s_before
                        }));
                        assert(run_instr_model(s_before, rest[0], fuel as nat) == Outcome::Halted(
                            self@,
                        ));
                    }
                },
                Instruction::Move { offset, .. } => {
                    match self.compute_offset(*offset) {
                        Ok(target) => {
                            self.tape_position = target;
                            proof {
                                assert(self@ =~= (MachineState { pos: target as int, ..s_before }));
                                assert(run_instr_model(s_before, rest[0], fuel as nat)
                                    == Outcome::Halted(self@));
                            }
                        },
                        Err(BrainfuckError::TapeUnderflow) => {
                            proof {
                                assert(run_instr_model(s_before, rest[0], fuel as nat)
                                    == Outcome::Faulted(MachineFault::Underflow, self@));
                                assert(run_seq_model(old(self)@, prog, fuel as nat)
                                    == Outcome::Faulted(MachineFault::Underflow, self@));
                            }
                            return Err(StopReason::Underflow);
                        },
                        Err(_) => {
                            proof {
                                assert(run_instr_model(s_before, rest[0], fuel as nat)
                                    == Outcome::Faulted(MachineFault::Overflow, self@));
                                assert(run_seq_model(old(self)@, prog, fuel as nat)
                                    == Outcome::Faulted(MachineFault::Overflow, self@));
                            }
                            return Err(StopReason::Overflow);
                        },
                    }
                },
                Instruction::Input { .. } => {
                    let mut read: Option<u8> = None;
                    match &self.input {
                        Some(inp) => {
                            if self.input_position < inp.len() {
                                read = Some(inp[self.input_position]);
                            } else {
                                proof {
                                    assert(s_before.input.unwrap().len() == 0);
                                    assert(run_instr_model(s_before, rest[0], fuel as nat)
                                        == Outcome::Faulted(MachineFault::EndOfInput, self@));
                                    assert(run_seq_model(old(self)@, prog, fuel as nat)
                                        == Outcome::Faulted(MachineFault::EndOfInput, self@));
                                }
                                return Err(StopReason::EndOfInput);
                            }
                        },
                        None => {},
                    }
                    match read {
                        Some(byte) => {
                            self.tape[self.tape_position] = byte;
                            self.input_position = self.input_position + 1;
                            proof {
                                let inp = s_before.input.unwrap();
                                assert(self@.input.unwrap() =~= inp.subrange(1, inp.len() as int));
                                assert(self@ =~= (MachineState {
                                    tape: s_before.tape.update(s_before.pos, inp[0]),
                                    input: Some(inp.subrange(1, inp.len() as int)),
                                    ..s_before
                                }));
                                assert(run_instr_model(s_before, rest[0], fuel as nat)
                                    == Outcome::Halted(self@));
                            }
                        },
                        None => {
                            self.tape[self.tape_position] = 0;
                            proof {
                                assert(self@ =~= (MachineState {
                                    tape: s_before.tape.update(s_before.pos, 0u8),
                                    ..s_before
                                }));
                                assert(run_instr_model(s_before, rest[0], fuel as nat)
                                    == Outcome::Halted(self@));
                            }
                        },
                    }
                },
                Instruction::Output { .. } => {
                    let cell = self.tape[self.tape_position];
                    match &mut self.output {
                        Some(out) => {
                            out.push(cell);
                        },
                        None => {},
                    }
                    proof {
                        if s_before.output is Some {
                            assert(self@ =~= (MachineState {
                                output: Some(s_before.output.unwrap().push(
                                    s_before.tape[s_before.pos],
                                )),
                                ..s_before
                            }));
                        } else {
                            assert(self@ =~= s_before);
                        }
                        assert(run_instr_model(s_before, rest[0], fuel as nat) == Outcome::Halted(
                            self@,
                        ));
                    }
                },
                Instruction::Loop { body, .. } => {
                    let ghost loop_model = prog[k as int];
                    let mut f: u64 = fuel;
                    while self.tape[self.tape_position] != 0
                        invariant
                            self.wf(),
                            f <= fuel,
                            loop_model == (InstrModel::Loop {
                                body: view_seq(body@),
                                position: loop_model.position(),
                            }),
                            run_instr_model(s_before, loop_model, fuel as nat) == run_instr_model(
                                self@,
                                loop_model,
                                f as nat,
                            ),
                        decreases f,
                    {
                        if f == 0 {
                            proof {
                                assert(run_instr_model(self@, loop_model, 0nat) == Outcome::Spun(
                                    self@,
                                ));
                                assert(run_instr_model(s_before, loop_model, fuel as nat)
                                    == Outcome::Spun(self@));
                                assert(rest.len() > 0 && rest[0] == loop_model);
                                assert(run_seq_model(s_before, rest, fuel as nat) == Outcome::Spun(
                                    self@,
                                ));
                                assert(run_seq_model(old(self)@, prog, fuel as nat)
                                    == Outcome::Spun(self@));
                            }
                            return Err(StopReason::Spin);
                        }
                        let ghost s_iter = self@;
                        let body_res = self.run_fuel(body, f - 1);
                        proof {
                            assert(run_instr_model(s_iter, loop_model, f as nat) == match
                                run_seq_model(s_iter, view_seq(body@), (f - 1) as nat) {
                                Outcome::Halted(s2) => run_instr_model(
                                    s2,
                                    loop_model,
                                    (f - 1) as nat,
                                ),
                                other => other,
                            });
                        }
                        match body_res {
                            Ok(()) => {},
                            Err(st) => {
                                proof {
                                    assert(run_instr_model(s_iter, loop_model, f as nat)
                                        == run_seq_model(
                                        s_iter,
                                        view_seq(body@),
                                        (f - 1) as nat,
                                    ));
                                    assert(run_instr_model(s_before, loop_model, fuel as nat)
                                        == run_instr_model(s_iter, loop_model, f as nat));
                                    assert(rest.len() > 0 && rest[0] == loop_model);
                                    assert(run_seq_model(s_before, rest, fuel as nat)
                                        == run_instr_model(s_before, rest[0], fuel as nat));
                                    assert(run_seq_model(old(self)@, prog, fuel as nat)
                                        == run_instr_model(s_iter, loop_model, f as nat));
                                }
                                return Err(st);
                            },
                        }
                        f = f - 1;
                    }
                    proof {
                        assert(run_instr_model(self@, loop_model, f as nat) == Outcome::Halted(
                            self@,
                        ));
                        assert(run_instr_model(s_before, rest[0], fuel as nat) == Outcome::Halted(
                            self@,
                        ));
                    }
                },
                Instruction::Clear { .. } => {
                    self.tape[self.tape_position] = 0;
                    proof {
                        assert(self@ =~= (MachineState {
                            tape: s_before.tape.update(s_before.pos, 0u8),
                            ..s_before
                        }));
                        assert(run_instr_model(s_before, rest[0], fuel as nat) == Outcome::Halted(
                            self@,
                        ));
                    }
                },
                Instruction::Mul { offset, amount, .. } => {
                    let cell = self.tape[self.tape_position];
                    if cell != 0 {
                        match self.compute_offset(*offset) {
                            Ok(target) => {
                                let product = cell.wrapping_mul(*amount);
                                let existing = self.tape[target];
                                self.tape[target] = existing.wrapping_add(product);
                                proof {
                                    assert(self@ =~= (MachineState {
                                        tape: s_before.tape.update(
                                            target as int,
                                            byte_add(
                                                s_before.tape[target as int],
                                                byte_mul(s_before.tape[s_before.pos], *amount),
                                            ),
                                        ),
                                        ..s_before
                                    }));
                                }
                            },
                            Err(BrainfuckError::TapeUnderflow) => {
                                proof {
                                    assert(run_instr_model(s_before, rest[0], fuel as nat)
                                        == Outcome::Faulted(MachineFault::Underflow, self@));
                                    assert(run_seq_model(old(self)@, prog, fuel as nat)
                                        == Outcome::Faulted(MachineFault::Underflow, self@));
                                }
                                return Err(StopReason::Underflow);
                            },
                            Err(_) => {
                                proof {
                                    assert(run_instr_model(s_before, rest[0], fuel as nat)
                                        == Outcome::Faulted(MachineFault::Overflow, self@));
                                    assert(run_seq_model(old(self)@, prog, fuel as nat)
                                        == Outcome::Faulted(MachineFault::Overflow, self@));
                                }
                                return Err(StopReason::Overflow);
                            },
                        }
                    }
                    proof {
                        assert(run_instr_model(s_before, rest[0], fuel as nat) == Outcome::Halted(
                            self@,
                        ));
                    }
                },
            }
            proof {
                assert(run_seq_model(s_before, rest, fuel as nat) == run_seq_model(
                    self@,
                    rest.subrange(1, rest.len() as int),
                    fuel as nat,
                ));
            }
            k = k + 1;
        }
        proof {
            assert(prog.subrange(k as int, prog.len() as int).len() == 0);
        }
        Ok(())
    }

    /// The tape cell `offset` away from the data pointer, or the fault
    /// when it falls off the tape.
    #[inline]
    fn compute_offset(&self, offset: isize) -> (r: Result<usize, BrainfuckError>)
        requires
            self.wf(),
        ensures
            ({
                let target = self@.pos + offset;
                if target < 0 {
                    r == Err::<usize, BrainfuckError>(BrainfuckError::TapeUnderflow)
                } else if target >= self@.tape.len() {
                    r == Err::<usize, BrainfuckError>(BrainfuckError::TapeOverflow)
                } else {
                    r == Ok::<usize, BrainfuckError>(target as usize)
                }
            }),
    {
        match (self.tape_position as isize).checked_add(offset) {
            Some(target_pos) => {
                if target_pos < 0 {
                    Err(BrainfuckError::TapeUnderflow)
                } else if target_pos >= self.tape.len() as isize {
                    Err(BrainfuckError::TapeOverflow)
                } else {
                    Ok(target_pos as usize)
                }
            },
            None => {
                // The sum exceeds `isize::MAX`, which is far past the
                // largest tape a well-formed interpreter can hold.
                Err(BrainfuckError::TapeOverflow)
            },
        }
    }
}


/// Running a concatenation: the first part runs, and where it halts the
/// second part takes over with the same budget.
#[verifier::spinoff_prover]
#[verifier::rlimit(60)]
pub proof fn lemma_run_seq_concat(
    s: MachineState,
    a: Seq<InstrModel>,
    b: Seq<InstrModel>,
    fuel: nat,
)
    ensures
        run_seq_model(s, a + b, fuel) == (match run_seq_model(s, a, fuel) {
            Outcome::Halted(m) => run_seq_model(m, b, fuel),
            other => other,
        }),
    decreases a.len(),
{
    if a.len() == 0 {
        assert(a + b =~= b);
    } else {
        assert((a + b)[0] == a[0]);
        assert((a + b).subrange(1, (a + b).len() as int) =~= a.subrange(1, a.len() as int) + b);
        match run_instr_model(s, a[0], fuel) {
            Outcome::Halted(m) => {
                lemma_run_seq_concat(m, a.subrange(1, a.len() as int), b, fuel);
            },
            _ => {},
        }
    }
}

/// One piece of the rewrites' soundness: a `Clear` behaves exactly as the
/// loop `[-]` that the clear-loops pass replaces, whatever positions the
/// two carry, whenever the loop budget covers the value of the current
/// cell.
#[verifier::spinoff_prover]
#[verifier::rlimit(60)]
pub proof fn lemma_clear_matches_clear_loop(
    s: MachineState,
    p1: Position,
    p2: Position,
    p3: Position,
    fuel: nat,
)
    requires
        0 <= s.pos < s.tape.len(),
        fuel >= s.tape[s.pos],
    ensures
        run_instr_model(
            s,
            InstrModel::Loop {
                body: seq![InstrModel::Add { amount: 255u8, position: p1 }],
                position: p2,
            },
            fuel,
        ) == run_instr_model(s, InstrModel::Clear { position: p3 }, fuel),
    decreases s.tape[s.pos],
{
    let body = seq![InstrModel::Add { amount: 255u8, position: p1 }];
    let lp = InstrModel::Loop { body, position: p2 };
    if s.tape[s.pos] == 0 {
        assert(s.tape.update(s.pos, 0u8) =~= s.tape);
        assert((MachineState { tape: s.tape.update(s.pos, 0u8), ..s }) =~= s);
    } else {
        let s2 = MachineState {
            tape: s.tape.update(s.pos, byte_add(s.tape[s.pos], 255u8)),
            ..s
        };
        assert(run_seq_model(s, body, (fuel - 1) as nat) == Outcome::Halted(s2)) by {
            assert(body[0] == (InstrModel::Add { amount: 255u8, position: p1 }));
            assert(run_instr_model(s, body[0], (fuel - 1) as nat) == Outcome::Halted(s2));
            let rest = body.subrange(1, 1);
            assert(rest =~= Seq::<InstrModel>::empty());
            assert(run_seq_model(s2, rest, (fuel - 1) as nat) == Outcome::Halted(s2));
        }
        assert(s2.tape[s2.pos] == s.tape[s.pos] - 1);
        lemma_clear_matches_clear_loop(s2, p1, p2, p3, (fuel - 1) as nat);
        assert(s2.tape.update(s2.pos, 0u8) =~= s.tape.update(s.pos, 0u8));
        assert((MachineState { tape: s2.tape.update(s2.pos, 0u8), ..s2 }) =~= (MachineState {
            tape: s.tape.update(s.pos, 0u8),
            ..s
        }));
    }
}


/// The rewrites' other cheap piece: a null increment is a no-op, so the
/// dead-code rule that removes `Add` of zero and `Move` of zero preserves
/// each removed instruction's behaviour.
pub proof fn lemma_null_increment_noop(s: MachineState, position: Position, fuel: nat)
    requires
        0 <= s.pos < s.tape.len(),
    ensures
        run_instr_model(s, InstrModel::Add { amount: 0u8, position }, fuel) == Outcome::Halted(s),
        run_instr_model(s, InstrModel::Move { offset: 0isize, position }, fuel)
            == Outcome::Halted(s),
{
    assert(s.tape.update(s.pos, byte_add(s.tape[s.pos], 0u8)) =~= s.tape);
    assert((MachineState { tape: s.tape.update(s.pos, byte_add(s.tape[s.pos], 0u8)), ..s }) =~= s);
    assert((MachineState { pos: s.pos + 0, ..s }) =~= s);
}


/// Soundness of the dead-code rule that drops a loop-like instruction
/// when the current cell is zero: on a zero cell, a `Loop`, a `Clear` and
/// a `Mul` all leave the machine exactly as it was.
pub proof fn lemma_loop_like_on_zero_cell_is_noop(s: MachineState, i: InstrModel, fuel: nat)
    requires
        0 <= s.pos < s.tape.len(),
        s.tape[s.pos] == 0,
        i.is_loop(),
    ensures
        run_instr_model(s, i, fuel) == Outcome::Halted(s),
{
    match i {
        InstrModel::Clear { .. } => {
            assert(s.tape.update(s.pos, 0u8) =~= s.tape);
            assert((MachineState { tape: s.tape.update(s.pos, 0u8), ..s }) =~= s);
        },
        _ => {},
    }
}

/// A halted execution keeps the data pointer on the tape and never
/// changes the tape's size.
pub proof fn lemma_instr_preserves_bounds(s: MachineState, i: InstrModel, fuel: nat)
    requires
        0 <= s.pos < s.tape.len(),
    ensures
        run_instr_model(s, i, fuel) matches Outcome::Halted(s2) ==> 0 <= s2.pos < s2.tape.len()
            && s2.tape.len() == s.tape.len(),
    decreases fuel, instr_size(i), 0nat,
{
    match i {
        InstrModel::Loop { body, .. } => {
            if s.tape[s.pos] != 0 && fuel > 0 {
                lemma_seq_preserves_bounds(s, body, (fuel - 1) as nat);
                match run_seq_model(s, body, (fuel - 1) as nat) {
                    Outcome::Halted(s2) => {
                        lemma_instr_preserves_bounds(s2, i, (fuel - 1) as nat);
                    },
                    _ => {},
                }
            }
        },
        _ => {},
    }
}

/// A halted execution of a sequence keeps the data pointer on the tape
/// and never changes the tape's size.
pub proof fn lemma_seq_preserves_bounds(s: MachineState, prog: Seq<InstrModel>, fuel: nat)
    requires
        0 <= s.pos < s.tape.len(),
    ensures
        run_seq_model(s, prog, fuel) matches Outcome::Halted(s2) ==> 0 <= s2.pos < s2.tape.len()
            && s2.tape.len() == s.tape.len(),
    decreases fuel, seq_size(prog), 1nat,
{
    if prog.len() > 0 {
        assert(instr_size(prog[0]) >= 1);
        lemma_instr_preserves_bounds(s, prog[0], fuel);
        match run_instr_model(s, prog[0], fuel) {
            Outcome::Halted(s2) => {
                lemma_seq_preserves_bounds(s2, prog.subrange(1, prog.len() as int), fuel);
            },
            _ => {},
        }
    }
}

/// What "clears the current cell" promises: when such an instruction runs
/// to completion, the cell under the data pointer has become zero. This
/// is what lets dead-code drop the loop that follows.
#[verifier::spinoff_prover]
#[verifier::rlimit(60)]
pub proof fn lemma_clearing_instruction_leaves_zero(
    s: MachineState,
    i: InstrModel,
    fuel: nat,
    after: MachineState,
)
    requires
        0 <= s.pos < s.tape.len(),
        i.clears_current_cell(),
        run_instr_model(s, i, fuel) == Outcome::Halted(after),
    ensures
        0 <= after.pos < after.tape.len(),
        after.tape[after.pos] == 0,
    decreases fuel,
{
    lemma_instr_preserves_bounds(s, i, fuel);
    match i {
        InstrModel::Clear { .. } => {
            assert(after == (MachineState { tape: s.tape.update(s.pos, 0u8), ..s }));
        },
        InstrModel::Loop { body, .. } => {
            if s.tape[s.pos] == 0 {
                assert(after == s);
            } else if fuel > 0 {
                // The loop ran at least one iteration; it can only halt
                // when its guard finally reads zero.
                lemma_seq_preserves_bounds(s, body, (fuel - 1) as nat);
                match run_seq_model(s, body, (fuel - 1) as nat) {
                    Outcome::Halted(s2) => {
                        lemma_clearing_instruction_leaves_zero(s2, i, (fuel - 1) as nat, after);
                    },
                    _ => {},
                }
            }
        },
        _ => {},
    }
}

/// Soundness of one collapse-increments fusion: two adjacent `Add`s
/// behave exactly as the single fused `Add`, whatever positions they
/// carry.
#[verifier::spinoff_prover]
#[verifier::rlimit(60)]
pub proof fn lemma_fused_adds_match(
    s: MachineState,
    x: u8,
    y: u8,
    p1: Position,
    p2: Position,
    p3: Position,
    fuel: nat,
)
    requires
        0 <= s.pos < s.tape.len(),
    ensures
        run_seq_model(
            s,
            seq![
                InstrModel::Add { amount: x, position: p1 },
                InstrModel::Add { amount: y, position: p2 },
            ],
            fuel,
        ) == run_instr_model(s, InstrModel::Add { amount: byte_add(x, y), position: p3 }, fuel),
{
    let both = seq![
        InstrModel::Add { amount: x, position: p1 },
        InstrModel::Add { amount: y, position: p2 },
    ];
    let mid = MachineState { tape: s.tape.update(s.pos, byte_add(s.tape[s.pos], x)), ..s };
    let fin = MachineState {
        tape: mid.tape.update(mid.pos, byte_add(mid.tape[mid.pos], y)),
        ..mid
    };
    assert(run_instr_model(s, both[0], fuel) == Outcome::Halted(mid));
    assert(both.subrange(1, 2)[0] == both[1]);
    assert(run_instr_model(mid, both[1], fuel) == Outcome::Halted(fin));
    assert(both.subrange(1, 2).subrange(1, 1) =~= Seq::<InstrModel>::empty());
    assert(run_seq_model(fin, both.subrange(1, 2).subrange(1, 1), fuel) == Outcome::Halted(fin));
    assert(run_seq_model(mid, both.subrange(1, 2), fuel) == Outcome::Halted(fin));
    assert(run_seq_model(s, both, fuel) == Outcome::Halted(fin));
    assert(byte_add(byte_add(s.tape[s.pos], x), y) == byte_add(s.tape[s.pos], byte_add(x, y)));
    assert(fin.tape =~= s.tape.update(s.pos, byte_add(s.tape[s.pos], byte_add(x, y))));
    assert(fin =~= (MachineState {
        tape: s.tape.update(s.pos, byte_add(s.tape[s.pos], byte_add(x, y))),
        ..s
    }));
}

/// Soundness of the other collapse-increments fusions, in the direction
/// the rewrite needs: when two adjacent `Move`s run without a fault, the
/// single fused `Move` reaches the same state; and two adjacent `Clear`s
/// behave exactly as one.
#[verifier::spinoff_prover]
#[verifier::rlimit(60)]
pub proof fn lemma_fused_moves_match(
    s: MachineState,
    x: isize,
    y: isize,
    p1: Position,
    p2: Position,
    p3: Position,
    fuel: nat,
    after: MachineState,
)
    requires
        run_seq_model(
            s,
            seq![
                InstrModel::Move { offset: x, position: p1 },
                InstrModel::Move { offset: y, position: p2 },
            ],
            fuel,
        ) == Outcome::Halted(after),
        in_isize(x + y),
    ensures
        run_instr_model(s, InstrModel::Move { offset: (x + y) as isize, position: p3 }, fuel)
            == Outcome::Halted(after),
{
    let both = seq![
        InstrModel::Move { offset: x, position: p1 },
        InstrModel::Move { offset: y, position: p2 },
    ];
    assert(both.subrange(1, 2)[0] == both[1]);
    assert(both.subrange(1, 2).subrange(1, 1) =~= Seq::<InstrModel>::empty());
    let t1 = s.pos + x;
    if t1 < 0 || t1 >= s.tape.len() {
        assert(run_seq_model(s, both, fuel) == run_instr_model(s, both[0], fuel));
        assert(false);
    }
    let mid = MachineState { pos: t1, ..s };
    assert(run_instr_model(s, both[0], fuel) == Outcome::Halted(mid));
    assert(run_seq_model(mid, both.subrange(1, 2), fuel) == Outcome::Halted(after));
    let t2 = mid.pos + y;
    if t2 < 0 || t2 >= s.tape.len() {
        assert(run_seq_model(mid, both.subrange(1, 2), fuel) == run_instr_model(
            mid,
            both[1],
            fuel,
        ));
        assert(false);
    }
    let fin = MachineState { pos: t2, ..mid };
    assert(run_instr_model(mid, both[1], fuel) == Outcome::Halted(fin));
    assert(run_seq_model(fin, both.subrange(1, 2).subrange(1, 1), fuel) == Outcome::Halted(fin));
    assert(after == fin);
    assert(s.pos + ((x + y) as isize) == t2);
    assert(fin =~= (MachineState { pos: s.pos + ((x + y) as isize), ..s }));
}

/// Two adjacent `Clear`s behave exactly as the single fused `Clear`.
#[verifier::spinoff_prover]
#[verifier::rlimit(60)]
pub proof fn lemma_fused_clears_match(
    s: MachineState,
    p1: Position,
    p2: Position,
    p3: Position,
    fuel: nat,
)
    requires
        0 <= s.pos < s.tape.len(),
    ensures
        run_seq_model(
            s,
            seq![InstrModel::Clear { position: p1 }, InstrModel::Clear { position: p2 }],
            fuel,
        ) == run_instr_model(s, InstrModel::Clear { position: p3 }, fuel),
{
    let both = seq![InstrModel::Clear { position: p1 }, InstrModel::Clear { position: p2 }];
    let mid = MachineState { tape: s.tape.update(s.pos, 0u8), ..s };
    let fin = MachineState { tape: mid.tape.update(mid.pos, 0u8), ..mid };
    assert(run_instr_model(s, both[0], fuel) == Outcome::Halted(mid));
    assert(both.subrange(1, 2)[0] == both[1]);
    assert(run_instr_model(mid, both[1], fuel) == Outcome::Halted(fin));
    assert(both.subrange(1, 2).subrange(1, 1) =~= Seq::<InstrModel>::empty());
    assert(run_seq_model(fin, both.subrange(1, 2).subrange(1, 1), fuel) == Outcome::Halted(fin));
    assert(run_seq_model(mid, both.subrange(1, 2), fuel) == Outcome::Halted(fin));
    assert(run_seq_model(s, both, fuel) == Outcome::Halted(fin));
    assert(fin.tape =~= mid.tape);
    assert(fin =~= mid);
}

} // verus!
