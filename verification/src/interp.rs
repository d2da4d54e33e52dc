//! Executing a compiled instruction sequence.
//!
//! The machine owns a fixed tape of 3000 byte cells, a cursor into it, and
//! a program counter into the instruction sequence. One call to [`Machine::step`]
//! executes one instruction. Anything that touches the world outside the
//! machine is reported back to the caller as an [`Effect`]: a byte to
//! write, a request for one byte of input, a diagnostic dump. The machine
//! halts when the program counter walks past the end of the program; a
//! cursor leaving the tape is a fault, never silent recovery.

use vstd::prelude::*;
use crate::parser::{Instr, wf_at, wf_program};

verus! {

/// Length of the tape: the machine's entire addressable memory.
pub const TAPE_LEN: usize = 3000;

/// How many cells a diagnostic dump shows, starting at the cursor.
pub const DUMP_LEN: usize = 20;

/// The mathematical state of a machine: the tape cells, the cell index the
/// cursor rests on, and the index of the next instruction to execute.
#[verifier::ext_equal]
pub ghost struct State {
    pub tape: Seq<u8>,
    pub cursor: nat,
    pub pc: nat,
}

/// Why a run stopped short of normal termination.
#[derive(Clone, Copy, Debug, PartialEq, Eq, Structural)]
pub enum Fault {
    /// The cursor would have moved below cell 0.
    CursorUnderflow,
    /// The cursor cannot be represented any more after moving right.
    CursorOverflow,
    /// An instruction touched the tape while the cursor was outside it.
    CursorOutOfRange,
}

/// What one step asks of the caller.
#[derive(Clone, Copy, Debug, PartialEq, Eq, Structural)]
pub enum Effect {
    /// The instruction completed with nothing for the caller to do.
    Proceed,
    /// Write this byte to the output stream.
    Output(u8),
    /// Supply one byte of input and call `step` again.
    NeedInput,
    /// Write a diagnostic dump of the cells at the cursor; see
    /// [`Machine::dump_window`].
    Dump,
    /// The program counter is past the end of the program: the run is over.
    Halted,
    /// The step could not be performed; the state is unchanged and the run
    /// must be abandoned.
    Fault(Fault),
}

/// One increment of a cell, wrapping modulo 256.
pub open spec fn wrap_inc(v: u8) -> u8 {
    ((v + 1) % 256) as u8
}

/// One decrement of a cell, wrapping modulo 256.
pub open spec fn wrap_dec(v: u8) -> u8 {
    ((v + 255) % 256) as u8
}

/// What executing one instruction does: the state after the step and the
/// effect reported to the caller. `input` is the byte the caller offers in
/// case the next instruction reads input; an `Input` instruction with no
/// byte on offer leaves the state unchanged and asks for one.
///
/// Every jump lands on the matching bracket instruction itself and the
/// program counter then moves one past it, which is why targets point at
/// the bracket rather than beyond it.
pub open spec fn step_spec(p: Seq<Instr>, s: State, input: Option<u8>) -> (State, Effect) {
    if s.pc >= p.len() {
        (s, Effect::Halted)
    } else {
        match p[s.pc as int] {
            Instr::Increment => if s.cursor < TAPE_LEN {
                (
                    State {
                        tape: s.tape.update(s.cursor as int, wrap_inc(s.tape[s.cursor as int])),
                        pc: s.pc + 1,
                        ..s
                    },
                    Effect::Proceed,
                )
            } else {
                (s, Effect::Fault(Fault::CursorOutOfRange))
            },
            Instr::Decrement => if s.cursor < TAPE_LEN {
                (
                    State {
                        tape: s.tape.update(s.cursor as int, wrap_dec(s.tape[s.cursor as int])),
                        pc: s.pc + 1,
                        ..s
                    },
                    Effect::Proceed,
                )
            } else {
                (s, Effect::Fault(Fault::CursorOutOfRange))
            },
            Instr::MoveRight => if s.cursor < usize::MAX {
                (State { cursor: s.cursor + 1, pc: s.pc + 1, ..s }, Effect::Proceed)
            } else {
                (s, Effect::Fault(Fault::CursorOverflow))
            },
            Instr::MoveLeft => if s.cursor > 0 {
                (State { cursor: (s.cursor - 1) as nat, pc: s.pc + 1, ..s }, Effect::Proceed)
            } else {
                (s, Effect::Fault(Fault::CursorUnderflow))
            },
            Instr::Output => if s.cursor < TAPE_LEN {
                (State { pc: s.pc + 1, ..s }, Effect::Output(s.tape[s.cursor as int]))
            } else {
                (s, Effect::Fault(Fault::CursorOutOfRange))
            },
            Instr::Input => if s.cursor < TAPE_LEN {
                match input {
                    Some(b) => (
                        State { tape: s.tape.update(s.cursor as int, b), pc: s.pc + 1, ..s },
                        Effect::Proceed,
                    ),
                    None => (s, Effect::NeedInput),
                }
            } else {
                (s, Effect::Fault(Fault::CursorOutOfRange))
            },
            Instr::JumpIfZero(t) => if s.cursor < TAPE_LEN {
                if s.tape[s.cursor as int] == 0 {
                    (State { pc: (t + 1) as nat, ..s }, Effect::Proceed)
                } else {
                    (State { pc: s.pc + 1, ..s }, Effect::Proceed)
                }
            } else {
                (s, Effect::Fault(Fault::CursorOutOfRange))
            },
            Instr::JumpIfNonZero(t) => if s.cursor < TAPE_LEN {
                if s.tape[s.cursor as int] != 0 {
                    (State { pc: (t + 1) as nat, ..s }, Effect::Proceed)
                } else {
                    (State { pc: s.pc + 1, ..s }, Effect::Proceed)
                }
            } else {
                (s, Effect::Fault(Fault::CursorOutOfRange))
            },
            Instr::DumpTape => if s.cursor + DUMP_LEN <= TAPE_LEN {
                (State { pc: s.pc + 1, ..s }, Effect::Dump)
            } else {
                (s, Effect::Fault(Fault::CursorOutOfRange))
            },
        }
    }
}

/// How a bounded run ended.
#[derive(Clone, Copy, Debug, PartialEq, Eq, Structural)]
pub enum RunEnd {
    /// The program counter fell off the end: normal termination.
    Halted,
    /// The step bound ran out before the program terminated.
    OutOfSteps,
    /// An `Input` instruction found the supplied input exhausted.
    InputExhausted,
    /// The machine faulted; the payload says why.
    Faulted(Fault),
}

/// What running at most `fuel` instructions does, drawing input bytes from
/// the front of `inputs`: the final state, the bytes written by `Output`
/// instructions in order, and how the run ended. Diagnostic dumps are not
/// collected. On any end other than `OutOfSteps` the state is the one in
/// which the run stopped making progress.
pub open spec fn run_spec(p: Seq<Instr>, s: State, inputs: Seq<u8>, fuel: nat) -> (
    State,
    Seq<u8>,
    RunEnd,
)
    decreases fuel,
{
    if fuel == 0 {
        (s, Seq::empty(), RunEnd::OutOfSteps)
    } else {
        let offer: Option<u8> = if inputs.len() > 0 {
            Some(inputs[0])
        } else {
            None
        };
        let stepped = step_spec(p, s, offer);
        match stepped.1 {
            Effect::Halted => (s, Seq::empty(), RunEnd::Halted),
            Effect::NeedInput => (s, Seq::empty(), RunEnd::InputExhausted),
            Effect::Fault(f) => (s, Seq::empty(), RunEnd::Faulted(f)),
            Effect::Output(b) => {
                let rest = run_spec(p, stepped.0, inputs, (fuel - 1) as nat);
                (rest.0, seq![b] + rest.1, rest.2)
            },
            _ => {
                let consumed = if s.pc < p.len() && p[s.pc as int] is Input {
                    inputs.drop_first()
                } else {
                    inputs
                };
                run_spec(p, stepped.0, consumed, (fuel - 1) as nat)
            },
        }
    }
}

/// Cell arithmetic wraps modulo 256 in both directions: executing
/// `Increment` adds one to the current cell modulo 256, so a cell holding
/// 255 becomes 0, and executing `Decrement` subtracts one modulo 256, so a
/// cell holding 0 becomes 255. No other cell changes.
pub proof fn lemma_cell_wraparound(p: Seq<Instr>, s: State, input: Option<u8>)
    requires
        s.tape.len() == TAPE_LEN,
        s.pc < p.len(),
        s.cursor < TAPE_LEN,
    ensures
        p[s.pc as int] == Instr::Increment ==> step_spec(p, s, input).0.tape[s.cursor as int] == (
        s.tape[s.cursor as int] + 1) % 256,
        p[s.pc as int] == Instr::Decrement ==> step_spec(p, s, input).0.tape[s.cursor as int] == (
        s.tape[s.cursor as int] + 255) % 256,
        (p[s.pc as int] == Instr::Increment || p[s.pc as int] == Instr::Decrement) ==> forall|
            i: int,
        |
            0 <= i < TAPE_LEN && i != s.cursor ==> step_spec(p, s, input).0.tape[i] == s.tape[i],
{
}

/// A machine whose program counter is at or past the end of its program —
/// in particular any machine given the empty program — is halted: a step
/// changes nothing, writes nothing and reports `Halted`.
pub proof fn lemma_halted_past_end(p: Seq<Instr>, s: State, input: Option<u8>)
    requires
        s.pc >= p.len(),
    ensures
        step_spec(p, s, input) == (s, Effect::Halted),
{
}

/// Executing the empty program terminates immediately: with any positive
/// step bound the run ends `Halted`, writes no output and leaves the state
/// unchanged.
pub proof fn lemma_empty_program_run(s: State, inputs: Seq<u8>, fuel: nat)
    requires
        fuel > 0,
    ensures
        run_spec(Seq::empty(), s, inputs, fuel) == (s, Seq::<u8>::empty(), RunEnd::Halted),
{
}

/// The execution state of one run: created fresh, stepped until the
/// program counter falls off the end of the program.
pub struct Machine {
    tape: Vec<u8>,
    cursor: usize,
    pc: usize,
}

impl View for Machine {
    type V = State;

    closed spec fn view(&self) -> State {
        State { tape: self.tape@, cursor: self.cursor as nat, pc: self.pc as nat }
    }
}

impl Machine {
    /// The machine's internal invariant: the tape never changes length.
    pub open spec fn wf(&self) -> bool {
        self@.tape.len() == TAPE_LEN
    }

    /// A fresh machine: every cell zero, cursor on cell 0, program counter
    /// at instruction 0.
    pub fn new() -> (r: Machine)
        ensures
            r.wf(),
            r@.cursor == 0,
            r@.pc == 0,
            forall|i: int| 0 <= i < TAPE_LEN ==> r@.tape[i] == 0u8,
    {
        let mut tape: Vec<u8> = Vec::new();
        let mut k: usize = 0;
        while k < TAPE_LEN
            invariant
                k <= TAPE_LEN,
                tape@.len() == k,
                forall|i: int| 0 <= i < k ==> tape@[i] == 0u8,
            decreases TAPE_LEN - k,
        {
            tape.push(0u8);
            k += 1;
        }
        Machine { tape, cursor: 0, pc: 0 }
    }

    /// Executes the next instruction, as [`step_spec`] says. The caller
    /// performs the returned effect; on [`Effect::NeedInput`] it reads one
    /// byte and calls `step` again with it.
    pub fn step(&mut self, program: &Vec<Instr>, input: Option<u8>) -> (r: Effect)
        requires
            old(self).wf(),
            wf_program(program@),
        ensures
            final(self).wf(),
            final(self)@ == step_spec(program@, old(self)@, input).0,
            r == step_spec(program@, old(self)@, input).1,
    {
        if self.pc >= program.len() {
            return Effect::Halted;
        }
        proof {
            assert(wf_at(program@, self.pc as int));
        }
        let ins = program[self.pc];
        match ins {
            Instr::Increment => {
                if self.cursor < TAPE_LEN {
                    let v = self.tape[self.cursor];
                    let nv = if v == 255 {
                        0u8
                    } else {
                        v + 1
                    };
                    self.tape.set(self.cursor, nv);
                    self.pc += 1;
                    Effect::Proceed
                } else {
                    Effect::Fault(Fault::CursorOutOfRange)
                }
            },
            Instr::Decrement => {
                if self.cursor < TAPE_LEN {
                    let v = self.tape[self.cursor];
                    let nv = if v == 0 {
                        255u8
                    } else {
                        v - 1
                    };
                    self.tape.set(self.cursor, nv);
                    self.pc += 1;
                    Effect::Proceed
                } else {
                    Effect::Fault(Fault::CursorOutOfRange)
                }
            },
            Instr::MoveRight => {
                if self.cursor < usize::MAX {
                    self.cursor += 1;
                    self.pc += 1;
                    Effect::Proceed
                } else {
                    Effect::Fault(Fault::CursorOverflow)
                }
            },
            Instr::MoveLeft => {
                if self.cursor > 0 {
                    self.cursor -= 1;
                    self.pc += 1;
                    Effect::Proceed
                } else {
                    Effect::Fault(Fault::CursorUnderflow)
                }
            },
            Instr::Output => {
                if self.cursor < TAPE_LEN {
                    let b = self.tape[self.cursor];
                    self.pc += 1;
                    Effect::Output(b)
                } else {
                    Effect::Fault(Fault::CursorOutOfRange)
                }
            },
            Instr::Input => {
                if self.cursor < TAPE_LEN {
                    match input {
                        Some(b) => {
                            self.tape.set(self.cursor, b);
                            self.pc += 1;
                            Effect::Proceed
                        },
                        None => Effect::NeedInput,
                    }
                } else {
                    Effect::Fault(Fault::CursorOutOfRange)
                }
            },
            Instr::JumpIfZero(t) => {
                if self.cursor < TAPE_LEN {
                    if self.tape[self.cursor] == 0 {
                        self.pc = t + 1;
                    } else {
                        self.pc += 1;
                    }
                    Effect::Proceed
                } else {
                    Effect::Fault(Fault::CursorOutOfRange)
                }
            },
            Instr::JumpIfNonZero(t) => {
                if self.cursor < TAPE_LEN {
                    if self.tape[self.cursor] != 0 {
                        self.pc = t + 1;
                    } else {
                        self.pc += 1;
                    }
                    Effect::Proceed
                } else {
                    Effect::Fault(Fault::CursorOutOfRange)
                }
            },
            Instr::DumpTape => {
                if self.cursor <= TAPE_LEN - DUMP_LEN {
                    self.pc += 1;
                    Effect::Dump
                } else {
                    Effect::Fault(Fault::CursorOutOfRange)
                }
            },
        }
    }

    /// Runs at most `max_steps` instructions, drawing input from `inputs`
    /// and collecting the bytes the program writes, as [`run_spec`] says.
    /// Useful where a whole run's input is known up front; an interactive
    /// caller drives [`Machine::step`] directly instead.
    pub fn run(&mut self, program: &Vec<Instr>, inputs: &Vec<u8>, max_steps: u64) -> (r: (
        Vec<u8>,
        RunEnd,
    ))
        requires
            old(self).wf(),
            wf_program(program@),
        ensures
            final(self).wf(),
            final(self)@ == run_spec(program@, old(self)@, inputs@, max_steps as nat).0,
            r.0@ == run_spec(program@, old(self)@, inputs@, max_steps as nat).1,
            r.1 == run_spec(program@, old(self)@, inputs@, max_steps as nat).2,
    {
        let ghost p = program@;
        let ghost s0 = self@;
        let ghost fuel0 = max_steps as nat;
        let n_in = inputs.len();
        let mut outputs: Vec<u8> = Vec::new();
        let mut in_idx: usize = 0;
        let mut steps: u64 = 0;
        proof {
            assert(inputs@.skip(0) =~= inputs@);
        }
        while steps < max_steps
            invariant
                self.wf(),
                wf_program(p),
                program@ == p,
                s0 == old(self)@,
                fuel0 == max_steps as nat,
                n_in == inputs@.len(),
                steps <= max_steps,
                in_idx <= inputs@.len(),
                run_spec(p, s0, inputs@, fuel0).0 == run_spec(
                    p,
                    self@,
                    inputs@.skip(in_idx as int),
                    (max_steps - steps) as nat,
                ).0,
                run_spec(p, s0, inputs@, fuel0).1 == outputs@ + run_spec(
                    p,
                    self@,
                    inputs@.skip(in_idx as int),
                    (max_steps - steps) as nat,
                ).1,
                run_spec(p, s0, inputs@, fuel0).2 == run_spec(
                    p,
                    self@,
                    inputs@.skip(in_idx as int),
                    (max_steps - steps) as nat,
                ).2,
            decreases max_steps - steps,
        {
            let ghost pre = self@;
            let ghost rem_in = inputs@.skip(in_idx as int);
            let ghost rem_fuel = (max_steps - steps) as nat;
            let offer: Option<u8> = if in_idx < n_in {
                Some(inputs[in_idx])
            } else {
                None
            };
            let ghost spec_offer: Option<u8> = if rem_in.len() > 0 {
                Some(rem_in[0])
            } else {
                None
            };
            proof {
                assert(rem_in.len() == inputs@.len() - in_idx);
                if in_idx < inputs@.len() {
                    assert(rem_in[0] == inputs@[in_idx as int]);
                }
                assert(offer == spec_offer);
            }
            let consumes: bool = if self.pc < program.len() {
                match program[self.pc] {
                    Instr::Input => true,
                    _ => false,
                }
            } else {
                false
            };
            let eff = self.step(program, offer);
            proof {
                assert(eff == step_spec(p, pre, spec_offer).1);
                assert(self@ == step_spec(p, pre, spec_offer).0);
            }
            match eff {
                Effect::Halted => {
                    proof {
                        assert(run_spec(p, pre, rem_in, rem_fuel) == (
                            pre,
                            Seq::<u8>::empty(),
                            RunEnd::Halted,
                        ));
                        assert(outputs@ + Seq::<u8>::empty() =~= outputs@);
                    }
                    return (outputs, RunEnd::Halted);
                },
                Effect::NeedInput => {
                    proof {
                        assert(run_spec(p, pre, rem_in, rem_fuel) == (
                            pre,
                            Seq::<u8>::empty(),
                            RunEnd::InputExhausted,
                        ));
                        assert(outputs@ + Seq::<u8>::empty() =~= outputs@);
                    }
                    return (outputs, RunEnd::InputExhausted);
                },
                Effect::Fault(f) => {
                    proof {
                        assert(run_spec(p, pre, rem_in, rem_fuel) == (
                            pre,
                            Seq::<u8>::empty(),
                            RunEnd::Faulted(f),
                        ));
                        assert(step_spec(p, pre, spec_offer).0 == pre);
                        assert(outputs@ + Seq::<u8>::empty() =~= outputs@);
                    }
                    return (outputs, RunEnd::Faulted(f));
                },
                Effect::Output(b) => {
                    let ghost rest = run_spec(p, self@, rem_in, (rem_fuel - 1) as nat);
                    proof {
                        assert(run_spec(p, pre, rem_in, rem_fuel) == (
                            rest.0,
                            seq![b] + rest.1,
                            rest.2,
                        ));
                        assert(outputs@ + (seq![b] + rest.1) =~= outputs@.push(b) + rest.1);
                    }
                    outputs.push(b);
                    steps += 1;
                },
                _ => {
                    // Effect::Proceed or Effect::Dump
                    let ghost consumed: Seq<u8> = if pre.pc < p.len() && p[pre.pc as int]
                        is Input {
                        rem_in.drop_first()
                    } else {
                        rem_in
                    };
                    proof {
                        assert(run_spec(p, pre, rem_in, rem_fuel) == run_spec(
                            p,
                            self@,
                            consumed,
                            (rem_fuel - 1) as nat,
                        ));
                        assert(consumes == (pre.pc < p.len() && p[pre.pc as int] is Input));
                        if consumes {
                            assert(rem_in.len() > 0);
                            assert(rem_in.drop_first() =~= inputs@.skip(in_idx as int + 1));
                        }
                    }
                    if consumes {
                        in_idx += 1;
                    }
                    steps += 1;
                },
            }
        }
        proof {
            assert(outputs@ + Seq::<u8>::empty() =~= outputs@);
        }
        (outputs, RunEnd::OutOfSteps)
    }

    /// The cells a diagnostic dump shows: [`DUMP_LEN`] of them, starting at
    /// the cursor; nothing when the window would leave the tape.
    pub fn dump_window(&self) -> (r: Option<Vec<u8>>)
        requires
            self.wf(),
        ensures
            self@.cursor + DUMP_LEN <= TAPE_LEN ==> (r matches Some(w) && w@ == self@.tape.subrange(
                self@.cursor as int,
                self@.cursor as int + DUMP_LEN,
            )),
            self@.cursor + DUMP_LEN > TAPE_LEN ==> r is None,
    {
        if self.cursor <= TAPE_LEN - DUMP_LEN {
            let mut w: Vec<u8> = Vec::new();
            let mut k: usize = 0;
            while k < DUMP_LEN
                invariant
                    self.wf(),
                    self.cursor <= TAPE_LEN - DUMP_LEN,
                    k <= DUMP_LEN,
                    w@ =~= self@.tape.subrange(self.cursor as int, self.cursor as int + k),
                decreases DUMP_LEN - k,
            {
                w.push(self.tape[self.cursor + k]);
                k += 1;
            }
            Some(w)
        } else {
            None
        }
    }

    /// The cell the cursor rests on.
    pub fn cursor(&self) -> (r: usize)
        ensures
            r == self@.cursor,
    {
        self.cursor
    }

    /// The index of the next instruction to execute.
    pub fn pc(&self) -> (r: usize)
        ensures
            r == self@.pc,
    {
        self.pc
    }

    /// The value of tape cell `i`, or nothing for an index off the tape.
    pub fn cell(&self, i: usize) -> (r: Option<u8>)
        requires
            self.wf(),
        ensures
            i < TAPE_LEN ==> r == Some(self@.tape[i as int]),
            i >= TAPE_LEN ==> r is None,
    {
        if i < TAPE_LEN {
            Some(self.tape[i])
        } else {
            None
        }
    }
}

} // verus!
