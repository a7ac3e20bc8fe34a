//! The mathematical semantics of the machine: a sparse byte tape addressed
//! by a signed 32-bit cursor, a program counter over an instruction
//! sequence, an output stream and an input stream.  Execution is defined
//! one instruction at a time by [`step`] and iterated by [`run_n`]; the
//! executable engine is verified against these definitions.

use vstd::prelude::*;

use crate::token::TokenType;

verus! {

/// What the sparse tape holds at an address: absent cells read as 0.
pub open spec fn tape_read(tape: Map<i32, u8>, addr: i32) -> u8 {
    if tape.dom().contains(addr) {
        tape[addr]
    } else {
        0
    }
}

/// A cell increments modulo 256: 255 wraps to 0.
pub open spec fn cell_inc(v: u8) -> u8 {
    if v == 255 {
        0
    } else {
        (v + 1) as u8
    }
}

/// A cell decrements modulo 256: 0 wraps to 255.
pub open spec fn cell_dec(v: u8) -> u8 {
    if v == 0 {
        255
    } else {
        (v - 1) as u8
    }
}

/// The cursor one step to the right.  The cursor is a 32-bit register;
/// off its far end it wraps, as the register does.
pub open spec fn cursor_right(h: i32) -> i32 {
    if h == i32::MAX {
        i32::MIN
    } else {
        (h + 1) as i32
    }
}

/// The cursor one step to the left.
pub open spec fn cursor_left(h: i32) -> i32 {
    if h == i32::MIN {
        i32::MAX
    } else {
        (h - 1) as i32
    }
}

/// A machine configuration: the tape, the cursor, the program counter,
/// the output emitted so far, and the input not yet consumed.
pub struct MachineState {
    pub tape: Map<i32, u8>,
    pub head: i32,
    pub pc: nat,
    pub out: Seq<u8>,
    pub inp: Seq<u8>,
}

/// The outcome of one instruction: the next configuration, or blocking on
/// input that is not there, or failure at an unresolved loop bracket.
pub enum StepRes {
    Next(MachineState),
    Blocked,
    Failed,
}

/// One instruction of the machine, meaningful for `s.pc < prog.len()`.
/// The program counter advances by exactly one unless a resolved bracket
/// jumps; an unresolved bracket fails.
pub open spec fn step(prog: Seq<TokenType>, s: MachineState) -> StepRes {
    match prog[s.pc as int] {
        TokenType::Ignore => StepRes::Next(MachineState { pc: (s.pc + 1) as nat, ..s }),
        TokenType::Right => StepRes::Next(
            MachineState { head: cursor_right(s.head), pc: (s.pc + 1) as nat, ..s },
        ),
        TokenType::Left => StepRes::Next(
            MachineState { head: cursor_left(s.head), pc: (s.pc + 1) as nat, ..s },
        ),
        TokenType::Plus => StepRes::Next(
            MachineState {
                tape: s.tape.insert(s.head, cell_inc(tape_read(s.tape, s.head))),
                pc: (s.pc + 1) as nat,
                ..s
            },
        ),
        TokenType::Minus => StepRes::Next(
            MachineState {
                tape: s.tape.insert(s.head, cell_dec(tape_read(s.tape, s.head))),
                pc: (s.pc + 1) as nat,
                ..s
            },
        ),
        TokenType::Out => StepRes::Next(
            MachineState {
                out: s.out.push(tape_read(s.tape, s.head)),
                pc: (s.pc + 1) as nat,
                ..s
            },
        ),
        TokenType::In => if s.inp.len() == 0 {
            StepRes::Blocked
        } else {
            StepRes::Next(
                MachineState {
                    tape: s.tape.insert(s.head, s.inp[0]),
                    out: s.out.push(s.inp[0]),
                    inp: s.inp.drop_first(),
                    pc: (s.pc + 1) as nat,
                    ..s
                },
            )
        },
        TokenType::JumpForward(Some(t)) => if tape_read(s.tape, s.head) == 0 {
            StepRes::Next(MachineState { pc: t as nat, ..s })
        } else {
            StepRes::Next(MachineState { pc: (s.pc + 1) as nat, ..s })
        },
        TokenType::JumpBackward(Some(t)) => if tape_read(s.tape, s.head) != 0 {
            StepRes::Next(MachineState { pc: t as nat, ..s })
        } else {
            StepRes::Next(MachineState { pc: (s.pc + 1) as nat, ..s })
        },
        TokenType::JumpForward(None) => StepRes::Failed,
        TokenType::JumpBackward(None) => StepRes::Failed,
    }
}

/// Where a bounded run of the machine stands: still running when the
/// step budget ran out, halted once the program counter left the program,
/// blocked at an Input with no input left, or failed at an unresolved
/// bracket (the failing state's `pc` names the offending instruction).
pub enum RunState {
    Running(MachineState),
    Halted(MachineState),
    Blocked(MachineState),
    Failed(MachineState),
}

/// The configuration a run outcome carries.
pub open spec fn state_of(r: RunState) -> MachineState {
    match r {
        RunState::Running(s) => s,
        RunState::Halted(s) => s,
        RunState::Blocked(s) => s,
        RunState::Failed(s) => s,
    }
}

/// The machine after at most `n` instructions from `s`.
pub open spec fn run_n(prog: Seq<TokenType>, s: MachineState, n: nat) -> RunState
    decreases n,
{
    if s.pc >= prog.len() {
        RunState::Halted(s)
    } else if n == 0 {
        RunState::Running(s)
    } else {
        match step(prog, s) {
            StepRes::Next(s2) => run_n(prog, s2, (n - 1) as nat),
            StepRes::Blocked => RunState::Blocked(s),
            StepRes::Failed => RunState::Failed(s),
        }
    }
}

/// `Running` or `Halted`, by whether the program counter is still inside
/// the program.
pub open spec fn wrap_state(prog: Seq<TokenType>, s: MachineState) -> RunState {
    if s.pc >= prog.len() {
        RunState::Halted(s)
    } else {
        RunState::Running(s)
    }
}

/// The starting configuration for a run: nothing emitted yet, the program
/// counter at 0.
pub open spec fn start_state(tape: Map<i32, u8>, head: i32, inp: Seq<u8>) -> MachineState {
    MachineState { tape, head, pc: 0, out: Seq::empty(), inp }
}

/// Whether running at most `n` instructions from tape `tape0`, cursor
/// `head0` and input stream `ins` ends in outcome `r`.  The contracts of
/// the execution engine are stated with this predicate.
pub open spec fn reaches(
    prog: Seq<TokenType>,
    tape0: Map<i32, u8>,
    head0: i32,
    ins: Seq<u8>,
    n: nat,
    r: RunState,
) -> bool {
    run_n(prog, start_state(tape0, head0, ins), n) == r
}

/// The same configuration with more input appended.
pub open spec fn with_input(s: MachineState, extra: Seq<u8>) -> MachineState {
    MachineState { inp: s.inp + extra, ..s }
}

/// A run that is still `Running` after `n` steps takes exactly one more
/// step when given the budget `n + 1`.
pub proof fn lemma_run_n_snoc(prog: Seq<TokenType>, s: MachineState, n: nat)
    requires
        run_n(prog, s, n) is Running,
    ensures
        ({
            let m = state_of(run_n(prog, s, n));
            run_n(prog, s, n + 1) == match step(prog, m) {
                StepRes::Next(s2) => wrap_state(prog, s2),
                StepRes::Blocked => RunState::Blocked(m),
                StepRes::Failed => RunState::Failed(m),
            }
        }),
    decreases n,
{
    if s.pc >= prog.len() {
        // run_n would be Halted, contradicting the requires
    } else if n == 0 {
        // run_n(prog, s, 1) unfolds to one step of s
        reveal_with_fuel(run_n, 2);
    } else {
        match step(prog, s) {
            StepRes::Next(s2) => {
                lemma_run_n_snoc(prog, s2, (n - 1) as nat);
            },
            StepRes::Blocked => {},
            StepRes::Failed => {},
        }
    }
}

/// Step budgets compose: a run that is still `Running` after `a` steps
/// continues from there for the rest of the budget.
pub proof fn lemma_run_n_compose(prog: Seq<TokenType>, s: MachineState, a: nat, b: nat)
    requires
        run_n(prog, s, a) is Running,
    ensures
        run_n(prog, s, a + b) == run_n(prog, state_of(run_n(prog, s, a)), b),
    decreases a,
{
    if s.pc >= prog.len() {
    } else if a == 0 {
    } else {
        match step(prog, s) {
            StepRes::Next(s2) => {
                lemma_run_n_compose(prog, s2, (a - 1) as nat, b);
            },
            StepRes::Blocked => {},
            StepRes::Failed => {},
        }
    }
}

/// A run that has halted, failed or blocked stays put: budget beyond that
/// point changes nothing.
pub proof fn lemma_run_n_absorb(prog: Seq<TokenType>, s: MachineState, n: nat, m: nat)
    requires
        n <= m,
        !(run_n(prog, s, n) is Running),
    ensures
        run_n(prog, s, m) == run_n(prog, s, n),
    decreases n,
{
    if s.pc >= prog.len() {
    } else if n == 0 {
    } else {
        match step(prog, s) {
            StepRes::Next(s2) => {
                lemma_run_n_absorb(prog, s2, (n - 1) as nat, (m - 1) as nat);
            },
            StepRes::Blocked => {},
            StepRes::Failed => {},
        }
    }
}

/// The outcome of a run, with more input appended to the configuration.
pub open spec fn with_input_res(r: RunState, extra: Seq<u8>) -> RunState {
    match r {
        RunState::Running(s) => RunState::Running(with_input(s, extra)),
        RunState::Halted(s) => RunState::Halted(with_input(s, extra)),
        RunState::Blocked(s) => RunState::Blocked(with_input(s, extra)),
        RunState::Failed(s) => RunState::Failed(with_input(s, extra)),
    }
}

/// Appending input that a run never consumed changes nothing: as long as
/// the run did not block, the same outcome is reached with the extra
/// input carried along untouched.
pub proof fn lemma_run_n_extend(prog: Seq<TokenType>, s: MachineState, n: nat, extra: Seq<u8>)
    requires
        !(run_n(prog, s, n) is Blocked),
    ensures
        run_n(prog, with_input(s, extra), n) == with_input_res(run_n(prog, s, n), extra),
    decreases n,
{
    let se = with_input(s, extra);
    if s.pc >= prog.len() {
    } else if n == 0 {
    } else {
        match prog[s.pc as int] {
            TokenType::In => {
                if s.inp.len() == 0 {
                    // step blocks, so run_n(prog, s, n) is Blocked: excluded
                } else {
                    assert((s.inp + extra)[0] == s.inp[0]);
                    assert((s.inp + extra).drop_first() =~= s.inp.drop_first() + extra);
                    let s2 = MachineState {
                        tape: s.tape.insert(s.head, s.inp[0]),
                        out: s.out.push(s.inp[0]),
                        inp: s.inp.drop_first(),
                        pc: (s.pc + 1) as nat,
                        ..s
                    };
                    assert(step(prog, se) == StepRes::Next(with_input(s2, extra)));
                    lemma_run_n_extend(prog, s2, (n - 1) as nat, extra);
                }
            },
            _ => {
                match step(prog, s) {
                    StepRes::Next(s2) => {
                        assert(step(prog, se) == StepRes::Next(with_input(s2, extra)));
                        lemma_run_n_extend(prog, s2, (n - 1) as nat, extra);
                    },
                    StepRes::Blocked => {},
                    StepRes::Failed => {},
                }
            },
        }
    }
}

} // verus!
