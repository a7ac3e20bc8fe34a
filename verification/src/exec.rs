//! The execution engine.
//!
//! [`run`] interprets a token sequence against a tape and a cursor held by
//! the caller, writing output to the terminal and blocking on it for
//! input, exactly one instruction at a time with O(1) jumps.  [`execute`]
//! is the same machine with input supplied up front and output collected,
//! so its behaviour is a pure function of its arguments.  Both are
//! verified against the step semantics of [`crate::machine`], and both
//! take an explicit step budget, since the language can loop forever and
//! a verified function must terminate; a caller that wants the machine
//! run to exhaustion passes `u64::MAX`.

use std::collections::HashMap;
use std::io::Write;

use vstd::prelude::*;

use crate::machine::{
    reaches, run_n, start_state, state_of, tape_read, with_input, MachineState, RunState,
};
use crate::machine::{lemma_run_n_absorb, lemma_run_n_extend, lemma_run_n_snoc};
use crate::token::{program_of, Token, TokenType};

verus! {

broadcast use vstd::std_specs::hash::group_hash_axioms;

/// Why a run stopped short of the end of its program.
#[derive(Clone, Copy, Debug, PartialEq, Eq, Structural)]
pub enum RunError {
    /// Execution reached a loop bracket whose target was never resolved:
    /// `forward` tells whether it was a loop-start, and `line` and
    /// `column` give the 1-based source position of the character.
    Unmatched { forward: bool, line: usize, column: usize },
    /// An Input instruction found the input source closed, failed, or
    /// exhausted.
    InputClosed,
    /// The step budget ran out with the machine still going.
    OutOfSteps,
}

/// The cell under an address, with absent cells reading as 0.
fn tape_get(buf: &HashMap<i32, u8>, addr: i32) -> (r: u8)
    ensures
        r == tape_read(buf@, addr),
{
    match buf.get(&addr) {
        Some(v) => *v,
        None => 0,
    }
}

/// The low byte of a character's code point, as the tape stores it.
pub open spec fn byte_of_char(c: char) -> u8 {
    ((c as int) % 256) as u8
}

fn char_to_byte(c: char) -> (r: u8)
    ensures
        r == byte_of_char(c),
{
    let u = c as u32;
    (u % 256) as u8
}

/// Relies on console::Term::read_char: blocks until one character of
/// terminal input is available and returns it; None when the terminal is
/// closed or cannot be read.  Nothing is promised of the value: what the
/// user types is not a function of the program.
#[verifier::external_body]
fn read_input_char() -> (r: Option<char>) {
    match console::Term::stdout().read_char() {
        Ok(c) => Some(c),
        Err(_) => None,
    }
}

/// Relies on std::io::Stdout::write_fmt (through write!) to echo one
/// character to standard output.
#[verifier::external_body]
fn echo_char(c: char) {
    let _ = write!(std::io::stdout(), "{}", c);
}

/// Relies on std::io::Stdout::write_fmt (through write!) to emit one cell
/// value to standard output as the character with that code.
#[verifier::external_body]
fn emit_byte(b: u8) {
    let _ = write!(std::io::stdout(), "{}", b as char);
}

/// Runs the tokens from program counter 0 against the caller's tape and
/// cursor, emitting Output cells to the terminal and blocking on it for
/// Input, until the program counter leaves the program (`Ok`), an
/// unresolved bracket is reached (`Err(Unmatched)` with its exact source
/// position), input fails (`Err(InputClosed)`), or `fuel` instructions
/// have run (`Err(OutOfSteps)`).
///
/// The contract: the final tape and cursor are exactly what the step
/// semantics yields from the starting ones within `fuel` steps, under
/// some sequence of input bytes — the one the terminal supplied — and
/// the outcome names the configuration the semantics ends in.
pub fn run(tokens: &[Token], buf: &mut HashMap<i32, u8>, head: &mut i32, fuel: u64) -> (r: Result<
    (),
    RunError,
>)
    ensures
        ({
            let prog = program_of(tokens@);
            let t0 = old(buf)@;
            let h0 = *old(head);
            match r {
                Ok(()) => exists|ins: Seq<u8>, f: MachineState|
                    reaches(prog, t0, h0, ins, fuel as nat, RunState::Halted(f)) && f.tape == final(buf)@ && f.head == *final(head) && f.inp.len() == 0,
                Err(RunError::Unmatched { forward, line, column }) => exists|
                    ins: Seq<u8>,
                    f: MachineState,
                |
                    reaches(prog, t0, h0, ins, fuel as nat, RunState::Failed(f)) && f.tape == final(buf)@ && f.head == *final(head) && f.pc < prog.len() && prog[f.pc as int] == (
                    if forward {
                        TokenType::JumpForward(None::<usize>)
                    } else {
                        TokenType::JumpBackward(None::<usize>)
                    }) && line == tokens@[f.pc as int].line && column == tokens@[f.pc as int].column,
                Err(RunError::InputClosed) => exists|ins: Seq<u8>, f: MachineState|
                    reaches(prog, t0, h0, ins, fuel as nat, RunState::Blocked(f)) && f.tape
                        == final(buf)@ && f.head == *final(head),
                Err(RunError::OutOfSteps) => exists|ins: Seq<u8>, f: MachineState|
                    reaches(prog, t0, h0, ins, fuel as nat, RunState::Running(f)) && f.tape
                        == final(buf)@ && f.head == *final(head),
            }
        }),
{
    let ghost prog = program_of(tokens@);
    let ghost t0 = buf@;
    let ghost h0 = *head;
    let ghost mut ins: Seq<u8> = Seq::empty();
    let ghost mut cur: MachineState = start_state(t0, h0, ins);
    let mut pc: usize = 0;
    let mut k: u64 = 0;
    proof {
        assert(cur.inp =~= Seq::<u8>::empty());
    }
    while pc < tokens.len() && k < fuel
        invariant
            prog == program_of(tokens@),
            t0 == old(buf)@,
            h0 == *old(head),
            cur.tape == buf@,
            cur.head == *head,
            cur.pc == pc as nat,
            cur.inp.len() == 0,
            k <= fuel,
            run_n(prog, start_state(t0, h0, ins), k as nat) == (if pc < tokens@.len() {
                RunState::Running(cur)
            } else {
                RunState::Halted(cur)
            }),
        decreases fuel - k,
    {
        proof {
            assert(prog[pc as int] == tokens@[pc as int].token_type);
        }
        let t = tokens[pc];
        match t.token_type {
            TokenType::Ignore => {
                proof {
                    lemma_run_n_snoc(prog, start_state(t0, h0, ins), k as nat);
                    cur = MachineState { pc: (pc + 1) as nat, ..cur };
                }
                pc = pc + 1;
            },
            TokenType::Right => {
                let h = *head;
                *head = if h == i32::MAX {
                    i32::MIN
                } else {
                    h + 1
                };
                proof {
                    lemma_run_n_snoc(prog, start_state(t0, h0, ins), k as nat);
                    cur = MachineState { head: *head, pc: (pc + 1) as nat, ..cur };
                }
                pc = pc + 1;
            },
            TokenType::Left => {
                let h = *head;
                *head = if h == i32::MIN {
                    i32::MAX
                } else {
                    h - 1
                };
                proof {
                    lemma_run_n_snoc(prog, start_state(t0, h0, ins), k as nat);
                    cur = MachineState { head: *head, pc: (pc + 1) as nat, ..cur };
                }
                pc = pc + 1;
            },
            TokenType::Plus => {
                let v = tape_get(buf, *head);
                let w = if v == 255 {
                    0
                } else {
                    v + 1
                };
                buf.insert(*head, w);
                proof {
                    lemma_run_n_snoc(prog, start_state(t0, h0, ins), k as nat);
                    cur = MachineState { tape: buf@, pc: (pc + 1) as nat, ..cur };
                }
                pc = pc + 1;
            },
            TokenType::Minus => {
                let v = tape_get(buf, *head);
                let w = if v == 0 {
                    255
                } else {
                    v - 1
                };
                buf.insert(*head, w);
                proof {
                    lemma_run_n_snoc(prog, start_state(t0, h0, ins), k as nat);
                    cur = MachineState { tape: buf@, pc: (pc + 1) as nat, ..cur };
                }
                pc = pc + 1;
            },
            TokenType::Out => {
                let v = tape_get(buf, *head);
                emit_byte(v);
                proof {
                    lemma_run_n_snoc(prog, start_state(t0, h0, ins), k as nat);
                    cur = MachineState { out: cur.out.push(v), pc: (pc + 1) as nat, ..cur };
                }
                pc = pc + 1;
            },
            TokenType::In => {
                match read_input_char() {
                    None => {
                        proof {
                            lemma_run_n_snoc(prog, start_state(t0, h0, ins), k as nat);
                            lemma_run_n_absorb(
                                prog,
                                start_state(t0, h0, ins),
                                (k + 1) as nat,
                                fuel as nat,
                            );
                            assert(reaches(
                                prog,
                                t0,
                                h0,
                                ins,
                                fuel as nat,
                                RunState::Blocked(cur),
                            ));
                        }
                        return Err(RunError::InputClosed);
                    },
                    Some(c) => {
                        echo_char(c);
                        let b = char_to_byte(c);
                        buf.insert(*head, b);
                        proof {
                            lemma_run_n_extend(prog, start_state(t0, h0, ins), k as nat, seq![b]);
                            assert(start_state(t0, h0, ins + seq![b]) == with_input(
                                start_state(t0, h0, ins),
                                seq![b],
                            ));
                            ins = ins + seq![b];
                            cur = with_input(cur, seq![b]);
                            assert(run_n(prog, start_state(t0, h0, ins), k as nat)
                                == RunState::Running(cur));
                            lemma_run_n_snoc(prog, start_state(t0, h0, ins), k as nat);
                            assert(cur.inp =~= seq![b]);
                            assert(cur.inp.drop_first() =~= Seq::<u8>::empty());
                            cur = MachineState {
                                tape: buf@,
                                out: cur.out.push(b),
                                inp: Seq::empty(),
                                pc: (pc + 1) as nat,
                                ..cur
                            };
                        }
                        pc = pc + 1;
                    },
                }
            },
            TokenType::JumpForward(target) => {
                match target {
                    Some(jt) => {
                        let v = tape_get(buf, *head);
                        proof {
                            lemma_run_n_snoc(prog, start_state(t0, h0, ins), k as nat);
                        }
                        if v == 0 {
                            proof {
                                cur = MachineState { pc: jt as nat, ..cur };
                            }
                            pc = jt;
                        } else {
                            proof {
                                cur = MachineState { pc: (pc + 1) as nat, ..cur };
                            }
                            pc = pc + 1;
                        }
                    },
                    None => {
                        proof {
                            lemma_run_n_snoc(prog, start_state(t0, h0, ins), k as nat);
                            lemma_run_n_absorb(
                                prog,
                                start_state(t0, h0, ins),
                                (k + 1) as nat,
                                fuel as nat,
                            );
                            assert(reaches(prog, t0, h0, ins, fuel as nat, RunState::Failed(cur)));
                        }
                        return Err(
                            RunError::Unmatched { forward: true, line: t.line, column: t.column },
                        );
                    },
                }
            },
            TokenType::JumpBackward(target) => {
                match target {
                    Some(jt) => {
                        let v = tape_get(buf, *head);
                        proof {
                            lemma_run_n_snoc(prog, start_state(t0, h0, ins), k as nat);
                        }
                        if v != 0 {
                            proof {
                                cur = MachineState { pc: jt as nat, ..cur };
                            }
                            pc = jt;
                        } else {
                            proof {
                                cur = MachineState { pc: (pc + 1) as nat, ..cur };
                            }
                            pc = pc + 1;
                        }
                    },
                    None => {
                        proof {
                            lemma_run_n_snoc(prog, start_state(t0, h0, ins), k as nat);
                            lemma_run_n_absorb(
                                prog,
                                start_state(t0, h0, ins),
                                (k + 1) as nat,
                                fuel as nat,
                            );
                            assert(reaches(prog, t0, h0, ins, fuel as nat, RunState::Failed(cur)));
                        }
                        return Err(
                            RunError::Unmatched { forward: false, line: t.line, column: t.column },
                        );
                    },
                }
            },
        }
        k = k + 1;
    }
    if pc < tokens.len() {
        proof {
            assert(reaches(prog, t0, h0, ins, fuel as nat, RunState::Running(cur)));
        }
        return Err(RunError::OutOfSteps);
    }
    proof {
        lemma_run_n_absorb(prog, start_state(t0, h0, ins), k as nat, fuel as nat);
        assert(reaches(prog, t0, h0, ins, fuel as nat, RunState::Halted(cur)));
    }
    Ok(())
}


/// Runs the tokens against the caller's tape and cursor with input taken
/// from `input` and output collected, so the outcome is a pure function
/// of the arguments: exactly the configuration the step semantics reaches
/// within `fuel` steps.  Where [`run`] would block on the terminal, this
/// engine consumes the next byte of `input`, or stops with
/// `Err(InputClosed)` when none is left.
pub fn execute(
    tokens: &[Token],
    buf: &mut HashMap<i32, u8>,
    head: &mut i32,
    input: &[u8],
    fuel: u64,
) -> (r: Result<Vec<u8>, RunError>)
    ensures
        ({
            let prog = program_of(tokens@);
            let res = run_n(prog, start_state(old(buf)@, *old(head), input@), fuel as nat);
            let f = state_of(res);
            &&& f.tape == final(buf)@
            &&& f.head == *final(head)
            &&& match r {
                Ok(out) => res is Halted && out@ == f.out,
                Err(RunError::Unmatched { forward, line, column }) => res is Failed && f.pc
                    < prog.len() && prog[f.pc as int] == (if forward {
                    TokenType::JumpForward(None::<usize>)
                } else {
                    TokenType::JumpBackward(None::<usize>)
                }) && line == tokens@[f.pc as int].line && column == tokens@[f.pc as int].column,
                Err(RunError::InputClosed) => res is Blocked,
                Err(RunError::OutOfSteps) => res is Running,
            }
        }),
{
    let ghost prog = program_of(tokens@);
    let ghost s0 = start_state(buf@, *head, input@);
    let ghost mut cur: MachineState = s0;
    let mut out: Vec<u8> = Vec::new();
    let mut idx: usize = 0;
    let mut pc: usize = 0;
    let mut k: u64 = 0;
    proof {
        assert(cur.inp =~= input@.skip(0));
    }
    while pc < tokens.len() && k < fuel
        invariant
            prog == program_of(tokens@),
            s0 == start_state(old(buf)@, *old(head), input@),
            cur.tape == buf@,
            cur.head == *head,
            cur.pc == pc as nat,
            cur.out == out@,
            idx <= input@.len(),
            cur.inp == input@.skip(idx as int),
            k <= fuel,
            run_n(prog, s0, k as nat) == (if pc < tokens@.len() {
                RunState::Running(cur)
            } else {
                RunState::Halted(cur)
            }),
        decreases fuel - k,
    {
        proof {
            assert(prog[pc as int] == tokens@[pc as int].token_type);
        }
        let t = tokens[pc];
        match t.token_type {
            TokenType::Ignore => {
                proof {
                    lemma_run_n_snoc(prog, s0, k as nat);
                    cur = MachineState { pc: (pc + 1) as nat, ..cur };
                }
                pc = pc + 1;
            },
            TokenType::Right => {
                let h = *head;
                *head = if h == i32::MAX {
                    i32::MIN
                } else {
                    h + 1
                };
                proof {
                    lemma_run_n_snoc(prog, s0, k as nat);
                    cur = MachineState { head: *head, pc: (pc + 1) as nat, ..cur };
                }
                pc = pc + 1;
            },
            TokenType::Left => {
                let h = *head;
                *head = if h == i32::MIN {
                    i32::MAX
                } else {
                    h - 1
                };
                proof {
                    lemma_run_n_snoc(prog, s0, k as nat);
                    cur = MachineState { head: *head, pc: (pc + 1) as nat, ..cur };
                }
                pc = pc + 1;
            },
            TokenType::Plus => {
                let v = tape_get(buf, *head);
                let w = if v == 255 {
                    0
                } else {
                    v + 1
                };
                buf.insert(*head, w);
                proof {
                    lemma_run_n_snoc(prog, s0, k as nat);
                    cur = MachineState { tape: buf@, pc: (pc + 1) as nat, ..cur };
                }
                pc = pc + 1;
            },
            TokenType::Minus => {
                let v = tape_get(buf, *head);
                let w = if v == 0 {
                    255
                } else {
                    v - 1
                };
                buf.insert(*head, w);
                proof {
                    lemma_run_n_snoc(prog, s0, k as nat);
                    cur = MachineState { tape: buf@, pc: (pc + 1) as nat, ..cur };
                }
                pc = pc + 1;
            },
            TokenType::Out => {
                let v = tape_get(buf, *head);
                out.push(v);
                proof {
                    lemma_run_n_snoc(prog, s0, k as nat);
                    cur = MachineState { out: cur.out.push(v), pc: (pc + 1) as nat, ..cur };
                }
                pc = pc + 1;
            },
            TokenType::In => {
                if idx < input.len() {
                    let b = input[idx];
                    buf.insert(*head, b);
                    out.push(b);
                    proof {
                        lemma_run_n_snoc(prog, s0, k as nat);
                        assert(cur.inp[0] == input@[idx as int]);
                        assert(cur.inp.drop_first() =~= input@.skip(idx as int + 1));
                        cur = MachineState {
                            tape: buf@,
                            out: cur.out.push(b),
                            inp: input@.skip(idx as int + 1),
                            pc: (pc + 1) as nat,
                            ..cur
                        };
                    }
                    idx = idx + 1;
                    pc = pc + 1;
                } else {
                    proof {
                        assert(cur.inp.len() == 0);
                        lemma_run_n_snoc(prog, s0, k as nat);
                        lemma_run_n_absorb(prog, s0, (k + 1) as nat, fuel as nat);
                    }
                    return Err(RunError::InputClosed);
                }
            },
            TokenType::JumpForward(target) => {
                match target {
                    Some(jt) => {
                        let v = tape_get(buf, *head);
                        proof {
                            lemma_run_n_snoc(prog, s0, k as nat);
                        }
                        if v == 0 {
                            proof {
                                cur = MachineState { pc: jt as nat, ..cur };
                            }
                            pc = jt;
                        } else {
                            proof {
                                cur = MachineState { pc: (pc + 1) as nat, ..cur };
                            }
                            pc = pc + 1;
                        }
                    },
                    None => {
                        proof {
                            lemma_run_n_snoc(prog, s0, k as nat);
                            lemma_run_n_absorb(prog, s0, (k + 1) as nat, fuel as nat);
                        }
                        return Err(
                            RunError::Unmatched { forward: true, line: t.line, column: t.column },
                        );
                    },
                }
            },
            TokenType::JumpBackward(target) => {
                match target {
                    Some(jt) => {
                        let v = tape_get(buf, *head);
                        proof {
                            lemma_run_n_snoc(prog, s0, k as nat);
                        }
                        if v != 0 {
                            proof {
                                cur = MachineState { pc: jt as nat, ..cur };
                            }
                            pc = jt;
                        } else {
                            proof {
                                cur = MachineState { pc: (pc + 1) as nat, ..cur };
                            }
                            pc = pc + 1;
                        }
                    },
                    None => {
                        proof {
                            lemma_run_n_snoc(prog, s0, k as nat);
                            lemma_run_n_absorb(prog, s0, (k + 1) as nat, fuel as nat);
                        }
                        return Err(
                            RunError::Unmatched { forward: false, line: t.line, column: t.column },
                        );
                    },
                }
            },
        }
        k = k + 1;
    }
    if pc < tokens.len() {
        return Err(RunError::OutOfSteps);
    }
    proof {
        lemma_run_n_absorb(prog, s0, k as nat, fuel as nat);
    }
    Ok(out)
}

} // verus!
