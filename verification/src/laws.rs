//! The properties the interpreter is designed around, stated and proved
//! against the specifications in [`crate::machine`] and [`crate::parse`].

use vstd::prelude::*;

use crate::machine::{
    cell_dec, cell_inc, cursor_left, cursor_right, run_n, state_of, step, tape_read, wrap_state,
    MachineState, RunState, StepRes,
};
use crate::machine::lemma_run_n_compose;
use crate::parse::{consume, emits, scan_init, scan_upto, tokens_of, ScanState};
use crate::token::{program_of, token_of_char};
use crate::token::{Token, TokenType};

verus! {

/// Law: incrementing and then decrementing a cell (or the reverse)
/// restores its value, across the 0/255 wrap included.
pub proof fn lemma_cell_wrap_roundtrip(v: u8)
    ensures
        cell_dec(cell_inc(v)) == v,
        cell_inc(cell_dec(v)) == v,
{
}

/// Law: an Increment directly followed by a Decrement (or the reverse)
/// on the same untouched cell leaves every cell of the tape reading as
/// before, and the cursor, output and input exactly as they were.
pub proof fn lemma_inc_dec_roundtrip(prog: Seq<TokenType>, s: MachineState, inc_first: bool)
    requires
        s.pc + 1 < prog.len(),
        prog[s.pc as int] == (if inc_first {
            TokenType::Plus
        } else {
            TokenType::Minus
        }),
        prog[s.pc as int + 1] == (if inc_first {
            TokenType::Minus
        } else {
            TokenType::Plus
        }),
    ensures
        ({
            let fin = state_of(run_n(prog, s, 2));
            &&& (forall|a: i32| tape_read(fin.tape, a) == tape_read(s.tape, a))
            &&& fin.head == s.head
            &&& fin.pc == s.pc + 2
            &&& fin.out == s.out
            &&& fin.inp == s.inp
        }),
{
    reveal_with_fuel(run_n, 3);
    let v = tape_read(s.tape, s.head);
    lemma_cell_wrap_roundtrip(v);
}

/// Law: a loop whose condition cell is 0 on entry never runs its body:
/// one step jumps straight to the loop's target and touches nothing.
pub proof fn lemma_zero_cell_skips_loop(prog: Seq<TokenType>, s: MachineState, t: usize)
    requires
        s.pc < prog.len(),
        prog[s.pc as int] == TokenType::JumpForward(Some(t)),
        tape_read(s.tape, s.head) == 0,
    ensures
        step(prog, s) == StepRes::Next(MachineState { pc: t as nat, ..s }),
{
}

/// Law: one step of the machine fails exactly when the instruction under
/// the program counter is a loop bracket whose target was never resolved.
pub proof fn lemma_step_fails_only_unresolved(prog: Seq<TokenType>, s: MachineState)
    requires
        s.pc < prog.len(),
    ensures
        (step(prog, s) is Failed) <==> (prog[s.pc as int] == TokenType::JumpForward(None::<usize>)
            || prog[s.pc as int] == TokenType::JumpBackward(None::<usize>)),
{
}

/// Law: one move right then one move left is the identity on the cursor,
/// and so is the reverse.
pub proof fn lemma_cursor_symmetric(h: i32)
    ensures
        cursor_left(cursor_right(h)) == h,
        cursor_right(cursor_left(h)) == h,
{
}

/// A program of `n` moves right followed by `n` moves left.
pub open spec fn move_prog(n: nat) -> Seq<TokenType> {
    Seq::new(2 * n, |i: int| if i < n { TokenType::Right } else { TokenType::Left })
}

/// The cursor after `k` moves right.
pub open spec fn cursor_right_k(h: i32, k: nat) -> i32
    decreases k,
{
    if k == 0 {
        h
    } else {
        cursor_right_k(cursor_right(h), (k - 1) as nat)
    }
}

/// The cursor after `k` moves left.
pub open spec fn cursor_left_k(h: i32, k: nat) -> i32
    decreases k,
{
    if k == 0 {
        h
    } else {
        cursor_left_k(cursor_left(h), (k - 1) as nat)
    }
}

proof fn lemma_left_of_rights(h: i32, k: nat)
    ensures
        cursor_left(cursor_right_k(h, k)) == cursor_right_k(cursor_left(h), k),
    decreases k,
{
    if k > 0 {
        lemma_left_of_rights(cursor_right(h), (k - 1) as nat);
        lemma_cursor_symmetric(h);
        lemma_cursor_symmetric(cursor_left(h));
    }
}

proof fn lemma_moves_cancel_cursor(h: i32, n: nat)
    ensures
        cursor_left_k(cursor_right_k(h, n), n) == h,
    decreases n,
{
    if n > 0 {
        lemma_left_of_rights(cursor_right(h), (n - 1) as nat);
        lemma_cursor_symmetric(h);
        lemma_moves_cancel_cursor(h, (n - 1) as nat);
        assert(cursor_left(cursor_right_k(h, n)) == cursor_right_k(
            cursor_left(cursor_right(h)),
            (n - 1) as nat,
        ));
    }
}

proof fn lemma_run_rights(prog: Seq<TokenType>, s: MachineState, k: nat)
    requires
        s.pc + k <= prog.len(),
        forall|j: int| s.pc <= j < s.pc + k ==> prog[j] == TokenType::Right,
    ensures
        run_n(prog, s, k) == wrap_state(
            prog,
            MachineState { head: cursor_right_k(s.head, k), pc: (s.pc + k) as nat, ..s },
        ),
    decreases k,
{
    if k > 0 {
        let s1 = MachineState { head: cursor_right(s.head), pc: (s.pc + 1) as nat, ..s };
        assert(step(prog, s) == StepRes::Next(s1));
        lemma_run_rights(prog, s1, (k - 1) as nat);
    }
}

proof fn lemma_run_lefts(prog: Seq<TokenType>, s: MachineState, k: nat)
    requires
        s.pc + k <= prog.len(),
        forall|j: int| s.pc <= j < s.pc + k ==> prog[j] == TokenType::Left,
    ensures
        run_n(prog, s, k) == wrap_state(
            prog,
            MachineState { head: cursor_left_k(s.head, k), pc: (s.pc + k) as nat, ..s },
        ),
    decreases k,
{
    if k > 0 {
        let s1 = MachineState { head: cursor_left(s.head), pc: (s.pc + 1) as nat, ..s };
        assert(step(prog, s) == StepRes::Next(s1));
        lemma_run_lefts(prog, s1, (k - 1) as nat);
    }
}

/// Law: cursor movement is unbounded and symmetric — a program of `n`
/// consecutive moves right followed by `n` consecutive moves left halts
/// with the cursor back at its original address, and the traversal has
/// written nothing: the tape is exactly the one it started with.
pub proof fn lemma_moves_cancel(s: MachineState, n: nat)
    requires
        s.pc == 0,
    ensures
        run_n(move_prog(n), s, 2 * n) is Halted,
        ({
            let fin = state_of(run_n(move_prog(n), s, 2 * n));
            &&& fin.head == s.head
            &&& fin.tape == s.tape
            &&& fin.out == s.out
            &&& fin.inp == s.inp
        }),
{
    let prog = move_prog(n);
    if n == 0 {
        assert(prog.len() == 0);
    } else {
        lemma_run_rights(prog, s, n);
        let mid = MachineState { head: cursor_right_k(s.head, n), pc: n, ..s };
        assert(run_n(prog, s, n) == RunState::Running(mid));
        lemma_run_n_compose(prog, s, n, n);
        lemma_run_lefts(prog, mid, n);
        let fin = MachineState { head: cursor_left_k(mid.head, n), pc: 2 * n, ..mid };
        assert(run_n(prog, mid, n) == RunState::Halted(fin));
        lemma_moves_cancel_cursor(s.head, n);
    }
}


/// The running bracket balance: loop-opens minus loop-closes among the
/// first `i` characters.
pub open spec fn bal(cs: Seq<char>, i: int) -> int
    decreases i,
{
    if i <= 0 {
        0
    } else {
        bal(cs, i - 1) + (if cs[i - 1] == '[' {
            1int
        } else if cs[i - 1] == ']' {
            -1int
        } else {
            0int
        })
    }
}

/// No prefix of the first `i` characters closes more loops than it
/// opened.
pub open spec fn prefix_ok(cs: Seq<char>, i: int) -> bool {
    forall|j: int| 0 <= j <= i ==> bal(cs, j) >= 0
}

/// Properly nested: no prefix over-closes, and the whole text balances.
pub open spec fn balanced(cs: Seq<char>) -> bool {
    prefix_ok(cs, cs.len() as int) && bal(cs, cs.len() as int) == 0
}

/// The 1-based line of character `j`: one more than the line feeds
/// before it.
pub open spec fn line_of(cs: Seq<char>, j: int) -> int
    decreases j,
{
    if j <= 0 {
        1
    } else if cs[j - 1] == '\n' {
        line_of(cs, j - 1) + 1
    } else {
        line_of(cs, j - 1)
    }
}

/// The 1-based column of character `j` within its line, counting only
/// characters that yield tokens.
pub open spec fn col_of(cs: Seq<char>, j: int) -> int
    decreases j,
{
    if j <= 0 {
        1
    } else if cs[j - 1] == '\n' {
        1
    } else if cs[j - 1] == '\r' && j < cs.len() && cs[j] == '\n' {
        col_of(cs, j - 1)
    } else {
        col_of(cs, j - 1) + 1
    }
}

/// How many of the first `j` characters yield tokens.
pub open spec fn emit_count(cs: Seq<char>, j: int) -> int
    decreases j,
{
    if j <= 0 {
        0
    } else {
        emit_count(cs, j - 1) + (if emits(cs, j - 1) {
            1int
        } else {
            0int
        })
    }
}

/// A bracket token that never got a target.
pub open spec fn unresolved(tt: TokenType) -> bool {
    tt == TokenType::JumpForward(None::<usize>) || tt == TokenType::JumpBackward(None::<usize>)
}

/// The inverse-pairing shape at index `k`: a resolved loop-start points
/// one past a loop-end that is resolved right back to one past the
/// loop-start, and symmetrically.
pub open spec fn pair_ok(toks: Seq<Token>, k: int) -> bool {
    match toks[k].token_type {
        TokenType::JumpForward(Some(t)) => 1 <= t && t <= toks.len() && toks[t - 1].token_type
            == TokenType::JumpBackward(Some((k + 1) as usize)),
        TokenType::JumpBackward(Some(t)) => 1 <= t && t <= toks.len() && toks[t - 1].token_type
            == TokenType::JumpForward(Some((k + 1) as usize)),
        _ => true,
    }
}


/// Resolved jumps point the right way: a loop-start's target lies ahead
/// of it, a loop-end's at or behind it.
pub open spec fn direction_ok(toks: Seq<Token>, k: int) -> bool {
    match toks[k].token_type {
        TokenType::JumpForward(Some(t)) => k + 1 < t,
        TokenType::JumpBackward(Some(t)) => t <= k,
        _ => true,
    }
}

/// No unresolved bracket lies strictly inside the span a resolved
/// loop-start jumps over.
pub open spec fn span_clear(toks: Seq<Token>, k: int, u: int) -> bool {
    match toks[k].token_type {
        TokenType::JumpForward(Some(t)) => !(k < u && u < t),
        _ => true,
    }
}

/// Everything that holds of the scanner's state after `i` characters:
/// its counters track the position specifications, the pending stack
/// names exactly the unresolved loop-starts in increasing order, every
/// resolved bracket is half of an inverse pair, and while no loop-close
/// has been over-closed the stack is as deep as the bracket balance.
pub open spec fn scan_wf(cs: Seq<char>, i: int, st: ScanState) -> bool {
    &&& st.toks.len() == emit_count(cs, i)
    &&& st.toks.len() <= i
    &&& st.line == line_of(cs, i)
    &&& st.col == col_of(cs, i)
    &&& 1 <= st.line <= i + 1
    &&& 1 <= st.col <= i + 1
    &&& (forall|j: int| 0 <= j < st.opens.len() ==> 0 <= #[trigger] st.opens[j] < st.toks.len())
    &&& (forall|j1: int, j2: int|
        0 <= j1 < j2 < st.opens.len() ==> #[trigger] st.opens[j1] < #[trigger] st.opens[j2])
    &&& (forall|j: int|
        0 <= j < st.opens.len() ==> st.toks[#[trigger] st.opens[j]].token_type
            == TokenType::JumpForward(None::<usize>))
    &&& (forall|k: int|
        0 <= k < st.toks.len() && (#[trigger] st.toks[k]).token_type == TokenType::JumpForward(
            None::<usize>,
        ) ==> st.opens.contains(k))
    &&& (forall|k: int| 0 <= k < st.toks.len() ==> #[trigger] pair_ok(st.toks, k))
    &&& (forall|k: int| 0 <= k < st.toks.len() ==> #[trigger] direction_ok(st.toks, k))
    &&& (forall|k: int, u: int|
        0 <= k < st.toks.len() && 0 <= u < st.toks.len() && unresolved(st.toks[u].token_type)
            ==> #[trigger] span_clear(st.toks, k, u))
    &&& (forall|j: int, u: int|
        #![trigger st.opens[j], st.toks[u]]
        0 <= j < st.opens.len() && 0 <= u < st.toks.len() && st.toks[u].token_type
            == TokenType::JumpBackward(None::<usize>) ==> u < st.opens[j])
    &&& (prefix_ok(cs, i) ==> st.opens.len() == bal(cs, i))
    &&& (prefix_ok(cs, i) ==> (forall|k: int|
        0 <= k < st.toks.len() ==> (#[trigger] st.toks[k]).token_type != TokenType::JumpBackward(
            None::<usize>,
        )))
}

/// The scanner's invariant, by induction over the text.
pub proof fn lemma_scan_wf(cs: Seq<char>, i: int)
    requires
        0 <= i <= cs.len(),
        cs.len() < usize::MAX,
    ensures
        scan_wf(cs, i, scan_upto(cs, i)),
    decreases i,
{
    if i == 0 {
        let st = scan_init();
        assert(st.opens.len() == 0);
        assert(st.toks.len() == 0);
    } else {
        lemma_scan_wf(cs, i - 1);
        let st = scan_upto(cs, i - 1);
        let st2 = scan_upto(cs, i);
        assert(st2 == consume(st, cs, i - 1));
        let c = cs[i - 1];
        assert(prefix_ok(cs, i) ==> prefix_ok(cs, i - 1));
        if c == '\n' {
            assert(bal(cs, i) == bal(cs, i - 1));
        } else if c == '\r' && i < cs.len() && cs[i] == '\n' {
            assert(bal(cs, i) == bal(cs, i - 1));
        } else {
            let tt = token_of_char(c);
            let m = st.toks.len() as int;
            assert(emits(cs, i - 1));
            assert(emit_count(cs, i) == m + 1);
            if tt == TokenType::JumpForward(None::<usize>) {
                let toks2 = st2.toks;
                assert(toks2 == st.toks.push(
                    Token {
                        line: st.line as usize,
                        column: st.col as usize,
                        token_type: TokenType::JumpForward(None),
                    },
                ));
                assert(st2.opens == st.opens.push(m));
                assert(bal(cs, i) == bal(cs, i - 1) + 1);
                assert forall|k: int| 0 <= k < toks2.len() implies #[trigger] pair_ok(
                    toks2,
                    k,
                ) by {
                    if k < m {
                        assert(pair_ok(st.toks, k));
                    }
                }
                assert forall|k: int|
                    0 <= k < toks2.len() && (#[trigger] toks2[k]).token_type
                        == TokenType::JumpForward(None::<usize>) implies st2.opens.contains(k) by {
                    if k < m {
                        assert(st.opens.contains(k));
                        let j = choose|j: int| 0 <= j < st.opens.len() && st.opens[j] == k;
                        assert(st2.opens[j] == k);
                    } else {
                        assert(st2.opens[st.opens.len() as int] == m);
                    }
                }
                assert forall|j1: int, j2: int|
                    0 <= j1 < j2 < st2.opens.len() implies #[trigger] st2.opens[j1]
                    < #[trigger] st2.opens[j2] by {
                    if j2 < st.opens.len() {
                        assert(st.opens[j1] < st.opens[j2]);
                    } else {
                        assert(st2.opens[j2] == m);
                        assert(st.opens[j1] < m);
                    }
                }
                assert forall|k: int| 0 <= k < toks2.len() implies #[trigger] direction_ok(
                    toks2,
                    k,
                ) by {
                    if k < m {
                        assert(direction_ok(st.toks, k));
                        assert(toks2[k] == st.toks[k]);
                    }
                }
                assert forall|k: int, u: int|
                    0 <= k < toks2.len() && 0 <= u < toks2.len() && unresolved(
                        toks2[u].token_type,
                    ) implies #[trigger] span_clear(toks2, k, u) by {
                    if k < m {
                        assert(toks2[k] == st.toks[k]);
                        match st.toks[k].token_type {
                            TokenType::JumpForward(Some(t)) => {
                                assert(pair_ok(st.toks, k));
                                assert(t <= m);
                                if u < m {
                                    assert(unresolved(st.toks[u].token_type));
                                    assert(span_clear(st.toks, k, u));
                                }
                            },
                            _ => {},
                        }
                    }
                }
                assert forall|j: int, u: int|
                    0 <= j < st2.opens.len() && 0 <= u < toks2.len() && toks2[u].token_type
                        == TokenType::JumpBackward(None::<usize>) implies u < st2.opens[j] by {
                    assert(u < m);
                    assert(st.toks[u].token_type == TokenType::JumpBackward(None::<usize>));
                    if j < st.opens.len() {
                        assert(u < st.opens[j]);
                    } else {
                        assert(st2.opens[j] == m);
                    }
                }
            } else if tt == TokenType::JumpBackward(None::<usize>) && st.opens.len() > 0 {
                let b = st.opens.last();
                assert(0 <= b < m);
                assert(st.toks[b].token_type == TokenType::JumpForward(None::<usize>));
                let upd = Token {
                    line: st.toks[b].line,
                    column: st.toks[b].column,
                    token_type: TokenType::JumpForward(Some((m + 1) as usize)),
                };
                let newt = Token {
                    line: st.line as usize,
                    column: st.col as usize,
                    token_type: TokenType::JumpBackward(Some((b + 1) as usize)),
                };
                let toks2 = st2.toks;
                assert(toks2 == st.toks.update(b, upd).push(newt));
                assert(st2.opens == st.opens.drop_last());
                assert(bal(cs, i) == bal(cs, i - 1) - 1);
                assert(toks2[b].token_type == TokenType::JumpForward(Some((m + 1) as usize)));
                assert(toks2[m].token_type == TokenType::JumpBackward(Some((b + 1) as usize)));
                assert forall|k: int| 0 <= k < toks2.len() implies #[trigger] pair_ok(
                    toks2,
                    k,
                ) by {
                    if k == b {
                    } else if k == m {
                    } else {
                        assert(pair_ok(st.toks, k));
                        assert(toks2[k] == st.toks[k]);
                        match st.toks[k].token_type {
                            TokenType::JumpForward(Some(t)) => {
                                assert(st.toks[t - 1].token_type == TokenType::JumpBackward(
                                    Some((k + 1) as usize),
                                ));
                                assert(t - 1 != b);
                                assert(toks2[t - 1] == st.toks[t - 1]);
                            },
                            TokenType::JumpBackward(Some(t)) => {
                                assert(st.toks[t - 1].token_type == TokenType::JumpForward(
                                    Some((k + 1) as usize),
                                ));
                                assert(t - 1 != b);
                                assert(toks2[t - 1] == st.toks[t - 1]);
                            },
                            _ => {},
                        }
                    }
                }
                assert forall|j: int| 0 <= j < st2.opens.len() implies st2.toks[#[trigger] st2
                    .opens[j]].token_type == TokenType::JumpForward(None::<usize>) by {
                    assert(st2.opens[j] == st.opens[j]);
                    assert(st.opens[j] < st.opens[st.opens.len() - 1]);
                    assert(st.opens[j] != b);
                    assert(st.toks[st.opens[j]].token_type == TokenType::JumpForward(
                        None::<usize>,
                    ));
                }
                assert forall|k: int|
                    0 <= k < toks2.len() && (#[trigger] toks2[k]).token_type
                        == TokenType::JumpForward(None::<usize>) implies st2.opens.contains(k) by {
                    assert(k != m);
                    assert(k != b);
                    assert(st.toks[k].token_type == TokenType::JumpForward(None::<usize>));
                    assert(st.opens.contains(k));
                    let j = choose|j: int| 0 <= j < st.opens.len() && st.opens[j] == k;
                    assert(j != st.opens.len() - 1);
                    assert(st2.opens[j] == k);
                }
                assert forall|k: int| 0 <= k < toks2.len() implies #[trigger] direction_ok(
                    toks2,
                    k,
                ) by {
                    if k != b && k != m {
                        assert(direction_ok(st.toks, k));
                        assert(toks2[k] == st.toks[k]);
                    }
                }
                assert forall|k: int, u: int|
                    0 <= k < toks2.len() && 0 <= u < toks2.len() && unresolved(
                        toks2[u].token_type,
                    ) implies #[trigger] span_clear(toks2, k, u) by {
                    assert(u != b && u != m);
                    assert(u < m);
                    assert(unresolved(st.toks[u].token_type));
                    assert(toks2[u] == st.toks[u]);
                    if k == b {
                        // a token strictly inside the new pair cannot be
                        // unresolved: a pending open would sit above the
                        // innermost one, an over-close before it
                        if b < u && u < m + 1 {
                            if st.toks[u].token_type == TokenType::JumpForward(None::<usize>) {
                                assert(st.opens.contains(u));
                                let j = choose|j: int|
                                    0 <= j < st.opens.len() && st.opens[j] == u;
                                if j < st.opens.len() - 1 {
                                    assert(st.opens[j] < st.opens[st.opens.len() - 1]);
                                }
                                assert(u <= b);
                                assert(false);
                            } else {
                                assert(st.toks[u].token_type == TokenType::JumpBackward(
                                    None::<usize>,
                                ));
                                assert(u < st.opens[st.opens.len() - 1]);
                                assert(false);
                            }
                        }
                    } else if k == m {
                    } else {
                        assert(span_clear(st.toks, k, u));
                        assert(toks2[k] == st.toks[k]);
                    }
                }
                assert forall|j: int, u: int|
                    0 <= j < st2.opens.len() && 0 <= u < toks2.len() && toks2[u].token_type
                        == TokenType::JumpBackward(None::<usize>) implies u < st2.opens[j] by {
                    assert(u != m && u != b);
                    assert(st.toks[u].token_type == TokenType::JumpBackward(None::<usize>));
                    assert(st2.opens[j] == st.opens[j]);
                    assert(u < st.opens[j]);
                }
                if prefix_ok(cs, i) {
                    assert(st.opens.len() == bal(cs, i - 1));
                    assert forall|k: int| 0 <= k < toks2.len() implies (#[trigger] toks2[k])
                        .token_type != TokenType::JumpBackward(None::<usize>) by {
                        if k != b && k != m {
                            assert(st.toks[k].token_type != TokenType::JumpBackward(
                                None::<usize>,
                            ));
                        }
                    }
                }
            } else {
                let toks2 = st2.toks;
                assert(toks2 == st.toks.push(
                    Token { line: st.line as usize, column: st.col as usize, token_type: tt },
                ));
                assert(st2.opens == st.opens);
                assert forall|k: int| 0 <= k < toks2.len() implies #[trigger] pair_ok(
                    toks2,
                    k,
                ) by {
                    if k < m {
                        assert(pair_ok(st.toks, k));
                    }
                }
                assert forall|k: int|
                    0 <= k < toks2.len() && (#[trigger] toks2[k]).token_type
                        == TokenType::JumpForward(None::<usize>) implies st2.opens.contains(k) by {
                    assert(k < m);
                    assert(st.opens.contains(k));
                    let j = choose|j: int| 0 <= j < st.opens.len() && st.opens[j] == k;
                    assert(st2.opens[j] == k);
                }
                assert forall|k: int| 0 <= k < toks2.len() implies #[trigger] direction_ok(
                    toks2,
                    k,
                ) by {
                    if k < m {
                        assert(direction_ok(st.toks, k));
                        assert(toks2[k] == st.toks[k]);
                    }
                }
                assert forall|k: int, u: int|
                    0 <= k < toks2.len() && 0 <= u < toks2.len() && unresolved(
                        toks2[u].token_type,
                    ) implies #[trigger] span_clear(toks2, k, u) by {
                    if k < m {
                        assert(toks2[k] == st.toks[k]);
                        match st.toks[k].token_type {
                            TokenType::JumpForward(Some(t)) => {
                                assert(pair_ok(st.toks, k));
                                assert(t <= m);
                                if u < m {
                                    assert(unresolved(st.toks[u].token_type));
                                    assert(span_clear(st.toks, k, u));
                                }
                            },
                            _ => {},
                        }
                    }
                }
                assert forall|j: int, u: int|
                    0 <= j < st2.opens.len() && 0 <= u < toks2.len() && toks2[u].token_type
                        == TokenType::JumpBackward(None::<usize>) implies u < st2.opens[j] by {
                    assert(st2.opens[j] == st.opens[j]);
                    if u < m {
                        assert(st.toks[u].token_type == TokenType::JumpBackward(None::<usize>));
                        assert(u < st.opens[j]);
                    } else {
                        // a new unmatched loop-close arises only with
                        // nothing pending
                        assert(tt == TokenType::JumpBackward(None::<usize>));
                        assert(st.opens.len() == 0);
                        assert(false);
                    }
                }
                if c == ']' {
                    // the pending stack is empty here; over-closing would
                    // drive the balance negative
                    if prefix_ok(cs, i) {
                        assert(bal(cs, i) >= 0);
                        assert(st.opens.len() == bal(cs, i - 1));
                        assert(bal(cs, i) == bal(cs, i - 1) - 1);
                        assert(false);
                    }
                } else {
                    assert(bal(cs, i) == bal(cs, i - 1));
                }
            }
        }
    }
}


/// Scanning onward never moves or reshapes an existing token: its
/// position stays, and its kind changes only by an unresolved loop-start
/// becoming resolved.
pub proof fn lemma_scan_preserves(cs: Seq<char>, i1: int, i2: int)
    requires
        0 <= i1 <= i2 <= cs.len(),
        cs.len() < usize::MAX,
    ensures
        ({
            let a = scan_upto(cs, i1).toks;
            let b = scan_upto(cs, i2).toks;
            &&& a.len() <= b.len()
            &&& (forall|k: int|
                0 <= k < a.len() ==> (#[trigger] b[k]).line == a[k].line && b[k].column
                    == a[k].column && (b[k].token_type == a[k].token_type || (a[k].token_type
                    == TokenType::JumpForward(None::<usize>) && b[k].token_type is JumpForward)))
        }),
    decreases i2 - i1,
{
    if i2 > i1 {
        lemma_scan_preserves(cs, i1, i2 - 1);
        lemma_scan_wf(cs, i2 - 1);
        let a = scan_upto(cs, i1).toks;
        let mid = scan_upto(cs, i2 - 1);
        let b = scan_upto(cs, i2);
        assert(b == consume(mid, cs, i2 - 1));
        assert forall|k: int|
            0 <= k < a.len() implies (#[trigger] b.toks[k]).line == a[k].line && b.toks[k].column
            == a[k].column && (b.toks[k].token_type == a[k].token_type || (a[k].token_type
            == TokenType::JumpForward(None::<usize>) && b.toks[k].token_type is JumpForward)) by {
            assert(k < mid.toks.len());
            let c = cs[i2 - 1];
            if c == '\n' {
            } else if c == '\r' && i2 < cs.len() && cs[i2] == '\n' {
            } else {
                let tt = token_of_char(c);
                if tt == TokenType::JumpBackward(None::<usize>) && mid.opens.len() > 0 {
                    let bb = mid.opens.last();
                    assert(mid.toks[bb].token_type == TokenType::JumpForward(None::<usize>));
                    if k == bb {
                        assert(b.toks[k].token_type is JumpForward);
                    } else {
                        assert(b.toks[k] == mid.toks[k]);
                    }
                } else {
                    assert(b.toks[k] == mid.toks[k]);
                }
            }
        }
    }
}

/// Law: bracket resolution is an inverse pairing — wherever tokenization
/// resolved a bracket, the token one before its target is the partner
/// bracket, resolved right back to one past this one.
pub proof fn lemma_pairing_inverse(cs: Seq<char>)
    requires
        cs.len() < usize::MAX,
    ensures
        forall|k: int| 0 <= k < tokens_of(cs).len() ==> #[trigger] pair_ok(tokens_of(cs), k),
{
    lemma_scan_wf(cs, cs.len() as int);
}

/// Law: a text whose brackets are balanced and properly nested resolves
/// every bracket: no token is left without a target.
pub proof fn lemma_balanced_fully_resolved(cs: Seq<char>)
    requires
        balanced(cs),
        cs.len() < usize::MAX,
    ensures
        forall|k: int|
            0 <= k < tokens_of(cs).len() ==> !unresolved((#[trigger] tokens_of(cs)[k]).token_type),
{
    lemma_scan_wf(cs, cs.len() as int);
    let st = scan_upto(cs, cs.len() as int);
    assert(st.opens.len() == 0);
    assert forall|k: int|
        0 <= k < tokens_of(cs).len() implies !unresolved(
        (#[trigger] tokens_of(cs)[k]).token_type,
    ) by {
        if st.toks[k].token_type == TokenType::JumpForward(None::<usize>) {
            assert(st.opens.contains(k));
            let j = choose|j: int| 0 <= j < st.opens.len() && st.opens[j] == k;
            assert(false);
        }
    }
}

/// Law: when scanning never over-closes, the unresolved loop-starts are
/// exactly the pending ones, as many as the final bracket surplus.
pub proof fn lemma_leftover_opens(cs: Seq<char>)
    requires
        prefix_ok(cs, cs.len() as int),
        cs.len() < usize::MAX,
    ensures
        ({
            let st = scan_upto(cs, cs.len() as int);
            &&& st.opens.len() == bal(cs, cs.len() as int)
            &&& (forall|j: int|
                0 <= j < st.opens.len() ==> st.toks[#[trigger] st.opens[j]].token_type
                    == TokenType::JumpForward(None::<usize>))
            &&& (forall|k: int|
                0 <= k < st.toks.len() ==> (#[trigger] st.toks[k]).token_type
                    != TokenType::JumpBackward(None::<usize>))
        }),
{
    lemma_scan_wf(cs, cs.len() as int);
}

/// Law: the first loop-close that over-closes — the earliest point where
/// the running bracket balance would go negative — is tokenized as an
/// unresolved loop-close carrying exactly the 1-based line and column of
/// that character; execution therefore fails right there when it reaches
/// it (`lemma_step_fails_only_unresolved`).
pub proof fn lemma_unmatched_close_unresolved(cs: Seq<char>, j: int)
    requires
        0 <= j < cs.len(),
        cs[j] == ']',
        prefix_ok(cs, j),
        bal(cs, j) == 0,
        cs.len() < usize::MAX,
    ensures
        ({
            let toks = tokens_of(cs);
            let idx = emit_count(cs, j);
            &&& 0 <= idx < toks.len()
            &&& toks[idx].token_type == TokenType::JumpBackward(None::<usize>)
            &&& toks[idx].line == line_of(cs, j) as usize
            &&& toks[idx].column == col_of(cs, j) as usize
        }),
{
    lemma_scan_wf(cs, j);
    let st = scan_upto(cs, j);
    assert(st.opens.len() == 0);
    let st2 = scan_upto(cs, j + 1);
    assert(st2 == consume(st, cs, j));
    assert(emits(cs, j));
    let idx = emit_count(cs, j);
    assert(idx == st.toks.len());
    assert(st2.toks[idx].token_type == TokenType::JumpBackward(None::<usize>));
    assert(st2.toks[idx].line == st.line as usize);
    assert(st2.toks[idx].column == st.col as usize);
    lemma_scan_preserves(cs, j + 1, cs.len() as int);
    assert(tokens_of(cs)[idx].token_type == TokenType::JumpBackward(None::<usize>));
}


/// Law: from a program counter at or before an unresolved bracket, the
/// machine never halts normally: every resolved jump lands at or before
/// that bracket, so the run either fails — at an unresolved bracket —
/// blocks on input, or keeps running.
pub proof fn lemma_unresolved_never_halts(cs: Seq<char>, u: int, s: MachineState, n: nat)
    requires
        cs.len() < usize::MAX,
        0 <= u < tokens_of(cs).len(),
        unresolved(tokens_of(cs)[u].token_type),
        s.pc <= u,
    ensures
        !(run_n(program_of(tokens_of(cs)), s, n) is Halted),
    decreases n,
{
    lemma_scan_wf(cs, cs.len() as int);
    let toks = tokens_of(cs);
    let prog = program_of(toks);
    assert(prog.len() == toks.len());
    assert(prog[s.pc as int] == toks[s.pc as int].token_type);
    if n == 0 {
    } else if s.pc == u {
        assert(step(prog, s) is Failed);
    } else {
        match step(prog, s) {
            StepRes::Next(s2) => {
                match toks[s.pc as int].token_type {
                    TokenType::JumpForward(Some(t)) => {
                        assert(span_clear(toks, s.pc as int, u));
                        assert(t <= u);
                        assert(s2.pc <= u);
                    },
                    TokenType::JumpBackward(Some(t)) => {
                        assert(direction_ok(toks, s.pc as int));
                        assert(s2.pc <= u);
                    },
                    _ => {
                        assert(s2.pc == s.pc + 1);
                    },
                }
                lemma_unresolved_never_halts(cs, u, s2, (n - 1) as nat);
            },
            StepRes::Blocked => {},
            StepRes::Failed => {},
        }
    }
}

/// The earliest character at which the running bracket balance would go
/// negative: necessarily a loop-close met with balance zero.
proof fn lemma_first_over_close(cs: Seq<char>, i: int) -> (j: int)
    requires
        0 <= i <= cs.len(),
        !prefix_ok(cs, i),
    ensures
        1 <= j <= i,
        prefix_ok(cs, j - 1),
        bal(cs, j - 1) == 0,
        cs[j - 1] == ']',
    decreases i,
{
    assert forall|jj: int| 0 <= jj <= 0 implies bal(cs, jj) >= 0 by {}
    assert(prefix_ok(cs, 0));
    if prefix_ok(cs, i - 1) {
        let jj = choose|jj: int| 0 <= jj <= i && bal(cs, jj) < 0;
        assert(jj == i);
        assert(bal(cs, i - 1) >= 0);
        assert(cs[i - 1] == ']');
        assert(bal(cs, i - 1) == 0);
        i
    } else {
        lemma_first_over_close(cs, i - 1)
    }
}

/// Law: a text whose brackets do not balance — some prefix closes more
/// loops than were opened, or loop-starts are left pending at the end —
/// never runs to normal completion: from program counter 0, under any
/// step budget, the machine is never `Halted`; when it does stop it
/// fails at an unresolved bracket, whose exact 1-based position the
/// engine's result carries.
pub proof fn lemma_unbalanced_never_halts(cs: Seq<char>, s: MachineState, n: nat)
    requires
        cs.len() < usize::MAX,
        !balanced(cs),
        s.pc == 0,
    ensures
        !(run_n(program_of(tokens_of(cs)), s, n) is Halted),
{
    lemma_scan_wf(cs, cs.len() as int);
    let st = scan_upto(cs, cs.len() as int);
    if !prefix_ok(cs, cs.len() as int) {
        let j = lemma_first_over_close(cs, cs.len() as int);
        lemma_unmatched_close_unresolved(cs, j - 1);
        let u = emit_count(cs, j - 1);
        assert(unresolved(tokens_of(cs)[u].token_type));
        lemma_unresolved_never_halts(cs, u, s, n);
    } else {
        assert(bal(cs, cs.len() as int) >= 0);
        assert(st.opens.len() == bal(cs, cs.len() as int));
        assert(st.opens.len() > 0);
        let u = st.opens[0];
        assert(st.toks[u].token_type == TokenType::JumpForward(None::<usize>));
        assert(unresolved(tokens_of(cs)[u].token_type));
        lemma_unresolved_never_halts(cs, u, s, n);
    }
}

} // verus!
