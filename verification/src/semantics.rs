//! Mathematical model of the interpreter: machine states, the effect of each
//! instruction, bracket matching, and a fuel-indexed big-step semantics.
//!
//! The fuel bounds only how often a loop body may be re-entered; `Short`
//! means the given fuel did not suffice to finish the run. Results other
//! than `Short` do not depend on the fuel (see `lemma_run_code_mono`), so a
//! contract of the form `exists fuel: run == Done(..)` determines the
//! outcome. Separately from the fuel, every state carries a dispatch-step
//! counter: one step per character handled, one per end of a scan over a
//! slice. It prices a run so that an executor with a step budget can say
//! exactly when the budget was too small.

use vstd::prelude::*;

use crate::text::dec_of;

verus! {

/// Snapshot of an interpreter: tape, cursor, output text, last executed
/// instruction (offset and character), the number of observation points
/// passed, and the number of dispatch steps taken.
#[verifier::ext_equal]
pub ghost struct MState {
    pub tape: Seq<i32>,
    pub pos: int,
    pub out: Seq<char>,
    pub last: Option<(int, char)>,
    pub calls: nat,
    pub steps: nat,
}

/// Outcome of a fuel-bounded run: finished in a state, stopped on a fault
/// in a state, or ran out of fuel.
pub ghost enum RunRes {
    Done(MState),
    Abort(MState),
    Short,
}

/// A state is well formed when the cursor addresses a tape cell.
pub open spec fn st_wf(st: MState) -> bool {
    0 <= st.pos < st.tape.len()
}

/// The cell under the cursor.
pub open spec fn cell(st: MState) -> i32 {
    st.tape[st.pos]
}

/// One more observation point: the observer is invoked at the start of every
/// scan over a slice and after every tape-mutating instruction.
pub open spec fn bump(st: MState) -> MState {
    MState { calls: st.calls + 1, ..st }
}

/// One more dispatch step.
pub open spec fn tick(st: MState) -> MState {
    MState { steps: st.steps + 1, ..st }
}

/// Increment with two's-complement wrap-around.
pub open spec fn wrap_inc(v: i32) -> i32 {
    if v == i32::MAX {
        i32::MIN
    } else {
        (v + 1) as i32
    }
}

/// Decrement with two's-complement wrap-around.
pub open spec fn wrap_dec(v: i32) -> i32 {
    if v == i32::MIN {
        i32::MAX
    } else {
        (v - 1) as i32
    }
}

/// The character whose code point is the low byte of `v`.
pub open spec fn low_byte_char(v: i32) -> char {
    (v as u8) as char
}

/// Effect of one non-bracket instruction found at offset `idx`: one dispatch
/// step, then the instruction's work. Unknown characters are comments and
/// change nothing else.
pub open spec fn exec_char(st: MState, idx: int, c: char) -> RunRes {
    let st1 = tick(st);
    if c == '+' {
        RunRes::Done(
            MState {
                tape: st1.tape.update(st1.pos, wrap_inc(st1.tape[st1.pos])),
                last: Some((idx, c)),
                calls: st1.calls + 1,
                ..st1
            },
        )
    } else if c == '-' {
        RunRes::Done(
            MState {
                tape: st1.tape.update(st1.pos, wrap_dec(st1.tape[st1.pos])),
                last: Some((idx, c)),
                calls: st1.calls + 1,
                ..st1
            },
        )
    } else if c == '>' {
        let grown = if st1.pos + 1 >= st1.tape.len() {
            st1.tape.push(0i32)
        } else {
            st1.tape
        };
        RunRes::Done(
            MState {
                tape: grown,
                pos: st1.pos + 1,
                last: Some((idx, c)),
                calls: st1.calls + 1,
                ..st1
            },
        )
    } else if c == '<' {
        if st1.pos == 0 {
            RunRes::Abort(st1)
        } else {
            RunRes::Done(
                MState { pos: st1.pos - 1, last: Some((idx, c)), calls: st1.calls + 1, ..st1 },
            )
        }
    } else if c == '.' {
        RunRes::Done(MState { out: st1.out.push(low_byte_char(st1.tape[st1.pos])), ..st1 })
    } else if c == '?' {
        RunRes::Done(MState { out: st1.out + dec_of(st1.tape[st1.pos] as int), ..st1 })
    } else {
        RunRes::Done(st1)
    }
}

/// Offset of the `]` that closes, at nesting `depth`, the bracket whose body
/// starts at `i`; the scan is confined to offsets below `hi`.
pub open spec fn close_index(code: Seq<char>, i: int, hi: int, depth: nat) -> Option<int>
    decreases hi - i,
{
    if i < 0 || hi > code.len() || i >= hi {
        None
    } else if code[i] == ']' {
        if depth == 0 {
            Some(i)
        } else {
            close_index(code, i + 1, hi, (depth - 1) as nat)
        }
    } else if code[i] == '[' {
        close_index(code, i + 1, hi, depth + 1)
    } else {
        close_index(code, i + 1, hi, depth)
    }
}

/// Runs the slice `code[lo..hi]` once, left to right. A `[` costs one step,
/// runs its body as a loop (`run_loop`) and continues after the matching
/// `]`; an unmatched `[` is a fault. A stray `]` is a comment, as in
/// `exec_char`. Reaching the end of the slice costs one step: the end of a
/// scan is a dispatch event of its own.
pub open spec fn run_code(code: Seq<char>, lo: int, hi: int, st: MState, fuel: nat) -> RunRes
    decreases fuel, hi - lo, 0int,
{
    if lo < 0 || hi > code.len() || lo >= hi {
        RunRes::Done(tick(st))
    } else {
        let c = code[lo];
        if c == '[' {
            match close_index(code, lo + 1, hi, 0) {
                None => RunRes::Abort(tick(st)),
                Some(j) => if lo < j && j < hi {
                    match run_loop(code, lo + 1, j, tick(st), fuel) {
                        RunRes::Done(st2) => run_code(code, j + 1, hi, st2, fuel),
                        r => r,
                    }
                } else {
                    RunRes::Abort(tick(st))
                },
            }
        } else {
            match exec_char(st, lo, c) {
                RunRes::Done(st2) => run_code(code, lo + 1, hi, st2, fuel),
                r => r,
            }
        }
    }
}

/// Runs a loop body at least once and again while the current cell is not
/// zero at the end of a pass. Every pass starts with an observation point.
pub open spec fn run_loop(code: Seq<char>, lo: int, hi: int, st: MState, fuel: nat) -> RunRes
    decreases fuel, hi - lo, 1int,
{
    match run_code(code, lo, hi, bump(st), fuel) {
        RunRes::Done(st2) => if cell(st2) != 0 {
            if fuel == 0 {
                RunRes::Short
            } else {
                run_loop(code, lo, hi, st2, (fuel - 1) as nat)
            }
        } else {
            RunRes::Done(st2)
        },
        r => r,
    }
}

/// A whole run: one observation point at the start, then the whole program.
pub open spec fn run_program(code: Seq<char>, st: MState, fuel: nat) -> RunRes {
    run_code(code, 0, code.len() as int, bump(st), fuel)
}

/// The state of a freshly constructed interpreter.
pub open spec fn init_state() -> MState {
    MState { tape: seq![0i32], pos: 0, out: Seq::empty(), last: None, calls: 0, steps: 0 }
}

/// Whether the run with this fuel finishes or faults within `budget`
/// dispatch steps of the start.
pub open spec fn completes_within(code: Seq<char>, st: MState, fuel: nat, budget: nat) -> bool {
    match run_program(code, st, fuel) {
        RunRes::Done(y) => y.steps <= st.steps + budget,
        RunRes::Abort(y) => y.steps <= st.steps + budget,
        RunRes::Short => false,
    }
}

/// One state grows out of another: strictly more dispatch steps and an
/// output only appended to.
pub open spec fn evolves(a: MState, b: MState) -> bool {
    b.steps > a.steps && b.out.len() >= a.out.len() && b.out.subrange(
        0,
        a.out.len() as int,
    ) == a.out
}

/// `evolves` chains.
pub proof fn lemma_evolves_trans(a: MState, b: MState, c: MState)
    requires
        evolves(a, b),
        evolves(b, c),
    ensures
        evolves(a, c),
{
    assert(c.out.subrange(0, a.out.len() as int) =~= a.out);
}

/// A step costs: `exec_char` yields a state the old one evolves into.
proof fn lemma_exec_char_evolves(st: MState, idx: int, c: char)
    ensures
        (exec_char(st, idx, c) matches RunRes::Done(y) ==> evolves(st, y)),
        (exec_char(st, idx, c) matches RunRes::Abort(y) ==> evolves(st, y)),
{
    let st1 = tick(st);
    assert(st1.out.subrange(0, st.out.len() as int) =~= st.out);
    match exec_char(st, idx, c) {
        RunRes::Done(y) => {
            assert(y.out.subrange(0, st.out.len() as int) =~= st.out);
        },
        RunRes::Abort(y) => {
            assert(y.out.subrange(0, st.out.len() as int) =~= st.out);
        },
        RunRes::Short => {},
    }
}

/// A run only ever moves forward: whatever `run_code` returns, finished or
/// faulted, took at least one dispatch step and only appended to the
/// output.
pub proof fn lemma_run_code_evolves(code: Seq<char>, lo: int, hi: int, st: MState, fuel: nat)
    ensures
        (run_code(code, lo, hi, st, fuel) matches RunRes::Done(y) ==> evolves(st, y)),
        (run_code(code, lo, hi, st, fuel) matches RunRes::Abort(y) ==> evolves(st, y)),
    decreases fuel, hi - lo, 0int,
{
    if lo < 0 || hi > code.len() || lo >= hi {
        assert(tick(st).out.subrange(0, st.out.len() as int) =~= st.out);
    } else {
        let c = code[lo];
        if c == '[' {
            assert(tick(st).out.subrange(0, st.out.len() as int) =~= st.out);
            match close_index(code, lo + 1, hi, 0) {
                None => {},
                Some(j) => {
                    if lo < j && j < hi {
                        lemma_run_loop_evolves(code, lo + 1, j, tick(st), fuel);
                        match run_loop(code, lo + 1, j, tick(st), fuel) {
                            RunRes::Done(st2) => {
                                lemma_run_code_evolves(code, j + 1, hi, st2, fuel);
                                match run_code(code, j + 1, hi, st2, fuel) {
                                    RunRes::Done(y) => {
                                        lemma_evolves_trans(st, st2, y);
                                    },
                                    RunRes::Abort(y) => {
                                        lemma_evolves_trans(st, st2, y);
                                    },
                                    RunRes::Short => {},
                                }
                            },
                            _ => {},
                        }
                    }
                },
            }
        } else {
            lemma_exec_char_evolves(st, lo, c);
            match exec_char(st, lo, c) {
                RunRes::Done(st2) => {
                    lemma_run_code_evolves(code, lo + 1, hi, st2, fuel);
                    match run_code(code, lo + 1, hi, st2, fuel) {
                        RunRes::Done(y) => {
                            lemma_evolves_trans(st, st2, y);
                        },
                        RunRes::Abort(y) => {
                            lemma_evolves_trans(st, st2, y);
                        },
                        RunRes::Short => {},
                    }
                },
                _ => {},
            }
        }
    }
}

/// Forward movement for `run_loop`, jointly with `lemma_run_code_evolves`.
pub proof fn lemma_run_loop_evolves(code: Seq<char>, lo: int, hi: int, st: MState, fuel: nat)
    ensures
        (run_loop(code, lo, hi, st, fuel) matches RunRes::Done(y) ==> evolves(st, y)),
        (run_loop(code, lo, hi, st, fuel) matches RunRes::Abort(y) ==> evolves(st, y)),
    decreases fuel, hi - lo, 1int,
{
    lemma_run_code_evolves(code, lo, hi, bump(st), fuel);
    match run_code(code, lo, hi, bump(st), fuel) {
        RunRes::Done(st2) => {
            if cell(st2) != 0 {
                if fuel > 0 {
                    lemma_run_loop_evolves(code, lo, hi, st2, (fuel - 1) as nat);
                    match run_loop(code, lo, hi, st2, (fuel - 1) as nat) {
                        RunRes::Done(y) => {
                            lemma_evolves_trans(st, st2, y);
                        },
                        RunRes::Abort(y) => {
                            lemma_evolves_trans(st, st2, y);
                        },
                        RunRes::Short => {},
                    }
                }
            }
        },
        _ => {},
    }
}

/// A result of `run_code` that is not `Short` does not change when the fuel
/// grows: the fuel only cuts runs short, it never alters them.
pub proof fn lemma_run_code_mono(code: Seq<char>, lo: int, hi: int, st: MState, f1: nat, f2: nat)
    requires
        f1 <= f2,
        run_code(code, lo, hi, st, f1) != RunRes::Short,
    ensures
        run_code(code, lo, hi, st, f2) == run_code(code, lo, hi, st, f1),
    decreases f1, hi - lo, 0int,
{
    if !(lo < 0 || hi > code.len() || lo >= hi) {
        let c = code[lo];
        if c == '[' {
            match close_index(code, lo + 1, hi, 0) {
                None => {},
                Some(j) => {
                    if lo < j && j < hi {
                        lemma_run_loop_mono(code, lo + 1, j, tick(st), f1, f2);
                        match run_loop(code, lo + 1, j, tick(st), f1) {
                            RunRes::Done(st2) => {
                                lemma_run_code_mono(code, j + 1, hi, st2, f1, f2);
                            },
                            _ => {},
                        }
                    }
                },
            }
        } else {
            match exec_char(st, lo, c) {
                RunRes::Done(st2) => {
                    lemma_run_code_mono(code, lo + 1, hi, st2, f1, f2);
                },
                _ => {},
            }
        }
    }
}

/// Fuel monotonicity for `run_loop`, jointly with `lemma_run_code_mono`.
pub proof fn lemma_run_loop_mono(code: Seq<char>, lo: int, hi: int, st: MState, f1: nat, f2: nat)
    requires
        f1 <= f2,
        run_loop(code, lo, hi, st, f1) != RunRes::Short,
    ensures
        run_loop(code, lo, hi, st, f2) == run_loop(code, lo, hi, st, f1),
    decreases f1, hi - lo, 1int,
{
    lemma_run_code_mono(code, lo, hi, bump(st), f1, f2);
    match run_code(code, lo, hi, bump(st), f1) {
        RunRes::Done(st2) => {
            if cell(st2) != 0 {
                lemma_run_loop_mono(code, lo, hi, st2, (f1 - 1) as nat, (f2 - 1) as nat);
            }
        },
        _ => {},
    }
}

/// The semantics is deterministic: two finished runs of one program from one
/// state agree, whatever fuel each was given.
pub proof fn lemma_run_program_deterministic(
    code: Seq<char>,
    st: MState,
    f1: nat,
    f2: nat,
)
    requires
        run_program(code, st, f1) != RunRes::Short,
        run_program(code, st, f2) != RunRes::Short,
    ensures
        run_program(code, st, f1) == run_program(code, st, f2),
{
    if f1 <= f2 {
        lemma_run_code_mono(code, 0, code.len() as int, bump(st), f1, f2);
    } else {
        lemma_run_code_mono(code, 0, code.len() as int, bump(st), f2, f1);
    }
}

} // verus!
