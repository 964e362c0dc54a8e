//! Laws of the interpreter, proved against the model in `semantics`:
//! bracket-free programs match a direct flat tape walk, output counting,
//! tape growth under `>`, comment tolerance, and observer call counting.

use vstd::prelude::*;

use crate::semantics::{
    MState, RunRes, bump, cell, close_index, exec_char, init_state, run_code, run_loop,
    run_program, st_wf, tick,
};
use crate::text::{dec_digits, dec_of};

verus! {

/// The eight instruction characters; everything else is a comment.
pub open spec fn is_instr(c: char) -> bool {
    c == '+' || c == '-' || c == '>' || c == '<' || c == '.' || c == '?' || c == '[' || c == ']'
}

/// No bracket stands in `code[lo..hi]`.
pub open spec fn is_flat(code: Seq<char>, lo: int, hi: int) -> bool {
    forall|k: int| lo <= k < hi ==> (#[trigger] code[k]) != '[' && code[k] != ']'
}

/// Direct simulation of a bracket-free walk; `None` is a cursor underflow.
/// The end of the walk costs one dispatch step, as in `run_code`.
pub open spec fn flat_walk(code: Seq<char>, lo: int, hi: int, st: MState) -> Option<MState>
    decreases hi - lo,
{
    if lo < 0 || hi > code.len() || lo >= hi {
        Some(tick(st))
    } else {
        match exec_char(st, lo, code[lo]) {
            RunRes::Done(st2) => flat_walk(code, lo + 1, hi, st2),
            _ => None,
        }
    }
}

/// How many output instructions (`.` or `?`) stand in `code[lo..hi]`.
pub open spec fn out_count(code: Seq<char>, lo: int, hi: int) -> int
    decreases hi - lo,
{
    if lo < 0 || hi > code.len() || lo >= hi {
        0
    } else {
        (if code[lo] == '.' || code[lo] == '?' {
            1int
        } else {
            0int
        }) + out_count(code, lo + 1, hi)
    }
}

/// How many observer-triggering instructions (`+ - < >`) stand in
/// `code[lo..hi]`.
pub open spec fn trig_count(code: Seq<char>, lo: int, hi: int) -> int
    decreases hi - lo,
{
    if lo < 0 || hi > code.len() || lo >= hi {
        0
    } else {
        (if code[lo] == '+' || code[lo] == '-' || code[lo] == '>' || code[lo] == '<' {
            1int
        } else {
            0int
        }) + trig_count(code, lo + 1, hi)
    }
}

/// Law: a bracket-free slice runs independently of fuel and matches the
/// direct flat tape walk exactly; it faults exactly when the walk does.
pub proof fn lemma_flat_matches_walk(code: Seq<char>, lo: int, hi: int, st: MState, fuel: nat)
    requires
        is_flat(code, lo, hi),
    ensures
        match (run_code(code, lo, hi, st, fuel), flat_walk(code, lo, hi, st)) {
            (RunRes::Done(y), Some(w)) => y == w,
            (RunRes::Abort(_), None) => true,
            _ => false,
        },
    decreases hi - lo,
{
    if !(lo < 0 || hi > code.len() || lo >= hi) {
        match exec_char(st, lo, code[lo]) {
            RunRes::Done(st2) => {
                lemma_flat_matches_walk(code, lo + 1, hi, st2, fuel);
            },
            _ => {},
        }
    }
}

proof fn lemma_dec_digits_nonempty(n: nat)
    ensures
        dec_digits(n).len() >= 1,
    decreases n,
{
    if n >= 10 {
        lemma_dec_digits_nonempty(n / 10);
    }
}

/// Every `?` of the walk prints from a cell holding a single decimal digit.
pub open spec fn digits_fit(code: Seq<char>, lo: int, hi: int, st: MState) -> bool
    decreases hi - lo,
{
    if lo < 0 || hi > code.len() || lo >= hi {
        true
    } else {
        (code[lo] == '?' ==> 0 <= st.tape[st.pos] <= 9) && match exec_char(st, lo, code[lo]) {
            RunRes::Done(st2) => digits_fit(code, lo + 1, hi, st2),
            _ => true,
        }
    }
}

/// The characters the walk prints: one per `.`, and the decimal text's
/// length for each `?`, at the cell values in force when each executes.
pub open spec fn printed_len(code: Seq<char>, lo: int, hi: int, st: MState) -> int
    decreases hi - lo,
{
    if lo < 0 || hi > code.len() || lo >= hi {
        0
    } else {
        (if code[lo] == '.' {
            1int
        } else if code[lo] == '?' {
            dec_of(st.tape[st.pos] as int).len() as int
        } else {
            0int
        }) + match exec_char(st, lo, code[lo]) {
            RunRes::Done(st2) => printed_len(code, lo + 1, hi, st2),
            _ => 0,
        }
    }
}

/// Law: on a bracket-free slice the output grows by exactly one character
/// per executed `.` plus the decimal-text length of each executed `?`.
pub proof fn lemma_flat_output_sum(code: Seq<char>, lo: int, hi: int, st: MState)
    requires
        is_flat(code, lo, hi),
        flat_walk(code, lo, hi, st) is Some,
    ensures
        flat_walk(code, lo, hi, st)->0.out.len() == st.out.len() + printed_len(code, lo, hi, st),
    decreases hi - lo,
{
    if !(lo < 0 || hi > code.len() || lo >= hi) {
        match exec_char(st, lo, code[lo]) {
            RunRes::Done(st2) => {
                lemma_flat_output_sum(code, lo + 1, hi, st2);
            },
            _ => {},
        }
    }
}

/// Law: on a bracket-free slice the output grows by at least one character
/// per executed output instruction, and by exactly one per output
/// instruction when every executed `?` prints a single digit (a `?` on a
/// cell outside 0 through 9 prints several characters).
pub proof fn lemma_flat_output_len(code: Seq<char>, lo: int, hi: int, st: MState)
    requires
        is_flat(code, lo, hi),
        flat_walk(code, lo, hi, st) is Some,
    ensures
        flat_walk(code, lo, hi, st)->0.out.len() >= st.out.len() + out_count(code, lo, hi),
        digits_fit(code, lo, hi, st) ==> flat_walk(code, lo, hi, st)->0.out.len() == st.out.len()
            + out_count(code, lo, hi),
    decreases hi - lo,
{
    if !(lo < 0 || hi > code.len() || lo >= hi) {
        match exec_char(st, lo, code[lo]) {
            RunRes::Done(st2) => {
                if code[lo] == '?' {
                    lemma_dec_digits_nonempty((if st.tape[st.pos] < 0 {
                        -(st.tape[st.pos] as int)
                    } else {
                        st.tape[st.pos] as int
                    }) as nat);
                }
                lemma_flat_output_len(code, lo + 1, hi, st2);
            },
            _ => {},
        }
    }
}

proof fn lemma_all_right_grows(code: Seq<char>, lo: int, hi: int, st: MState, fuel: nat)
    requires
        0 <= lo <= hi <= code.len(),
        forall|k: int| lo <= k < hi ==> (#[trigger] code[k]) == '>',
        st_wf(st),
        st.pos == st.tape.len() - 1,
        forall|i: int| 0 <= i < st.tape.len() ==> (#[trigger] st.tape[i]) == 0i32,
    ensures
        (run_code(code, lo, hi, st, fuel) matches RunRes::Done(y) && y.tape.len() == st.tape.len()
            + (hi - lo) && y.pos == st.pos + (hi - lo) && y.out == st.out && (forall|i: int|
            0 <= i < y.tape.len() ==> (#[trigger] y.tape[i]) == 0i32)),
    decreases hi - lo,
{
    if lo < hi {
        match exec_char(st, lo, code[lo]) {
            RunRes::Done(st2) => {
                lemma_all_right_grows(code, lo + 1, hi, st2, fuel);
            },
            _ => {},
        }
    }
}

/// Law (tape growth): a program of nothing but `>`, run from a fresh state,
/// finishes with a tape one cell longer than the program, every cell zero,
/// the cursor on the last cell, and no output — whatever the fuel.
pub proof fn lemma_tape_growth(code: Seq<char>, fuel: nat)
    requires
        forall|k: int| 0 <= k < code.len() ==> (#[trigger] code[k]) == '>',
    ensures
        (run_program(code, init_state(), fuel) matches RunRes::Done(y) && y.tape.len()
            == code.len() + 1 && y.pos == code.len() && y.out == Seq::<char>::empty() && (forall|
            i: int,
        | 0 <= i < y.tape.len() ==> (#[trigger] y.tape[i]) == 0i32)),
{
    let st = bump(init_state());
    assert(st.tape.len() == 1);
    lemma_all_right_grows(code, 0, code.len() as int, st, fuel);
}

/// Two states that agree on tape, cursor, output and observation count. The
/// last-instruction marker, which records source offsets, and the dispatch
/// step counter, which counts comment characters too, may differ.
pub open spec fn obs_eq(a: MState, b: MState) -> bool {
    a.tape == b.tape && a.pos == b.pos && a.out == b.out && a.calls == b.calls
}

/// `code` with the comment characters removed.
pub open spec fn strip(code: Seq<char>) -> Seq<char>
    decreases code.len(),
{
    if code.len() == 0 {
        code
    } else if is_instr(code[0]) {
        seq![code[0]] + strip(code.skip(1))
    } else {
        strip(code.skip(1))
    }
}

proof fn lemma_exec_char_obs(a: MState, b: MState, ia: int, ib: int, c: char)
    requires
        obs_eq(a, b),
    ensures
        (exec_char(a, ia, c) is Abort ==> exec_char(b, ib, c) is Abort),
        (exec_char(a, ia, c) matches RunRes::Done(a2) ==> (exec_char(b, ib, c)
            matches RunRes::Done(b2) && obs_eq(a2, b2))),
{
}

proof fn lemma_close_strip(
    code: Seq<char>,
    i: int,
    hi: int,
    depth: nat,
    s: Seq<char>,
    si: int,
    sh: int,
)
    requires
        0 <= i <= hi <= code.len(),
        0 <= si <= sh <= s.len(),
        s.subrange(si, sh) == strip(code.subrange(i, hi)),
    ensures
        match (close_index(code, i, hi, depth), close_index(s, si, sh, depth)) {
            (Some(j), Some(js)) => i <= j < hi && code[j] == ']' && si <= js < sh && s[js] == ']'
                && s.subrange(si, js) == strip(code.subrange(i, j)) && s.subrange(js, sh) == strip(
                code.subrange(j, hi),
            ),
            (None, None) => true,
            _ => false,
        },
    decreases hi - i,
{
    let t = code.subrange(i, hi);
    if i == hi {
        assert(strip(t) =~= Seq::<char>::empty());
        assert(si == sh);
    } else {
        let c = code[i];
        assert(t[0] == c);
        assert(t.skip(1) =~= code.subrange(i + 1, hi));
        if !is_instr(c) {
            assert(strip(t) == strip(code.subrange(i + 1, hi)));
            lemma_close_strip(code, i + 1, hi, depth, s, si, sh);
            match (close_index(code, i + 1, hi, depth), close_index(s, si, sh, depth)) {
                (Some(j), Some(js)) => {
                    let w = code.subrange(i, j);
                    assert(w[0] == c);
                    assert(w.skip(1) =~= code.subrange(i + 1, j));
                    assert(strip(w) == strip(code.subrange(i + 1, j)));
                    assert(close_index(code, i, hi, depth) == Some(j));
                },
                _ => {},
            }
        } else {
            let u = strip(code.subrange(i + 1, hi));
            assert(strip(t) == seq![c] + u);
            assert(s.subrange(si, sh).len() == 1 + u.len());
            assert(si < sh);
            assert(s[si] == s.subrange(si, sh)[0]);
            assert(s[si] == c);
            assert(s.subrange(si + 1, sh) =~= s.subrange(si, sh).skip(1));
            assert(s.subrange(si + 1, sh) =~= u);
            if c == ']' && depth == 0 {
                assert(close_index(code, i, hi, depth) == Some(i));
                assert(close_index(s, si, sh, depth) == Some(si));
                assert(s.subrange(si, si) =~= strip(code.subrange(i, i)));
            } else {
                let d2 = if c == ']' {
                    (depth - 1) as nat
                } else if c == '[' {
                    (depth + 1) as nat
                } else {
                    depth
                };
                lemma_close_strip(code, i + 1, hi, d2, s, si + 1, sh);
                match (close_index(code, i + 1, hi, d2), close_index(s, si + 1, sh, d2)) {
                    (Some(j), Some(js)) => {
                        let w = code.subrange(i, j);
                        assert(w[0] == c);
                        assert(w.skip(1) =~= code.subrange(i + 1, j));
                        assert(strip(w) == seq![c] + strip(code.subrange(i + 1, j)));
                        assert(s.subrange(si, js) =~= seq![s[si]] + s.subrange(si + 1, js));
                        assert(s.subrange(si, js) == strip(code.subrange(i, j)));
                        assert(close_index(code, i, hi, depth) == Some(j));
                        assert(close_index(s, si, sh, depth) == Some(js));
                    },
                    _ => {},
                }
            }
        }
    }
}

proof fn lemma_strip_run_code(
    code: Seq<char>,
    lo: int,
    hi: int,
    st: MState,
    s: Seq<char>,
    so: int,
    sh: int,
    st2: MState,
    fuel: nat,
)
    requires
        0 <= lo <= hi <= code.len(),
        0 <= so <= sh <= s.len(),
        obs_eq(st, st2),
        s.subrange(so, sh) == strip(code.subrange(lo, hi)),
    ensures
        match (run_code(code, lo, hi, st, fuel), run_code(s, so, sh, st2, fuel)) {
            (RunRes::Done(a), RunRes::Done(b)) => obs_eq(a, b),
            (RunRes::Abort(_), RunRes::Abort(_)) => true,
            (RunRes::Short, RunRes::Short) => true,
            _ => false,
        },
    decreases fuel, hi - lo, 0int,
{
    let t = code.subrange(lo, hi);
    if lo == hi {
        assert(strip(t) =~= Seq::<char>::empty());
        assert(so == sh);
    } else {
        let c = code[lo];
        assert(t[0] == c);
        assert(t.skip(1) =~= code.subrange(lo + 1, hi));
        if !is_instr(c) {
            assert(strip(t) == strip(code.subrange(lo + 1, hi)));
            assert(exec_char(st, lo, c) == RunRes::Done(tick(st)));
            lemma_strip_run_code(code, lo + 1, hi, tick(st), s, so, sh, st2, fuel);
        } else {
            let u = strip(code.subrange(lo + 1, hi));
            assert(strip(t) == seq![c] + u);
            assert(s.subrange(so, sh).len() == 1 + u.len());
            assert(so < sh);
            assert(s[so] == s.subrange(so, sh)[0]);
            assert(s[so] == c);
            assert(s.subrange(so + 1, sh) =~= s.subrange(so, sh).skip(1));
            assert(s.subrange(so + 1, sh) =~= u);
            if c == '[' {
                lemma_close_strip(code, lo + 1, hi, 0, s, so + 1, sh);
                match (close_index(code, lo + 1, hi, 0), close_index(s, so + 1, sh, 0)) {
                    (Some(j), Some(js)) => {
                        // Peel the closing bracket off the rest correspondence.
                        let w = code.subrange(j, hi);
                        assert(w[0] == ']');
                        assert(w.skip(1) =~= code.subrange(j + 1, hi));
                        assert(strip(w) == seq![']'] + strip(code.subrange(j + 1, hi)));
                        assert(s.subrange(js, sh).len() == 1 + strip(code.subrange(j + 1, hi)).len());
                        assert(s.subrange(js + 1, sh) =~= s.subrange(js, sh).skip(1));
                        assert(s.subrange(js + 1, sh) =~= strip(code.subrange(j + 1, hi)));
                        lemma_strip_run_loop(
                            code,
                            lo + 1,
                            j,
                            tick(st),
                            s,
                            so + 1,
                            js,
                            tick(st2),
                            fuel,
                        );
                        match (run_loop(code, lo + 1, j, tick(st), fuel), run_loop(
                            s,
                            so + 1,
                            js,
                            tick(st2),
                            fuel,
                        )) {
                            (RunRes::Done(a2), RunRes::Done(b2)) => {
                                lemma_strip_run_code(code, j + 1, hi, a2, s, js + 1, sh, b2, fuel);
                            },
                            _ => {},
                        }
                    },
                    _ => {},
                }
            } else {
                lemma_exec_char_obs(st, st2, lo, so, c);
                match (exec_char(st, lo, c), exec_char(st2, so, c)) {
                    (RunRes::Done(a2), RunRes::Done(b2)) => {
                        lemma_strip_run_code(code, lo + 1, hi, a2, s, so + 1, sh, b2, fuel);
                    },
                    _ => {},
                }
            }
        }
    }
}

proof fn lemma_strip_run_loop(
    code: Seq<char>,
    lo: int,
    hi: int,
    st: MState,
    s: Seq<char>,
    so: int,
    sh: int,
    st2: MState,
    fuel: nat,
)
    requires
        0 <= lo <= hi <= code.len(),
        0 <= so <= sh <= s.len(),
        obs_eq(st, st2),
        s.subrange(so, sh) == strip(code.subrange(lo, hi)),
    ensures
        match (run_loop(code, lo, hi, st, fuel), run_loop(s, so, sh, st2, fuel)) {
            (RunRes::Done(a), RunRes::Done(b)) => obs_eq(a, b),
            (RunRes::Abort(_), RunRes::Abort(_)) => true,
            (RunRes::Short, RunRes::Short) => true,
            _ => false,
        },
    decreases fuel, hi - lo, 1int,
{
    lemma_strip_run_code(code, lo, hi, bump(st), s, so, sh, bump(st2), fuel);
    match (run_code(code, lo, hi, bump(st), fuel), run_code(s, so, sh, bump(st2), fuel)) {
        (RunRes::Done(a2), RunRes::Done(b2)) => {
            if cell(a2) != 0 && fuel > 0 {
                lemma_strip_run_loop(code, lo, hi, a2, s, so, sh, b2, (fuel - 1) as nat);
            }
        },
        _ => {},
    }
}

/// Law (comment tolerance): a program and the same program with its comment
/// characters removed run to the same tape, cursor, output and observation
/// count, fault together, and run out of fuel together. Only the
/// last-instruction marker may differ: it records source offsets, which
/// stripping shifts.
pub proof fn lemma_comment_tolerance(code: Seq<char>, st: MState, fuel: nat)
    ensures
        match (run_program(code, st, fuel), run_program(strip(code), st, fuel)) {
            (RunRes::Done(a), RunRes::Done(b)) => obs_eq(a, b),
            (RunRes::Abort(_), RunRes::Abort(_)) => true,
            (RunRes::Short, RunRes::Short) => true,
            _ => false,
        },
{
    assert(code.subrange(0, code.len() as int) =~= code);
    assert(strip(code).subrange(0, strip(code).len() as int) =~= strip(code));
    lemma_strip_run_code(
        code,
        0,
        code.len() as int,
        bump(st),
        strip(code),
        0,
        strip(code).len() as int,
        bump(st),
        fuel,
    );
}

/// Law: on a bracket-free slice every `+ - < >` fires the observer once, so
/// a finished pass adds exactly the count of those instructions.
pub proof fn lemma_flat_calls(code: Seq<char>, lo: int, hi: int, st: MState)
    requires
        is_flat(code, lo, hi),
        flat_walk(code, lo, hi, st) is Some,
    ensures
        flat_walk(code, lo, hi, st)->0.calls == st.calls + trig_count(code, lo, hi),
    decreases hi - lo,
{
    if !(lo < 0 || hi > code.len() || lo >= hi) {
        match exec_char(st, lo, code[lo]) {
            RunRes::Done(st2) => {
                lemma_flat_calls(code, lo + 1, hi, st2);
            },
            _ => {},
        }
    }
}

/// A bracket-free prefix walked without the end-of-scan step: the scan goes
/// on inside a larger slice.
pub open spec fn flat_part(code: Seq<char>, lo: int, mid: int, st: MState) -> Option<MState>
    decreases mid - lo,
{
    if lo < 0 || mid > code.len() || lo >= mid {
        Some(st)
    } else {
        match exec_char(st, lo, code[lo]) {
            RunRes::Done(st2) => flat_part(code, lo + 1, mid, st2),
            _ => None,
        }
    }
}

proof fn lemma_flat_part_runs(code: Seq<char>, lo: int, mid: int, hi: int, st: MState, fuel: nat)
    requires
        0 <= lo <= mid <= hi <= code.len(),
        is_flat(code, lo, mid),
    ensures
        (flat_part(code, lo, mid, st) matches Some(w) ==> run_code(code, lo, hi, st, fuel)
            == run_code(code, mid, hi, w, fuel)),
        (flat_part(code, lo, mid, st) is None ==> run_code(code, lo, hi, st, fuel) is Abort),
    decreases mid - lo,
{
    if lo < mid {
        match exec_char(st, lo, code[lo]) {
            RunRes::Done(st2) => {
                lemma_flat_part_runs(code, lo + 1, mid, hi, st2, fuel);
            },
            _ => {},
        }
    }
}

proof fn lemma_flat_part_calls(code: Seq<char>, lo: int, mid: int, st: MState)
    requires
        is_flat(code, lo, mid),
    ensures
        (flat_part(code, lo, mid, st) matches Some(w) ==> w.calls == st.calls + trig_count(
            code,
            lo,
            mid,
        )),
    decreases mid - lo,
{
    if !(lo < 0 || mid > code.len() || lo >= mid) {
        match exec_char(st, lo, code[lo]) {
            RunRes::Done(st2) => {
                lemma_flat_part_calls(code, lo + 1, mid, st2);
            },
            _ => {},
        }
    }
}

proof fn lemma_close_flat(code: Seq<char>, i: int, j: int, hi: int)
    requires
        0 <= i <= j < hi <= code.len(),
        is_flat(code, i, j),
        code[j] == ']',
    ensures
        close_index(code, i, hi, 0) == Some(j),
    decreases j - i,
{
    if i < j {
        lemma_close_flat(code, i + 1, j, hi);
    }
}

/// The observer calls of `k` passes over a body with `b` triggering
/// instructions: one start-of-body call per pass plus one per instruction.
pub open spec fn loop_calls(k: nat, b: int) -> int {
    k * (1 + b)
}

/// Law (observer call count): a finished loop over a bracket-free body of
/// `b` triggering instructions fires the observer `k * (1 + b)` times for
/// some number of passes `k >= 1`: one start-of-body call per pass plus one
/// call per triggering instruction.
pub proof fn lemma_loop_observer_count(code: Seq<char>, lo: int, hi: int, st: MState, fuel: nat)
    requires
        0 <= lo <= hi <= code.len(),
        is_flat(code, lo, hi),
    ensures
        (run_loop(code, lo, hi, st, fuel) matches RunRes::Done(y) ==> exists|k: nat|
            k >= 1 && y.calls == st.calls + #[trigger] loop_calls(k, trig_count(code, lo, hi))),
    decreases fuel,
{
    let b = trig_count(code, lo, hi);
    lemma_flat_matches_walk(code, lo, hi, bump(st), fuel);
    match flat_walk(code, lo, hi, bump(st)) {
        Some(st2) => {
            lemma_flat_calls(code, lo, hi, bump(st));
            assert(st2.calls == st.calls + 1 + b);
            if cell(st2) != 0 {
                if fuel > 0 {
                    lemma_loop_observer_count(code, lo, hi, st2, (fuel - 1) as nat);
                    match run_loop(code, lo, hi, st2, (fuel - 1) as nat) {
                        RunRes::Done(y) => {
                            let k0 = choose|k: nat|
                                k >= 1 && y.calls == st2.calls + #[trigger] loop_calls(k, b);
                            assert((k0 + 1) * (1 + b) == k0 * (1 + b) + (1 + b))
                                by (nonlinear_arith);
                            assert(loop_calls((k0 + 1) as nat, b) == loop_calls(k0, b) + (1 + b));
                            assert(y.calls == st.calls + loop_calls((k0 + 1) as nat, b));
                        },
                        _ => {},
                    }
                }
            } else {
                assert(loop_calls(1nat, b) == 1 + b) by (nonlinear_arith);
            }
        },
        None => {},
    }
}

/// Law (observer call count, whole program): a run of a bracket-free prefix
/// followed by one loop over a bracket-free body fires the observer
/// `1 + T + k * (1 + b)` times for some number of passes `k >= 1`: the
/// top-level start, one call per triggering instruction of the prefix, and
/// the per-pass count of the loop.
pub proof fn lemma_program_observer_count(code: Seq<char>, sl: int, fuel: nat)
    requires
        0 <= sl,
        sl + 2 <= code.len(),
        code[sl] == '[',
        code[code.len() - 1] == ']',
        is_flat(code, 0, sl),
        is_flat(code, sl + 1, code.len() - 1),
    ensures
        (run_program(code, init_state(), fuel) matches RunRes::Done(y) ==> exists|k: nat|
            k >= 1 && y.calls == 1 + trig_count(code, 0, sl) + #[trigger] loop_calls(
                k,
                trig_count(code, sl + 1, code.len() - 1),
            )),
{
    let n = code.len() as int;
    let st0 = bump(init_state());
    let b = trig_count(code, sl + 1, n - 1);
    lemma_flat_part_runs(code, 0, sl, n, st0, fuel);
    match flat_part(code, 0, sl, st0) {
        Some(w) => {
            lemma_flat_part_calls(code, 0, sl, st0);
            lemma_close_flat(code, sl + 1, n - 1, n);
            lemma_loop_observer_count(code, sl + 1, n - 1, tick(w), fuel);
            match run_loop(code, sl + 1, n - 1, tick(w), fuel) {
                RunRes::Done(y2) => {
                    let k0 = choose|k: nat|
                        k >= 1 && y2.calls == tick(w).calls + #[trigger] loop_calls(k, b);
                    assert(run_code(code, n, n, y2, fuel) == RunRes::Done(tick(y2)));
                    assert(run_program(code, init_state(), fuel) == RunRes::Done(tick(y2)));
                    assert(tick(y2).calls == 1 + trig_count(code, 0, sl) + loop_calls(k0, b));
                },
                _ => {},
            }
        },
        None => {},
    }
}

} // verus!