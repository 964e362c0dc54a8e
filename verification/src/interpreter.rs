//! The interpreter: tape and cursor primitives, bracket matching, and the
//! instruction-dispatch engine, verified against the model in `semantics`.

use vstd::prelude::*;

use crate::semantics::{
    MState, RunRes, bump, cell, close_index, completes_within, evolves, exec_char, init_state,
    lemma_evolves_trans, lemma_run_code_evolves, lemma_run_code_mono, lemma_run_loop_evolves,
    lemma_run_loop_mono, lemma_run_program_deterministic, run_code, run_loop, run_program, st_wf,
    tick,
};
use crate::text::{dec_digits, dec_of, push_signed_decimal, push_unsigned_decimal};
use vstd::string::StrSliceExecFns;

verus! {

/// The one run-terminating fault: an unmatched `[`, or a `<` at cursor zero.
/// An out-of-bounds cell access needs no variant: `BrainFuck::wf` proves the
/// cursor always addresses a tape cell.
#[derive(Clone, Copy, PartialEq, Eq, Structural, Debug)]
pub enum Fault {
    MalformedProgram,
}

/// An observation hook: given read-only interpreter state (cursor, last
/// executed instruction, tape), performs an externally visible action.
pub trait Observer {
    fn observe(&mut self, pos: usize, last_instruct: Option<(usize, char)>, tape: &Vec<i32>);
}

/// An observer that does nothing.
pub struct NoOpObserver;

impl Observer for NoOpObserver {
    fn observe(&mut self, _pos: usize, _last_instruct: Option<(usize, char)>, _tape: &Vec<i32>) {
    }
}

/// A suspended enclosing slice: its bounds and where to resume in it once the
/// inner loop body finishes.
struct Frame {
    lo: usize,
    hi: usize,
    resume: usize,
}

/// What remains of one slice `[lo, hi)` whose scan stands at `at` in state
/// `st`: finish the pass, then, for a loop body, re-run it while the current
/// cell is non-zero.
spec fn rem_slice(
    code: Seq<char>,
    lo: int,
    hi: int,
    at: int,
    st: MState,
    looping: bool,
    fuel: nat,
) -> RunRes {
    match run_code(code, at, hi, st, fuel) {
        RunRes::Done(st2) => if looping && cell(st2) != 0 {
            if fuel == 0 {
                RunRes::Short
            } else {
                run_loop(code, lo, hi, st2, (fuel - 1) as nat)
            }
        } else {
            RunRes::Done(st2)
        },
        r => r,
    }
}

/// What remains of all suspended slices, innermost first, starting from `st`.
spec fn rem_frames(code: Seq<char>, frames: Seq<Frame>, st: MState, fuel: nat) -> RunRes
    decreases frames.len(),
{
    if frames.len() == 0 {
        RunRes::Done(st)
    } else {
        let fr = frames.last();
        match rem_slice(
            code,
            fr.lo as int,
            fr.hi as int,
            fr.resume as int,
            st,
            frames.len() > 1,
            fuel,
        ) {
            RunRes::Done(st2) => rem_frames(code, frames.drop_last(), st2, fuel),
            r => r,
        }
    }
}

/// What remains of the whole run: the active slice, then every suspended one.
spec fn chain(
    code: Seq<char>,
    frames: Seq<Frame>,
    lo: int,
    hi: int,
    at: int,
    st: MState,
    fuel: nat,
) -> RunRes {
    match rem_slice(code, lo, hi, at, st, frames.len() > 0, fuel) {
        RunRes::Done(st2) => rem_frames(code, frames, st2, fuel),
        r => r,
    }
}

proof fn lemma_rem_slice_mono(
    code: Seq<char>,
    lo: int,
    hi: int,
    at: int,
    st: MState,
    looping: bool,
    f1: nat,
    f2: nat,
)
    requires
        f1 <= f2,
        rem_slice(code, lo, hi, at, st, looping, f1) != RunRes::Short,
    ensures
        rem_slice(code, lo, hi, at, st, looping, f2) == rem_slice(code, lo, hi, at, st, looping, f1),
{
    lemma_run_code_mono(code, at, hi, st, f1, f2);
    match run_code(code, at, hi, st, f1) {
        RunRes::Done(st2) => {
            if looping && cell(st2) != 0 {
                lemma_run_loop_mono(code, lo, hi, st2, (f1 - 1) as nat, (f2 - 1) as nat);
            }
        },
        _ => {},
    }
}

proof fn lemma_rem_frames_mono(code: Seq<char>, frames: Seq<Frame>, st: MState, f1: nat, f2: nat)
    requires
        f1 <= f2,
        rem_frames(code, frames, st, f1) != RunRes::Short,
    ensures
        rem_frames(code, frames, st, f2) == rem_frames(code, frames, st, f1),
    decreases frames.len(),
{
    if frames.len() > 0 {
        let fr = frames.last();
        lemma_rem_slice_mono(
            code,
            fr.lo as int,
            fr.hi as int,
            fr.resume as int,
            st,
            frames.len() > 1,
            f1,
            f2,
        );
        match rem_slice(code, fr.lo as int, fr.hi as int, fr.resume as int, st, frames.len() > 1, f1) {
            RunRes::Done(st2) => {
                lemma_rem_frames_mono(code, frames.drop_last(), st2, f1, f2);
            },
            _ => {},
        }
    }
}

proof fn lemma_prefix_trans(a: Seq<char>, b: Seq<char>, c: Seq<char>)
    requires
        a.len() <= b.len() <= c.len(),
        b.subrange(0, a.len() as int) == a,
        c.subrange(0, b.len() as int) == b,
    ensures
        c.subrange(0, a.len() as int) == a,
{
    assert forall|i: int| 0 <= i < a.len() implies c.subrange(0, a.len() as int)[i] == a[i] by {
        assert(b.subrange(0, a.len() as int)[i] == a[i]);
        assert(c.subrange(0, b.len() as int)[i] == b[i]);
    }
    assert(c.subrange(0, a.len() as int) =~= a);
}

proof fn lemma_rem_slice_evolves(
    code: Seq<char>,
    lo: int,
    hi: int,
    at: int,
    st: MState,
    looping: bool,
    fuel: nat,
)
    ensures
        (rem_slice(code, lo, hi, at, st, looping, fuel) matches RunRes::Done(y) ==> evolves(
            st,
            y,
        )),
        (rem_slice(code, lo, hi, at, st, looping, fuel) matches RunRes::Abort(y) ==> evolves(
            st,
            y,
        )),
{
    lemma_run_code_evolves(code, at, hi, st, fuel);
    match run_code(code, at, hi, st, fuel) {
        RunRes::Done(st2) => {
            if looping && cell(st2) != 0 && fuel > 0 {
                lemma_run_loop_evolves(code, lo, hi, st2, (fuel - 1) as nat);
                match run_loop(code, lo, hi, st2, (fuel - 1) as nat) {
                    RunRes::Done(y) => {
                        lemma_evolves_trans(st, st2, y);
                    },
                    RunRes::Abort(y) => {
                        lemma_evolves_trans(st, st2, y);
                    },
                    RunRes::Short => {},
                }
            }
        },
        _ => {},
    }
}

proof fn lemma_rem_frames_evolves(code: Seq<char>, frames: Seq<Frame>, st: MState, fuel: nat)
    ensures
        (rem_frames(code, frames, st, fuel) matches RunRes::Done(y) ==> y == st || evolves(
            st,
            y,
        )),
        (rem_frames(code, frames, st, fuel) matches RunRes::Abort(y) ==> evolves(st, y)),
    decreases frames.len(),
{
    if frames.len() > 0 {
        let fr = frames.last();
        lemma_rem_slice_evolves(
            code,
            fr.lo as int,
            fr.hi as int,
            fr.resume as int,
            st,
            frames.len() > 1,
            fuel,
        );
        match rem_slice(code, fr.lo as int, fr.hi as int, fr.resume as int, st, frames.len() > 1, fuel) {
            RunRes::Done(st2) => {
                lemma_rem_frames_evolves(code, frames.drop_last(), st2, fuel);
                match rem_frames(code, frames.drop_last(), st2, fuel) {
                    RunRes::Done(y) => {
                        if y != st2 {
                            lemma_evolves_trans(st, st2, y);
                        }
                    },
                    RunRes::Abort(y) => {
                        lemma_evolves_trans(st, st2, y);
                    },
                    RunRes::Short => {},
                }
            },
            _ => {},
        }
    }
}

/// Whatever the rest of the run returns, finished or faulted, it lies at
/// least one dispatch step ahead of the present state.
proof fn lemma_chain_evolves(
    code: Seq<char>,
    frames: Seq<Frame>,
    lo: int,
    hi: int,
    at: int,
    st: MState,
    fuel: nat,
)
    ensures
        (chain(code, frames, lo, hi, at, st, fuel) matches RunRes::Done(y) ==> evolves(st, y)),
        (chain(code, frames, lo, hi, at, st, fuel) matches RunRes::Abort(y) ==> evolves(st, y)),
{
    lemma_rem_slice_evolves(code, lo, hi, at, st, frames.len() > 0, fuel);
    match rem_slice(code, lo, hi, at, st, frames.len() > 0, fuel) {
        RunRes::Done(st2) => {
            lemma_rem_frames_evolves(code, frames, st2, fuel);
            match rem_frames(code, frames, st2, fuel) {
                RunRes::Done(y) => {
                    if y != st2 {
                        lemma_evolves_trans(st, st2, y);
                    }
                },
                RunRes::Abort(y) => {
                    lemma_evolves_trans(st, st2, y);
                },
                RunRes::Short => {},
            }
        },
        _ => {},
    }
}

/// A non-bracket instruction advances the scan by one and transforms the
/// state exactly as `exec_char` says; the rest of the run is unchanged.
proof fn lemma_chain_step(
    code: Seq<char>,
    frames: Seq<Frame>,
    lo: int,
    hi: int,
    at: int,
    st: MState,
    st2: MState,
)
    requires
        0 <= lo <= at < hi <= code.len(),
        code[at] != '[',
        exec_char(st, at, code[at]) == RunRes::Done(st2),
    ensures
        forall|g: nat|
            chain(code, frames, lo, hi, at + 1, st2, g) == chain(code, frames, lo, hi, at, st, g),
{
    assert forall|g: nat|
        chain(code, frames, lo, hi, at + 1, st2, g) == chain(code, frames, lo, hi, at, st, g) by {
        assert(run_code(code, at, hi, st, g) == run_code(code, at + 1, hi, st2, g));
    }
}

/// A non-bracket instruction that faults aborts the whole run.
proof fn lemma_chain_fault(
    code: Seq<char>,
    frames: Seq<Frame>,
    lo: int,
    hi: int,
    at: int,
    st: MState,
)
    requires
        0 <= lo <= at < hi <= code.len(),
        code[at] != '[',
        exec_char(st, at, code[at]) == RunRes::Abort(tick(st)),
    ensures
        forall|g: nat| chain(code, frames, lo, hi, at, st, g) == RunRes::Abort(tick(st)),
{
    assert forall|g: nat| chain(code, frames, lo, hi, at, st, g) == RunRes::Abort(tick(st)) by {
        assert(run_code(code, at, hi, st, g) == RunRes::Abort(tick(st)));
    }
}

/// A `[` with no matching `]` in the slice aborts the whole run.
proof fn lemma_chain_unmatched(
    code: Seq<char>,
    frames: Seq<Frame>,
    lo: int,
    hi: int,
    at: int,
    st: MState,
)
    requires
        0 <= lo <= at < hi <= code.len(),
        code[at] == '[',
        close_index(code, at + 1, hi, 0) is None,
    ensures
        forall|g: nat| chain(code, frames, lo, hi, at, st, g) == RunRes::Abort(tick(st)),
{
    assert forall|g: nat| chain(code, frames, lo, hi, at, st, g) == RunRes::Abort(tick(st)) by {
        assert(run_code(code, at, hi, st, g) == RunRes::Abort(tick(st)));
    }
}

/// Entering a loop body: suspending the enclosing slice behind a frame and
/// starting the body's first pass leaves the remaining run unchanged.
proof fn lemma_chain_enter(
    code: Seq<char>,
    frames: Seq<Frame>,
    fr: Frame,
    at: int,
    st: MState,
    j: int,
)
    requires
        0 <= fr.lo <= at < fr.hi <= code.len(),
        code[at] == '[',
        close_index(code, at + 1, fr.hi as int, 0) == Some(j),
        at < j < fr.hi,
        fr.resume == j + 1,
    ensures
        forall|g: nat|
            chain(code, frames.push(fr), at + 1, j, at + 1, bump(tick(st)), g) == chain(
                code,
                frames,
                fr.lo as int,
                fr.hi as int,
                at,
                st,
                g,
            ),
{
    assert(frames.push(fr).drop_last() =~= frames);
    assert forall|g: nat|
        chain(code, frames.push(fr), at + 1, j, at + 1, bump(tick(st)), g) == chain(
            code,
            frames,
            fr.lo as int,
            fr.hi as int,
            at,
            st,
            g,
        ) by {
        assert(rem_slice(code, at + 1, j, at + 1, bump(tick(st)), true, g) == run_loop(
            code,
            at + 1,
            j,
            tick(st),
            g,
        ));
        assert(run_code(code, at, fr.hi as int, st, g) == match run_loop(
            code,
            at + 1,
            j,
            tick(st),
            g,
        ) {
            RunRes::Done(st2) => run_code(code, j + 1, fr.hi as int, st2, g),
            r => r,
        });
    }
}

/// Re-scanning a finished loop body whose cell is non-zero: one more unit
/// of fuel on the old configuration matches the new pass exactly, in both
/// directions; with no fuel the old configuration comes up short.
proof fn lemma_chain_rescan(
    code: Seq<char>,
    frames: Seq<Frame>,
    lo: int,
    hi: int,
    st: MState,
)
    requires
        frames.len() > 0,
        cell(st) != 0,
    ensures
        chain(code, frames, lo, hi, hi, st, 0) == RunRes::Short,
        forall|g: nat|
            chain(code, frames, lo, hi, lo, bump(tick(st)), g) != RunRes::Short ==> chain(
                code,
                frames,
                lo,
                hi,
                hi,
                st,
                g + 1,
            ) == chain(code, frames, lo, hi, lo, bump(tick(st)), g),
        forall|g: nat|
            g >= 1 && chain(code, frames, lo, hi, hi, st, g) != RunRes::Short ==> chain(
                code,
                frames,
                lo,
                hi,
                lo,
                bump(tick(st)),
                g,
            ) == chain(code, frames, lo, hi, hi, st, g),
{
    assert(run_code(code, hi, hi, st, 0) == RunRes::Done(tick(st)));
    assert(rem_slice(code, lo, hi, hi, st, true, 0) == RunRes::Short);
    assert forall|g: nat|
        chain(code, frames, lo, hi, lo, bump(tick(st)), g) != RunRes::Short implies chain(
        code,
        frames,
        lo,
        hi,
        hi,
        st,
        g + 1,
    ) == chain(code, frames, lo, hi, lo, bump(tick(st)), g) by {
        assert(rem_slice(code, lo, hi, lo, bump(tick(st)), true, g) == run_loop(
            code,
            lo,
            hi,
            tick(st),
            g,
        ));
        assert(run_code(code, hi, hi, st, (g + 1) as nat) == RunRes::Done(tick(st)));
        assert(rem_slice(code, lo, hi, hi, st, true, (g + 1) as nat) == run_loop(
            code,
            lo,
            hi,
            tick(st),
            g,
        ));
        match run_loop(code, lo, hi, tick(st), g) {
            RunRes::Done(y) => {
                lemma_rem_frames_mono(code, frames, y, g, (g + 1) as nat);
            },
            _ => {},
        }
    }
    assert forall|g: nat|
        g >= 1 && chain(code, frames, lo, hi, hi, st, g) != RunRes::Short implies chain(
        code,
        frames,
        lo,
        hi,
        lo,
        bump(tick(st)),
        g,
    ) == chain(code, frames, lo, hi, hi, st, g) by {
        assert(run_code(code, hi, hi, st, g) == RunRes::Done(tick(st)));
        assert(rem_slice(code, lo, hi, hi, st, true, g) == run_loop(
            code,
            lo,
            hi,
            tick(st),
            (g - 1) as nat,
        ));
        assert(rem_slice(code, lo, hi, lo, bump(tick(st)), true, g) == run_loop(
            code,
            lo,
            hi,
            tick(st),
            g,
        ));
        if run_loop(code, lo, hi, tick(st), (g - 1) as nat) != RunRes::Short {
            lemma_run_loop_mono(code, lo, hi, tick(st), (g - 1) as nat, g);
        }
    }
}

/// Leaving a finished loop body whose cell is zero: resuming the suspended
/// enclosing slice is exactly what remained.
proof fn lemma_chain_pop(
    code: Seq<char>,
    frames: Seq<Frame>,
    lo: int,
    hi: int,
    st: MState,
)
    requires
        frames.len() > 0,
        cell(st) == 0,
    ensures
        forall|g: nat|
            chain(
                code,
                frames.drop_last(),
                frames.last().lo as int,
                frames.last().hi as int,
                frames.last().resume as int,
                tick(st),
                g,
            ) == chain(code, frames, lo, hi, hi, st, g),
{
    assert forall|g: nat|
        chain(
            code,
            frames.drop_last(),
            frames.last().lo as int,
            frames.last().hi as int,
            frames.last().resume as int,
            tick(st),
            g,
        ) == chain(code, frames, lo, hi, hi, st, g) by {
        assert(run_code(code, hi, hi, st, g) == RunRes::Done(tick(st)));
        assert(rem_slice(code, lo, hi, hi, st, true, g) == RunRes::Done(tick(st)));
    }
}

/// The two directions that tie the machine's remaining run to the whole
/// program: every non-short remainder is some full run, and every non-short
/// full run is some remainder.
#[verifier::opaque]
spec fn inv_pair(
    code: Seq<char>,
    frames: Seq<Frame>,
    lo: int,
    hi: int,
    at: int,
    st: MState,
    orig: MState,
) -> bool {
    (forall|g: nat|
        chain(code, frames, lo, hi, at, st, g) != RunRes::Short ==> exists|f: nat|
            run_program(code, orig, f) == chain(code, frames, lo, hi, at, st, g))
        && (forall|f: nat|
        run_program(code, orig, f) != RunRes::Short ==> exists|g: nat|
            chain(code, frames, lo, hi, at, st, g) == run_program(code, orig, f))
}

proof fn lemma_inv_init(code: Seq<char>, frames: Seq<Frame>, n: int, st: MState, orig: MState)
    requires
        frames.len() == 0,
        n == code.len(),
        st == bump(orig),
    ensures
        inv_pair(code, frames, 0, n, 0, st, orig),
{
    reveal(inv_pair);
    assert forall|g: nat|
        #[trigger] chain(code, frames, 0, n, 0, st, g) == run_program(code, orig, g) by {
        assert(rem_frames(code, frames, st, g) == RunRes::Done(st));
        match run_code(code, 0, n, st, g) {
            RunRes::Done(st2) => {
                assert(rem_frames(code, frames, st2, g) == RunRes::Done(st2));
            },
            _ => {},
        }
    }
    assert forall|g: nat|
        chain(code, frames, 0, n, 0, st, g) != RunRes::Short implies exists|f: nat|
        run_program(code, orig, f) == chain(code, frames, 0, n, 0, st, g) by {
        assert(chain(code, frames, 0, n, 0, st, g) == run_program(code, orig, g));
    }
    assert forall|f: nat|
        run_program(code, orig, f) != RunRes::Short implies exists|g: nat|
        chain(code, frames, 0, n, 0, st, g) == run_program(code, orig, f) by {
        assert(chain(code, frames, 0, n, 0, st, f) == run_program(code, orig, f));
    }
}

proof fn lemma_inv_step(
    code: Seq<char>,
    frames: Seq<Frame>,
    lo: int,
    hi: int,
    at: int,
    st: MState,
    st2: MState,
    orig: MState,
)
    requires
        0 <= lo <= at < hi <= code.len(),
        code[at] != '[',
        exec_char(st, at, code[at]) == RunRes::Done(st2),
        inv_pair(code, frames, lo, hi, at, st, orig),
    ensures
        inv_pair(code, frames, lo, hi, at + 1, st2, orig),
{
    reveal(inv_pair);
    lemma_chain_step(code, frames, lo, hi, at, st, st2);
    let at2 = at + 1;
    assert forall|g: nat|
        chain(code, frames, lo, hi, at2, st2, g) != RunRes::Short implies exists|f: nat|
        run_program(code, orig, f) == chain(code, frames, lo, hi, at2, st2, g) by {
        assert(chain(code, frames, lo, hi, at2, st2, g) == chain(code, frames, lo, hi, at, st, g));
    }
    assert forall|f: nat|
        run_program(code, orig, f) != RunRes::Short implies exists|g: nat|
        chain(code, frames, lo, hi, at2, st2, g) == run_program(code, orig, f) by {
        let g0 = choose|g: nat|
            chain(code, frames, lo, hi, at, st, g) == run_program(code, orig, f);
        assert(chain(code, frames, lo, hi, at2, st2, g0) == chain(
            code,
            frames,
            lo,
            hi,
            at,
            st,
            g0,
        ));
    }
}

proof fn lemma_inv_enter(
    code: Seq<char>,
    frames: Seq<Frame>,
    fr: Frame,
    at: int,
    st: MState,
    j: int,
    orig: MState,
)
    requires
        0 <= fr.lo <= at < fr.hi <= code.len(),
        code[at] == '[',
        close_index(code, at + 1, fr.hi as int, 0) == Some(j),
        at < j < fr.hi,
        fr.resume == j + 1,
        inv_pair(code, frames, fr.lo as int, fr.hi as int, at, st, orig),
    ensures
        inv_pair(code, frames.push(fr), at + 1, j, at + 1, bump(tick(st)), orig),
{
    reveal(inv_pair);
    lemma_chain_enter(code, frames, fr, at, st, j);
    let at2 = at + 1;
    let st2 = bump(tick(st));
    let frames2 = frames.push(fr);
    assert forall|g: nat|
        chain(code, frames2, at2, j, at2, st2, g) != RunRes::Short implies exists|f: nat|
        run_program(code, orig, f) == chain(code, frames2, at2, j, at2, st2, g) by {
        assert(chain(code, frames2, at2, j, at2, st2, g) == chain(
            code,
            frames,
            fr.lo as int,
            fr.hi as int,
            at,
            st,
            g,
        ));
    }
    assert forall|f: nat|
        run_program(code, orig, f) != RunRes::Short implies exists|g: nat|
        chain(code, frames2, at2, j, at2, st2, g) == run_program(code, orig, f) by {
        let g0 = choose|g: nat|
            chain(code, frames, fr.lo as int, fr.hi as int, at, st, g) == run_program(
                code,
                orig,
                f,
            );
        assert(chain(code, frames2, at2, j, at2, st2, g0) == chain(
            code,
            frames,
            fr.lo as int,
            fr.hi as int,
            at,
            st,
            g0,
        ));
    }
}

proof fn lemma_inv_rescan(
    code: Seq<char>,
    frames: Seq<Frame>,
    lo: int,
    hi: int,
    st: MState,
    orig: MState,
)
    requires
        frames.len() > 0,
        cell(st) != 0,
        inv_pair(code, frames, lo, hi, hi, st, orig),
    ensures
        inv_pair(code, frames, lo, hi, lo, bump(tick(st)), orig),
{
    reveal(inv_pair);
    lemma_chain_rescan(code, frames, lo, hi, st);
    let st2 = bump(tick(st));
    assert forall|g: nat|
        chain(code, frames, lo, hi, lo, st2, g) != RunRes::Short implies exists|f: nat|
        run_program(code, orig, f) == chain(code, frames, lo, hi, lo, st2, g) by {
        assert(chain(code, frames, lo, hi, hi, st, g + 1) == chain(code, frames, lo, hi, lo, st2, g));
    }
    assert forall|f: nat|
        run_program(code, orig, f) != RunRes::Short implies exists|g: nat|
        chain(code, frames, lo, hi, lo, st2, g) == run_program(code, orig, f) by {
        let g0 = choose|g: nat|
            chain(code, frames, lo, hi, hi, st, g) == run_program(code, orig, f);
        assert(g0 >= 1);
        assert(chain(code, frames, lo, hi, lo, st2, g0) == chain(code, frames, lo, hi, hi, st, g0));
    }
}

proof fn lemma_inv_pop(
    code: Seq<char>,
    frames: Seq<Frame>,
    lo: int,
    hi: int,
    st: MState,
    orig: MState,
)
    requires
        frames.len() > 0,
        cell(st) == 0,
        inv_pair(code, frames, lo, hi, hi, st, orig),
    ensures
        inv_pair(
            code,
            frames.drop_last(),
            frames.last().lo as int,
            frames.last().hi as int,
            frames.last().resume as int,
            tick(st),
            orig,
        ),
{
    reveal(inv_pair);
    lemma_chain_pop(code, frames, lo, hi, st);
    let frames2 = frames.drop_last();
    let fr = frames.last();
    let st2 = tick(st);
    assert forall|g: nat|
        chain(code, frames2, fr.lo as int, fr.hi as int, fr.resume as int, st2, g)
            != RunRes::Short implies exists|f: nat|
        run_program(code, orig, f) == chain(
            code,
            frames2,
            fr.lo as int,
            fr.hi as int,
            fr.resume as int,
            st2,
            g,
        ) by {
        assert(chain(code, frames2, fr.lo as int, fr.hi as int, fr.resume as int, st2, g)
            == chain(code, frames, lo, hi, hi, st, g));
    }
    assert forall|f: nat|
        run_program(code, orig, f) != RunRes::Short implies exists|g: nat|
        chain(code, frames2, fr.lo as int, fr.hi as int, fr.resume as int, st2, g)
            == run_program(code, orig, f) by {
        let g0 = choose|g: nat|
            chain(code, frames, lo, hi, hi, st, g) == run_program(code, orig, f);
        assert(chain(code, frames2, fr.lo as int, fr.hi as int, fr.resume as int, st2, g0)
            == chain(code, frames, lo, hi, hi, st, g0));
    }
}

proof fn lemma_inv_unmatched(
    code: Seq<char>,
    frames: Seq<Frame>,
    lo: int,
    hi: int,
    at: int,
    st: MState,
    orig: MState,
)
    requires
        0 <= lo <= at < hi <= code.len(),
        code[at] == '[',
        close_index(code, at + 1, hi, 0) is None,
        inv_pair(code, frames, lo, hi, at, st, orig),
    ensures
        exists|f: nat| run_program(code, orig, f) == RunRes::Abort(tick(st)),
{
    reveal(inv_pair);
    lemma_chain_unmatched(code, frames, lo, hi, at, st);
    assert(chain(code, frames, lo, hi, at, st, 0) == RunRes::Abort(tick(st)));
}

proof fn lemma_inv_fault(
    code: Seq<char>,
    frames: Seq<Frame>,
    lo: int,
    hi: int,
    at: int,
    st: MState,
    orig: MState,
)
    requires
        0 <= lo <= at < hi <= code.len(),
        code[at] != '[',
        exec_char(st, at, code[at]) == RunRes::Abort(tick(st)),
        inv_pair(code, frames, lo, hi, at, st, orig),
    ensures
        exists|f: nat| run_program(code, orig, f) == RunRes::Abort(tick(st)),
{
    reveal(inv_pair);
    lemma_chain_fault(code, frames, lo, hi, at, st);
    assert(chain(code, frames, lo, hi, at, st, 0) == RunRes::Abort(tick(st)));
}

proof fn lemma_inv_finish(
    code: Seq<char>,
    frames: Seq<Frame>,
    lo: int,
    hi: int,
    st: MState,
    orig: MState,
)
    requires
        frames.len() == 0,
        inv_pair(code, frames, lo, hi, hi, st, orig),
    ensures
        exists|f: nat| run_program(code, orig, f) == RunRes::Done(tick(st)),
{
    reveal(inv_pair);
    assert(run_code(code, hi, hi, st, 0) == RunRes::Done(tick(st)));
    assert(rem_frames(code, frames, tick(st), 0) == RunRes::Done(tick(st)));
    assert(chain(code, frames, lo, hi, hi, st, 0) == RunRes::Done(tick(st)));
}

proof fn lemma_inv_beyond(
    code: Seq<char>,
    frames: Seq<Frame>,
    lo: int,
    hi: int,
    at: int,
    st: MState,
    orig: MState,
    budget: nat,
)
    requires
        inv_pair(code, frames, lo, hi, at, st, orig),
        st.steps == orig.steps + budget,
    ensures
        forall|f: nat| !completes_within(code, orig, f, budget),
{
    reveal(inv_pair);
    assert forall|f: nat| !completes_within(code, orig, f, budget) by {
        if run_program(code, orig, f) != RunRes::Short {
            let g0 = choose|g: nat|
                chain(code, frames, lo, hi, at, st, g) == run_program(code, orig, f);
            lemma_chain_evolves(code, frames, lo, hi, at, st, g0);
        }
    }
}

/// Scans forward from `from`, counting nesting, for the `]` that closes at
/// depth zero before `hi`; mirrors `close_index`.
fn find_close(code: &str, from: usize, hi: usize) -> (r: Option<usize>)
    requires
        from <= hi <= code@.len(),
    ensures
        match r {
            Some(j) => close_index(code@, from as int, hi as int, 0) == Some(j as int) && from <= j
                < hi && code@[j as int] == ']',
            None => close_index(code@, from as int, hi as int, 0) is None,
        },
{
    let mut s = from;
    let mut d: usize = 0;
    while s < hi
        invariant
            from <= s <= hi <= code@.len(),
            d <= s - from,
            close_index(code@, from as int, hi as int, 0) == close_index(
                code@,
                s as int,
                hi as int,
                d as nat,
            ),
        decreases hi - s,
    {
        let c = code.get_char(s);
        if c == ']' {
            if d == 0 {
                return Some(s);
            } else {
                d = d - 1;
            }
        } else if c == '[' {
            d = d + 1;
        }
        s = s + 1;
    }
    None
}

/// The rendered text of the tape cells from index `i` on, separated by
/// a comma and a space.
pub open spec fn render_cells(tape: Seq<i32>, i: int) -> Seq<char>
    decreases tape.len() - i,
{
    if i < 0 || i >= tape.len() {
        Seq::empty()
    } else if i == tape.len() - 1 {
        dec_of(tape[i] as int)
    } else {
        dec_of(tape[i] as int) + seq![',', ' '] + render_cells(tape, i + 1)
    }
}

/// The diagnostic view of a state: the cursor position, the last executed
/// instruction if any, and the bracketed tape contents on a second line.
pub open spec fn render_spec(st: MState) -> Seq<char> {
    let head = seq!['p', 'o', 's', ':'] + dec_of(st.pos);
    let marker = match st.last {
        Some((_, c)) => seq![',', ' ', 'l', 'a', 's', 't', ':', ' '] + seq![c],
        None => Seq::<char>::empty(),
    };
    head + marker + seq!['\n', '['] + render_cells(st.tape, 0) + seq![']']
}

fn push_cells(out: &mut String, tape: &Vec<i32>, i: usize)
    requires
        i <= tape@.len(),
    ensures
        final(out)@ == old(out)@ + render_cells(tape@, i as int),
    decreases tape@.len() - i,
{
    if i < tape.len() {
        push_signed_decimal(out, tape[i]);
        if i < tape.len() - 1 {
            out.push(',');
            out.push(' ');
            push_cells(out, tape, i + 1);
        }
    }
    assert(out@ =~= old(out)@ + render_cells(tape@, i as int));
}

/// The interpreter: an auto-growing tape of signed cells, a cursor, an
/// accumulated output buffer, and an optional observer.
pub struct BrainFuck<O: Observer> {
    tape: Vec<i32>,
    pos: usize,
    callback_fn: Option<O>,
    last_instruct: Option<(usize, char)>,
    output_buffer: String,
    observations: Ghost<nat>,
    steps_done: Ghost<nat>,
}

impl<O: Observer> BrainFuck<O> {
    /// The mathematical snapshot of this interpreter.
    pub closed spec fn st(&self) -> MState {
        MState {
            tape: self.tape@,
            pos: self.pos as int,
            out: self.output_buffer@,
            last: match self.last_instruct {
                Some((i, c)) => Some((i as int, c)),
                None => None,
            },
            calls: self.observations@,
            steps: self.steps_done@,
        }
    }

    /// The cursor always addresses a tape cell.
    pub open spec fn wf(&self) -> bool {
        st_wf(self.st())
    }

    /// The attached observer, if any.
    pub closed spec fn observer(&self) -> Option<O> {
        self.callback_fn
    }

    /// Whether an observer is attached.
    pub open spec fn has_observer(&self) -> bool {
        self.observer() is Some
    }

    /// A fresh interpreter: a single zero cell, cursor at zero, empty output,
    /// no observer.
    pub fn new() -> (r: Self)
        ensures
            r.st() == init_state(),
            r.wf(),
            r.observer() == None::<O>,
    {
        let mut tape: Vec<i32> = Vec::new();
        tape.push(0);
        let r = BrainFuck {
            tape,
            pos: 0,
            callback_fn: None,
            last_instruct: None,
            output_buffer: String::new(),
            observations: Ghost(0),
            steps_done: Ghost(0),
        };
        proof {
            assert(r.st() =~= init_state());
        }
        r
    }

    /// Attaches an observer: exactly the given one, replacing any prior.
    pub fn callback(&mut self, call: O)
        ensures
            final(self).st() == old(self).st(),
            final(self).observer() == Some(call),
    {
        self.callback_fn = Some(call);
    }

    /// One observation point: invokes the observer, if any, with the current
    /// state, after recording the point in the snapshot.
    fn run_callback(&mut self)
        ensures
            final(self).st() == bump(old(self).st()),
            final(self).has_observer() == old(self).has_observer(),
    {
        self.observations = Ghost(self.observations@ + 1);
        let mut taken: Option<O> = None;
        core::mem::swap(&mut taken, &mut self.callback_fn);
        match taken {
            Some(mut obs) => {
                obs.observe(self.pos, self.last_instruct, &self.tape);
                self.callback_fn = Some(obs);
            },
            None => {},
        }
        proof {
            assert(self.st() =~= bump(old(self).st()));
        }
    }

    /// The cell under the cursor.
    fn current_val(&self) -> (r: i32)
        requires
            self.wf(),
        ensures
            r == cell(self.st()),
    {
        self.tape[self.pos]
    }

    /// Overwrites the cell under the cursor.
    fn set_current_val(&mut self, v: i32)
        requires
            old(self).wf(),
        ensures
            final(self).wf(),
            final(self).st() == (MState {
                tape: old(self).st().tape.update(old(self).st().pos, v),
                ..old(self).st()
            }),
            final(self).has_observer() == old(self).has_observer(),
    {
        self.tape[self.pos] = v;
    }

    /// Moves the cursor right, first growing the tape by one zero cell when
    /// the cursor stands at the right boundary.
    fn move_right(&mut self)
        requires
            old(self).wf(),
        ensures
            final(self).wf(),
            final(self).st() == (MState {
                tape: if old(self).st().pos + 1 >= old(self).st().tape.len() {
                    old(self).st().tape.push(0i32)
                } else {
                    old(self).st().tape
                },
                pos: old(self).st().pos + 1,
                ..old(self).st()
            }),
            final(self).has_observer() == old(self).has_observer(),
    {
        let len = self.tape.len();
        if self.pos >= len - 1 {
            self.tape.push(0);
        }
        self.pos = self.pos + 1;
    }

    /// Moves the cursor left; the cursor must not stand at zero.
    fn move_left(&mut self)
        requires
            old(self).wf(),
            old(self).st().pos > 0,
        ensures
            final(self).wf(),
            final(self).st() == (MState { pos: old(self).st().pos - 1, ..old(self).st() }),
            final(self).has_observer() == old(self).has_observer(),
    {
        self.pos = self.pos - 1;
    }

    /// The current cursor position.
    pub fn cursor(&self) -> (r: usize)
        ensures
            r as int == self.st().pos,
    {
        self.pos
    }

    /// A copy of the tape contents.
    pub fn tape_snapshot(&self) -> (r: Vec<i32>)
        ensures
            r@ == self.st().tape,
    {
        let mut r: Vec<i32> = Vec::new();
        let mut k: usize = 0;
        while k < self.tape.len()
            invariant
                k <= self.tape@.len(),
                r@ == self.tape@.subrange(0, k as int),
            decreases self.tape@.len() - k,
        {
            r.push(self.tape[k]);
            assert(r@ =~= self.tape@.subrange(0, k as int + 1));
            k = k + 1;
        }
        assert(r@ =~= self.tape@);
        r
    }

    /// The source offset and character of the last executed instruction.
    pub fn last_instruction(&self) -> (r: Option<(usize, char)>)
        ensures
            self.st().last == match r {
                Some((i, c)) => Some((i as int, c)),
                None => None::<(int, char)>,
            },
    {
        self.last_instruct
    }

    /// The output accumulated so far.
    pub fn output_text(&self) -> (r: String)
        ensures
            r@ == self.st().out,
    {
        self.output_buffer.clone()
    }

    /// A human-readable view of the current state: cursor position, last
    /// executed instruction, and tape contents.
    pub fn render(&self) -> (r: String)
        ensures
            r@ == render_spec(self.st()),
    {
        let mut out = String::new();
        out.push('p');
        out.push('o');
        out.push('s');
        out.push(':');
        push_unsigned_decimal(&mut out, self.pos as u64);
        proof {
            assert(dec_of(self.st().pos) == dec_digits(self.pos as nat));
        }
        match self.last_instruct {
            Some((_, c)) => {
                out.push(',');
                out.push(' ');
                out.push('l');
                out.push('a');
                out.push('s');
                out.push('t');
                out.push(':');
                out.push(' ');
                out.push(c);
            },
            None => {},
        }
        out.push('\n');
        out.push('[');
        push_cells(&mut out, &self.tape, 0);
        out.push(']');
        proof {
            assert(out@ =~= render_spec(self.st()));
        }
        out
    }

    /// Runs `code` to completion and returns the whole output buffer, within
    /// a budget of `steps` dispatch steps.
    ///
    /// `Ok(Some(text))` is a finished run and pins the final state: some fuel
    /// makes `run_program` yield exactly it, within the budget. `Err` reports
    /// the one fault, an unmatched `[` or a `<` at cursor zero, in exactly the
    /// state where the semantics aborts. `Ok(None)` comes back only when the
    /// run genuinely needs more than `steps` dispatch steps: no fuel finishes
    /// or faults within the budget. Conversely, a model run that finishes
    /// within the budget is owed `Ok(Some(..))`, and one that faults within
    /// it is owed `Err`. Whatever the outcome, the output buffer is only
    /// appended to and the tape never shrinks.
    pub fn interpret(&mut self, code: &str, steps: u64) -> (r: Result<Option<String>, Fault>)
        requires
            old(self).wf(),
        ensures
            final(self).wf(),
            final(self).has_observer() == old(self).has_observer(),
            old(self).st().steps <= final(self).st().steps <= old(self).st().steps + steps,
            old(self).st().tape.len() <= final(self).st().tape.len(),
            old(self).st().out.len() <= final(self).st().out.len(),
            final(self).st().out.subrange(0, old(self).st().out.len() as int) == old(
                self,
            ).st().out,
            (r matches Ok(done) ==> (done matches Some(out) ==> out@ == final(self).st().out
                && (exists|fuel: nat|
                run_program(code@, old(self).st(), fuel) == RunRes::Done(final(self).st())))),
            (r matches Ok(done) ==> (done is None ==> forall|fuel: nat|
                !completes_within(code@, old(self).st(), fuel, steps as nat))),
            (r matches Err(e) ==> e == Fault::MalformedProgram && (exists|fuel: nat|
                run_program(code@, old(self).st(), fuel) == RunRes::Abort(final(self).st()))),
            (forall|fuel: nat|
                (#[trigger] run_program(code@, old(self).st(), fuel) matches RunRes::Done(y)
                    && y.steps <= old(self).st().steps + steps) ==> r matches Ok(Some(_))),
            (forall|fuel: nat|
                (#[trigger] run_program(code@, old(self).st(), fuel) matches RunRes::Abort(y)
                    && y.steps <= old(self).st().steps + steps) ==> r is Err),
    {
        let ghost st0 = old(self).st();
        let rm = self.run_machine(code, steps);
        let r: Result<Option<String>, Fault> = match rm {
            Ok(done) => {
                if done {
                    Ok(Some(self.output_buffer.clone()))
                } else {
                    Ok(None)
                }
            },
            Err(e) => Err(e),
        };
        proof {
            assert forall|fuel: nat|
                (#[trigger] run_program(code@, st0, fuel) matches RunRes::Done(y) && y.steps
                    <= st0.steps + steps) implies (r matches Ok(Some(_))) by {
                match rm {
                    Ok(done) => {
                        if !done {
                            assert(completes_within(code@, st0, fuel, steps as nat));
                        }
                    },
                    Err(_) => {
                        let f2 = choose|f: nat|
                            run_program(code@, st0, f) == RunRes::Abort(self.st());
                        lemma_run_program_deterministic(code@, st0, fuel, f2);
                    },
                }
            }
            assert forall|fuel: nat|
                (#[trigger] run_program(code@, st0, fuel) matches RunRes::Abort(y) && y.steps
                    <= st0.steps + steps) implies (r is Err) by {
                match rm {
                    Ok(done) => {
                        if done {
                            let f2 = choose|f: nat|
                                run_program(code@, st0, f) == RunRes::Done(self.st());
                            lemma_run_program_deterministic(code@, st0, fuel, f2);
                        } else {
                            assert(completes_within(code@, st0, fuel, steps as nat));
                        }
                    },
                    Err(_) => {},
                }
            }
        }
        r
    }

    /// The dispatch engine: an explicit stack of suspended slices in place of
    /// recursion. Returns `Ok(true)` when the program finished, `Ok(false)`
    /// when the step budget ran out first — and then only when no fuel
    /// completes the run within the budget.
    #[verifier::loop_isolation(false)]
    #[verifier::rlimit(30)]
    fn run_machine(&mut self, code: &str, steps: u64) -> (r: Result<bool, Fault>)
        requires
            old(self).wf(),
        ensures
            final(self).wf(),
            final(self).has_observer() == old(self).has_observer(),
            old(self).st().steps <= final(self).st().steps <= old(self).st().steps + steps,
            old(self).st().tape.len() <= final(self).st().tape.len(),
            old(self).st().out.len() <= final(self).st().out.len(),
            final(self).st().out.subrange(0, old(self).st().out.len() as int) == old(
                self,
            ).st().out,
            (r matches Ok(done) ==> (done ==> exists|fuel: nat|
                run_program(code@, old(self).st(), fuel) == RunRes::Done(final(self).st()))),
            (r matches Ok(done) ==> (!done ==> forall|fuel: nat|
                !completes_within(code@, old(self).st(), fuel, steps as nat))),
            (r matches Err(e) ==> e == Fault::MalformedProgram && (exists|fuel: nat|
                run_program(code@, old(self).st(), fuel) == RunRes::Abort(final(self).st()))),
    {
        let ghost orig = old(self).st();
        let ghost had_obs = old(self).has_observer();
        let n = code.unicode_len();
        let mut stack: Vec<Frame> = Vec::new();
        let mut lo: usize = 0;
        let mut hi: usize = n;
        let mut at: usize = 0;
        let mut left: u64 = steps;
        self.run_callback();
        proof {
            assert(stack@ =~= Seq::<Frame>::empty());
            assert(self.st().out.subrange(0, orig.out.len() as int) =~= orig.out);
            lemma_inv_init(code@, stack@, n as int, self.st(), orig);
        }
        loop
            invariant
                self.wf(),
                self.has_observer() == had_obs,
                n == code@.len(),
                lo <= at <= hi <= n,
                left <= steps,
                self.st().steps == orig.steps + steps - left,
                orig.tape.len() <= self.st().tape.len(),
                orig.out.len() <= self.st().out.len(),
                self.st().out.subrange(0, orig.out.len() as int) == orig.out,
                forall|k: int|
                    0 <= k < stack@.len() ==> (#[trigger] stack@[k]).lo <= stack@[k].resume
                        <= stack@[k].hi <= n,
                inv_pair(code@, stack@, lo as int, hi as int, at as int, self.st(), orig),
            decreases left,
        {
            if left == 0 {
                proof {
                    lemma_inv_beyond(
                        code@,
                        stack@,
                        lo as int,
                        hi as int,
                        at as int,
                        self.st(),
                        orig,
                        steps as nat,
                    );
                }
                return Ok(false);
            }
            left = left - 1;
            if at < hi {
                let c = code.get_char(at);
                let ghost pre = self.st();
                self.steps_done = Ghost(self.steps_done@ + 1);
                if c == '[' {
                    match find_close(code, at + 1, hi) {
                        Some(j) => {
                            let ghost frames0 = stack@;
                            let ghost oat = at as int;
                            let fr = Frame { lo, hi, resume: j + 1 };
                            stack.push(fr);
                            self.run_callback();
                            lo = at + 1;
                            hi = j;
                            at = at + 1;
                            proof {
                                assert(self.st() =~= bump(tick(pre)));
                                lemma_inv_enter(code@, frames0, fr, oat, pre, j as int, orig);
                            }
                        },
                        None => {
                            proof {
                                lemma_inv_unmatched(
                                    code@,
                                    stack@,
                                    lo as int,
                                    hi as int,
                                    at as int,
                                    pre,
                                    orig,
                                );
                                assert(self.st() =~= tick(pre));
                            }
                            return Err(Fault::MalformedProgram);
                        },
                    }
                } else {
                    // For `+ - < >`: mutate, invoke the observer — it sees
                    // the marker of the preceding instruction — and only
                    // then record this instruction as the marker.
                    if c == '+' {
                        let v = self.current_val();
                        self.set_current_val(if v == i32::MAX {
                            i32::MIN
                        } else {
                            v + 1
                        });
                        self.run_callback();
                        self.last_instruct = Some((at, c));
                    } else if c == '-' {
                        let v = self.current_val();
                        self.set_current_val(if v == i32::MIN {
                            i32::MAX
                        } else {
                            v - 1
                        });
                        self.run_callback();
                        self.last_instruct = Some((at, c));
                    } else if c == '>' {
                        self.move_right();
                        self.run_callback();
                        self.last_instruct = Some((at, c));
                    } else if c == '<' {
                        if self.pos == 0 {
                            proof {
                                assert(exec_char(pre, at as int, c) == RunRes::Abort(tick(pre)));
                                lemma_inv_fault(
                                    code@,
                                    stack@,
                                    lo as int,
                                    hi as int,
                                    at as int,
                                    pre,
                                    orig,
                                );
                                assert(self.st() =~= tick(pre));
                            }
                            return Err(Fault::MalformedProgram);
                        }
                        self.move_left();
                        self.run_callback();
                        self.last_instruct = Some((at, c));
                    } else if c == '.' {
                        let v = self.current_val();
                        let b: u8 = #[verifier::truncate] (v as u8);
                        self.output_buffer.push(b as char);
                    } else if c == '?' {
                        let v = self.current_val();
                        push_signed_decimal(&mut self.output_buffer, v);
                    }
                    let ghost oat = at as int;
                    at = at + 1;
                    proof {
                        assert(exec_char(pre, oat, c) == RunRes::Done(self.st())) by {
                            assert(self.st() =~= match exec_char(pre, oat, c) {
                                RunRes::Done(st2) => st2,
                                _ => self.st(),
                            });
                        }
                        lemma_inv_step(
                            code@,
                            stack@,
                            lo as int,
                            hi as int,
                            oat,
                            pre,
                            self.st(),
                            orig,
                        );
                        assert(self.st().out.subrange(0, pre.out.len() as int) =~= pre.out);
                        lemma_prefix_trans(orig.out, pre.out, self.st().out);
                    }
                }
            } else {
                // End of the active slice.
                let ghost pre = self.st();
                self.steps_done = Ghost(self.steps_done@ + 1);
                proof {
                    assert(self.st() =~= tick(pre));
                }
                if stack.len() == 0 {
                    proof {
                        lemma_inv_finish(code@, stack@, lo as int, hi as int, pre, orig);
                    }
                    return Ok(true);
                }
                if self.current_val() != 0 {
                    // Re-scan the loop body from its start.
                    self.run_callback();
                    at = lo;
                    proof {
                        assert(self.st() =~= bump(tick(pre)));
                        lemma_inv_rescan(code@, stack@, lo as int, hi as int, pre, orig);
                    }
                } else {
                    // Leave the loop body and resume the enclosing slice.
                    let ghost frames1 = stack@;
                    let ghost olo = lo as int;
                    let ghost ohi = hi as int;
                    let fr = stack.pop().unwrap();
                    lo = fr.lo;
                    hi = fr.hi;
                    at = fr.resume;
                    proof {
                        assert(stack@ =~= frames1.drop_last());
                        assert(fr == frames1.last());
                        lemma_inv_pop(code@, frames1, olo, ohi, pre, orig);
                    }
                }
            }
        }
    }
}

} // verus!
