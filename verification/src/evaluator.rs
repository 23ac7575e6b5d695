use vstd::prelude::*;

use crate::internal::{dv, view_ir, wadd, wmul, cell_add, cell_mul, Inst, IR};

verus! {

/// Why an evaluation stopped short: the step budget ran out, or the
/// position or a tape bound left the machine's integer range (where the
/// abstract machine would keep a position no pointer can hold).
#[derive(PartialEq, Eq, Structural, Clone, Copy, Debug)]
pub enum EvalStop {
    StepLimit,
    RangeLimit,
}

/// The evaluator's whole mutable state: the materialized tape, the cursor
/// into it, the cursor into the input bytes, and the bytes emitted so far.
pub struct EvalState {
    pub tape: Seq<u8>,
    pub pos: int,
    pub inpos: int,
    pub out: Seq<u8>,
}

/// What one piece of evaluation yields: a finished state with the frame's
/// register and the steps left, or the state at the moment it stopped.
pub enum EvalOut {
    Done(EvalState, u8, nat),
    Stopped(EvalState, EvalStop),
}

/// A run of zero cells.
pub open spec fn zeros(n: int) -> Seq<u8> {
    Seq::new(n as nat, |i: int| 0u8)
}

/// The cell at physical index `x`: cells not materialized read as zero.
pub open spec fn cell_at(tape: Seq<u8>, x: int) -> u8 {
    if 0 <= x < tape.len() {
        tape[x]
    } else {
        0u8
    }
}

/// What materializing one cell yields: the grown tape, the adjusted
/// cursor, and the cell's physical index.
pub enum GrowRes {
    Grown(Seq<u8>, int, int),
    GrowFail,
}

/// Materialize the cell at `pos + off`: grow the tape at the front (which
/// shifts the cursor) or at the back as needed. Fails only where a
/// physical index would leave the pointer range.
pub open spec fn grow_at(tape: Seq<u8>, pos: int, off: int) -> GrowRes {
    let target = pos + off;
    if !(isize::MIN <= target <= isize::MAX) {
        GrowRes::GrowFail
    } else if target < 0 {
        if !(pos - target <= isize::MAX) {
            GrowRes::GrowFail
        } else {
            GrowRes::Grown(zeros(-target) + tape, pos - target, 0)
        }
    } else if target >= tape.len() {
        GrowRes::Grown(tape + zeros(target + 1 - tape.len()), pos, target)
    } else {
        GrowRes::Grown(tape, pos, target)
    }
}

/// What a `Touch(high, low)` does: materialize every cell of
/// `[pos + low, pos + high]` in one growth at each end; the cursor shifts
/// with the front growth. Fails only where a bound would leave the
/// pointer range.
pub open spec fn touch_grow(tape: Seq<u8>, pos: int, high: int, low: int) -> GrowRes {
    let upper = pos + high + 1;
    let lower = pos + low;
    if !(isize::MIN <= pos + high <= isize::MAX) || !(isize::MIN <= upper <= isize::MAX) || !(
    isize::MIN <= lower <= isize::MAX) {
        GrowRes::GrowFail
    } else if !(-lower <= isize::MAX) {
        GrowRes::GrowFail
    } else {
        let upper_diff = if upper > tape.len() {
            upper - tape.len()
        } else {
            0
        };
        let lower_diff = if lower < 0 {
            -lower
        } else {
            0
        };
        if !(pos + lower_diff <= isize::MAX) {
            GrowRes::GrowFail
        } else {
            GrowRes::Grown(zeros(lower_diff) + tape + zeros(upper_diff), pos + lower_diff, 0)
        }
    }
}

/// What one instruction does: carry on with a new state, register and
/// fuel, or halt the whole evaluation.
pub enum StepRes {
    Next(EvalState, u8, nat),
    Halt(EvalState, EvalStop),
}

/// One instruction, dispatched with `fuel` steps left (at least one: the
/// instruction itself costs one; each round of a `Loop`, `Scan` or `Fill`
/// costs one more).
pub open spec fn sim_step(inst: Inst, input: Seq<u8>, st: EvalState, reg: u8, fuel: nat) -> StepRes
    decreases fuel, 0int, 0int,
{
    if fuel == 0 {
        StepRes::Halt(st, EvalStop::StepLimit)
    } else {
        sim_step_go(inst, input, st, reg, (fuel - 1) as nat)
    }
}

/// The dispatch of `sim_step`, handed the budget left after the
/// instruction's own step.
pub open spec fn sim_step_go(
    inst: Inst,
    input: Seq<u8>,
    st: EvalState,
    reg: u8,
    f1: nat,
) -> StepRes
    decreases f1, 3int, 0int,
{
    match inst {
        Inst::Start => StepRes::Next(st, reg, f1),
        Inst::Touch(h, l) => match touch_grow(st.tape, st.pos, h, l) {
            GrowRes::Grown(t, p, _) => StepRes::Next(EvalState { tape: t, pos: p, ..st }, reg, f1),
            GrowRes::GrowFail => StepRes::Halt(st, EvalStop::RangeLimit),
        },
        Inst::Put(off, v) => match grow_at(st.tape, st.pos, off) {
            GrowRes::Grown(t, p, x) => StepRes::Next(
                EvalState { tape: t.update(x, v), pos: p, ..st },
                reg,
                f1,
            ),
            GrowRes::GrowFail => StepRes::Halt(st, EvalStop::RangeLimit),
        },
        Inst::Add(off, v) => match grow_at(st.tape, st.pos, off) {
            GrowRes::Grown(t, p, x) => StepRes::Next(
                EvalState { tape: t.update(x, wadd(t[x], v)), pos: p, ..st },
                reg,
                f1,
            ),
            GrowRes::GrowFail => StepRes::Halt(st, EvalStop::RangeLimit),
        },
        Inst::Mul(off, v) => match grow_at(st.tape, st.pos, off) {
            GrowRes::Grown(t, p, x) => StepRes::Next(
                EvalState { tape: t.update(x, wadd(t[x], wmul(v, reg))), pos: p, ..st },
                reg,
                f1,
            ),
            GrowRes::GrowFail => StepRes::Halt(st, EvalStop::RangeLimit),
        },
        Inst::Move(off) => if isize::MIN <= st.pos + off <= isize::MAX {
            StepRes::Next(EvalState { pos: st.pos + off, ..st }, reg, f1)
        } else {
            StepRes::Halt(st, EvalStop::RangeLimit)
        },
        Inst::Store(off) => match grow_at(st.tape, st.pos, off) {
            GrowRes::Grown(t, p, x) => StepRes::Next(
                EvalState { tape: t.update(x, 0u8), pos: p, ..st },
                t[x],
                f1,
            ),
            GrowRes::GrowFail => StepRes::Halt(st, EvalStop::RangeLimit),
        },
        Inst::Loop(body) => match sim_loop(body, input, st, f1) {
            EvalOut::Done(st2, _, f2) => StepRes::Next(
                st2,
                reg,
                if f2 <= f1 {
                    f2
                } else {
                    0
                },
            ),
            EvalOut::Stopped(st2, k) => StepRes::Halt(st2, k),
        },
        Inst::FixedLoop(body, _, _) => match sim_loop(body, input, st, f1) {
            EvalOut::Done(st2, _, f2) => StepRes::Next(
                st2,
                reg,
                if f2 <= f1 {
                    f2
                } else {
                    0
                },
            ),
            EvalOut::Stopped(st2, k) => StepRes::Halt(st2, k),
        },
        Inst::Scan(v, step) => match sim_scan(v, step, st, f1) {
            EvalOut::Done(st2, _, f2) => StepRes::Next(
                st2,
                reg,
                if f2 <= f1 {
                    f2
                } else {
                    0
                },
            ),
            EvalOut::Stopped(st2, k) => StepRes::Halt(st2, k),
        },
        Inst::Fill(off, v, step) => match sim_fill(off, v, step, st, f1) {
            EvalOut::Done(st2, _, f2) => StepRes::Next(
                st2,
                reg,
                if f2 <= f1 {
                    f2
                } else {
                    0
                },
            ),
            EvalOut::Stopped(st2, k) => StepRes::Halt(st2, k),
        },
        Inst::Input(off) => {
            let b = if st.inpos < input.len() {
                input[st.inpos]
            } else {
                0u8
            };
            let ip = if st.inpos < input.len() {
                st.inpos + 1
            } else {
                st.inpos
            };
            let st1 = EvalState { inpos: ip, ..st };
            match grow_at(st1.tape, st1.pos, off) {
                GrowRes::Grown(t, p, x) => StepRes::Next(
                    EvalState { tape: t.update(x, b), pos: p, ..st1 },
                    reg,
                    f1,
                ),
                GrowRes::GrowFail => StepRes::Halt(st1, EvalStop::RangeLimit),
            }
        },
        Inst::Output(off) => if isize::MIN <= st.pos + off <= isize::MAX {
            let b = cell_at(st.tape, st.pos + off);
            StepRes::Next(EvalState { out: st.out.push(b), ..st }, reg, f1)
        } else {
            StepRes::Halt(st, EvalStop::RangeLimit)
        },
    }
}

/// Run the instructions of `prog` from index `k` on, with the frame's
/// register `reg` and `fuel` steps left.
pub open spec fn sim_insts(
    prog: Seq<Inst>,
    k: int,
    input: Seq<u8>,
    st: EvalState,
    reg: u8,
    fuel: nat,
) -> EvalOut
    decreases fuel, 1int, prog.len() - k,
{
    if k < 0 || k >= prog.len() {
        EvalOut::Done(st, reg, fuel)
    } else if fuel == 0 {
        EvalOut::Stopped(st, EvalStop::StepLimit)
    } else {
        match sim_step(prog[k], input, st, reg, fuel) {
            StepRes::Next(st2, r2, f2) => sim_insts(
                prog,
                k + 1,
                input,
                st2,
                r2,
                if f2 < fuel {
                    f2
                } else {
                    0
                },
            ),
            StepRes::Halt(st2, k2) => EvalOut::Stopped(st2, k2),
        }
    }
}

/// One `Loop` or `FixedLoop`: while the cell under the cursor is nonzero,
/// run the body with a fresh register, one step per round.
pub open spec fn sim_loop(body: Seq<Inst>, input: Seq<u8>, st: EvalState, fuel: nat) -> EvalOut
    decreases fuel, 2int, 0int,
{
    if cell_at(st.tape, st.pos) == 0 {
        EvalOut::Done(st, 0u8, fuel)
    } else if fuel == 0 {
        EvalOut::Stopped(st, EvalStop::StepLimit)
    } else {
        match sim_insts(body, 0, input, st, 0u8, (fuel - 1) as nat) {
            EvalOut::Done(st2, _, f2) => sim_loop(
                body,
                input,
                st2,
                if f2 < fuel {
                    f2
                } else {
                    0
                },
            ),
            stopped => stopped,
        }
    }
}

/// One `Scan`: move by `step` until the cell under the cursor equals the
/// sought value, one step per probe; cells beyond the tape read as zero
/// and no growth happens here.
pub open spec fn sim_scan(v: u8, step: int, st: EvalState, fuel: nat) -> EvalOut
    decreases fuel, 0int, 0int,
{
    if cell_at(st.tape, st.pos) == v {
        EvalOut::Done(st, 0u8, fuel)
    } else if fuel == 0 {
        EvalOut::Stopped(st, EvalStop::StepLimit)
    } else if isize::MIN <= st.pos + step <= isize::MAX {
        sim_scan(v, step, EvalState { pos: st.pos + step, ..st }, (fuel - 1) as nat)
    } else {
        EvalOut::Stopped(st, EvalStop::RangeLimit)
    }
}

/// One `Fill`: while the cell under the cursor is nonzero, write the value
/// at the offset (materializing that one cell) and move by `step`, one
/// step per round.
pub open spec fn sim_fill(off: int, v: u8, step: int, st: EvalState, fuel: nat) -> EvalOut
    decreases fuel, 0int, 0int,
{
    if cell_at(st.tape, st.pos) == 0 {
        EvalOut::Done(st, 0u8, fuel)
    } else if fuel == 0 {
        EvalOut::Stopped(st, EvalStop::StepLimit)
    } else {
        match grow_at(st.tape, st.pos, off) {
            GrowRes::Grown(t, p, x) => {
                let st1 = EvalState { tape: t.update(x, v), pos: p, ..st };
                if isize::MIN <= st1.pos + step <= isize::MAX {
                    sim_fill(off, v, step, EvalState { pos: st1.pos + step, ..st1 }, (fuel - 1) as nat)
                } else {
                    EvalOut::Stopped(st1, EvalStop::RangeLimit)
                }
            },
            GrowRes::GrowFail => EvalOut::Stopped(st, EvalStop::RangeLimit),
        }
    }
}

/// Law (annotation inertness): a `FixedLoop` means exactly what the plain
/// `Loop` with the same body means — the hoisted footprint bounds only
/// advise the optimizer and the growth hint, never the outcome. One piece
/// of the translator's observational-equivalence obligation.
pub proof fn lemma_fixed_loop_is_loop(
    body: Seq<Inst>,
    h: int,
    l: int,
    input: Seq<u8>,
    st: EvalState,
    reg: u8,
    fuel: nat,
)
    ensures
        sim_step(Inst::FixedLoop(body, h, l), input, st, reg, fuel) == sim_step(
            Inst::Loop(body),
            input,
            st,
            reg,
            fuel,
        ),
{
}

/// A whole program against a starting state: a fresh frame with register
/// zero.
pub open spec fn sim_prog(prog: Seq<Inst>, input: Seq<u8>, st: EvalState, fuel: nat) -> EvalOut {
    sim_insts(prog, 0, input, st, 0u8, fuel)
}

/// The two states show the same machine at every displacement from their
/// cursors except possibly the cell under the cursor itself, and have the
/// same input cursor and output.
pub open spec fn agrees_off_cursor(a: EvalState, b: EvalState) -> bool {
    &&& forall|d: int| d != 0 ==> #[trigger] cell_at(a.tape, a.pos + d) == cell_at(b.tape, b.pos + d)
    &&& a.inpos == b.inpos
    &&& a.out == b.out
}

/// Growing the tape is observationally invisible: the grown state shows
/// the same cell at every displacement from its shifted cursor, since the
/// new cells are zero and absent cells already read as zero.
proof fn lemma_touch_grow_obs(tape: Seq<u8>, pos: int, h: int, l: int)
    ensures
        (match touch_grow(tape, pos, h, l) {
            GrowRes::Grown(t, p, _) => forall|d: int|
                #[trigger] cell_at(t, p + d) == cell_at(tape, pos + d),
            GrowRes::GrowFail => true,
        }),
{
    match touch_grow(tape, pos, h, l) {
        GrowRes::Grown(t, p, _) => {
            let lower = pos + l;
            let lower_diff = if lower < 0 {
                -lower
            } else {
                0
            };
            assert forall|d: int| #[trigger] cell_at(t, p + d) == cell_at(tape, pos + d) by {
                let i = p + d;
                if 0 <= i < t.len() {
                    if i < lower_diff {
                        assert(t[i] == 0);
                    } else if i < lower_diff + tape.len() {
                        assert(t[i] == tape[i - lower_diff]);
                    } else {
                        assert(t[i] == 0);
                    }
                }
            }
        },
        GrowRes::GrowFail => {},
    }
}

/// Materializing one cell is observationally invisible too, and the
/// physical index it yields is exactly the cursor plus the offset in the
/// grown tape.
proof fn lemma_grow_at_obs(tape: Seq<u8>, pos: int, off: int)
    ensures
        (match grow_at(tape, pos, off) {
            GrowRes::Grown(t, p, x) => {
                &&& forall|d: int| #[trigger] cell_at(t, p + d) == cell_at(tape, pos + d)
                &&& x == p + off
                &&& 0 <= x < t.len()
            },
            GrowRes::GrowFail => true,
        }),
{
    match grow_at(tape, pos, off) {
        GrowRes::Grown(t, p, x) => {
            let target = pos + off;
            if target < 0 {
                assert forall|d: int| #[trigger] cell_at(t, p + d) == cell_at(tape, pos + d) by {
                    let i = p + d;
                    if 0 <= i < t.len() {
                        if i < -target {
                            assert(t[i] == 0);
                        } else {
                            assert(t[i] == tape[i - (-target)]);
                        }
                    }
                }
            } else if target >= tape.len() {
                assert forall|d: int| #[trigger] cell_at(t, p + d) == cell_at(tape, pos + d) by {
                    let i = p + d;
                    if 0 <= i < t.len() {
                        if i < tape.len() {
                            assert(t[i] == tape[i]);
                        } else {
                            assert(t[i] == 0);
                        }
                    }
                }
            } else {
            }
        },
        GrowRes::GrowFail => {},
    }
}

/// Law (one rewrite, semantically): whenever a loop whose body is a
/// recognized clear loop — a `Touch` and one `Add` of the tested cell —
/// finishes, it leaves that cell zero and shows every other cell, the
/// input cursor and the output exactly as they were: observably just what
/// the `Put` of zero it is rewritten into does.
pub proof fn lemma_clear_body_leaves_zero(
    h: int,
    l: int,
    v: u8,
    input: Seq<u8>,
    st: EvalState,
    fuel: nat,
)
    ensures
        (match sim_loop(seq![Inst::Touch(h, l), Inst::Add(0, v)], input, st, fuel) {
            EvalOut::Done(st2, _, _) => cell_at(st2.tape, st2.pos) == 0 && agrees_off_cursor(
                st,
                st2,
            ),
            EvalOut::Stopped(_, _) => true,
        }),
    decreases fuel,
{
    let body = seq![Inst::Touch(h, l), Inst::Add(0, v)];
    assert(body.len() == 2);
    assert(body[0] == Inst::Touch(h, l));
    assert(body[1] == Inst::Add(0, v));
    if cell_at(st.tape, st.pos) == 0 {
    } else if fuel == 0 {
    } else {
        let f1 = (fuel - 1) as nat;
        if f1 == 0 {
        } else {
            lemma_touch_grow_obs(st.tape, st.pos, h, l);
            match touch_grow(st.tape, st.pos, h, l) {
                GrowRes::Grown(t, p, _) => {
                    let sta = EvalState { tape: t, pos: p, ..st };
                    let f2 = (f1 - 1) as nat;
                    if f2 == 0 {
                    } else {
                        lemma_grow_at_obs(sta.tape, sta.pos, 0);
                        match grow_at(sta.tape, sta.pos, 0) {
                            GrowRes::Grown(t2, p2, x2) => {
                                let stb = EvalState {
                                    tape: t2.update(x2, wadd(t2[x2], v)),
                                    pos: p2,
                                    ..sta
                                };
                                let f3 = (f2 - 1) as nat;
                                assert(sim_step(body[0], input, st, 0u8, f1) == StepRes::Next(
                                    sta,
                                    0u8,
                                    f2,
                                ));
                                assert(sim_step(body[1], input, sta, 0u8, f2) == StepRes::Next(
                                    stb,
                                    0u8,
                                    f3,
                                ));
                                assert(sim_insts(body, 2, input, stb, 0u8, f3) == EvalOut::Done(
                                    stb,
                                    0u8,
                                    f3,
                                ));
                                assert(sim_insts(body, 1, input, sta, 0u8, f2) == EvalOut::Done(
                                    stb,
                                    0u8,
                                    f3,
                                ));
                                assert(sim_insts(body, 0, input, st, 0u8, f1) == EvalOut::Done(
                                    stb,
                                    0u8,
                                    f3,
                                ));
                                let fc: nat = if f3 < fuel {
                                    f3
                                } else {
                                    0
                                };
                                lemma_clear_body_leaves_zero(h, l, v, input, stb, fc);
                                assert(sim_loop(body, input, st, fuel) == sim_loop(
                                    body,
                                    input,
                                    stb,
                                    fc,
                                ));
                                assert(agrees_off_cursor(st, stb)) by {
                                    assert(forall|d: int|
                                        d != 0 ==> #[trigger] cell_at(stb.tape, stb.pos + d)
                                            == cell_at(t2, p2 + d));
                                }
                            },
                            GrowRes::GrowFail => {},
                        }
                    }
                },
                GrowRes::GrowFail => {},
            }
        }
    }
}

/// The cell at cursor-plus-offset already resolved to a physical index;
/// indices outside the materialized tape read as zero.
fn read_cell(tape: &Vec<u8>, x: isize) -> (r: u8)
    ensures
        r == cell_at(tape@, x as int),
{
    if x >= 0 && (x as usize) < tape.len() {
        tape[x as usize]
    } else {
        0
    }
}

/// Put `n` zero cells in front of the tape.
fn grow_front(tape: &mut Vec<u8>, n: usize)
    ensures
        final(tape)@ == zeros(n as int) + old(tape)@,
{
    let mut front: Vec<u8> = Vec::new();
    let mut c: usize = 0;
    while c < n
        invariant
            c <= n,
            front@ == zeros(c as int),
        decreases n - c,
    {
        front.push(0);
        proof {
            assert(front@ =~= zeros(c + 1));
        }
        c = c + 1;
    }
    std::mem::swap(tape, &mut front);
    tape.append(&mut front);
}

/// Put `n` zero cells behind the tape.
fn grow_back(tape: &mut Vec<u8>, n: usize)
    ensures
        final(tape)@ == old(tape)@ + zeros(n as int),
{
    let ghost orig = tape@;
    let mut c: usize = 0;
    while c < n
        invariant
            c <= n,
            tape@ == orig + zeros(c as int),
        decreases n - c,
    {
        tape.push(0);
        proof {
            assert(orig + zeros(c as int) + seq![0u8] =~= orig + zeros(c + 1));
        }
        c = c + 1;
    }
    proof {
        assert(orig + zeros(0) =~= orig);
    }
}

/// Materialize the single cell at `index + offset`, growing the tape in
/// whichever direction is needed, and return its physical index; the
/// cursor shifts with front growth. Fails — leaving everything untouched —
/// only where an index would not fit a pointer.
pub fn touch_cell(tape: &mut Vec<u8>, index: &mut isize, offset: isize) -> (r: Result<
    usize,
    EvalStop,
>)
    ensures
        (match grow_at(old(tape)@, *old(index) as int, offset as int) {
            GrowRes::Grown(t, p, x) => {
                &&& r matches Ok(v) && v as int == x
                &&& final(tape)@ == t
                &&& *final(index) as int == p
            },
            GrowRes::GrowFail => {
                &&& r == Err::<usize, EvalStop>(EvalStop::RangeLimit)
                &&& final(tape)@ == old(tape)@
                &&& *final(index) == *old(index)
            },
        }),
{
    let target = match (*index).checked_add(offset) {
        Some(t) => t,
        None => {
            return Err(EvalStop::RangeLimit);
        },
    };
    if target < 0 {
        let npos = match (*index).checked_sub(target) {
            Some(p) => p,
            None => {
                return Err(EvalStop::RangeLimit);
            },
        };
        let n = (-(target as i128)) as usize;
        grow_front(tape, n);
        *index = npos;
        Ok(0)
    } else {
        let t = target as usize;
        if t >= tape.len() {
            let n = t - tape.len() + 1;
            grow_back(tape, n);
        } else {
            proof {
                assert(tape@ + zeros(0) =~= tape@);
            }
        }
        Ok(t)
    }
}

/// Materialize every cell of `[index + low, index + high]` in one growth
/// at each end, as a `Touch` asks; the cursor shifts with front growth.
/// Fails — leaving everything untouched — only where a bound would not
/// fit a pointer.
pub fn touch_range(tape: &mut Vec<u8>, index: &mut isize, high: isize, low: isize) -> (r: Result<
    (),
    EvalStop,
>)
    ensures
        (match touch_grow(old(tape)@, *old(index) as int, high as int, low as int) {
            GrowRes::Grown(t, p, _) => {
                &&& r matches Ok(v)
                &&& final(tape)@ == t
                &&& *final(index) as int == p
            },
            GrowRes::GrowFail => {
                &&& r == Err::<(), EvalStop>(EvalStop::RangeLimit)
                &&& final(tape)@ == old(tape)@
                &&& *final(index) == *old(index)
            },
        }),
{
    let ghost orig = tape@;
    let ph = match (*index).checked_add(high) {
        Some(u) => u,
        None => {
            return Err(EvalStop::RangeLimit);
        },
    };
    let upper = match ph.checked_add(1) {
        Some(u) => u,
        None => {
            return Err(EvalStop::RangeLimit);
        },
    };
    let lower = match (*index).checked_add(low) {
        Some(l) => l,
        None => {
            return Err(EvalStop::RangeLimit);
        },
    };
    let lower_diff_i = match 0isize.checked_sub(lower) {
        Some(d) => d,
        None => {
            return Err(EvalStop::RangeLimit);
        },
    };
    let len = tape.len();
    let upper_diff: usize = if upper > 0 && (upper as usize) > len {
        (upper as usize) - len
    } else {
        0
    };
    let lower_diff: usize = if lower_diff_i > 0 {
        lower_diff_i as usize
    } else {
        0
    };
    let npos = match (*index).checked_add(
        if lower_diff_i > 0 {
            lower_diff_i
        } else {
            0
        },
    ) {
        Some(p) => p,
        None => {
            return Err(EvalStop::RangeLimit);
        },
    };
    grow_back(tape, upper_diff);
    grow_front(tape, lower_diff);
    *index = npos;
    proof {
        assert(zeros(lower_diff as int) + (orig + zeros(upper_diff as int)) =~= zeros(
            lower_diff as int,
        ) + orig + zeros(upper_diff as int));
    }
    Ok(())
}

proof fn lemma_sim_scan_frame(v: u8, step: int, st: EvalState, d: EvalState, fuel: nat)
    requires
        d.tape == st.tape,
        d.pos == st.pos,
    ensures
        (match sim_scan(v, step, d, fuel) {
            EvalOut::Done(d2, rg, f) => {
                &&& sim_scan(v, step, st, fuel) == EvalOut::Done(
                    EvalState { pos: d2.pos, ..st },
                    rg,
                    f,
                )
                &&& d2.tape == d.tape
            },
            EvalOut::Stopped(d2, k) => {
                &&& sim_scan(v, step, st, fuel) == EvalOut::Stopped(
                    EvalState { pos: d2.pos, ..st },
                    k,
                )
                &&& d2.tape == d.tape
            },
        }),
    decreases fuel,
{
    if cell_at(d.tape, d.pos) == v {
    } else if fuel == 0 {
    } else if isize::MIN <= d.pos + step <= isize::MAX {
        lemma_sim_scan_frame(
            v,
            step,
            EvalState { pos: st.pos + step, ..st },
            EvalState { pos: d.pos + step, ..d },
            (fuel - 1) as nat,
        );
    } else {
    }
}

proof fn lemma_sim_fill_frame(off: int, v: u8, step: int, st: EvalState, d: EvalState, fuel: nat)
    requires
        d.tape == st.tape,
        d.pos == st.pos,
    ensures
        (match sim_fill(off, v, step, d, fuel) {
            EvalOut::Done(d2, rg, f) => sim_fill(off, v, step, st, fuel) == EvalOut::Done(
                EvalState { tape: d2.tape, pos: d2.pos, ..st },
                rg,
                f,
            ),
            EvalOut::Stopped(d2, k) => sim_fill(off, v, step, st, fuel) == EvalOut::Stopped(
                EvalState { tape: d2.tape, pos: d2.pos, ..st },
                k,
            ),
        }),
    decreases fuel,
{
    if cell_at(d.tape, d.pos) == 0 {
    } else if fuel == 0 {
    } else {
        match grow_at(d.tape, d.pos, off) {
            GrowRes::Grown(t, p, x) => {
                let d1 = EvalState { tape: t.update(x, v), pos: p, ..d };
                let st1 = EvalState { tape: t.update(x, v), pos: p, ..st };
                if isize::MIN <= d1.pos + step <= isize::MAX {
                    lemma_sim_fill_frame(
                        off,
                        v,
                        step,
                        EvalState { pos: st1.pos + step, ..st1 },
                        EvalState { pos: d1.pos + step, ..d1 },
                        (fuel - 1) as nat,
                    );
                }
            },
            GrowRes::GrowFail => {},
        }
    }
}

/// One `Loop` or `FixedLoop` body, re-entered while the cell under the
/// cursor is nonzero; each round costs one step and runs the body in a
/// fresh frame.
fn run_loop(
    body: &Vec<IR>,
    input: &[u8],
    in_pos: &mut usize,
    output: &mut Vec<u8>,
    tape: &mut Vec<u8>,
    index: isize,
    fuel: u64,
) -> (r: Result<(isize, u64), EvalStop>)
    ensures
        (match sim_loop(
            dv(body@),
            input@,
            (EvalState {
                tape: old(tape)@,
                pos: index as int,
                inpos: *old(in_pos) as int,
                out: old(output)@,
            }),
            fuel as nat,
        ) {
            EvalOut::Done(st, _, f) => {
                &&& r matches Ok(v) && v.0 as int == st.pos && v.1 as nat == f
                &&& final(tape)@ == st.tape
                &&& final(output)@ == st.out
                &&& *final(in_pos) as int == st.inpos
            },
            EvalOut::Stopped(st, k) => {
                &&& r == Err::<(isize, u64), EvalStop>(k)
                &&& final(tape)@ == st.tape
                &&& final(output)@ == st.out
                &&& *final(in_pos) as int == st.inpos
            },
        }),
        (r matches Ok(v) ==> v.1 <= fuel),
    decreases fuel as nat, 0int,
{
    let mut idx = index;
    let mut f = fuel;
    while read_cell(tape, idx) != 0
        invariant
            f <= fuel,
            sim_loop(
                dv(body@),
                input@,
                (EvalState {
                    tape: tape@,
                    pos: idx as int,
                    inpos: *in_pos as int,
                    out: output@,
                }),
                f as nat,
            ) == sim_loop(
                dv(body@),
                input@,
                (EvalState {
                    tape: old(tape)@,
                    pos: index as int,
                    inpos: *old(in_pos) as int,
                    out: old(output)@,
                }),
                fuel as nat,
            ),
        decreases f,
    {
        if f == 0 {
            return Err(EvalStop::StepLimit);
        }
        f = f - 1;
        match eval_recursive(body, input, in_pos, output, tape, idx, f) {
            Ok(v) => {
                idx = v.0;
                f = v.1;
            },
            Err(e) => {
                return Err(e);
            },
        }
    }
    Ok((idx, f))
}

/// One `Scan`: probe cells at `step` intervals until the sought value
/// appears; never grows the tape (the `Touch` the optimizer placed after
/// the scan does).
fn run_scan(v: u8, step: isize, tape: &Vec<u8>, index: isize, fuel: u64) -> (r: Result<
    (isize, u64),
    EvalStop,
>)
    ensures
        (match sim_scan(
            v,
            step as int,
            (EvalState { tape: tape@, pos: index as int, inpos: 0, out: Seq::empty() }),
            fuel as nat,
        ) {
            EvalOut::Done(st, _, f) => r matches Ok(w) && w.0 as int == st.pos && w.1 as nat == f,
            EvalOut::Stopped(st, k) => r == Err::<(isize, u64), EvalStop>(k),
        }),
        (r matches Ok(w) ==> w.1 <= fuel),
{
    let mut idx = index;
    let mut f = fuel;
    while read_cell(tape, idx) != v
        invariant
            f <= fuel,
            sim_scan(
                v,
                step as int,
                (EvalState { tape: tape@, pos: idx as int, inpos: 0, out: Seq::empty() }),
                f as nat,
            ) == sim_scan(
                v,
                step as int,
                (EvalState { tape: tape@, pos: index as int, inpos: 0, out: Seq::empty() }),
                fuel as nat,
            ),
        decreases f,
    {
        if f == 0 {
            return Err(EvalStop::StepLimit);
        }
        match idx.checked_add(step) {
            Some(n) => {
                idx = n;
                f = f - 1;
            },
            None => {
                return Err(EvalStop::RangeLimit);
            },
        }
    }
    Ok((idx, f))
}

/// One `Fill`: while the cell under the cursor is nonzero, write the value
/// at the offset — materializing just that cell — and move by `step`.
fn run_fill(
    off: isize,
    v: u8,
    step: isize,
    tape: &mut Vec<u8>,
    index: isize,
    fuel: u64,
) -> (r: Result<(isize, u64), EvalStop>)
    ensures
        (match sim_fill(
            off as int,
            v,
            step as int,
            (EvalState { tape: old(tape)@, pos: index as int, inpos: 0, out: Seq::empty() }),
            fuel as nat,
        ) {
            EvalOut::Done(st, _, f) => {
                &&& r matches Ok(w) && w.0 as int == st.pos && w.1 as nat == f
                &&& final(tape)@ == st.tape
            },
            EvalOut::Stopped(st, k) => {
                &&& r == Err::<(isize, u64), EvalStop>(k)
                &&& final(tape)@ == st.tape
            },
        }),
        (r matches Ok(w) ==> w.1 <= fuel),
{
    let mut idx = index;
    let mut f = fuel;
    while read_cell(tape, idx) != 0
        invariant
            f <= fuel,
            sim_fill(
                off as int,
                v,
                step as int,
                (EvalState { tape: tape@, pos: idx as int, inpos: 0, out: Seq::empty() }),
                f as nat,
            ) == sim_fill(
                off as int,
                v,
                step as int,
                (EvalState {
                    tape: old(tape)@,
                    pos: index as int,
                    inpos: 0,
                    out: Seq::empty(),
                }),
                fuel as nat,
            ),
        decreases f,
    {
        if f == 0 {
            return Err(EvalStop::StepLimit);
        }
        match touch_cell(tape, &mut idx, off) {
            Ok(x) => {
                tape[x] = v;
            },
            Err(e) => {
                return Err(e);
            },
        }
        match idx.checked_add(step) {
            Some(n) => {
                idx = n;
                f = f - 1;
            },
            None => {
                return Err(EvalStop::RangeLimit);
            },
        }
    }
    Ok((idx, f))
}

/// The cell-writing instructions of a frame: each resolves one cell
/// through `touch_cell` and writes it.
#[verifier::rlimit(100)]
fn step_write(
    inst: &IR,
    input: &[u8],
    in_pos: &mut usize,
    output: &mut Vec<u8>,
    tape: &mut Vec<u8>,
    idx: &mut isize,
    reg: &mut u8,
    fuel: u64,
) -> (r: Result<u64, EvalStop>)
    requires
        fuel > 0,
        (*inst matches IR::Put(_, _)) || (*inst matches IR::Add(_, _)) || (*inst
            matches IR::Mul(_, _)) || (*inst matches IR::Store(_)) || (*inst matches IR::Input(_)),
    ensures
        (match sim_step(
            view_ir(*inst),
            input@,
            (EvalState {
                tape: old(tape)@,
                pos: *old(idx) as int,
                inpos: *old(in_pos) as int,
                out: old(output)@,
            }),
            *old(reg),
            fuel as nat,
        ) {
            StepRes::Next(st, r2, f2) => {
                &&& r matches Ok(fr) && fr as nat == f2 && fr < fuel
                &&& final(tape)@ == st.tape
                &&& final(output)@ == st.out
                &&& *final(in_pos) as int == st.inpos
                &&& *final(idx) as int == st.pos
                &&& *final(reg) == r2
            },
            StepRes::Halt(st, k) => {
                &&& r == Err::<u64, EvalStop>(k)
                &&& final(tape)@ == st.tape
                &&& final(output)@ == st.out
                &&& *final(in_pos) as int == st.inpos
            },
        }),
{
    let f = fuel - 1;
    match inst {
        IR::Put(o, v) => {
            match touch_cell(tape, idx, *o) {
                Ok(x) => {
                    tape[x] = *v;
                    Ok(f)
                },
                Err(e) => Err(e),
            }
        },
        IR::Add(o, v) => {
            match touch_cell(tape, idx, *o) {
                Ok(x) => {
                    let cur = tape[x];
                    tape[x] = cell_add(cur, *v);
                    Ok(f)
                },
                Err(e) => Err(e),
            }
        },
        IR::Mul(o, v) => {
            match touch_cell(tape, idx, *o) {
                Ok(x) => {
                    let cur = tape[x];
                    let term = cell_mul(*v, *reg);
                    tape[x] = cell_add(cur, term);
                    Ok(f)
                },
                Err(e) => Err(e),
            }
        },
        IR::Store(o) => {
            match touch_cell(tape, idx, *o) {
                Ok(x) => {
                    *reg = tape[x];
                    tape[x] = 0;
                    Ok(f)
                },
                Err(e) => Err(e),
            }
        },
        IR::Input(o) => {
            let b: u8 = if *in_pos < input.len() {
                let bb = input[*in_pos];
                *in_pos = *in_pos + 1;
                bb
            } else {
                0
            };
            match touch_cell(tape, idx, *o) {
                Ok(x) => {
                    tape[x] = b;
                    Ok(f)
                },
                Err(e) => Err(e),
            }
        },
        _ => Err(EvalStop::RangeLimit),
    }
}

/// The looping instructions of a frame: each re-enters the evaluator or
/// walks the tape under its own sub-budget.
#[verifier::rlimit(100)]
fn step_ctrl(
    inst: &IR,
    input: &[u8],
    in_pos: &mut usize,
    output: &mut Vec<u8>,
    tape: &mut Vec<u8>,
    idx: &mut isize,
    reg: &mut u8,
    fuel: u64,
) -> (r: Result<u64, EvalStop>)
    requires
        fuel > 0,
        (*inst matches IR::Loop(_)) || (*inst matches IR::FixedLoop(_, _, _)) || (*inst
            matches IR::Scan(_, _)) || (*inst matches IR::Fill(_, _, _)),
    ensures
        (match sim_step(
            view_ir(*inst),
            input@,
            (EvalState {
                tape: old(tape)@,
                pos: *old(idx) as int,
                inpos: *old(in_pos) as int,
                out: old(output)@,
            }),
            *old(reg),
            fuel as nat,
        ) {
            StepRes::Next(st, r2, f2) => {
                &&& r matches Ok(fr) && fr as nat == f2 && fr < fuel
                &&& final(tape)@ == st.tape
                &&& final(output)@ == st.out
                &&& *final(in_pos) as int == st.inpos
                &&& *final(idx) as int == st.pos
                &&& *final(reg) == r2
            },
            StepRes::Halt(st, k) => {
                &&& r == Err::<u64, EvalStop>(k)
                &&& final(tape)@ == st.tape
                &&& final(output)@ == st.out
                &&& *final(in_pos) as int == st.inpos
            },
        }),
    decreases fuel as nat, 0int,
{
    let ghost stk = EvalState {
        tape: tape@,
        pos: *idx as int,
        inpos: *in_pos as int,
        out: output@,
    };
    let f = fuel - 1;
    match inst {
        IR::Loop(body) => {
            match run_loop(body, input, in_pos, output, tape, *idx, f) {
                Ok(v) => {
                    *idx = v.0;
                    Ok(v.1)
                },
                Err(e) => Err(e),
            }
        },
        IR::FixedLoop(body, _, _) => {
            match run_loop(body, input, in_pos, output, tape, *idx, f) {
                Ok(v) => {
                    *idx = v.0;
                    Ok(v.1)
                },
                Err(e) => Err(e),
            }
        },
        IR::Scan(v, step) => {
            proof {
                lemma_sim_scan_frame(
                    *v,
                    *step as int,
                    stk,
                    (EvalState { tape: tape@, pos: *idx as int, inpos: 0, out: Seq::empty() }),
                    f as nat,
                );
            }
            match run_scan(*v, *step, tape, *idx, f) {
                Ok(w) => {
                    *idx = w.0;
                    Ok(w.1)
                },
                Err(e) => Err(e),
            }
        },
        IR::Fill(o, v, step) => {
            proof {
                lemma_sim_fill_frame(
                    *o as int,
                    *v,
                    *step as int,
                    stk,
                    (EvalState { tape: tape@, pos: *idx as int, inpos: 0, out: Seq::empty() }),
                    f as nat,
                );
            }
            match run_fill(*o, *v, *step, tape, *idx, f) {
                Ok(w) => {
                    *idx = w.0;
                    Ok(w.1)
                },
                Err(e) => Err(e),
            }
        },
        _ => Err(EvalStop::RangeLimit),
    }
}

/// One instruction of a frame: reads and writes the shared state, updates
/// the frame's cursor and register through the two references, and returns
/// the remaining step budget — or the stop that ends the whole run.
#[verifier::rlimit(100)]
fn step_inst(
    inst: &IR,
    input: &[u8],
    in_pos: &mut usize,
    output: &mut Vec<u8>,
    tape: &mut Vec<u8>,
    idx: &mut isize,
    reg: &mut u8,
    fuel: u64,
) -> (r: Result<u64, EvalStop>)
    requires
        fuel > 0,
    ensures
        (match sim_step(
            view_ir(*inst),
            input@,
            (EvalState {
                tape: old(tape)@,
                pos: *old(idx) as int,
                inpos: *old(in_pos) as int,
                out: old(output)@,
            }),
            *old(reg),
            fuel as nat,
        ) {
            StepRes::Next(st, r2, f2) => {
                &&& r matches Ok(fr) && fr as nat == f2 && fr < fuel
                &&& final(tape)@ == st.tape
                &&& final(output)@ == st.out
                &&& *final(in_pos) as int == st.inpos
                &&& *final(idx) as int == st.pos
                &&& *final(reg) == r2
            },
            StepRes::Halt(st, k) => {
                &&& r == Err::<u64, EvalStop>(k)
                &&& final(tape)@ == st.tape
                &&& final(output)@ == st.out
                &&& *final(in_pos) as int == st.inpos
            },
        }),
    decreases fuel as nat, 1int,
{
    let f = fuel - 1;
    match inst {
        IR::Start => Ok(f),
        IR::Touch(h, l) => {
            match touch_range(tape, idx, *h, *l) {
                Ok(_) => Ok(f),
                Err(e) => Err(e),
            }
        },
        IR::Move(o) => {
            match (*idx).checked_add(*o) {
                Some(n) => {
                    *idx = n;
                    Ok(f)
                },
                None => Err(EvalStop::RangeLimit),
            }
        },
        IR::Output(o) => {
            match (*idx).checked_add(*o) {
                Some(x) => {
                    let b = read_cell(tape, x);
                    output.push(b);
                    Ok(f)
                },
                None => Err(EvalStop::RangeLimit),
            }
        },
        IR::Put(_, _) => step_write(inst, input, in_pos, output, tape, idx, reg, fuel),
        IR::Add(_, _) => step_write(inst, input, in_pos, output, tape, idx, reg, fuel),
        IR::Mul(_, _) => step_write(inst, input, in_pos, output, tape, idx, reg, fuel),
        IR::Store(_) => step_write(inst, input, in_pos, output, tape, idx, reg, fuel),
        IR::Input(_) => step_write(inst, input, in_pos, output, tape, idx, reg, fuel),
        IR::Loop(_) => step_ctrl(inst, input, in_pos, output, tape, idx, reg, fuel),
        IR::FixedLoop(_, _, _) => step_ctrl(inst, input, in_pos, output, tape, idx, reg, fuel),
        IR::Scan(_, _) => step_ctrl(inst, input, in_pos, output, tape, idx, reg, fuel),
        IR::Fill(_, _, _) => step_ctrl(inst, input, in_pos, output, tape, idx, reg, fuel),
    }
}

/// Execute a program against the tape from the given position, reading
/// bytes from `input` (zero once it is exhausted) and appending emitted
/// bytes to `output`, with a budget of `fuel` steps. Returns the ending
/// position and the steps left, or reports the stop that cut the run
/// short — the state keeps whatever had been done by then.
pub fn eval_recursive(
    prog: &Vec<IR>,
    input: &[u8],
    in_pos: &mut usize,
    output: &mut Vec<u8>,
    tape: &mut Vec<u8>,
    index: isize,
    fuel: u64,
) -> (r: Result<(isize, u64), EvalStop>)
    ensures
        (match sim_prog(
            dv(prog@),
            input@,
            (EvalState {
                tape: old(tape)@,
                pos: index as int,
                inpos: *old(in_pos) as int,
                out: old(output)@,
            }),
            fuel as nat,
        ) {
            EvalOut::Done(st, _, f) => {
                &&& r matches Ok(v) && v.0 as int == st.pos && v.1 as nat == f
                &&& final(tape)@ == st.tape
                &&& final(output)@ == st.out
                &&& *final(in_pos) as int == st.inpos
            },
            EvalOut::Stopped(st, k) => {
                &&& r == Err::<(isize, u64), EvalStop>(k)
                &&& final(tape)@ == st.tape
                &&& final(output)@ == st.out
                &&& *final(in_pos) as int == st.inpos
            },
        }),
        (r matches Ok(v) ==> v.1 <= fuel),
    decreases fuel as nat, 2int,
{
    let mut idx = index;
    let mut f = fuel;
    let mut reg: u8 = 0;
    let mut k: usize = 0;
    while k < prog.len()
        invariant
            k <= prog@.len(),
            f <= fuel,
            sim_insts(
                dv(prog@),
                k as int,
                input@,
                (EvalState {
                    tape: tape@,
                    pos: idx as int,
                    inpos: *in_pos as int,
                    out: output@,
                }),
                reg,
                f as nat,
            ) == sim_prog(
                dv(prog@),
                input@,
                (EvalState {
                    tape: old(tape)@,
                    pos: index as int,
                    inpos: *old(in_pos) as int,
                    out: old(output)@,
                }),
                fuel as nat,
            ),
        decreases prog@.len() - k,
    {
        proof {
            assert(dv(prog@)[k as int] == view_ir(prog@[k as int]));
        }
        if f == 0 {
            return Err(EvalStop::StepLimit);
        }
        match step_inst(&prog[k], input, in_pos, output, tape, &mut idx, &mut reg, f) {
            Ok(nf) => {
                f = nf;
            },
            Err(e) => {
                return Err(e);
            },
        }
        k = k + 1;
    }
    Ok((idx, f))
}

/// Execute a program with the largest step budget: the common entry point
/// when no caller imposes its own budget. A run that stops short leaves
/// its partial tape and output in place.
pub fn eval(prog: &Vec<IR>, input: &[u8], output: &mut Vec<u8>, tape: &mut Vec<u8>, index: isize)
    ensures
        (match sim_prog(
            dv(prog@),
            input@,
            (EvalState {
                tape: old(tape)@,
                pos: index as int,
                inpos: 0,
                out: old(output)@,
            }),
            u64::MAX as nat,
        ) {
            EvalOut::Done(st, _, _) => final(tape)@ == st.tape && final(output)@ == st.out,
            EvalOut::Stopped(st, _) => final(tape)@ == st.tape && final(output)@ == st.out,
        }),
{
    let mut in_pos: usize = 0;
    let _ = eval_recursive(prog, input, &mut in_pos, output, tape, index, u64::MAX);
}

} // verus!
