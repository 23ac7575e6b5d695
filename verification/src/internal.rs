use vstd::prelude::*;

verus! {

broadcast use vstd::seq::axiom_seq_index_decreases;

/// One node of the intermediate representation: a closed set of instructions,
/// where the loop-shaped ones own the ordered sequence of their body.
///
/// Offsets are signed displacements, resolved against the position in force
/// when the instruction executes; cell values are 8-bit with wraparound
/// arithmetic throughout.
#[derive(PartialEq, Eq, Hash, Debug)]
pub enum IR {
    /// Marker emitted once at the root: no prior writes can exist before it.
    Start,
    /// `Touch(high, low)`: the instructions up to the next `Touch` or loop
    /// boundary only access offsets within `[low, high]` of the current
    /// position; the evaluator materializes that span of the tape here.
    Touch(isize, isize),
    /// Assign a wrapped 8-bit value to the cell at the offset.
    Put(isize, u8),
    /// Wrapped increment of the cell at the offset.
    Add(isize, u8),
    /// Wrapped increment of the cell at the offset by `value * register`.
    Mul(isize, u8),
    /// Shift the current position.
    Move(isize),
    /// Read the cell at the offset into the register, then zero that cell.
    Store(isize),
    /// While the cell at the current position is nonzero, run the body.
    Loop(Vec<IR>),
    /// Same as `Loop`, but the body's net displacement is statically zero;
    /// carries the body's own hoisted footprint bounds `(high, low)`.
    FixedLoop(Vec<IR>, isize, isize),
    /// Move by `step` until the cell at the current position equals `value`.
    Scan(u8, isize),
    /// While the cell at the current position is nonzero, write `value` at
    /// the offset, then move by `step`.
    Fill(isize, u8, isize),
    /// Read one byte (zero at end of input) into the cell at the offset.
    Input(isize),
    /// Emit the byte held by the cell at the offset.
    Output(isize),
}

/// The mathematical shape of an instruction: offsets as unbounded integers,
/// loop bodies as sequences. Contracts throughout the crate speak of this
/// model, reached from `IR` through `deep_view`.
pub enum Inst {
    Start,
    Touch(int, int),
    Put(int, u8),
    Add(int, u8),
    Mul(int, u8),
    Move(int),
    Store(int),
    Loop(Seq<Inst>),
    FixedLoop(Seq<Inst>, int, int),
    Scan(u8, int),
    Fill(int, u8, int),
    Input(int),
    Output(int),
}

/// The mathematical shape of one instruction.
pub open spec fn view_ir(inst: IR) -> Inst
    decreases inst,
{
    match inst {
        IR::Start => Inst::Start,
        IR::Touch(high, low) => Inst::Touch(high as int, low as int),
        IR::Put(off, val) => Inst::Put(off as int, val),
        IR::Add(off, val) => Inst::Add(off as int, val),
        IR::Mul(off, val) => Inst::Mul(off as int, val),
        IR::Move(off) => Inst::Move(off as int),
        IR::Store(off) => Inst::Store(off as int),
        IR::Loop(body) => Inst::Loop(dv(body@)),
        IR::FixedLoop(body, high, low) => Inst::FixedLoop(dv(body@), high as int, low as int),
        IR::Scan(val, step) => Inst::Scan(val, step as int),
        IR::Fill(off, val, step) => Inst::Fill(off as int, val, step as int),
        IR::Input(off) => Inst::Input(off as int),
        IR::Output(off) => Inst::Output(off as int),
    }
}

/// The deep view of a program, element by element.
pub open spec fn dv(s: Seq<IR>) -> Seq<Inst>
    decreases s,
{
    Seq::new(
        s.len(),
        |i: int|
            if 0 <= i < s.len() {
                view_ir(s[i])
            } else {
                Inst::Start
            },
    )
}

pub proof fn lemma_dv_push(s: Seq<IR>, x: IR)
    ensures
        dv(s.push(x)) == dv(s).push(view_ir(x)),
{
    assert(dv(s.push(x)) =~= dv(s).push(view_ir(x)));
}

pub proof fn lemma_dv_update(s: Seq<IR>, i: int, x: IR)
    requires
        0 <= i < s.len(),
    ensures
        dv(s.update(i, x)) == dv(s).update(i, view_ir(x)),
{
    assert(dv(s.update(i, x)) =~= dv(s).update(i, view_ir(x)));
}

pub proof fn lemma_dv_remove(s: Seq<IR>, i: int)
    requires
        0 <= i < s.len(),
    ensures
        dv(s.remove(i)) == dv(s).remove(i),
{
    assert(dv(s.remove(i)) =~= dv(s).remove(i));
}

/// Wrapped (modulo 256) sum of two cell values.
pub open spec fn wadd(a: u8, b: u8) -> u8 {
    ((a + b) % 256) as u8
}

/// Wrapped (modulo 256) product of two cell values.
pub open spec fn wmul(a: u8, b: u8) -> u8 {
    ((a * b) % 256) as u8
}

/// Wrapped increment of a cell, as both the optimizer's constant folding and
/// the evaluator perform it.
pub fn cell_add(a: u8, b: u8) -> (r: u8)
    ensures
        r == wadd(a, b),
{
    a.wrapping_add(b)
}

/// Wrapped product of two cells, used by the multiply-accumulate idiom.
pub fn cell_mul(a: u8, b: u8) -> (r: u8)
    ensures
        r == wmul(a, b),
{
    a.wrapping_mul(b)
}

/// Law: adding `a` to a cell and then the wrapped complement `256 - a`
/// restores the original value, for every starting value and every `a` —
/// the wraparound arithmetic of `Add` is invertible.
pub proof fn lemma_wadd_complement(v: u8, a: u8)
    ensures
        wadd(wadd(v, a), ((256 - a) % 256) as u8) == v,
{
    if a == 0 {
        assert(wadd(v, 0) == v);
    } else {
        let c = (256 - a) as u8;
        assert(((256 - a) % 256) as u8 == c);
        if v + a < 256 {
            assert(wadd(v, a) == v + a);
        } else {
            assert(wadd(v, a) == v + a - 256);
        }
        assert(wadd(wadd(v, a), c) == v);
    }
}

/// Deep copy of an instruction: the copy has the same shape as the original.
pub fn ir_clone(inst: &IR) -> (r: IR)
    ensures
        view_ir(r) == view_ir(*inst),
    decreases *inst,
{
    match inst {
        IR::Start => IR::Start,
        IR::Touch(high, low) => IR::Touch(*high, *low),
        IR::Put(off, val) => IR::Put(*off, *val),
        IR::Add(off, val) => IR::Add(*off, *val),
        IR::Mul(off, val) => IR::Mul(*off, *val),
        IR::Move(off) => IR::Move(*off),
        IR::Store(off) => IR::Store(*off),
        IR::Loop(body) => IR::Loop(ir_clone_vec(body)),
        IR::FixedLoop(body, high, low) => IR::FixedLoop(ir_clone_vec(body), *high, *low),
        IR::Scan(val, step) => IR::Scan(*val, *step),
        IR::Fill(off, val, step) => IR::Fill(*off, *val, *step),
        IR::Input(off) => IR::Input(*off),
        IR::Output(off) => IR::Output(*off),
    }
}

/// Deep copy of an instruction sequence.
pub fn ir_clone_vec(prog: &Vec<IR>) -> (r: Vec<IR>)
    ensures
        dv(r@) == dv(prog@),
    decreases *prog,
{
    let mut out: Vec<IR> = Vec::new();
    let mut i: usize = 0;
    while i < prog.len()
        invariant
            i <= prog@.len(),
            dv(out@) == dv(prog@).subrange(0, i as int),
        decreases prog@.len() - i,
    {
        let ghost pre = out@;
        let c = ir_clone(&prog[i]);
        out.push(c);
        proof {
            assert(dv(pre).len() == pre.len());
            assert(pre.len() == i);
            assert forall|k: int| 0 <= k < i + 1 implies dv(out@)[k] == dv(prog@).subrange(
                0,
                i + 1,
            )[k] by {
                if k < i {
                    assert(dv(pre)[k] == dv(prog@).subrange(0, i as int)[k]);
                    assert(out@[k] == pre[k]);
                } else {
                    assert(out@[k] == c);
                }
            }
            assert(dv(out@) =~= dv(prog@).subrange(0, i + 1));
        }
        i = i + 1;
    }
    assert(dv(out@) =~= dv(prog@));
    out
}

} // verus!
