use vstd::prelude::*;

use crate::internal::{
    dv, lemma_dv_push, lemma_dv_remove, lemma_dv_update, view_ir, wadd, wmul,
    cell_add, cell_mul, ir_clone, Inst, IR,
};

verus! {

/// A plain write: the instructions the dead-write scan of `set_inst` walks
/// over and may delete.
pub open spec fn is_write(x: Inst) -> bool {
    match x {
        Inst::Put(_, _) => true,
        Inst::Add(_, _) => true,
        Inst::Mul(_, _) => true,
        _ => false,
    }
}

/// The offset a plain write touches.
pub open spec fn write_off(x: Inst) -> int {
    match x {
        Inst::Put(o, _) => o,
        Inst::Add(o, _) => o,
        Inst::Mul(o, _) => o,
        _ => 0,
    }
}

/// A write that survives the dead-write scan: one aimed at another offset.
pub open spec fn other_write(x: Inst, off: int) -> bool {
    is_write(x) && write_off(x) != off
}

/// What the dead-write scan of `set_inst` leaves: walking back from the end
/// over plain writes, every write at `off` is dropped (a following `Put` at
/// `off` makes it unobservable); the scan stops at the first instruction
/// that is not a plain write.
pub open spec fn strip_writes(s: Seq<Inst>, off: int) -> Seq<Inst>
    decreases s.len(),
{
    if s.len() == 0 {
        s
    } else if is_write(s.last()) {
        if write_off(s.last()) == off {
            strip_writes(s.drop_last(), off)
        } else {
            strip_writes(s.drop_last(), off).push(s.last())
        }
    } else {
        s
    }
}

proof fn lemma_strip_noop(s: Seq<Inst>, off: int, j: int)
    requires
        0 <= j <= s.len(),
        forall|k: int| j <= k < s.len() ==> other_write(#[trigger] s[k], off),
        j > 0 ==> !is_write(s[j - 1]),
    ensures
        strip_writes(s, off) == s,
    decreases s.len(),
{
    if s.len() == 0 {
    } else if j == s.len() {
    } else {
        lemma_strip_noop(s.drop_last(), off, j);
        assert(strip_writes(s, off) == strip_writes(s.drop_last(), off).push(s.last()));
        assert(s.drop_last().push(s.last()) =~= s);
    }
}

proof fn lemma_strip_remove(s: Seq<Inst>, off: int, j: int)
    requires
        0 <= j < s.len(),
        is_write(s[j]),
        write_off(s[j]) == off,
        forall|k: int| j < k < s.len() ==> other_write(#[trigger] s[k], off),
    ensures
        strip_writes(s.remove(j), off) == strip_writes(s, off),
    decreases s.len(),
{
    if j == s.len() - 1 {
        assert(s.remove(j) =~= s.drop_last());
    } else {
        let t = s.drop_last();
        lemma_strip_remove(t, off, j);
        assert(s.remove(j).drop_last() =~= t.remove(j));
        assert(s.remove(j).last() == s.last());
        assert(strip_writes(s.remove(j), off) == strip_writes(t.remove(j), off).push(s.last()));
    }
}

/// Whether the instruction is a plain write (`Put`, `Add` or `Mul`).
pub fn is_plain_write(x: &IR) -> (r: bool)
    ensures
        r == is_write(view_ir(*x)),
{
    match x {
        IR::Put(_, _) => true,
        IR::Add(_, _) => true,
        IR::Mul(_, _) => true,
        _ => false,
    }
}

/// Append a `Put`, first deleting the writes to the same cell that it makes
/// unobservable: the dead-write elimination of the optimizer.
pub fn set_inst(out_list: &mut Vec<IR>, sum: u8, offset: isize)
    ensures
        dv(final(out_list)@) == strip_writes(dv(old(out_list)@), offset as int).push(
            Inst::Put(offset as int, sum),
        ),
{
    let ghost orig = out_list@;
    let mut j: usize = out_list.len();
    while j > 0 && is_plain_write(&out_list[j - 1])
        invariant
            j <= out_list@.len(),
            forall|k: int|
                j <= k < out_list@.len() ==> other_write(#[trigger] dv(out_list@)[k], offset as int),
            strip_writes(dv(out_list@), offset as int) == strip_writes(dv(orig), offset as int),
        decreases j,
    {
        let same = match &out_list[j - 1] {
            IR::Put(o, _) => *o == offset,
            IR::Add(o, _) => *o == offset,
            IR::Mul(o, _) => *o == offset,
            _ => false,
        };
        proof {
            assert(dv(out_list@)[j - 1] == view_ir(out_list@[j - 1]));
        }
        if same {
            let ghost pre = out_list@;
            out_list.remove(j - 1);
            proof {
                lemma_dv_remove(pre, j - 1);
                lemma_strip_remove(dv(pre), offset as int, j - 1);
            }
        }
        j = j - 1;
    }
    proof {
        if j > 0 {
            assert(dv(out_list@)[j - 1] == view_ir(out_list@[j - 1]));
        }
        lemma_strip_noop(dv(out_list@), offset as int, j as int);
    }
    let ghost before_push = out_list@;
    out_list.push(IR::Put(offset, sum));
    proof {
        lemma_dv_push(before_push, IR::Put(offset, sum));
    }
}

/// What the backward scan of `add_inst` decides: fold the increment into an
/// earlier instruction (the rewritten list is carried along), or append a
/// fresh `Add`, or append a fresh `Put` (when the scan reaches `Start` or a
/// `Store` of the same cell, the cell's value is known to be zero there).
pub enum AddAct {
    Fold(Seq<Inst>),
    PushAdd,
    PushPut,
}

/// Instructions the backward scan of `add_inst` walks over without folding:
/// writes and `Store`s aimed at another cell, `Touch` hints, and fixed loops
/// whose footprint cannot reach the cell.
pub open spec fn add_transparent(x: Inst, off: int) -> bool {
    match x {
        Inst::Put(o, _) => o != off,
        Inst::Add(o, _) => o != off,
        Inst::Mul(o, _) => o != off,
        Inst::Store(o) => o != off,
        Inst::Touch(_, _) => true,
        Inst::FixedLoop(_, h, l) => !(l <= off && off <= h),
        _ => false,
    }
}

pub open spec fn add_lift(a: AddAct, x: Inst) -> AddAct {
    match a {
        AddAct::Fold(r) => AddAct::Fold(r.push(x)),
        _ => a,
    }
}

/// The backward write-merging scan of `add_inst`, walking the emitted list
/// from its end.
pub open spec fn add_scan(s: Seq<Inst>, off: int, sum: u8) -> AddAct
    decreases s.len(),
{
    if s.len() == 0 {
        AddAct::PushAdd
    } else {
        match s.last() {
            Inst::Put(o, v) => if o == off {
                AddAct::Fold(s.update(s.len() - 1, Inst::Put(o, wadd(v, sum))))
            } else {
                add_lift(add_scan(s.drop_last(), off, sum), s.last())
            },
            Inst::Add(o, v) => if o == off {
                if wadd(v, sum) == 0 {
                    AddAct::Fold(s.drop_last())
                } else {
                    AddAct::Fold(s.update(s.len() - 1, Inst::Add(o, wadd(v, sum))))
                }
            } else {
                add_lift(add_scan(s.drop_last(), off, sum), s.last())
            },
            Inst::Mul(o, _) => if o == off {
                AddAct::PushAdd
            } else {
                add_lift(add_scan(s.drop_last(), off, sum), s.last())
            },
            Inst::Store(o) => if o == off {
                AddAct::PushPut
            } else {
                add_lift(add_scan(s.drop_last(), off, sum), s.last())
            },
            Inst::Touch(_, _) => add_lift(add_scan(s.drop_last(), off, sum), s.last()),
            Inst::FixedLoop(_, h, l) => if l <= off && off <= h {
                AddAct::PushAdd
            } else {
                add_lift(add_scan(s.drop_last(), off, sum), s.last())
            },
            Inst::Start => AddAct::PushPut,
            _ => AddAct::PushAdd,
        }
    }
}

/// The list `add_inst` leaves for a nonzero increment.
pub open spec fn add_result(s: Seq<Inst>, off: int, sum: u8) -> Seq<Inst> {
    match add_scan(s, off, sum) {
        AddAct::Fold(r) => r,
        AddAct::PushAdd => s.push(Inst::Add(off, sum)),
        AddAct::PushPut => s.push(Inst::Put(off, sum)),
    }
}

proof fn lemma_add_scan_split(s: Seq<Inst>, off: int, sum: u8, j: int)
    requires
        0 <= j <= s.len(),
        forall|k: int| j <= k < s.len() ==> add_transparent(#[trigger] s[k], off),
    ensures
        match add_scan(s.subrange(0, j), off, sum) {
            AddAct::Fold(r) => add_scan(s, off, sum) == AddAct::Fold(r + s.subrange(j, s.len() as int)),
            AddAct::PushAdd => add_scan(s, off, sum) == AddAct::PushAdd,
            AddAct::PushPut => add_scan(s, off, sum) == AddAct::PushPut,
        },
    decreases s.len(),
{
    if j == s.len() {
        assert(s.subrange(0, j) =~= s);
        match add_scan(s, off, sum) {
            AddAct::Fold(r) => {
                assert(r + s.subrange(j, s.len() as int) =~= r);
            },
            _ => {},
        }
    } else {
        let t = s.drop_last();
        assert(add_transparent(s.last(), off));
        lemma_add_scan_split(t, off, sum, j);
        assert(t.subrange(0, j) =~= s.subrange(0, j));
        assert(t.subrange(j, t.len() as int) =~= s.subrange(j, s.len() as int).drop_last());
        match add_scan(s.subrange(0, j), off, sum) {
            AddAct::Fold(r) => {
                assert(add_scan(t, off, sum) == AddAct::Fold(r + t.subrange(j, t.len() as int)));
                assert(add_scan(s, off, sum) == AddAct::Fold(
                    (r + t.subrange(j, t.len() as int)).push(s.last()),
                ));
                assert((r + t.subrange(j, t.len() as int)).push(s.last()) =~= r + s.subrange(
                    j,
                    s.len() as int,
                ));
            },
            _ => {},
        }
    }
}

/// Append a wrapped increment of the cell at `offset`, folding it into the
/// nearest earlier write to the same cell when the instructions in between
/// cannot observe or disturb that cell; a fold that cancels an `Add` to zero
/// deletes it. The scan stops conservatively at loops whose footprint may
/// overlap the cell and at instructions with dynamic effects.
pub fn add_inst(out_list: &mut Vec<IR>, sum: u8, offset: isize)
    ensures
        sum == 0 ==> final(out_list)@ == old(out_list)@,
        sum != 0 ==> dv(final(out_list)@) == add_result(dv(old(out_list)@), offset as int, sum),
{
    if sum == 0 {
        return;
    }
    let ghost orig = dv(out_list@);
    let mut j: usize = out_list.len();
    while j > 0
        invariant
            sum != 0,
            j <= out_list@.len(),
            out_list@ == old(out_list)@,
            forall|k: int|
                j <= k < out_list@.len() ==> add_transparent(
                    #[trigger] dv(out_list@)[k],
                    offset as int,
                ),
        decreases j,
    {
        // tag: 0 Put, 1 Add, 2 Mul, 3 Store, 4 Touch, 5 FixedLoop, 6 Start, 7 rest
        let (tag, o1, fhigh, flow, v1): (u8, isize, isize, isize, u8) = match &out_list[j - 1] {
            IR::Put(o, v) => (0, *o, 0, 0, *v),
            IR::Add(o, v) => (1, *o, 0, 0, *v),
            IR::Mul(o, _) => (2, *o, 0, 0, 0),
            IR::Store(o) => (3, *o, 0, 0, 0),
            IR::Touch(_, _) => (4, 0, 0, 0, 0),
            IR::FixedLoop(_, h, l) => (5, 0, *h, *l, 0),
            IR::Start => (6, 0, 0, 0, 0),
            _ => (7, 0, 0, 0, 0),
        };
        let ghost pre = out_list@;
        proof {
            assert(dv(pre)[j - 1] == view_ir(pre[j - 1]));
            lemma_add_scan_split(dv(pre), offset as int, sum, j as int);
            assert(dv(pre).subrange(0, j as int).last() == dv(pre)[j - 1]);
            assert(dv(pre).subrange(0, j as int).drop_last() =~= dv(pre).subrange(0, j - 1));
        }
        if tag == 0 && o1 == offset {
            let nv = cell_add(v1, sum);
            out_list[j - 1] = IR::Put(offset, nv);
            proof {
                lemma_dv_update(pre, j - 1, IR::Put(offset, nv));
                assert(dv(pre).subrange(0, j as int).update(j - 1, Inst::Put(offset as int, nv))
                    + dv(pre).subrange(j as int, pre.len() as int) =~= dv(pre).update(
                    j - 1,
                    Inst::Put(offset as int, nv),
                ));
            }
            return;
        } else if tag == 1 && o1 == offset {
            let nv = cell_add(v1, sum);
            if nv == 0 {
                out_list.remove(j - 1);
                proof {
                    lemma_dv_remove(pre, j - 1);
                    assert(dv(pre).subrange(0, j - 1) + dv(pre).subrange(
                        j as int,
                        pre.len() as int,
                    ) =~= dv(pre).remove(j - 1));
                }
            } else {
                out_list[j - 1] = IR::Add(offset, nv);
                proof {
                    lemma_dv_update(pre, j - 1, IR::Add(offset, nv));
                    assert(dv(pre).subrange(0, j as int).update(
                        j - 1,
                        Inst::Add(offset as int, nv),
                    ) + dv(pre).subrange(j as int, pre.len() as int) =~= dv(pre).update(
                        j - 1,
                        Inst::Add(offset as int, nv),
                    ));
                }
            }
            return;
        } else if (tag == 2 && o1 == offset) || (tag == 5 && flow <= offset && offset <= fhigh)
            || tag == 7 {
            out_list.push(IR::Add(offset, sum));
            proof {
                lemma_dv_push(pre, IR::Add(offset, sum));
            }
            return;
        } else if (tag == 3 && o1 == offset) || tag == 6 {
            out_list.push(IR::Put(offset, sum));
            proof {
                lemma_dv_push(pre, IR::Put(offset, sum));
            }
            return;
        }
        j = j - 1;
    }
    let ghost pre = out_list@;
    proof {
        lemma_add_scan_split(dv(pre), offset as int, sum, 0);
        assert(dv(pre).subrange(0, 0) =~= Seq::<Inst>::empty());
        assert(add_scan(Seq::<Inst>::empty(), offset as int, sum) == AddAct::PushAdd);
    }
    out_list.push(IR::Add(offset, sum));
    proof {
        lemma_dv_push(pre, IR::Add(offset, sum));
    }
}

/// Materialize the pending position delta: emit one `Move` if it is nonzero,
/// and clear it.
pub fn move_inst(out_list: &mut Vec<IR>, offset: &mut isize)
    ensures
        *final(offset) == 0,
        *old(offset) == 0 ==> final(out_list)@ == old(out_list)@,
        *old(offset) != 0 ==> dv(final(out_list)@) == dv(old(out_list)@).push(
            Inst::Move(*old(offset) as int),
        ),
{
    if *offset != 0 {
        let ghost pre = out_list@;
        out_list.push(IR::Move(*offset));
        proof {
            lemma_dv_push(pre, IR::Move(*old(offset)));
        }
        *offset = 0;
    }
}

proof fn lemma_wadd_assoc(a: u8, b: u8, c: u8)
    ensures
        wadd(a, wadd(b, c)) == wadd(wadd(a, b), c),
{
    let t: int = a + b + c;
    if b + c < 256 {
        assert(wadd(b, c) == b + c);
    } else {
        assert(wadd(b, c) == b + c - 256);
        assert(a + wadd(b, c) + 256 == t);
    }
    if a + b < 256 {
        assert(wadd(a, b) == a + b);
    } else {
        assert(wadd(a, b) == a + b - 256);
        assert(wadd(a, b) + c + 256 == t);
    }
    assert((a + wadd(b, c)) % 256 == t % 256);
    assert((wadd(a, b) + c) % 256 == t % 256);
}

/// Every instruction after the leading `Touch` is a plain `Add`.
pub open spec fn all_adds_after_first(inl: Seq<Inst>) -> bool {
    forall|k: int| 1 <= k < inl.len() ==> #[trigger] inl[k] matches Inst::Add(_, _)
}

/// Wrapped sum of the `Add` constants aimed at the cell `at`, over the
/// instructions from index `from` on.
pub open spec fn sum_adds_at(inl: Seq<Inst>, from: int, at: int) -> u8
    decreases inl.len() - from,
{
    if from < 0 || from >= inl.len() {
        0u8
    } else {
        let rest = sum_adds_at(inl, from + 1, at);
        match inl[from] {
            Inst::Add(o, v) => if o == at {
                wadd(v, rest)
            } else {
                rest
            },
            _ => rest,
        }
    }
}

/// The flat (multiply-accumulate) idiom: the body only adds constants, and
/// the deltas at the current cell sum to exactly minus one.
pub open spec fn flat_shape(inl: Seq<Inst>) -> bool {
    all_adds_after_first(inl) && wadd(1, sum_adds_at(inl, 1, 0)) == 0
}

/// Every rewritten target offset stays within the machine's range.
pub open spec fn flat_fits(inl: Seq<Inst>, off: int) -> bool {
    forall|k: int|
        0 <= k < inl.len() ==> match #[trigger] inl[k] {
            Inst::Add(o, _) => o == 0 || (isize::MIN <= off + o <= isize::MAX),
            _ => true,
        }
}

/// The backward scan for a compile-time-known value of the cell at `off`: a
/// `Put` found before any other touch of that cell, looking only past other
/// plain writes.
pub open spec fn imm_of(s: Seq<Inst>, off: int) -> Option<u8>
    decreases s.len(),
{
    if s.len() == 0 {
        None
    } else {
        match s.last() {
            Inst::Put(o, v) => if o == off {
                Some(v)
            } else {
                imm_of(s.drop_last(), off)
            },
            Inst::Add(o, _) => if o == off {
                None
            } else {
                imm_of(s.drop_last(), off)
            },
            _ => None,
        }
    }
}

/// The per-destination emission of a recognized flat loop: a constant-folded
/// `Add` when the source cell's value is known, a `Mul` against the register
/// otherwise.
pub open spec fn flat_emit(
    acc: Seq<Inst>,
    inl: Seq<Inst>,
    k: int,
    off: int,
    imm: Option<u8>,
) -> Seq<Inst>
    decreases inl.len() - k,
{
    if k < 0 || k >= inl.len() {
        acc
    } else {
        let acc2 = match inl[k] {
            Inst::Add(o, v) => if o == 0 {
                acc
            } else {
                match imm {
                    Some(f) => if wmul(v, f) == 0 {
                        acc
                    } else {
                        add_result(acc, off + o, wmul(v, f))
                    },
                    None => acc.push(Inst::Mul(off + o, v)),
                }
            },
            _ => acc,
        };
        flat_emit(acc2, inl, k + 1, off, imm)
    }
}

/// The whole rewrite a recognized flat loop performs on the emitted list.
pub open spec fn flat_result(out0: Seq<Inst>, inl: Seq<Inst>, off: int) -> Seq<Inst> {
    let imm = imm_of(out0, off);
    let base = if imm.is_some() {
        out0
    } else {
        out0.push(Inst::Store(off))
    };
    let emitted = flat_emit(base, inl, 0, off, imm);
    if imm.is_some() {
        strip_writes(emitted, off).push(Inst::Put(off, 0u8))
    } else {
        emitted
    }
}

/// Replace a recognized flat loop: capture (or constant-fold) the current
/// cell and emit one scaled increment per destination cell. Recognition also
/// demands that every rewritten offset fits the machine's range; a loop that
/// does not fit is left for the other recognizers.
pub fn flat_loop(out_list: &mut Vec<IR>, in_list: &Vec<IR>, offset: &mut isize) -> (r: bool)
    ensures
        *final(offset) == *old(offset),
        r == (flat_shape(dv(in_list@)) && flat_fits(dv(in_list@), *old(offset) as int)),
        r ==> dv(final(out_list)@) == flat_result(
            dv(old(out_list)@),
            dv(in_list@),
            *old(offset) as int,
        ),
        !r ==> final(out_list)@ == old(out_list)@,
{
    let ghost inl = dv(in_list@);
    let ghost off = *offset as int;

    // Every instruction after the first must be an Add; the deltas at the
    // current cell, together with the implicit decrement count of one, must
    // cancel to zero.
    let mut sum: u8 = 1;
    let mut k: usize = 1;
    while k < in_list.len()
        invariant
            1 <= k,
            k <= in_list@.len() || k == 1,
            inl == dv(in_list@),
            *offset == *old(offset),
            off == *offset as int,
            forall|i: int| 1 <= i < k && i < inl.len() ==> #[trigger] inl[i] matches Inst::Add(_, _),
            wadd(sum, sum_adds_at(inl, k as int, 0)) == wadd(1, sum_adds_at(inl, 1, 0)),
        decreases in_list@.len() - k,
    {
        proof {
            assert(inl[k as int] == view_ir(in_list@[k as int]));
        }
        let ok = match &in_list[k] {
            IR::Add(o, v) => {
                if *o == 0 {
                    proof {
                        let rest = sum_adds_at(inl, k + 1, 0);
                        lemma_wadd_assoc(sum, *v, rest);
                    }
                    sum = cell_add(sum, *v);
                } else {
                }
                true
            },
            _ => false,
        };
        if !ok {
            return false;
        }
        k = k + 1;
    }
    if sum != 0 {
        return false;
    }
    assert(flat_shape(inl));

    // Every rewritten destination offset must stay representable.
    let mut k2: usize = 0;
    while k2 < in_list.len()
        invariant
            k2 <= in_list@.len(),
            inl == dv(in_list@),
            forall|i: int|
                0 <= i < k2 ==> match #[trigger] inl[i] {
                    Inst::Add(o, _) => o == 0 || (isize::MIN <= off + o <= isize::MAX),
                    _ => true,
                },
            *offset == *old(offset),
            off == *offset as int,
        decreases in_list@.len() - k2,
    {
        proof {
            assert(inl[k2 as int] == view_ir(in_list@[k2 as int]));
        }
        let ok = match &in_list[k2] {
            IR::Add(o, _) => {
                if *o == 0 {
                    true
                } else {
                    match offset.checked_add(*o) {
                        Some(_) => true,
                        None => false,
                    }
                }
            },
            _ => true,
        };
        if !ok {
            return false;
        }
        k2 = k2 + 1;
    }
    assert(flat_fits(inl, off));

    // Look back for a compile-time-known value of the source cell.
    let ghost orig = dv(out_list@);
    let mut j: usize = out_list.len();
    let mut imm_found = false;
    let mut imm_val: u8 = 0;
    let mut stopped = false;
    proof {
        assert(orig.subrange(0, out_list@.len() as int) =~= orig);
    }
    while j > 0 && !stopped
        invariant
            j <= out_list@.len(),
            out_list@ == old(out_list)@,
            orig == dv(out_list@),
            *offset == *old(offset),
            off == *offset as int,
            imm_found ==> stopped,
            !stopped ==> imm_of(orig, off) == imm_of(orig.subrange(0, j as int), off),
            stopped ==> imm_of(orig, off) == (if imm_found {
                Some(imm_val)
            } else {
                Option::<u8>::None
            }),
        decreases j, (if stopped { 0int } else { 1int }),
    {
        let ghost pre = orig.subrange(0, j as int);
        proof {
            assert(orig[j - 1] == view_ir(out_list@[j - 1]));
            assert(pre.last() == orig[j - 1]);
            assert(pre.drop_last() =~= orig.subrange(0, j - 1));
        }
        match &out_list[j - 1] {
            IR::Put(o, v) => {
                if *o == *offset {
                    assert(out_list@[j - 1] == IR::Put(*o, *v));
                    assert(pre.last() == Inst::Put(*o as int, *v));
                    assert(pre.len() > 0);
                    assert(off == *offset as int);
                    assert(*o as int == off);
                    assert(imm_of(pre, off) == Some(*v));
                    imm_found = true;
                    imm_val = *v;
                    stopped = true;
                } else {
                    assert(imm_of(pre, off) == imm_of(orig.subrange(0, j - 1), off));
                    j = j - 1;
                }
            },
            IR::Add(o, _) => {
                if *o == *offset {
                    assert(imm_of(pre, off) == Option::<u8>::None);
                    stopped = true;
                } else {
                    assert(imm_of(pre, off) == imm_of(orig.subrange(0, j - 1), off));
                    j = j - 1;
                }
            },
            _ => {
                assert(imm_of(pre, off) == Option::<u8>::None);
                stopped = true;
            },
        }
    }
    proof {
        if !stopped {
            assert(orig.subrange(0, 0) =~= Seq::<Inst>::empty());
        }
    }
    let ghost imm = if imm_found {
        Some(imm_val)
    } else {
        Option::<u8>::None
    };
    assert(imm == imm_of(orig, off));

    // Capture the source cell into the register unless its value is known.
    if !imm_found {
        let ghost pre = out_list@;
        out_list.push(IR::Store(*offset));
        proof {
            lemma_dv_push(pre, IR::Store(*offset));
        }
    }
    let ghost base = dv(out_list@);

    // One scaled increment per destination cell.
    let mut k3: usize = 0;
    while k3 < in_list.len()
        invariant
            k3 <= in_list@.len(),
            inl == dv(in_list@),
            *offset == *old(offset),
            off == *offset as int,
            flat_fits(inl, off),
            imm == (if imm_found {
                Some(imm_val)
            } else {
                Option::<u8>::None
            }),
            flat_emit(base, inl, 0, off, imm) == flat_emit(dv(out_list@), inl, k3 as int, off, imm),
        decreases in_list@.len() - k3,
    {
        proof {
            assert(inl[k3 as int] == view_ir(in_list@[k3 as int]));
        }
        match &in_list[k3] {
            IR::Add(o, v) => {
                if *o != 0 {
                    let new_off = *offset + *o;
                    if imm_found {
                        let t = cell_mul(*v, imm_val);
                        add_inst(out_list, t, new_off);
                    } else {
                        let ghost pre = out_list@;
                        out_list.push(IR::Mul(new_off, *v));
                        proof {
                            lemma_dv_push(pre, IR::Mul(new_off, *v));
                        }
                    }
                }
            },
            _ => {},
        }
        k3 = k3 + 1;
    }

    // A known source cell was folded into the destinations: it ends cleared.
    if imm_found {
        set_inst(out_list, 0, *offset);
    }
    true
}

/// The cell value after `k` rounds of the loop `while v != 0 { v = v + s }`
/// in wraparound arithmetic.
pub open spec fn add_times(v: u8, s: u8, k: nat) -> u8
    decreases k,
{
    if k == 0 {
        v
    } else {
        wadd(add_times(v, s, (k - 1) as nat), s)
    }
}

proof fn lemma_add_times_linear(v: u8, s: u8, k: nat)
    ensures
        add_times(v, s, k) == ((v + k * s) % 256) as u8,
    decreases k,
{
    if k == 0 {
        assert(k * s == 0);
    } else {
        lemma_add_times_linear(v, s, (k - 1) as nat);
        let prev: int = v + (k - 1) * s;
        assert(v + k * s == prev + s) by (nonlinear_arith)
            requires
                prev == v + (k - 1) * s && k >= 1,
        ;
        assert(wadd(((prev % 256) as u8), s) == ((prev + s) % 256) as u8) by {
            vstd::arithmetic::div_mod::lemma_add_mod_noop(prev, s as int, 256);
            assert((prev % 256) % 256 == prev % 256);
        }
    }
}

proof fn lemma_odd_step_solution(v: int, s: int, j: nat) -> (k: nat)
    requires
        0 <= v,
        0 <= s,
        s % 2 == 1,
    ensures
        k < vstd::arithmetic::power2::pow2(j),
        (v + k * s) % (vstd::arithmetic::power2::pow2(j) as int) == 0,
    decreases j,
{
    vstd::arithmetic::power2::lemma_pow2_pos(j);
    if j == 0 {
        vstd::arithmetic::power2::lemma2_to64();
        assert(vstd::arithmetic::power2::pow2(0) == 1);
        assert((v + 0 * s) % 1 == 0) by {
            vstd::arithmetic::div_mod::lemma_fundamental_div_mod(v, 1);
        }
        0
    } else {
        let k0 = lemma_odd_step_solution(v, s, (j - 1) as nat);
        let p = vstd::arithmetic::power2::pow2((j - 1) as nat) as int;
        let pp = vstd::arithmetic::power2::pow2(j) as int;
        vstd::arithmetic::power2::lemma_pow2_pos((j - 1) as nat);
        vstd::arithmetic::power2::lemma_pow2_unfold(j);
        assert(pp == 2 * p);
        assert(k0 * s >= 0) by (nonlinear_arith)
            requires
                k0 >= 0 && s >= 0,
        ;
        vstd::arithmetic::div_mod::lemma_fundamental_div_mod(v + k0 * s, p);
        let m = (v + k0 * s) / p;
        assert(v + k0 * s == p * m);
        assert(m >= 0) by (nonlinear_arith)
            requires
                v + k0 * s >= 0 && p > 0 && v + k0 * s == p * m,
        ;
        vstd::arithmetic::div_mod::lemma_fundamental_div_mod(m, 2);
        let h = m / 2;
        if m % 2 == 0 {
            assert(v + k0 * s == pp * h) by (nonlinear_arith)
                requires
                    v + k0 * s == p * m && m == 2 * h && pp == 2 * p,
            ;
            vstd::arithmetic::div_mod::lemma_mod_multiples_basic(h, pp);
            assert((pp * h) % pp == 0);
            k0
        } else {
            // The quotient is odd, so shifting the solution by a half
            // period makes it even: the step is odd too.
            let k1 = k0 + p as nat;
            assert(v + k1 * s == p * (m + s)) by (nonlinear_arith)
                requires
                    v + k0 * s == p * m && k1 == k0 + p,
            ;
            vstd::arithmetic::div_mod::lemma_fundamental_div_mod(m + s, 2);
            let h2 = (m + s) / 2;
            assert((m + s) % 2 == 0) by {
                vstd::arithmetic::div_mod::lemma_add_mod_noop(m, s, 2);
            }
            assert(v + k1 * s == pp * h2) by (nonlinear_arith)
                requires
                    v + k1 * s == p * (m + s) && m + s == 2 * h2 && pp == 2 * p,
            ;
            vstd::arithmetic::div_mod::lemma_mod_multiples_basic(h2, pp);
            assert((pp * h2) % pp == 0);
            k1
        }
    }
}

/// Law (clear-loop correctness, in general): for every odd step — exactly
/// the bodies the clear-loop recognizer accepts — the loop
/// `while v != 0 { v = v + s }` over a wrapped cell reaches zero within
/// 256 rounds, from every starting value.
pub proof fn lemma_clear_loop_terminates_odd(v: u8, s: u8)
    requires
        s & 1 == 1,
    ensures
        exists|k: nat| k < 256 && add_times(v, s, k) == 0,
{
    assert(s % 2 == 1) by (bit_vector)
        requires
            s & 1 == 1,
    ;
    let k = lemma_odd_step_solution(v as int, s as int, 8);
    vstd::arithmetic::power2::lemma2_to64();
    assert(vstd::arithmetic::power2::pow2(8) == 256);
    lemma_add_times_linear(v, s, k);
    assert(k < 256 && add_times(v, s, k) == 0);
}

/// Law (clear-loop correctness): for a step of plus or minus one, the loop
/// `while v != 0 { v = v + s }` over a wrapped cell reaches zero within
/// 256 rounds, from every starting value — the rewrite of such a loop into
/// `Put(0)` is sound.
pub proof fn lemma_clear_loop_terminates(v: u8, s: u8)
    requires
        s == 1 || s == 255,
    ensures
        exists|k: nat| k <= 256 && add_times(v, s, k) == 0,
{
    assert(s & 1 == 1) by (bit_vector)
        requires
            s == 1 || s == 255,
    ;
    lemma_clear_loop_terminates_odd(v, s);
    let k = choose|k: nat| k < 256 && add_times(v, s, k) == 0;
    assert(k <= 256 && add_times(v, s, k) == 0);
}

/// The clear-loop idiom: a body that only adds an odd constant to the
/// current cell, which always drives the cell to zero within 256 rounds.
pub open spec fn clear_shape(inl: Seq<Inst>) -> bool {
    &&& inl.len() == 2
    &&& inl[0] matches Inst::Touch(_, _)
    &&& match inl[1] {
        Inst::Add(o, v) => o == 0 && v & 1 == 1,
        _ => false,
    }
}

/// Replace a recognized clear loop by `Put(offset, 0)`, folded into the
/// already-emitted writes; leaves everything untouched when the body has
/// another shape.
pub fn clear_loop(out_list: &mut Vec<IR>, in_list: &Vec<IR>, offset: &mut isize) -> (r: bool)
    ensures
        r == clear_shape(dv(in_list@)),
        *final(offset) == *old(offset),
        r ==> dv(final(out_list)@) == strip_writes(dv(old(out_list)@), *old(offset) as int).push(
            Inst::Put(*old(offset) as int, 0u8),
        ),
        !r ==> final(out_list)@ == old(out_list)@,
{
    if in_list.len() == 2 {
        proof {
            assert(dv(in_list@)[0] == view_ir(in_list@[0]));
            assert(dv(in_list@)[1] == view_ir(in_list@[1]));
        }
        let head_is_touch = match &in_list[0] {
            IR::Touch(_, _) => true,
            _ => false,
        };
        if head_is_touch {
            match &in_list[1] {
                IR::Add(o, v) => {
                    if *o == 0 && *v & 1 == 1 {
                        set_inst(out_list, 0, *offset);
                        return true;
                    }
                },
                _ => {},
            }
        }
    }
    false
}

/// Every instruction after the leading `Touch` is a `Move` or an `Add`.
pub open spec fn moves_adds_after_first(inl: Seq<Inst>) -> bool {
    forall|k: int|
        1 <= k < inl.len() ==> match #[trigger] inl[k] {
            Inst::Move(_) => true,
            Inst::Add(_, _) => true,
            _ => false,
        }
}

/// Number of `Move` instructions from index `from` on.
pub open spec fn count_moves(inl: Seq<Inst>, from: int) -> int
    decreases inl.len() - from,
{
    if from < 0 || from >= inl.len() {
        0
    } else {
        (match inl[from] {
            Inst::Move(_) => 1int,
            _ => 0int,
        }) + count_moves(inl, from + 1)
    }
}

proof fn lemma_count_moves_nonneg(inl: Seq<Inst>, from: int)
    ensures
        count_moves(inl, from) >= 0,
    decreases inl.len() - from,
{
    if 0 <= from < inl.len() {
        lemma_count_moves_nonneg(inl, from + 1);
    }
}

/// Offset of the first `Move` from index `from` on (zero when there is none).
pub open spec fn first_move(inl: Seq<Inst>, from: int) -> int
    decreases inl.len() - from,
{
    if from < 0 || from >= inl.len() {
        0
    } else {
        match inl[from] {
            Inst::Move(o) => o,
            _ => first_move(inl, from + 1),
        }
    }
}

pub open spec fn scan_step(inl: Seq<Inst>) -> int {
    first_move(inl, 0)
}

/// Sum of the body's deltas at the current cell.
pub open spec fn scan_start(inl: Seq<Inst>) -> u8 {
    sum_adds_at(inl, 0, 0)
}

/// Sum of the body's deltas at the landing cell (none when the step is zero:
/// those deltas already count into the current cell).
pub open spec fn scan_end(inl: Seq<Inst>) -> u8 {
    if scan_step(inl) == 0 {
        0u8
    } else {
        sum_adds_at(inl, 0, scan_step(inl))
    }
}

/// Every `Add` of the body aims at the current cell or at the landing cell.
pub open spec fn adds_at_zero_or_step(inl: Seq<Inst>, step: int) -> bool {
    forall|k: int|
        0 <= k < inl.len() ==> match #[trigger] inl[k] {
            Inst::Add(o, _) => o == 0 || o == step,
            _ => true,
        }
}

/// The scan idiom: one `Move` fixing the step, deltas only at the current
/// and landing cells, and the two deltas cancelling — so the comparison
/// value is the same at every probed position.
pub open spec fn scan_shape(inl: Seq<Inst>) -> bool {
    &&& moves_adds_after_first(inl)
    &&& count_moves(inl, 0) == 1
    &&& adds_at_zero_or_step(inl, scan_step(inl))
    &&& wadd(scan_start(inl), scan_end(inl)) == 0
}

/// The rewrite a recognized scan loop performs on the emitted list.
pub open spec fn scan_result(out0: Seq<Inst>, inl: Seq<Inst>, off: int) -> Seq<Inst> {
    let start = scan_start(inl);
    let end = scan_end(inl);
    let step = scan_step(inl);
    let a = if start == 0 {
        out0
    } else {
        add_result(out0, off, start)
    };
    let b = if off != 0 {
        a.push(Inst::Move(off))
    } else {
        a
    };
    let c = b.push(Inst::Scan(start, step)).push(Inst::Touch(0, 0));
    if end == 0 {
        c
    } else {
        add_result(c, 0, end)
    }
}

/// Replace a recognized scan loop by a `Scan` instruction: the pending delta
/// at the entry cell is flushed, the position pending delta is materialized,
/// and the landing cell's delta is re-applied after the scan.
pub fn scan_loop(out_list: &mut Vec<IR>, in_list: &Vec<IR>, offset: &mut isize) -> (r: bool)
    ensures
        r == scan_shape(dv(in_list@)),
        r ==> *final(offset) == 0,
        !r ==> *final(offset) == *old(offset),
        r ==> dv(final(out_list)@) == scan_result(
            dv(old(out_list)@),
            dv(in_list@),
            *old(offset) as int,
        ),
        !r ==> final(out_list)@ == old(out_list)@,
{
    let ghost inl = dv(in_list@);
    let ghost off = *offset as int;

    // Only moves and adds may follow the leading Touch.
    let mut k: usize = 1;
    while k < in_list.len()
        invariant
            1 <= k,
            inl == dv(in_list@),
            *offset == *old(offset),
            forall|i: int|
                1 <= i < k && i < inl.len() ==> match #[trigger] inl[i] {
                    Inst::Move(_) => true,
                    Inst::Add(_, _) => true,
                    _ => false,
                },
        decreases in_list@.len() - k,
    {
        proof {
            assert(inl[k as int] == view_ir(in_list@[k as int]));
        }
        let ok = match &in_list[k] {
            IR::Move(_) => true,
            IR::Add(_, _) => true,
            _ => false,
        };
        if !ok {
            return false;
        }
        k = k + 1;
    }

    // Exactly one Move, fixing the step.
    let mut step: isize = 0;
    let mut set_step = false;
    let mut k2: usize = 0;
    while k2 < in_list.len()
        invariant
            k2 <= in_list@.len(),
            inl == dv(in_list@),
            *offset == *old(offset),
            count_moves(inl, 0) == (if set_step {
                1int
            } else {
                0int
            }) + count_moves(inl, k2 as int),
            set_step ==> step as int == first_move(inl, 0),
            !set_step ==> first_move(inl, 0) == first_move(inl, k2 as int),
        decreases in_list@.len() - k2,
    {
        proof {
            assert(inl[k2 as int] == view_ir(in_list@[k2 as int]));
        }
        match &in_list[k2] {
            IR::Move(o) => {
                if set_step {
                    proof {
                        lemma_count_moves_nonneg(inl, k2 + 1);
                    }
                    return false;
                }
                step = *o;
                set_step = true;
            },
            _ => {},
        }
        k2 = k2 + 1;
    }
    if !set_step {
        return false;
    }

    // Deltas only at the current and landing cells, accumulated wrapped.
    let mut start_cell: u8 = 0;
    let mut end_cell: u8 = 0;
    let mut k3: usize = 0;
    while k3 < in_list.len()
        invariant
            k3 <= in_list@.len(),
            inl == dv(in_list@),
            *offset == *old(offset),
            step as int == scan_step(inl),
            forall|i: int|
                0 <= i < k3 ==> match #[trigger] inl[i] {
                    Inst::Add(o, _) => o == 0 || o == step as int,
                    _ => true,
                },
            wadd(start_cell, sum_adds_at(inl, k3 as int, 0)) == sum_adds_at(inl, 0, 0),
            step != 0 ==> wadd(end_cell, sum_adds_at(inl, k3 as int, step as int)) == sum_adds_at(
                inl,
                0,
                step as int,
            ),
            step == 0 ==> end_cell == 0,
        decreases in_list@.len() - k3,
    {
        proof {
            assert(inl[k3 as int] == view_ir(in_list@[k3 as int]));
        }
        let ok = match &in_list[k3] {
            IR::Add(o, v) => {
                if *o == 0 {
                    proof {
                        lemma_wadd_assoc(start_cell, *v, sum_adds_at(inl, k3 + 1, 0));
                    }
                    start_cell = cell_add(start_cell, *v);
                    true
                } else if *o == step {
                    proof {
                        lemma_wadd_assoc(end_cell, *v, sum_adds_at(inl, k3 + 1, step as int));
                    }
                    end_cell = cell_add(end_cell, *v);
                    true
                } else {
                    false
                }
            },
            _ => true,
        };
        if !ok {
            return false;
        }
        k3 = k3 + 1;
    }
    assert(start_cell == scan_start(inl));
    assert(end_cell == scan_end(inl));

    if cell_add(start_cell, end_cell) != 0 {
        return false;
    }
    assert(scan_shape(inl));

    // Flush the pending delta and position, then emit the scan.
    add_inst(out_list, start_cell, *offset);
    move_inst(out_list, offset);
    let ghost pre1 = out_list@;
    out_list.push(IR::Scan(start_cell, step));
    proof {
        lemma_dv_push(pre1, IR::Scan(start_cell, step));
    }
    let ghost pre2 = out_list@;
    out_list.push(IR::Touch(0, 0));
    proof {
        lemma_dv_push(pre2, IR::Touch(0, 0));
    }
    add_inst(out_list, end_cell, 0);
    true
}

/// The fill idiom: the body writes one constant at a fixed offset and then
/// moves by a fixed step.
pub open spec fn fill_shape(inl: Seq<Inst>) -> bool {
    &&& inl.len() == 3
    &&& inl[0] matches Inst::Touch(_, _)
    &&& inl[1] matches Inst::Put(_, _)
    &&& inl[2] matches Inst::Move(_)
}

/// The rewrite a recognized fill loop performs on the emitted list.
pub open spec fn fill_push(out0: Seq<Inst>, inl: Seq<Inst>) -> Seq<Inst> {
    match (inl[1], inl[2]) {
        (Inst::Put(o, v), Inst::Move(st)) => out0.push(Inst::Fill(o, v, st)).push(
            Inst::Touch(0, 0),
        ),
        _ => out0,
    }
}

/// Replace a recognized fill loop by a `Fill` instruction followed by the
/// `Touch` that materializes the cell the loop stopped on.
pub fn fill_loop(out_list: &mut Vec<IR>, in_list: &Vec<IR>) -> (r: bool)
    ensures
        r == fill_shape(dv(in_list@)),
        r ==> dv(final(out_list)@) == fill_push(dv(old(out_list)@), dv(in_list@)),
        !r ==> final(out_list)@ == old(out_list)@,
{
    if in_list.len() != 3 {
        return false;
    }
    proof {
        assert(dv(in_list@)[0] == view_ir(in_list@[0]));
        assert(dv(in_list@)[1] == view_ir(in_list@[1]));
        assert(dv(in_list@)[2] == view_ir(in_list@[2]));
    }
    let head_is_touch = match &in_list[0] {
        IR::Touch(_, _) => true,
        _ => false,
    };
    if !head_is_touch {
        return false;
    }
    let (is_put, o, v) = match &in_list[1] {
        IR::Put(o, v) => (true, *o, *v),
        _ => (false, 0isize, 0u8),
    };
    if !is_put {
        return false;
    }
    let (is_move, st) = match &in_list[2] {
        IR::Move(st) => (true, *st),
        _ => (false, 0isize),
    };
    if !is_move {
        return false;
    }
    let ghost pre1 = out_list@;
    out_list.push(IR::Fill(o, v, st));
    proof {
        lemma_dv_push(pre1, IR::Fill(o, v, st));
    }
    let ghost pre2 = out_list@;
    out_list.push(IR::Touch(0, 0));
    proof {
        lemma_dv_push(pre2, IR::Touch(0, 0));
    }
    true
}

/// Sum of all `Move` offsets from index `from` on: the body's net
/// displacement.
pub open spec fn sum_moves(inl: Seq<Inst>, from: int) -> int
    decreases inl.len() - from,
{
    if from < 0 || from >= inl.len() {
        0
    } else {
        (match inl[from] {
            Inst::Move(o) => o,
            _ => 0int,
        }) + sum_moves(inl, from + 1)
    }
}

/// Whether any instruction has a dynamic access pattern (`Loop`, `Scan`,
/// `Fill`): such a body cannot be a fixed loop.
pub open spec fn has_dynamic(inl: Seq<Inst>) -> bool {
    exists|k: int|
        0 <= k < inl.len() && match #[trigger] inl[k] {
            Inst::Loop(_) => true,
            Inst::Scan(_, _) => true,
            Inst::Fill(_, _, _) => true,
            _ => false,
        }
}

/// The fixed-loop condition: statically zero net displacement, no dynamic
/// instruction inside, and a leading `Touch` carrying the body's footprint.
pub open spec fn fixed_shape(inl: Seq<Inst>) -> bool {
    &&& sum_moves(inl, 0) == 0
    &&& !has_dynamic(inl)
    &&& inl.len() >= 1
    &&& inl[0] matches Inst::Touch(_, _)
}

/// The rewrite a recognized fixed loop performs on the emitted list: the
/// body (without its leading `Touch`) wrapped in a `FixedLoop` that carries
/// the hoisted footprint bounds.
pub open spec fn fixed_push(out0: Seq<Inst>, inl: Seq<Inst>) -> Seq<Inst> {
    match inl[0] {
        Inst::Touch(h, l) => out0.push(
            Inst::FixedLoop(inl.subrange(1, inl.len() as int), h, l),
        ),
        _ => out0,
    }
}

/// Replace a loop whose body provably returns to its entry position by a
/// `FixedLoop` carrying the body's own footprint bounds.
pub fn fixed_loop(out_list: &mut Vec<IR>, in_list: &Vec<IR>) -> (r: bool)
    ensures
        r == fixed_shape(dv(in_list@)),
        r ==> dv(final(out_list)@) == fixed_push(dv(old(out_list)@), dv(in_list@)),
        !r ==> final(out_list)@ == old(out_list)@,
{
    let ghost inl = dv(in_list@);

    // Net displacement, in an accumulator wide enough never to overflow.
    let mut pos: i128 = 0;
    let mut k: usize = 0;
    while k < in_list.len()
        invariant
            k <= in_list@.len(),
            inl == dv(in_list@),
            sum_moves(inl, 0) == pos + sum_moves(inl, k as int),
            -(k as int) * 0x8000_0000_0000_0000 <= pos <= (k as int) * 0x8000_0000_0000_0000,
        decreases in_list@.len() - k,
    {
        proof {
            assert(inl[k as int] == view_ir(in_list@[k as int]));
        }
        match &in_list[k] {
            IR::Move(o) => {
                pos = pos + (*o as i128);
            },
            _ => {},
        }
        k = k + 1;
    }
    let ghost net = sum_moves(inl, 0);
    assert(net == pos);

    // No dynamic instruction may stand inside.
    let mut k2: usize = 0;
    while k2 < in_list.len()
        invariant
            k2 <= in_list@.len(),
            inl == dv(in_list@),
            net == sum_moves(inl, 0),
            pos == net,
            forall|i: int|
                0 <= i < k2 ==> match #[trigger] inl[i] {
                    Inst::Loop(_) => false,
                    Inst::Scan(_, _) => false,
                    Inst::Fill(_, _, _) => false,
                    _ => true,
                },
        decreases in_list@.len() - k2,
    {
        proof {
            assert(inl[k2 as int] == view_ir(in_list@[k2 as int]));
        }
        let bad = match &in_list[k2] {
            IR::Loop(_) => true,
            IR::Scan(_, _) => true,
            IR::Fill(_, _, _) => true,
            _ => false,
        };
        if bad {
            return false;
        }
        k2 = k2 + 1;
    }

    if pos != 0 {
        return false;
    }

    if in_list.len() == 0 {
        return false;
    }
    proof {
        assert(inl[0] == view_ir(in_list@[0]));
    }
    let (is_touch, high, low) = match &in_list[0] {
        IR::Touch(h, l) => (true, *h, *l),
        _ => (false, 0isize, 0isize),
    };
    if !is_touch {
        return false;
    }
    assert(fixed_shape(inl));

    // Copy the body without its leading Touch.
    let mut tail: Vec<IR> = Vec::new();
    let mut k3: usize = 1;
    while k3 < in_list.len()
        invariant
            1 <= k3 <= in_list@.len(),
            inl == dv(in_list@),
            dv(tail@) == inl.subrange(1, k3 as int),
        decreases in_list@.len() - k3,
    {
        let ghost pret = tail@;
        let c = ir_clone(&in_list[k3]);
        tail.push(c);
        proof {
            lemma_dv_push(pret, c);
            assert(inl[k3 as int] == view_ir(in_list@[k3 as int]));
            assert(dv(pret).push(view_ir(c)) =~= inl.subrange(1, k3 + 1));
        }
        k3 = k3 + 1;
    }
    proof {
        assert(dv(tail@) =~= inl.subrange(1, inl.len() as int));
    }
    let ghost pre = out_list@;
    out_list.push(IR::FixedLoop(tail, high, low));
    proof {
        lemma_dv_push(pre, IR::FixedLoop(tail, high, low));
    }
    true
}

/// The dead-loop scan: walking back from the end of the emitted list, the
/// loop about to be appended is dead when the cell it tests is known to be
/// zero — a `Put` of zero, a `Store`, or pristine tape behind `Start`.
/// Writes and byte I/O aimed at other cells, `Touch` hints and fixed loops
/// whose footprint misses the cell are walked over.
pub open spec fn loop_dead(s: Seq<Inst>, off: int) -> bool
    decreases s.len(),
{
    if s.len() == 0 {
        false
    } else {
        match s.last() {
            Inst::Put(o, v) => if o == off {
                v == 0
            } else {
                loop_dead(s.drop_last(), off)
            },
            Inst::Add(o, _) => if o == off {
                false
            } else {
                loop_dead(s.drop_last(), off)
            },
            Inst::Mul(o, _) => if o == off {
                false
            } else {
                loop_dead(s.drop_last(), off)
            },
            Inst::Store(o) => if o == off {
                true
            } else {
                loop_dead(s.drop_last(), off)
            },
            Inst::Input(o) => if o == off {
                false
            } else {
                loop_dead(s.drop_last(), off)
            },
            Inst::Output(o) => if o == off {
                false
            } else {
                loop_dead(s.drop_last(), off)
            },
            Inst::Start => true,
            Inst::Touch(_, _) => loop_dead(s.drop_last(), off),
            Inst::FixedLoop(_, h, l) => if l <= off && off <= h {
                false
            } else {
                loop_dead(s.drop_last(), off)
            },
            _ => false,
        }
    }
}

/// The list `loop_inst` leaves: nothing for a dead loop, the matching
/// recognizer's rewrite otherwise, a plain `Loop` as the last resort (the
/// pending position delta is materialized first for the shapes that need
/// the loop to start at its real position).
pub open spec fn loop_result(out0: Seq<Inst>, inl: Seq<Inst>, off: int) -> Seq<Inst> {
    if loop_dead(out0, off) {
        out0
    } else if clear_shape(inl) {
        strip_writes(out0, off).push(Inst::Put(off, 0u8))
    } else if flat_shape(inl) && flat_fits(inl, off) {
        flat_result(out0, inl, off)
    } else if scan_shape(inl) {
        scan_result(out0, inl, off)
    } else {
        let m = if off != 0 {
            out0.push(Inst::Move(off))
        } else {
            out0
        };
        if fill_shape(inl) {
            fill_push(m, inl)
        } else if fixed_shape(inl) {
            fixed_push(m, inl)
        } else {
            m.push(Inst::Loop(inl))
        }
    }
}

/// The pending position delta `loop_inst` leaves: untouched when the loop
/// is dropped or folded away without moving, cleared once a `Move` or
/// `Scan` materializes the position.
pub open spec fn loop_end_off(out0: Seq<Inst>, inl: Seq<Inst>, off: int) -> int {
    if loop_dead(out0, off) || clear_shape(inl) || (flat_shape(inl) && flat_fits(inl, off)) {
        off
    } else {
        0
    }
}

/// Append a freshly parsed loop body: drop it when the tested cell is known
/// to be zero, try each loop recognizer in order, and fall back to a plain
/// `Loop`.
pub fn loop_inst(out_list: &mut Vec<IR>, in_list: Vec<IR>, offset: &mut isize)
    ensures
        dv(final(out_list)@) == loop_result(
            dv(old(out_list)@),
            dv(in_list@),
            *old(offset) as int,
        ),
        *final(offset) == loop_end_off(dv(old(out_list)@), dv(in_list@), *old(offset) as int),
{
    let ghost orig = dv(out_list@);
    let ghost off = *offset as int;

    // Is the loop dead where it would start?
    let mut j: usize = out_list.len();
    let mut dead = false;
    let mut stopped = false;
    proof {
        assert(orig.subrange(0, out_list@.len() as int) =~= orig);
    }
    while j > 0 && !stopped
        invariant
            j <= out_list@.len(),
            out_list@ == old(out_list)@,
            orig == dv(out_list@),
            *offset == *old(offset),
            off == *offset as int,
            dead ==> stopped,
            !stopped ==> loop_dead(orig, off) == loop_dead(orig.subrange(0, j as int), off),
            stopped ==> loop_dead(orig, off) == dead,
        decreases j, (if stopped { 0int } else { 1int }),
    {
        let ghost pre = orig.subrange(0, j as int);
        proof {
            assert(orig[j - 1] == view_ir(out_list@[j - 1]));
            assert(pre.last() == orig[j - 1]);
            assert(pre.drop_last() =~= orig.subrange(0, j - 1));
        }
        // walk: keep scanning; kill: the loop is dead; anything else stops
        // the scan with the loop alive.
        let co = *offset;
        let (walk, kill) = match &out_list[j - 1] {
            IR::Put(o, v) => if *o == co {
                (false, *v == 0)
            } else {
                (true, false)
            },
            IR::Add(o, _) => (*o != co, false),
            IR::Mul(o, _) => (*o != co, false),
            IR::Store(o) => if *o == co {
                (false, true)
            } else {
                (true, false)
            },
            IR::Input(o) => (*o != co, false),
            IR::Output(o) => (*o != co, false),
            IR::Start => (false, true),
            IR::Touch(_, _) => (true, false),
            IR::FixedLoop(_, h, l) => (!(*l <= co && co <= *h), false),
            _ => (false, false),
        };
        if walk {
            j = j - 1;
        } else {
            dead = kill;
            stopped = true;
        }
    }
    proof {
        if !stopped {
            assert(orig.subrange(0, 0) =~= Seq::<Inst>::empty());
        }
    }
    if dead {
        return;
    }
    assert(!loop_dead(orig, off));

    if clear_loop(out_list, &in_list, offset) {
        return;
    }
    if flat_loop(out_list, &in_list, offset) {
        return;
    }
    if scan_loop(out_list, &in_list, offset) {
        return;
    }

    move_inst(out_list, offset);

    if fill_loop(out_list, &in_list) {
        return;
    }
    if fixed_loop(out_list, &in_list) {
        return;
    }

    let ghost pre = out_list@;
    let ghost inl = dv(in_list@);
    out_list.push(IR::Loop(in_list));
    proof {
        lemma_dv_push(pre, IR::Loop(in_list));
    }
}

} // verus!
