pub mod helper;

use vstd::prelude::*;

use crate::internal::{dv, lemma_dv_push, view_ir, Inst, IR};
use vstd::arithmetic::div_mod::{lemma_fundamental_div_mod, lemma_fundamental_div_mod_converse};
use crate::parser::helper::{
    add_inst, add_result, loop_end_off, loop_inst, loop_result, move_inst,
};

verus! {

/// Brackets balance from position `i` on, with `depth` brackets already
/// open: the running count never goes negative and ends at zero (91 and
/// 93 are `[` and `]`).
pub open spec fn bal_from(code: Seq<u8>, i: int, depth: int) -> bool
    decreases code.len() - i,
{
    if i < 0 || i >= code.len() {
        depth == 0
    } else if code[i] == 91u8 {
        bal_from(code, i + 1, depth + 1)
    } else if code[i] == 93u8 {
        depth > 0 && bal_from(code, i + 1, depth - 1)
    } else {
        bal_from(code, i + 1, depth)
    }
}

/// The program's brackets are balanced.
pub open spec fn balanced(code: Seq<u8>) -> bool {
    bal_from(code, 0, 0)
}

/// Whether the source's brackets are balanced: a signed counter over `[`
/// and `]` that must never go negative and must end at zero. Pure and
/// independent of the translator, which tolerates malformed input instead.
pub fn check_valid(bytes: &[u8]) -> (r: bool)
    ensures
        r == balanced(bytes@),
{
    let mut sum: i128 = 0;
    let mut k: usize = 0;
    while k < bytes.len()
        invariant
            k <= bytes@.len(),
            0 <= sum <= k,
            bal_from(bytes@, 0, 0) == bal_from(bytes@, k as int, sum as int),
        decreases bytes@.len() - k,
    {
        let b = bytes[k];
        if b == 91u8 {
            sum = sum + 1;
        } else if b == 93u8 {
            if sum == 0 {
                return false;
            }
            sum = sum - 1;
        }
        k = k + 1;
    }
    sum == 0
}

/// The position where a run of `inc`/`dec` bytes starting at `i` ends.
pub open spec fn munch_end(bytes: Seq<u8>, i: int, inc: u8, dec: u8) -> int
    decreases bytes.len() - i,
{
    if i < 0 || i >= bytes.len() {
        i
    } else if bytes[i] == inc || bytes[i] == dec {
        munch_end(bytes, i + 1, inc, dec)
    } else {
        i
    }
}

/// The signed count of that run: plus one per `inc` byte, minus one per
/// `dec` byte.
pub open spec fn munch_sum(bytes: Seq<u8>, i: int, inc: u8, dec: u8) -> int
    decreases bytes.len() - i,
{
    if i < 0 || i >= bytes.len() {
        0
    } else if bytes[i] == inc {
        1 + munch_sum(bytes, i + 1, inc, dec)
    } else if bytes[i] == dec {
        -1 + munch_sum(bytes, i + 1, inc, dec)
    } else {
        0
    }
}

/// Run-length collapse: advance the cursor over a run of `inc`/`dec` bytes
/// and return the run's signed count.
pub fn munch_forward(bytes: &[u8], index: &mut usize, inc: u8, dec: u8) -> (sum: i32)
    requires
        bytes@.len() <= 0x7fff_ffff,
    ensures
        *final(index) as int == munch_end(bytes@, *old(index) as int, inc, dec),
        sum as int == munch_sum(bytes@, *old(index) as int, inc, dec),
        *old(index) <= *final(index),
        *final(index) <= bytes@.len() || *final(index) == *old(index),
        -(*final(index) - *old(index)) <= sum as int <= *final(index) - *old(index),
{
    let mut sum: i32 = 0;
    let ghost i0 = *index as int;
    while *index < bytes.len() && (bytes[*index] == inc || bytes[*index] == dec)
        invariant
            bytes@.len() <= 0x7fff_ffff,
            0 <= i0,
            i0 <= *index as int,
            *index as int <= bytes@.len() || *index as int == i0,
            munch_end(bytes@, i0, inc, dec) == munch_end(bytes@, *index as int, inc, dec),
            munch_sum(bytes@, i0, inc, dec) == sum + munch_sum(bytes@, *index as int, inc, dec),
            -(*index - i0) <= sum as int <= *index - i0,
        decreases bytes@.len() - *index,
    {
        if bytes[*index] == inc {
            sum = sum + 1;
        } else {
            sum = sum - 1;
        }
        *index = *index + 1;
    }
    sum
}

/// An integer clamped to the machine's pointer range; the footprint pass
/// saturates there instead of overflowing.
pub open spec fn sat_isize(x: int) -> int {
    if x > isize::MAX as int {
        isize::MAX as int
    } else if x < isize::MIN as int {
        isize::MIN as int
    } else {
        x
    }
}

/// The footprint-hoisting pass, walking the block backward. `upper` and
/// `lower` aggregate the extent of the run scanned so far: fixed-offset
/// reads and writes widen them to their offset, a `Move` shifts them by its
/// delta (saturating at the pointer range), a fixed loop contributes its
/// own hoisted bounds. Each `Touch` absorbs the aggregate of the run behind
/// it and restarts the aggregation.
pub open spec fn touch_fold(s: Seq<Inst>, upper: int, lower: int) -> Seq<Inst>
    decreases s.len(),
{
    if s.len() == 0 {
        s
    } else {
        match s.last() {
            Inst::Touch(h, l) => touch_fold(s.drop_last(), 0, 0).push(
                Inst::Touch(
                    if h > upper {
                        h
                    } else {
                        upper
                    },
                    if l < lower {
                        l
                    } else {
                        lower
                    },
                ),
            ),
            Inst::FixedLoop(b, h, l) => touch_fold(
                s.drop_last(),
                if h > upper {
                    h
                } else {
                    upper
                },
                if l < lower {
                    l
                } else {
                    lower
                },
            ).push(s.last()),
            Inst::Put(o, _) => touch_fold(
                s.drop_last(),
                if o > upper {
                    o
                } else {
                    upper
                },
                if o < lower {
                    o
                } else {
                    lower
                },
            ).push(s.last()),
            Inst::Add(o, _) => touch_fold(
                s.drop_last(),
                if o > upper {
                    o
                } else {
                    upper
                },
                if o < lower {
                    o
                } else {
                    lower
                },
            ).push(s.last()),
            Inst::Mul(o, _) => touch_fold(
                s.drop_last(),
                if o > upper {
                    o
                } else {
                    upper
                },
                if o < lower {
                    o
                } else {
                    lower
                },
            ).push(s.last()),
            Inst::Store(o) => touch_fold(
                s.drop_last(),
                if o > upper {
                    o
                } else {
                    upper
                },
                if o < lower {
                    o
                } else {
                    lower
                },
            ).push(s.last()),
            Inst::Input(o) => touch_fold(
                s.drop_last(),
                if o > upper {
                    o
                } else {
                    upper
                },
                if o < lower {
                    o
                } else {
                    lower
                },
            ).push(s.last()),
            Inst::Output(o) => touch_fold(
                s.drop_last(),
                if o > upper {
                    o
                } else {
                    upper
                },
                if o < lower {
                    o
                } else {
                    lower
                },
            ).push(s.last()),
            Inst::Move(o) => touch_fold(
                s.drop_last(),
                sat_isize(upper + if o > 0 {
                    o
                } else {
                    0
                }),
                sat_isize(lower + if o < 0 {
                    o
                } else {
                    0
                }),
            ).push(s.last()),
            _ => touch_fold(s.drop_last(), upper, lower).push(s.last()),
        }
    }
}

/// Walking the block backward with the same aggregation as the hoisting
/// pass: every `Touch` must dominate the extent the run after it (up to
/// the next `Touch`) can access — its high bound at least the aggregate
/// high, its low bound at most the aggregate low.
pub open spec fn touch_sound(s: Seq<Inst>, upper: int, lower: int) -> bool
    decreases s.len(),
{
    if s.len() == 0 {
        true
    } else {
        match s.last() {
            Inst::Touch(h, l) => h >= upper && l <= lower && touch_sound(s.drop_last(), 0, 0),
            Inst::FixedLoop(b, h, l) => touch_sound(
                s.drop_last(),
                if h > upper {
                    h
                } else {
                    upper
                },
                if l < lower {
                    l
                } else {
                    lower
                },
            ),
            Inst::Put(o, _) => touch_sound(
                s.drop_last(),
                if o > upper {
                    o
                } else {
                    upper
                },
                if o < lower {
                    o
                } else {
                    lower
                },
            ),
            Inst::Add(o, _) => touch_sound(
                s.drop_last(),
                if o > upper {
                    o
                } else {
                    upper
                },
                if o < lower {
                    o
                } else {
                    lower
                },
            ),
            Inst::Mul(o, _) => touch_sound(
                s.drop_last(),
                if o > upper {
                    o
                } else {
                    upper
                },
                if o < lower {
                    o
                } else {
                    lower
                },
            ),
            Inst::Store(o) => touch_sound(
                s.drop_last(),
                if o > upper {
                    o
                } else {
                    upper
                },
                if o < lower {
                    o
                } else {
                    lower
                },
            ),
            Inst::Input(o) => touch_sound(
                s.drop_last(),
                if o > upper {
                    o
                } else {
                    upper
                },
                if o < lower {
                    o
                } else {
                    lower
                },
            ),
            Inst::Output(o) => touch_sound(
                s.drop_last(),
                if o > upper {
                    o
                } else {
                    upper
                },
                if o < lower {
                    o
                } else {
                    lower
                },
            ),
            Inst::Move(o) => touch_sound(
                s.drop_last(),
                sat_isize(upper + if o > 0 {
                    o
                } else {
                    0
                }),
                sat_isize(lower + if o < 0 {
                    o
                } else {
                    0
                }),
            ),
            _ => touch_sound(s.drop_last(), upper, lower),
        }
    }
}

/// Law (footprint soundness): after the hoisting pass, every `Touch`
/// bound dominates the static footprint of the fixed-offset run it opens,
/// so the growth it performs covers every cell that run writes or reads at
/// a fixed offset.
pub proof fn lemma_touch_fold_sound(s: Seq<Inst>, upper: int, lower: int)
    ensures
        touch_sound(touch_fold(s, upper, lower), upper, lower),
    decreases s.len(),
{
    if s.len() == 0 {
    } else {
        match s.last() {
            Inst::Touch(h, l) => {
                lemma_touch_fold_sound(s.drop_last(), 0, 0);
                let r = touch_fold(s, upper, lower);
                assert(r.drop_last() =~= touch_fold(s.drop_last(), 0, 0));
            },
            _ => {
                let r = touch_fold(s, upper, lower);
                assert(r.last() == s.last());
                match s.last() {
                    Inst::FixedLoop(b, h, l) => {
                        lemma_touch_fold_sound(
                            s.drop_last(),
                            if h > upper {
                                h
                            } else {
                                upper
                            },
                            if l < lower {
                                l
                            } else {
                                lower
                            },
                        );
                        assert(r.drop_last() =~= touch_fold(
                            s.drop_last(),
                            if h > upper {
                                h
                            } else {
                                upper
                            },
                            if l < lower {
                                l
                            } else {
                                lower
                            },
                        ));
                    },
                    Inst::Put(o, _) => {
                        lemma_touch_fold_sound(
                            s.drop_last(),
                            if o > upper {
                                o
                            } else {
                                upper
                            },
                            if o < lower {
                                o
                            } else {
                                lower
                            },
                        );
                        assert(r.drop_last() =~= touch_fold(
                            s.drop_last(),
                            if o > upper {
                                o
                            } else {
                                upper
                            },
                            if o < lower {
                                o
                            } else {
                                lower
                            },
                        ));
                    },
                    Inst::Add(o, _) => {
                        lemma_touch_fold_sound(
                            s.drop_last(),
                            if o > upper {
                                o
                            } else {
                                upper
                            },
                            if o < lower {
                                o
                            } else {
                                lower
                            },
                        );
                        assert(r.drop_last() =~= touch_fold(
                            s.drop_last(),
                            if o > upper {
                                o
                            } else {
                                upper
                            },
                            if o < lower {
                                o
                            } else {
                                lower
                            },
                        ));
                    },
                    Inst::Mul(o, _) => {
                        lemma_touch_fold_sound(
                            s.drop_last(),
                            if o > upper {
                                o
                            } else {
                                upper
                            },
                            if o < lower {
                                o
                            } else {
                                lower
                            },
                        );
                        assert(r.drop_last() =~= touch_fold(
                            s.drop_last(),
                            if o > upper {
                                o
                            } else {
                                upper
                            },
                            if o < lower {
                                o
                            } else {
                                lower
                            },
                        ));
                    },
                    Inst::Store(o) => {
                        lemma_touch_fold_sound(
                            s.drop_last(),
                            if o > upper {
                                o
                            } else {
                                upper
                            },
                            if o < lower {
                                o
                            } else {
                                lower
                            },
                        );
                        assert(r.drop_last() =~= touch_fold(
                            s.drop_last(),
                            if o > upper {
                                o
                            } else {
                                upper
                            },
                            if o < lower {
                                o
                            } else {
                                lower
                            },
                        ));
                    },
                    Inst::Input(o) => {
                        lemma_touch_fold_sound(
                            s.drop_last(),
                            if o > upper {
                                o
                            } else {
                                upper
                            },
                            if o < lower {
                                o
                            } else {
                                lower
                            },
                        );
                        assert(r.drop_last() =~= touch_fold(
                            s.drop_last(),
                            if o > upper {
                                o
                            } else {
                                upper
                            },
                            if o < lower {
                                o
                            } else {
                                lower
                            },
                        ));
                    },
                    Inst::Output(o) => {
                        lemma_touch_fold_sound(
                            s.drop_last(),
                            if o > upper {
                                o
                            } else {
                                upper
                            },
                            if o < lower {
                                o
                            } else {
                                lower
                            },
                        );
                        assert(r.drop_last() =~= touch_fold(
                            s.drop_last(),
                            if o > upper {
                                o
                            } else {
                                upper
                            },
                            if o < lower {
                                o
                            } else {
                                lower
                            },
                        ));
                    },
                    Inst::Move(o) => {
                        lemma_touch_fold_sound(
                            s.drop_last(),
                            sat_isize(upper + if o > 0 {
                                o
                            } else {
                                0
                            }),
                            sat_isize(lower + if o < 0 {
                                o
                            } else {
                                0
                            }),
                        );
                        assert(r.drop_last() =~= touch_fold(
                            s.drop_last(),
                            sat_isize(upper + if o > 0 {
                                o
                            } else {
                                0
                            }),
                            sat_isize(lower + if o < 0 {
                                o
                            } else {
                                0
                            }),
                        ));
                    },
                    _ => {
                        lemma_touch_fold_sound(s.drop_last(), upper, lower);
                        assert(r.drop_last() =~= touch_fold(s.drop_last(), upper, lower));
                    },
                }
            },
        }
    }
}

/// Law (footprint soundness of the translator): in every program the
/// translator emits, each `Touch` dominates the static footprint of the
/// run it opens.
pub proof fn lemma_parse_touch_sound(code: Seq<u8>)
    ensures
        touch_sound(spec_parse(code), 0, 0),
{
    let r = sim_loop(code, 0, seq![Inst::Start, Inst::Touch(0, 0)], 0);
    lemma_touch_fold_sound(r.0, 0, 0);
}

/// Pointer-sized addition that saturates at the ends of the range instead
/// of overflowing.
fn sat_add(x: isize, y: isize) -> (r: isize)
    ensures
        r as int == sat_isize(x + y),
{
    if y > 0 && x > isize::MAX - y {
        isize::MAX
    } else if y < 0 && x < isize::MIN - y {
        isize::MIN
    } else {
        x + y
    }
}

/// Hoist each maximal run's access footprint into the `Touch` before it,
/// in one backward pass over the finished block.
pub fn set_touch_inst(inout_list: &mut Vec<IR>)
    ensures
        dv(final(inout_list)@) == touch_fold(dv(old(inout_list)@), 0, 0),
{
    let ghost orig = dv(inout_list@);
    let mut upper: isize = 0;
    let mut lower: isize = 0;
    let mut i: usize = inout_list.len();
    proof {
        assert(orig.subrange(0, orig.len() as int) =~= orig);
        assert(dv(inout_list@).subrange(i as int, orig.len() as int) =~= Seq::<Inst>::empty());
        assert(touch_fold(orig, 0, 0) + Seq::<Inst>::empty() =~= touch_fold(orig, 0, 0));
    }
    while i > 0
        invariant
            i <= inout_list@.len(),
            inout_list@.len() == orig.len(),
            lower <= 0 <= upper,
            dv(inout_list@).subrange(0, i as int) == orig.subrange(0, i as int),
            touch_fold(orig, 0, 0) == touch_fold(
                orig.subrange(0, i as int),
                upper as int,
                lower as int,
            ) + dv(inout_list@).subrange(i as int, orig.len() as int),
        decreases i,
    {
        let ghost cur = dv(inout_list@);
        let ghost pre = orig.subrange(0, i as int);
        proof {
            assert(pre.last() == orig[i - 1]);
            assert(orig[i - 1] == cur[i - 1]);
            assert(cur[i - 1] == view_ir(inout_list@[i - 1]));
            assert(pre.drop_last() =~= orig.subrange(0, i - 1));
        }
        // tag: 0 Touch, 1 fixed-offset access, 2 FixedLoop, 3 Move, 4 rest
        let (tag, a, b): (u8, isize, isize) = match &inout_list[i - 1] {
            IR::Touch(h, l) => (0, *h, *l),
            IR::Put(o, _) => (1, *o, 0),
            IR::Add(o, _) => (1, *o, 0),
            IR::Mul(o, _) => (1, *o, 0),
            IR::Store(o) => (1, *o, 0),
            IR::Input(o) => (1, *o, 0),
            IR::Output(o) => (1, *o, 0),
            IR::FixedLoop(_, h, l) => (2, *h, *l),
            IR::Move(o) => (3, *o, 0),
            _ => (4, 0, 0),
        };
        if tag == 0 {
            let nh = if a > upper {
                a
            } else {
                upper
            };
            let nl = if b < lower {
                b
            } else {
                lower
            };
            inout_list[i - 1] = IR::Touch(nh, nl);
            proof {
                assert(dv(inout_list@) =~= cur.update(i - 1, Inst::Touch(nh as int, nl as int)));
            }
            upper = 0;
            lower = 0;
        } else if tag == 1 {
            upper = if a > upper {
                a
            } else {
                upper
            };
            lower = if a < lower {
                a
            } else {
                lower
            };
        } else if tag == 2 {
            upper = if a > upper {
                a
            } else {
                upper
            };
            lower = if b < lower {
                b
            } else {
                lower
            };
        } else if tag == 3 {
            upper = sat_add(
                upper,
                if a > 0 {
                    a
                } else {
                    0
                },
            );
            lower = sat_add(
                lower,
                if a < 0 {
                    a
                } else {
                    0
                },
            );
        }
        i = i - 1;
        proof {
            assert(dv(inout_list@).subrange(0, i as int) =~= orig.subrange(0, i as int));
            assert(touch_fold(orig, 0, 0) == touch_fold(
                orig.subrange(0, i as int),
                upper as int,
                lower as int,
            ) + dv(inout_list@).subrange(i as int, orig.len() as int));
        }
    }
    proof {
        assert(orig.subrange(0, 0) =~= Seq::<Inst>::empty());
        assert(dv(inout_list@).subrange(0, orig.len() as int) =~= dv(inout_list@));
        assert(Seq::<Inst>::empty() + dv(inout_list@) =~= dv(inout_list@));
    }
}

/// A signed run-length count reduced to one wrapped cell value.
pub open spec fn wrap_byte(x: int) -> u8 {
    (x % 256) as u8
}

proof fn lemma_munch_end_bounds(bytes: Seq<u8>, i: int, inc: u8, dec: u8)
    ensures
        munch_end(bytes, i, inc, dec) >= i,
        i <= bytes.len() ==> munch_end(bytes, i, inc, dec) <= bytes.len(),
    decreases bytes.len() - i,
{
    if 0 <= i < bytes.len() && (bytes[i] == inc || bytes[i] == dec) {
        lemma_munch_end_bounds(bytes, i + 1, inc, dec);
    }
}

/// One block of the translator, from position `i`: the instruction list it
/// accumulates, the position where it stops (a closing bracket or the end
/// of input), and the pending position delta it is left with. The byte
/// codes are the eight operations: 43 `+`, 45 `-`, 60 `<`, 62 `>`,
/// 44 `,`, 46 `.`, 91 `[`, 93 `]`.
pub open spec fn sim_loop(code: Seq<u8>, i: int, acc: Seq<Inst>, off: int) -> (Seq<Inst>, int, int)
    decreases 2 * code.len() + 2 - i, 0int,
{
    if i < 0 || i >= code.len() {
        (acc, i, off)
    } else {
        let c = code[i];
        if c == 44u8 {
            sim_loop(code, i + 1, acc.push(Inst::Input(off)), off)
        } else if c == 46u8 {
            sim_loop(code, i + 1, acc.push(Inst::Output(off)), off)
        } else if c == 43u8 || c == 45u8 {
            let e = munch_end(code, i, 43u8, 45u8);
            let ec = if i < e && e <= code.len() {
                e
            } else {
                i + 1
            };
            let b = wrap_byte(munch_sum(code, i, 43u8, 45u8));
            let acc2 = if b == 0 {
                acc
            } else {
                add_result(acc, off, b)
            };
            sim_loop(code, ec, acc2, off)
        } else if c == 60u8 || c == 62u8 {
            let e = munch_end(code, i, 62u8, 60u8);
            let ec = if i < e && e <= code.len() {
                e
            } else {
                i + 1
            };
            sim_loop(code, ec, acc, off + munch_sum(code, i, 62u8, 60u8))
        } else if c == 91u8 {
            let sub = sim_block(code, i + 1, false);
            let j = sub.1;
            let jc = if i + 1 <= j && j <= 2 * code.len() {
                j
            } else {
                i + 1
            };
            sim_loop(code, jc + 1, loop_result(acc, sub.0, off), loop_end_off(acc, sub.0, off))
        } else if c == 93u8 {
            (acc, i, off)
        } else {
            sim_loop(code, i + 1, acc, off)
        }
    }
}

/// One full call of the translator: the block's instructions, with the
/// footprint pass run over them and — inside a loop body — the pending
/// position delta materialized; and the position where the block stopped.
pub open spec fn sim_block(code: Seq<u8>, i: int, root: bool) -> (Seq<Inst>, int)
    decreases 2 * code.len() + 2 - i, 1int,
{
    let init: Seq<Inst> = if root {
        seq![Inst::Start, Inst::Touch(0, 0)]
    } else {
        seq![Inst::Touch(0, 0)]
    };
    let r = sim_loop(code, i, init, 0);
    let hoisted = touch_fold(r.0, 0, 0);
    let fin = if !root && r.2 != 0 {
        hoisted.push(Inst::Move(r.2))
    } else {
        hoisted
    };
    (fin, r.1)
}

/// The program the translator produces for a whole source text.
pub open spec fn spec_parse(code: Seq<u8>) -> Seq<Inst> {
    sim_block(code, 0, true).0
}

/// Reduce a signed run-length count to one wrapped cell value.
fn wrap_to_byte(m: i32) -> (b: u8)
    ensures
        b as int == wrap_byte(m as int),
{
    if m >= 0 {
        (m % 256) as u8
    } else {
        let t = -(m + 1);
        let r = t % 256;
        proof {
            let ti = t as int;
            lemma_fundamental_div_mod(ti, 256);
            let q = ti / 256;
            assert(m as int == (-q - 1) * 256 + (255 - ti % 256)) by {
                assert(ti == 256 * q + ti % 256);
                assert(m as int == -ti - 1);
                assert((-q - 1) * 256 == -(256 * q) - 256) by (nonlinear_arith);
            }
            assert(0 <= 255 - ti % 256 < 256);
            lemma_fundamental_div_mod_converse(m as int, 256, -q - 1, 255 - ti % 256);
        }
        (255 - r) as u8
    }
}

/// One nesting level of the translator, from position `i`: collapse runs
/// of increments and pointer moves, emit byte I/O at the pending offset,
/// and classify each bracketed body through the loop recognizers; stops at
/// a closing bracket (leaving the cursor on it) or at the end of input.
/// The footprint pass runs over the finished block, and a non-root block
/// materializes its pending position delta last.
fn parse_block(code: &[u8], i: usize, root: bool) -> (r: (Vec<IR>, usize))
    requires
        code@.len() <= 0x7fff_ffff,
    ensures
        dv(r.0@) == sim_block(code@, i as int, root).0,
        r.1 as int == sim_block(code@, i as int, root).1,
        i <= r.1,
        i <= code@.len() ==> r.1 as int <= i + 2 * (code@.len() - i),
        i > code@.len() ==> r.1 == i,
    decreases code@.len() - i,
{
    let mut prog: Vec<IR> = Vec::new();

    if root {
        prog.push(IR::Start);
    }
    prog.push(IR::Touch(0, 0));
    let ghost init = dv(prog@);
    proof {
        if root {
            assert(init =~= seq![Inst::Start, Inst::Touch(0, 0)]);
        } else {
            assert(init =~= seq![Inst::Touch(0, 0)]);
        }
    }

    let mut index: usize = i;
    let mut off_acc: isize = 0;
    let mut done = false;
    while index < code.len() && !done
        invariant
            code@.len() <= 0x7fff_ffff,
            i <= index,
            i <= code@.len() ==> index as int <= i + 2 * (code@.len() - i),
            i > code@.len() ==> index == i,
            -(index as int - i) <= off_acc as int <= index as int - i,
            !done ==> sim_loop(code@, i as int, init, 0) == sim_loop(
                code@,
                index as int,
                dv(prog@),
                off_acc as int,
            ),
            done ==> sim_loop(code@, i as int, init, 0) == (
                dv(prog@),
                index as int,
                off_acc as int,
            ),
        decreases 2 * code@.len() + 2 - index, (if done { 0int } else { 1int }),
    {
        let c = code[index];
        if c == 44u8 {
            let ghost pre = prog@;
            prog.push(IR::Input(off_acc));
            proof {
                lemma_dv_push(pre, IR::Input(off_acc));
            }
            index = index + 1;
        } else if c == 46u8 {
            let ghost pre = prog@;
            prog.push(IR::Output(off_acc));
            proof {
                lemma_dv_push(pre, IR::Output(off_acc));
            }
            index = index + 1;
        } else if c == 43u8 || c == 45u8 {
            let ghost istart = index as int;
            let munch = munch_forward(code, &mut index, 43u8, 45u8);
            proof {
                assert(code@[istart] == 43u8 || code@[istart] == 45u8);
                assert(munch_end(code@, istart, 43u8, 45u8) == munch_end(
                    code@,
                    istart + 1,
                    43u8,
                    45u8,
                ));
                lemma_munch_end_bounds(code@, istart + 1, 43u8, 45u8);
            }
            let b = wrap_to_byte(munch);
            add_inst(&mut prog, b, off_acc);
        } else if c == 60u8 || c == 62u8 {
            let ghost istart = index as int;
            let munch = munch_forward(code, &mut index, 62u8, 60u8);
            proof {
                assert(code@[istart] == 62u8 || code@[istart] == 60u8);
                assert(munch_end(code@, istart, 62u8, 60u8) == munch_end(
                    code@,
                    istart + 1,
                    62u8,
                    60u8,
                ));
                lemma_munch_end_bounds(code@, istart + 1, 62u8, 60u8);
            }
            off_acc = off_acc + (munch as isize);
        } else if c == 91u8 {
            index = index + 1;
            let sub = parse_block(code, index, false);
            let content = sub.0;
            index = sub.1;
            loop_inst(&mut prog, content, &mut off_acc);
            index = index + 1;
        } else if c == 93u8 {
            done = true;
        } else {
            index = index + 1;
        }
    }

    set_touch_inst(&mut prog);

    if !root {
        move_inst(&mut prog, &mut off_acc);
    }

    (prog, index)
}

/// One nesting level of the translator: see `parse_block`; the cursor is
/// advanced to where the block stopped.
pub fn parse_recursive(code: &[u8], index: &mut usize, root: bool) -> (prog: Vec<IR>)
    requires
        code@.len() <= 0x7fff_ffff,
    ensures
        dv(prog@) == sim_block(code@, *old(index) as int, root).0,
        *final(index) as int == sim_block(code@, *old(index) as int, root).1,
        *old(index) <= *final(index),
        *old(index) as int <= code@.len() ==> *final(index) as int <= *old(index) + 2 * (
        code@.len() - *old(index)),
{
    let r = parse_block(code, *index, root);
    *index = r.1;
    r.0
}

/// Translate a whole source text into its optimized program.
pub fn parse(code: &[u8]) -> (prog: Vec<IR>)
    requires
        code@.len() <= 0x7fff_ffff,
    ensures
        dv(prog@) == spec_parse(code@),
{
    let mut index: usize = 0;
    parse_recursive(code, &mut index, true)
}

} // verus!
