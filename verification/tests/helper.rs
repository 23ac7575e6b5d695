use std::collections::HashSet;

use bfi::internal::{cell_add, IR};
use bfi::parser::helper::{clear_loop, set_inst};

#[test]
fn set_inst_simple() {
    let mut out_list = Vec::new();
    set_inst(&mut out_list, 2, 1);
    set_inst(&mut out_list, 1, 2);
    set_inst(&mut out_list, 3, 0);
    set_inst(&mut out_list, 4, 1);
    set_inst(&mut out_list, 5, 2);
    assert_eq!(out_list, vec![IR::Put(0, 3), IR::Put(1, 4), IR::Put(2, 5)]);
}

#[test]
fn clear_loop_wrapping() {
    for step in 0..=255u8 {
        let mut visited = HashSet::new();
        let mut current = 0u8;

        let mut should_clear = true;
        for _ in 0..256 {
            if visited.contains(&current) {
                should_clear = false;
                break;
            }

            visited.insert(current);
            current = current.wrapping_add(step);
        }

        let in_list = vec![IR::Touch(0, 0), IR::Add(0, step)];
        let mut out_list = Vec::new();
        let mut offset = 0;
        let does_clear = clear_loop(&mut out_list, &in_list, &mut offset);

        assert_eq!(should_clear, does_clear);
    }
}

#[test]
fn clear_loop_rounds_reach_zero() {
    // A step of plus or minus one drives every starting value to zero
    // within 256 rounds of wrapped addition.
    for start in 0..=255u8 {
        for step in [1u8, 255u8] {
            let mut v = start;
            let mut rounds = 0;
            while v != 0 && rounds <= 256 {
                v = v.wrapping_add(step);
                rounds += 1;
            }
            assert_eq!(v, 0);
            assert!(rounds <= 256);
        }
    }
}

#[test]
fn wrapped_add_complement_restores_cell() {
    // Adding `a` and then the wrapped `256 - a` is the identity on a cell.
    for v in 0..=255u8 {
        for a in [0u8, 1, 3, 100, 128, 200, 255] {
            let complement = ((256 - a as u16) % 256) as u8;
            assert_eq!(cell_add(cell_add(v, a), complement), v);
        }
    }
}
