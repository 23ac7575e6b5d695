use std::collections::HashMap;

use bfi::evaluator::{eval, eval_recursive, touch_cell, touch_range, EvalStop};
use bfi::internal::IR;
use bfi::parser::parse;

#[test]
fn eval_simple() {
    let code = b"+++>--<[>++++<-]++";
    let prog = parse(code);
    let mut tape = Vec::new();
    let mut output = Vec::new();
    eval(&prog, b"", &mut output, &mut tape, 0);
    assert_eq!(tape, vec![2, 10]);
}

#[test]
fn eval_hello() {
    let code = b"+[-->-[>>+>-----<<]<--<---]>-.>>>+.>>..+++[.>]<<<<.+++.------.<<-.>>>>+.";
    let prog = parse(code);
    let mut tape = Vec::new();
    let mut output = Vec::new();
    eval(&prog, b"", &mut output, &mut tape, 0);
    assert_eq!(output, b"Hello, World!");
}

#[test]
fn eval_cat() {
    let code = b",[+++.,]";
    let prog = parse(code);
    let mut tape = Vec::new();
    let input: &[u8] = b"abc";
    let mut output = Vec::new();
    eval(&prog, input, &mut output, &mut tape, 0);
    assert_eq!(output, b"def");
}

#[test]
fn eval_counts_steps_exactly() {
    // Start, Touch and Put cost one step each.
    let prog = parse(b"+++++");
    let mut tape = Vec::new();
    let mut output = Vec::new();
    let mut in_pos = 0;
    let r = eval_recursive(&prog, b"", &mut in_pos, &mut output, &mut tape, 0, 10);
    assert_eq!(r, Ok((0, 7)));
    assert_eq!(tape, vec![5]);
}

#[test]
fn eval_stops_at_step_limit() {
    let prog = parse(b"+++++");
    let mut tape = Vec::new();
    let mut output = Vec::new();
    let mut in_pos = 0;
    let r = eval_recursive(&prog, b"", &mut in_pos, &mut output, &mut tape, 0, 2);
    assert_eq!(r, Err(EvalStop::StepLimit));
}

#[test]
fn eval_stops_when_position_leaves_range() {
    let prog = vec![IR::Move(isize::MAX), IR::Move(1)];
    let mut tape = Vec::new();
    let mut output = Vec::new();
    let mut in_pos = 0;
    let r = eval_recursive(&prog, b"", &mut in_pos, &mut output, &mut tape, 0, 10);
    assert_eq!(r, Err(EvalStop::RangeLimit));
}

#[test]
fn eval_grows_leftward() {
    let code = b"<+.";
    let prog = parse(code);
    let mut tape = Vec::new();
    let mut output = Vec::new();
    eval(&prog, b"", &mut output, &mut tape, 0);
    assert_eq!(output, vec![1]);
}

#[test]
fn touch_cell_grows_front_and_back() {
    let mut tape: Vec<u8> = Vec::new();
    let mut idx: isize = 0;
    let r = touch_cell(&mut tape, &mut idx, -2);
    assert_eq!(r, Ok(0));
    assert_eq!(idx, 2);
    assert_eq!(tape, vec![0, 0]);

    let r = touch_cell(&mut tape, &mut idx, 1);
    assert_eq!(r, Ok(3));
    assert_eq!(idx, 2);
    assert_eq!(tape, vec![0, 0, 0, 0]);
}

#[test]
fn touch_range_covers_span() {
    let mut tape: Vec<u8> = vec![9];
    let mut idx: isize = 0;
    let r = touch_range(&mut tape, &mut idx, 2, -1);
    assert_eq!(r, Ok(()));
    assert_eq!(idx, 1);
    assert_eq!(tape, vec![0, 9, 0, 0]);
}

fn naive_output(code: &[u8], input: &[u8]) -> Vec<u8> {
    let mut stack = Vec::new();
    let mut pair = vec![0usize; code.len()];
    for (i, &b) in code.iter().enumerate() {
        if b == b'[' {
            stack.push(i);
        } else if b == b']' {
            let j = stack.pop().unwrap();
            pair[i] = j;
            pair[j] = i;
        }
    }
    let mut tape: HashMap<isize, u8> = HashMap::new();
    let mut pos: isize = 0;
    let mut ip = 0usize;
    let mut inp = 0usize;
    let mut out = Vec::new();
    while ip < code.len() {
        match code[ip] {
            b'+' => {
                let c = tape.entry(pos).or_insert(0);
                *c = c.wrapping_add(1);
            }
            b'-' => {
                let c = tape.entry(pos).or_insert(0);
                *c = c.wrapping_sub(1);
            }
            b'>' => pos += 1,
            b'<' => pos -= 1,
            b'.' => out.push(*tape.get(&pos).unwrap_or(&0)),
            b',' => {
                let b = if inp < input.len() {
                    let v = input[inp];
                    inp += 1;
                    v
                } else {
                    0
                };
                tape.insert(pos, b);
            }
            b'[' => {
                if *tape.get(&pos).unwrap_or(&0) == 0 {
                    ip = pair[ip];
                }
            }
            b']' => {
                if *tape.get(&pos).unwrap_or(&0) != 0 {
                    ip = pair[ip];
                }
            }
            _ => {}
        }
        ip += 1;
    }
    out
}

fn optimized_output(code: &[u8], input: &[u8]) -> Vec<u8> {
    let prog = parse(code);
    let mut tape = Vec::new();
    let mut output = Vec::new();
    eval(&prog, input, &mut output, &mut tape, 0);
    output
}

#[test]
fn eval_matches_naive_interpreter() {
    // The optimized program's output must equal an instruction-by-
    // instruction interpretation of the source, for hand-picked programs
    // covering every loop recognizer.
    let cases: Vec<(&[u8], &[u8])> = vec![
        (b"+[-->-[>>+>-----<<]<--<---]>-.>>>+.>>..+++[.>]<<<<.+++.------.<<-.>>>>+.", b""),
        (b",[+++.,]", b"abc"),
        (b"++[->+++<]>.", b""),
        (b",[->++<]>.", b"\x15"),
        (b"+++[.-]", b""),
        (b"+[>.<-]", b""),
        (b"+[[-]>]+++.", b""),
        (b"<+.>,.", b"Q"),
        (b"++++[>++++<-]>[>++<-]>.", b""),
        (b"+>++>+++>[-]<<<[.>]", b""),
    ];
    for (code, input) in cases {
        assert_eq!(optimized_output(code, input), naive_output(code, input));
    }
}

#[test]
fn eval_writes_left_of_origin() {
    let prog = parse(b"+>++<<<+");
    let mut tape = Vec::new();
    let mut output = Vec::new();
    eval(&prog, b"", &mut output, &mut tape, 0);
    assert_eq!(tape, vec![1, 0, 1, 2]);
}
