use bfi::internal::{ir_clone_vec, IR};
use bfi::parser::helper::{add_inst, clear_loop, loop_inst, move_inst, set_inst};
use bfi::parser::{check_valid, munch_forward, parse, parse_recursive};

#[test]
fn check_valid_good() {
    let code = b"he+ll+o t+he--r.e";
    assert!(check_valid(code));

    let code = b"+++[>++<-]++.[-]--.";
    assert!(check_valid(code));

    let code = b"+[++[--->++[-]]]";
    assert!(check_valid(code));
}

#[test]
fn check_valid_bad() {
    let code = b"aaaaa+a+a-a++]";
    assert!(!check_valid(code));

    let code = b"+++[>++<-]++.-]--.";
    assert!(!check_valid(code));
}

#[test]
fn check_valid_edges() {
    assert!(check_valid(b""));
    assert!(check_valid(b"[]"));
    assert!(!check_valid(b"["));
    assert!(!check_valid(b"]"));
    assert!(!check_valid(b"]["));
}

#[test]
fn munch_forward_simple() {
    let text = b".....aababba...";
    let mut index = 5;

    assert_eq!(munch_forward(text, &mut index, b'a', b'b'), 1);
    assert_eq!(index, 12)
}

#[test]
fn parse_simple() {
    let code = b"+++>>++>--,.";
    let prog = parse(code);
    let expected = vec![
        IR::Start,
        IR::Touch(3, 0),
        IR::Put(0, 3),
        IR::Put(2, 2),
        IR::Put(3, 254),
        IR::Input(3),
        IR::Output(3),
    ];

    assert_eq!(prog, expected);
}

#[test]
fn parse_flat_loop() {
    let code = b"+++[>++++<-]>.";
    let prog = parse(code);
    let expected = vec![
        IR::Start,
        IR::Touch(1, 0),
        IR::Put(1, 12),
        IR::Put(0, 0),
        IR::Output(1),
    ];

    assert_eq!(prog, expected);
}

#[test]
fn parse_scan_loop() {
    let code = b"+[>]";
    let prog = parse(code);
    let expected = vec![
        IR::Start,
        IR::Touch(0, 0),
        IR::Put(0, 1),
        IR::Scan(0, 1),
        IR::Touch(0, 0),
    ];

    assert_eq!(prog, expected);
}

#[test]
fn parse_fill_loop() {
    let code = b"+[[-]>]";
    let prog = parse(code);
    let expected = vec![
        IR::Start,
        IR::Touch(0, 0),
        IR::Put(0, 1),
        IR::Fill(0, 0, 1),
        IR::Touch(0, 0),
    ];

    assert_eq!(prog, expected);
}

#[test]
fn parse_fixed_loop() {
    let code = b"+[>.<-]";
    let prog = parse(code);
    let expected = vec![
        IR::Start,
        IR::Touch(1, 0),
        IR::Put(0, 1),
        IR::FixedLoop(vec![IR::Output(1), IR::Add(0, 255)], 1, 0),
    ];

    assert_eq!(prog, expected);
}

#[test]
fn parse_store_mul_loop() {
    // The source cell's value is not known at compile time, so the flat
    // loop captures it into the register and scales it into the target.
    let code = b",[->++<]>.";
    let prog = parse(code);
    let expected = vec![
        IR::Start,
        IR::Touch(1, 0),
        IR::Input(0),
        IR::Store(0),
        IR::Mul(1, 2),
        IR::Output(1),
    ];

    assert_eq!(prog, expected);
}

#[test]
fn parse_dead_loop_dropped() {
    // A loop at the very start of the program tests a pristine zero cell
    // and can never run.
    let code = b"[+++>++.<]";
    let prog = parse(code);
    let expected = vec![IR::Start, IR::Touch(0, 0)];

    assert_eq!(prog, expected);
}

#[test]
fn parse_recursive_stops_at_bracket() {
    let code = b"++]--";
    let mut index = 0;
    let prog = parse_recursive(code, &mut index, false);
    assert_eq!(index, 2);
    assert_eq!(prog, vec![IR::Touch(0, 0), IR::Add(0, 2)]);
}

#[test]
fn move_inst_flushes_pending_delta() {
    let mut out: Vec<IR> = vec![IR::Start];
    let mut offset: isize = 3;
    move_inst(&mut out, &mut offset);
    assert_eq!(offset, 0);
    assert_eq!(out, vec![IR::Start, IR::Move(3)]);

    move_inst(&mut out, &mut offset);
    assert_eq!(out, vec![IR::Start, IR::Move(3)]);
}

#[test]
fn set_inst_drops_dead_writes() {
    let mut out = vec![IR::Start, IR::Add(0, 7), IR::Put(1, 2), IR::Mul(0, 3)];
    set_inst(&mut out, 9, 0);
    assert_eq!(out, vec![IR::Start, IR::Put(1, 2), IR::Put(0, 9)]);
}

#[test]
fn add_inst_folds_and_cancels() {
    let mut out = vec![IR::Start, IR::Put(0, 3)];
    add_inst(&mut out, 5, 0);
    assert_eq!(out, vec![IR::Start, IR::Put(0, 8)]);

    let mut out = vec![IR::Touch(0, 0), IR::Add(0, 5)];
    add_inst(&mut out, 251, 0);
    assert_eq!(out, vec![IR::Touch(0, 0)]);

    let mut out = vec![IR::Touch(0, 0), IR::Move(1)];
    add_inst(&mut out, 4, 2);
    assert_eq!(out, vec![IR::Touch(0, 0), IR::Move(1), IR::Add(2, 4)]);
}

#[test]
fn clear_loop_only_on_clear_shape() {
    let mut out = vec![IR::Start];
    let mut offset: isize = 0;
    let body = vec![IR::Touch(0, 0), IR::Add(0, 2)];
    assert!(!clear_loop(&mut out, &body, &mut offset));
    assert_eq!(out, vec![IR::Start]);
}

#[test]
fn loop_inst_falls_back_to_plain_loop() {
    // A body with nonzero net displacement fits no recognizer.
    let mut out = vec![IR::Start, IR::Put(0, 1)];
    let mut offset: isize = 0;
    let body = vec![IR::Touch(1, 0), IR::Add(1, 1), IR::Move(-2)];
    let kept = ir_clone_vec(&body);
    loop_inst(&mut out, body, &mut offset);
    assert_eq!(out, vec![IR::Start, IR::Put(0, 1), IR::Loop(kept)]);
}

#[test]
fn parse_wraps_negative_runs() {
    let prog = parse(b"-");
    assert_eq!(prog, vec![IR::Start, IR::Touch(0, 0), IR::Put(0, 255)]);

    let prog = parse(b"+-+");
    assert_eq!(prog, vec![IR::Start, IR::Touch(0, 0), IR::Put(0, 1)]);
}

#[test]
fn parse_hoists_negative_footprint() {
    let prog = parse(b"+>++<<<+");
    let expected = vec![
        IR::Start,
        IR::Touch(1, -2),
        IR::Put(0, 1),
        IR::Put(1, 2),
        IR::Put(-2, 1),
    ];
    assert_eq!(prog, expected);
}
