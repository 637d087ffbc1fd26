use bfr::engine::{add_to_cell, move_pointer, run, Action, Machine, TAPE_LEN};
use bfr::interp::compile;
use bfr::resolver::BracketError;

fn chars(s: &str) -> Vec<char> {
    s.chars().collect()
}

fn output_of(src: &str, fold: bool, input: &[u8]) -> (Vec<u8>, bool) {
    let p = compile(&chars(src), fold).unwrap();
    let r = run(&p, &input.to_vec(), 1_000_000);
    (r.output, r.halted)
}

#[test]
fn pointer_wraps_at_both_ends() {
    assert_eq!(move_pointer(TAPE_LEN - 1, 1), 0);
    assert_eq!(move_pointer(0, -1), TAPE_LEN - 1);
    assert_eq!(move_pointer(63999, 64001), 0);
    assert_eq!(move_pointer(0, -64001), 63999);
    assert_eq!(move_pointer(5, 7), 12);
    assert_eq!(move_pointer(5, -128000), 5);
}

#[test]
fn pointer_moves_of_any_magnitude() {
    for &(p, d) in &[(0usize, i64::MAX), (63999, i64::MIN), (12345, -987654321), (1, 1 << 40)] {
        let expected = ((p as i128 + d as i128).rem_euclid(64000)) as usize;
        assert_eq!(move_pointer(p, d), expected);
    }
}

#[test]
fn cell_wraps_at_both_ends() {
    assert_eq!(add_to_cell(255, 1), 0);
    assert_eq!(add_to_cell(0, -1), 255);
    assert_eq!(add_to_cell(7, 1), 8);
    assert_eq!(add_to_cell(7, -1), 6);
}

#[test]
fn folded_cell_change_reduces_modulo_255() {
    assert_eq!(add_to_cell(0, 254), 254);
    assert_eq!(add_to_cell(0, 255), 0);
    assert_eq!(add_to_cell(0, 256), 1);
    assert_eq!(add_to_cell(10, -300), 221);
    assert_eq!(add_to_cell(3, i64::MIN), ((3 - (i64::MIN as i128).abs() % 255) as i128).rem_euclid(256) as u8);
}

#[test]
fn moving_left_from_start_reaches_last_cell() {
    let p = compile(&chars("<+"), false).unwrap();
    let mut m = Machine::new();
    assert_eq!(m.step(&p), Action::Continue);
    assert_eq!(m.data_pointer(), TAPE_LEN - 1);
    assert_eq!(m.step(&p), Action::Continue);
    assert_eq!(m.cell_at(TAPE_LEN - 1), 1);
    assert_eq!(m.step(&p), Action::Halted);
    assert_eq!(m.instruction_pointer(), 2);
}

#[test]
fn folded_move_left_from_start_reaches_last_cells() {
    let p = compile(&chars("<<<-"), true).unwrap();
    let mut m = Machine::new();
    assert_eq!(m.step(&p), Action::Continue);
    assert_eq!(m.data_pointer(), TAPE_LEN - 3);
    assert_eq!(m.step(&p), Action::Continue);
    assert_eq!(m.cell(), 255);
}

#[test]
fn prints_sixty_four() {
    assert_eq!(output_of("++++++++[>++++++++<-]>.", false, &[]), (vec![64], true));
    assert_eq!(output_of("++++++++[>++++++++<-]>.", true, &[]), (vec![64], true));
}

#[test]
fn echoes_one_input_byte() {
    assert_eq!(output_of(",.", false, b"x"), (vec![b'x'], true));
    assert_eq!(output_of(",.", true, &[200]), (vec![200], true));
}

#[test]
fn empty_program_halts_silently() {
    assert_eq!(output_of("", false, &[]), (vec![], true));
    assert_eq!(output_of("", true, &[]), (vec![], true));
}

#[test]
fn end_of_input_stores_zero() {
    assert_eq!(output_of("+++,.", true, &[]), (vec![0], true));
    assert_eq!(output_of(",.,.", false, &[9]), (vec![9, 0], true));
}

#[test]
fn unmatched_sources_do_not_compile() {
    assert_eq!(compile(&chars("["), true), Err(BracketError::UnmatchedLoopOpen(0)));
    assert_eq!(compile(&chars("]"), true), Err(BracketError::UnmatchedLoopClose(0)));
    assert_eq!(compile(&chars("[[]"), true), Err(BracketError::UnmatchedLoopOpen(0)));
}

#[test]
fn step_budget_bounds_endless_loops() {
    let p = compile(&chars("+[]"), true).unwrap();
    let r = run(&p, &vec![], 1000);
    assert!(!r.halted);
    assert!(r.output.is_empty());
}

#[test]
fn input_is_handed_over_by_the_caller() {
    let p = compile(&chars(",+."), true).unwrap();
    let mut m = Machine::new();
    assert_eq!(m.step(&p), Action::ReadInput);
    assert_eq!(m.instruction_pointer(), 0);
    m.store_input(&p, Some(41));
    assert_eq!(m.instruction_pointer(), 1);
    assert_eq!(m.step(&p), Action::Continue);
    assert_eq!(m.step(&p), Action::Output(42));
    assert_eq!(m.step(&p), Action::Halted);
    m.store_input(&p, Some(1));
    assert_eq!(m.cell(), 42);
}

#[test]
fn unit_and_folded_engines_agree() {
    let programs: [(&str, &[u8]); 6] = [
        ("++++++++[>++++++++<-]>.", b""),
        ("++++++++[>++++[>++>+++>+++>+<<<<-]>+>+>->>+[<]<-]>>.>---.+++++++..+++.>>.<-.<.+++.------.--------.>>+.", b""),
        (",[.,]", b"hello"),
        (",[->+>+<<]>[-<+>]>.<<.", b"A"),
        ("<<<+++.>>>--.<[->+<]>.", b""),
        (">,[>,]<[.<]", b"abc"),
    ];
    for (src, input) in programs.iter() {
        let unit = output_of(src, false, input);
        let folded = output_of(src, true, input);
        assert_eq!(unit, folded, "{}", src);
        assert!(unit.1, "{}", src);
    }
}

#[test]
fn cat_stops_at_end_of_input() {
    assert_eq!(output_of(",[.,]", false, b"hi"), (b"hi".to_vec(), true));
}

#[test]
fn reverses_its_input() {
    assert_eq!(output_of(">,[>,]<[.<]", true, b"abc"), (b"cba".to_vec(), true));
}

#[test]
fn hello_world_output() {
    let src = "++++++++[>++++[>++>+++>+++>+<<<<-]>+>+>->>+[<]<-]>>.>---.+++++++..+++.>>.<-.<.+++.------.--------.>>+.";
    let (out, halted) = output_of(src, true, &[]);
    assert!(halted);
    assert_eq!(String::from_utf8(out).unwrap(), "Hello World!");
}

#[test]
fn long_runs_diverge_at_255() {
    let src: String = std::iter::repeat('+').take(255).chain(std::iter::once('.')).collect();
    assert_eq!(output_of(&src, false, &[]), (vec![255], true));
    assert_eq!(output_of(&src, true, &[]), (vec![0], true));
}
