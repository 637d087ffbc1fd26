use bfr::builder::{parse_optimizing, parse_unit};
use bfr::interp::{check_jumps, compile};
use bfr::program::{Instruction, Kind};
use bfr::resolver::{build_jump_table, BracketError};

fn chars(s: &str) -> Vec<char> {
    s.chars().collect()
}

#[test]
fn nested_brackets_resolve_every_pair() {
    let mut p = parse_unit(&chars("[[[[]]]]"));
    assert_eq!(build_jump_table(&mut p), Ok(()));
    let partners: Vec<i64> = p.iter().map(|i| i.operand).collect();
    assert_eq!(partners, vec![7, 6, 5, 4, 3, 2, 1, 0]);
}

#[test]
fn sibling_loops_resolve_separately() {
    let mut p = parse_unit(&chars("[][[]]"));
    assert_eq!(build_jump_table(&mut p), Ok(()));
    let partners: Vec<i64> = p.iter().map(|i| i.operand).collect();
    assert_eq!(partners, vec![1, 0, 5, 4, 3, 2]);
}

#[test]
fn resolution_leaves_other_operands_alone() {
    let mut p = parse_optimizing(&chars("+++[->>+<<]"));
    assert_eq!(build_jump_table(&mut p), Ok(()));
    assert_eq!(p[0], Instruction { kind: Kind::AddCell, operand: 3 });
    assert_eq!(p[1], Instruction { kind: Kind::LoopOpen, operand: 6 });
    assert_eq!(p[2], Instruction { kind: Kind::AddCell, operand: -1 });
    assert_eq!(p[3], Instruction { kind: Kind::MovePtr, operand: 2 });
    assert_eq!(p[6], Instruction { kind: Kind::LoopClose, operand: 1 });
}

#[test]
fn lone_close_is_unmatched_at_zero() {
    let mut p = parse_unit(&chars("]"));
    assert_eq!(build_jump_table(&mut p), Err(BracketError::UnmatchedLoopClose(0)));
}

#[test]
fn lone_open_is_unmatched_at_zero() {
    let mut p = parse_unit(&chars("["));
    assert_eq!(build_jump_table(&mut p), Err(BracketError::UnmatchedLoopOpen(0)));
}

#[test]
fn outermost_unmatched_open_is_reported() {
    let mut p = parse_unit(&chars("[[]"));
    assert_eq!(build_jump_table(&mut p), Err(BracketError::UnmatchedLoopOpen(0)));
    let mut q = parse_unit(&chars("[][[[]"));
    assert_eq!(build_jump_table(&mut q), Err(BracketError::UnmatchedLoopOpen(2)));
}

#[test]
fn close_after_balanced_part_is_reported() {
    let mut p = parse_unit(&chars("[]]["));
    assert_eq!(build_jump_table(&mut p), Err(BracketError::UnmatchedLoopClose(2)));
    let mut q = parse_unit(&chars("]["));
    assert_eq!(build_jump_table(&mut q), Err(BracketError::UnmatchedLoopClose(0)));
}

#[test]
fn folded_errors_count_instructions() {
    assert_eq!(compile(&chars("+++]"), true), Err(BracketError::UnmatchedLoopClose(1)));
    assert_eq!(compile(&chars("+++]"), false), Err(BracketError::UnmatchedLoopClose(3)));
}

#[test]
fn compile_gives_resolved_programs() {
    let p = compile(&chars(">+[-]"), true).unwrap();
    assert_eq!(p[2], Instruction { kind: Kind::LoopOpen, operand: 4 });
    assert_eq!(p[4], Instruction { kind: Kind::LoopClose, operand: 2 });
    assert!(check_jumps(&p));
}

#[test]
fn check_jumps_rejects_out_of_range_targets() {
    let p = vec![
        Instruction { kind: Kind::LoopOpen, operand: 2 },
        Instruction { kind: Kind::LoopClose, operand: 0 },
    ];
    assert!(!check_jumps(&p));
    let q = vec![Instruction { kind: Kind::LoopClose, operand: -1 }];
    assert!(!check_jumps(&q));
    let r = vec![Instruction { kind: Kind::AddCell, operand: 99 }];
    assert!(check_jumps(&r));
}

#[test]
fn deep_nesting_resolves_every_pair() {
    let n = 100usize;
    let src: String = "[".repeat(n) + &"]".repeat(n);
    let p = compile(&chars(&src), true).unwrap();
    for k in 0..n {
        assert_eq!(p[k].operand, (2 * n - 1 - k) as i64);
        assert_eq!(p[2 * n - 1 - k].operand, k as i64);
    }
}
