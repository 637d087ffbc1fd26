use bfr::builder::{decode_char, parse_optimizing, parse_unit, source_position};
use bfr::program::{Instruction, Kind};

fn chars(s: &str) -> Vec<char> {
    s.chars().collect()
}

fn ins(kind: Kind, operand: i64) -> Instruction {
    Instruction { kind, operand }
}

#[test]
fn decode_recognizes_the_eight_operators() {
    assert_eq!(decode_char('>'), Some(ins(Kind::MovePtr, 1)));
    assert_eq!(decode_char('<'), Some(ins(Kind::MovePtr, -1)));
    assert_eq!(decode_char('+'), Some(ins(Kind::AddCell, 1)));
    assert_eq!(decode_char('-'), Some(ins(Kind::AddCell, -1)));
    assert_eq!(decode_char('.'), Some(ins(Kind::Output, 0)));
    assert_eq!(decode_char(','), Some(ins(Kind::Input, 0)));
    assert_eq!(decode_char('['), Some(ins(Kind::LoopOpen, 0)));
    assert_eq!(decode_char(']'), Some(ins(Kind::LoopClose, 0)));
    assert_eq!(decode_char('x'), None);
    assert_eq!(decode_char(' '), None);
}

#[test]
fn unit_parse_emits_one_instruction_per_operator() {
    let p = parse_unit(&chars("+a>-\n<.,[]"));
    assert_eq!(
        p,
        vec![
            ins(Kind::AddCell, 1),
            ins(Kind::MovePtr, 1),
            ins(Kind::AddCell, -1),
            ins(Kind::MovePtr, -1),
            ins(Kind::Output, 0),
            ins(Kind::Input, 0),
            ins(Kind::LoopOpen, 0),
            ins(Kind::LoopClose, 0),
        ]
    );
}

#[test]
fn folding_merges_like_runs() {
    let p = parse_optimizing(&chars("+++>>-<"));
    assert_eq!(
        p,
        vec![
            ins(Kind::AddCell, 3),
            ins(Kind::MovePtr, 2),
            ins(Kind::AddCell, -1),
            ins(Kind::MovePtr, -1),
        ]
    );
}

#[test]
fn folding_nets_opposite_directions() {
    assert_eq!(parse_optimizing(&chars("+-")), vec![ins(Kind::AddCell, 0)]);
    assert_eq!(parse_optimizing(&chars("><<")), vec![ins(Kind::MovePtr, -1)]);
    assert_eq!(parse_optimizing(&chars("--+--")), vec![ins(Kind::AddCell, -3)]);
}

#[test]
fn folding_skips_ignored_characters_inside_a_run() {
    assert_eq!(parse_optimizing(&chars("+ a +\n+")), vec![ins(Kind::AddCell, 3)]);
}

#[test]
fn folding_never_merges_io_or_brackets() {
    let p = parse_optimizing(&chars("..,,[[]]"));
    assert_eq!(
        p,
        vec![
            ins(Kind::Output, 0),
            ins(Kind::Output, 0),
            ins(Kind::Input, 0),
            ins(Kind::Input, 0),
            ins(Kind::LoopOpen, 0),
            ins(Kind::LoopOpen, 0),
            ins(Kind::LoopClose, 0),
            ins(Kind::LoopClose, 0),
        ]
    );
    let q = parse_optimizing(&chars("+[+]+"));
    assert_eq!(
        q,
        vec![
            ins(Kind::AddCell, 1),
            ins(Kind::LoopOpen, 0),
            ins(Kind::AddCell, 1),
            ins(Kind::LoopClose, 0),
            ins(Kind::AddCell, 1),
        ]
    );
}

#[test]
fn folding_has_no_leading_no_op() {
    assert_eq!(parse_optimizing(&chars("")), vec![]);
    assert_eq!(parse_optimizing(&chars(".")), vec![ins(Kind::Output, 0)]);
}

#[test]
fn folding_conserves_every_character() {
    let src = "+++++>>><<-.";
    let p = parse_optimizing(&chars(src));
    let cell_sum: i64 = p.iter().filter(|i| i.kind == Kind::AddCell).map(|i| i.operand).sum();
    let move_sum: i64 = p.iter().filter(|i| i.kind == Kind::MovePtr).map(|i| i.operand).sum();
    assert_eq!(cell_sum, 4);
    assert_eq!(move_sum, 1);
    assert_eq!(p.len(), 4);
}

#[test]
fn parsing_twice_gives_equal_programs() {
    let src = chars("++[>+<-]>.,x[-]");
    assert_eq!(parse_optimizing(&src), parse_optimizing(&src));
    assert_eq!(parse_unit(&src), parse_unit(&src));
}

#[test]
fn source_position_maps_unit_indices_back() {
    let src = chars("a+b]c[");
    assert_eq!(source_position(&src, 0), Some(1));
    assert_eq!(source_position(&src, 1), Some(3));
    assert_eq!(source_position(&src, 2), Some(5));
    assert_eq!(source_position(&src, 3), None);
    assert_eq!(source_position(&chars(""), 0), None);
}
