//! The program builder: source characters to instruction sequences.
use vstd::prelude::*;
use crate::program::{Instruction, Instr, Kind, model, unit_instr, unit_program, folded_program};
use crate::interp::built_program;

verus! {

/// The instruction that one character stands for, or `None` for a character
/// that is not one of the eight operators.
pub fn decode_char(c: char) -> (r: Option<Instruction>)
    ensures
        match r {
            Some(i) => unit_instr(c) == Some(i@),
            None => unit_instr(c).is_none(),
        },
{
    if c == '>' {
        Some(Instruction { kind: Kind::MovePtr, operand: 1 })
    } else if c == '<' {
        Some(Instruction { kind: Kind::MovePtr, operand: -1 })
    } else if c == '+' {
        Some(Instruction { kind: Kind::AddCell, operand: 1 })
    } else if c == '-' {
        Some(Instruction { kind: Kind::AddCell, operand: -1 })
    } else if c == '.' {
        Some(Instruction { kind: Kind::Output, operand: 0 })
    } else if c == ',' {
        Some(Instruction { kind: Kind::Input, operand: 0 })
    } else if c == '[' {
        Some(Instruction { kind: Kind::LoopOpen, operand: 0 })
    } else if c == ']' {
        Some(Instruction { kind: Kind::LoopClose, operand: 0 })
    } else {
        None
    }
}

/// Builds the unit-step program: exactly one instruction per recognized
/// character, with operand +1 or -1 for moves and cell changes and 0 otherwise.
pub fn parse_unit(source: &Vec<char>) -> (out: Vec<Instruction>)
    ensures
        model(out@) == unit_program(source@),
        out@.len() <= source@.len(),
{
    let mut out: Vec<Instruction> = Vec::new();
    let mut j: usize = 0;
    while j < source.len()
        invariant
            j <= source@.len(),
            model(out@) == unit_program(source@.subrange(0, j as int)),
            out@.len() <= j,
        decreases source@.len() - j,
    {
        let c = source[j];
        let ghost before = out@;
        assert(source@.subrange(0, j + 1).drop_last() == source@.subrange(0, j as int));
        match decode_char(c) {
            Some(i) => {
                out.push(i);
                assert(model(out@) =~= model(before).push(i@));
            },
            None => {},
        }
        j = j + 1;
    }
    assert(source@.subrange(0, source@.len() as int) == source@);
    out
}

/// Builds the folded program: like the unit-step program, but each run of
/// consecutive pointer moves, or of consecutive cell changes, becomes one
/// instruction carrying the run's net sum. Output, input and loop brackets
/// are never merged.
pub fn parse_optimizing(source: &Vec<char>) -> (out: Vec<Instruction>)
    requires
        source@.len() <= i64::MAX,
    ensures
        model(out@) == folded_program(source@),
        out@.len() <= source@.len(),
{
    let mut out: Vec<Instruction> = Vec::new();
    let mut j: usize = 0;
    while j < source.len()
        invariant
            j <= source@.len() <= i64::MAX,
            model(out@) == folded_program(source@.subrange(0, j as int)),
            out@.len() <= j,
            forall|k: int| 0 <= k < out@.len() ==> -(j as int) <= #[trigger] out@[k].operand <= j,
        decreases source@.len() - j,
    {
        let c = source[j];
        let ghost before = out@;
        assert(source@.subrange(0, j + 1).drop_last() == source@.subrange(0, j as int));
        match decode_char(c) {
            Some(i) => {
                let n = out.len();
                if (i.kind == Kind::MovePtr || i.kind == Kind::AddCell) && n > 0 && out[n - 1].kind
                    == i.kind {
                    let last = out[n - 1];
                    out.set(n - 1, Instruction { kind: i.kind, operand: last.operand + i.operand });
                    assert(model(out@) =~= model(before).update(
                        n - 1,
                        Instr { kind: i.kind, arg: last.operand + i.operand },
                    ));
                } else {
                    out.push(i);
                    assert(model(out@) =~= model(before).push(i@));
                }
            },
            None => {},
        }
        j = j + 1;
    }
    assert(source@.subrange(0, source@.len() as int) == source@);
    out
}

/// The position in `source` of the instruction at index `k` of the unit-step
/// program, or `None` when that program has no index `k`.
pub fn source_position(source: &Vec<char>, k: usize) -> (r: Option<usize>)
    ensures
        match r {
            Some(pos) => pos < source@.len() && unit_instr(source@[pos as int]).is_some()
                && unit_program(source@.subrange(0, pos as int)).len() == k,
            None => unit_program(source@).len() <= k,
        },
{
    let mut seen: usize = 0;
    let mut j: usize = 0;
    while j < source.len()
        invariant
            j <= source@.len(),
            seen == unit_program(source@.subrange(0, j as int)).len(),
            seen <= k,
        decreases source@.len() - j,
    {
        assert(source@.subrange(0, j + 1).drop_last() == source@.subrange(0, j as int));
        if decode_char(source[j]).is_some() {
            if seen == k {
                return Some(j);
            }
            seen = seen + 1;
        }
        j = j + 1;
    }
    assert(source@.subrange(0, source@.len() as int) == source@);
    None
}

/// Building the same source twice gives structurally equal programs: the
/// same kinds and operands in the same order.
pub proof fn lemma_parse_idempotent(
    source: Seq<char>,
    fold: bool,
    first: Seq<Instruction>,
    second: Seq<Instruction>,
)
    requires
        model(first) == built_program(source, fold),
        model(second) == built_program(source, fold),
    ensures
        first == second,
{
    assert(first.len() == model(first).len());
    assert(second.len() == model(second).len());
    assert forall|k: int| 0 <= k < first.len() implies first[k] == second[k] by {
        assert(model(first)[k] == first[k]@);
        assert(model(second)[k] == second[k]@);
    }
    assert(first =~= second);
}

} // verus!
