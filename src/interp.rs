//! From source text to a program the engine can run.
use vstd::prelude::*;
use crate::builder::{parse_optimizing, parse_unit};
use crate::program::{Instruction, Instr, Kind, model, unit_program, folded_program};
use crate::resolver::{BracketError, build_jump_table, jumps_in_range, resolves_to, balanced, lemma_resolved_jumps_in_range};

verus! {

/// The unresolved program built from `s`, folded or one instruction per
/// recognized character.
pub open spec fn built_program(s: Seq<char>, fold: bool) -> Seq<Instr> {
    if fold {
        folded_program(s)
    } else {
        unit_program(s)
    }
}

/// Builds the program for `source`, folding runs when `fold` holds, and
/// resolves its jumps.
pub fn compile(source: &Vec<char>, fold: bool) -> (r: Result<Vec<Instruction>, BracketError>)
    requires
        source@.len() <= i64::MAX,
    ensures
        r is Ok <==> balanced(built_program(source@, fold)),
        resolves_to(
            built_program(source@, fold),
            match r {
                Ok(p) => Ok(model(p@)),
                Err(e) => Err(e),
            },
        ),
        match r {
            Ok(p) => jumps_in_range(model(p@)),
            Err(_) => true,
        },
{
    let mut program = if fold {
        parse_optimizing(source)
    } else {
        parse_unit(source)
    };
    match build_jump_table(&mut program) {
        Ok(()) => {
            proof {
                lemma_resolved_jumps_in_range(built_program(source@, fold), model(program@));
            }
            Ok(program)
        },
        Err(e) => Err(e),
    }
}

/// Whether every bracket of `program` jumps to an index inside it.
pub fn check_jumps(program: &Vec<Instruction>) -> (r: bool)
    ensures
        r == jumps_in_range(model(program@)),
{
    let mut k: usize = 0;
    while k < program.len()
        invariant
            k <= program@.len(),
            forall|i: int|
                0 <= i < k && (#[trigger] model(program@)[i].kind == Kind::LoopOpen || model(
                    program@,
                )[i].kind == Kind::LoopClose) ==> 0 <= model(program@)[i].arg < program@.len(),
        decreases program@.len() - k,
    {
        let ins = program[k];
        assert(model(program@)[k as int] == ins@);
        if ins.kind == Kind::LoopOpen || ins.kind == Kind::LoopClose {
            if ins.operand < 0 || ins.operand as u64 >= program.len() as u64 {
                assert(model(program@)[k as int].kind == ins.kind);
                return false;
            }
        }
        k = k + 1;
    }
    true
}

} // verus!
