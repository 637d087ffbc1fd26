//! Instructions and their mathematical model.
use vstd::prelude::*;

verus! {

/// What an instruction does.
#[derive(Clone, Copy, Debug, PartialEq, Eq, Structural)]
pub enum Kind {
    /// Inert: only advances the instruction pointer.
    Nop,
    /// Emit the current cell.
    Output,
    /// Read one byte into the current cell.
    Input,
    /// `[`: after resolution the operand is the index of the matching `]`.
    LoopOpen,
    /// `]`: after resolution the operand is the index of the matching `[`.
    LoopClose,
    /// Move the data pointer by the operand, wrapping around the tape.
    MovePtr,
    /// Add the operand to the current cell.
    AddCell,
}

/// One instruction: a kind and a signed operand.
#[derive(Clone, Copy, Debug, PartialEq, Eq, Structural)]
pub struct Instruction {
    pub kind: Kind,
    pub operand: i64,
}

/// The model of an instruction, with the operand as a mathematical integer.
pub struct Instr {
    pub kind: Kind,
    pub arg: int,
}

impl View for Instruction {
    type V = Instr;

    open spec fn view(&self) -> Instr {
        Instr { kind: self.kind, arg: self.operand as int }
    }
}

/// The model of a whole instruction sequence.
pub open spec fn model(p: Seq<Instruction>) -> Seq<Instr> {
    p.map_values(|i: Instruction| i@)
}

/// The instruction that one source character stands for on its own, if any.
pub open spec fn unit_instr(c: char) -> Option<Instr> {
    if c == '>' {
        Some(Instr { kind: Kind::MovePtr, arg: 1 })
    } else if c == '<' {
        Some(Instr { kind: Kind::MovePtr, arg: -1 })
    } else if c == '+' {
        Some(Instr { kind: Kind::AddCell, arg: 1 })
    } else if c == '-' {
        Some(Instr { kind: Kind::AddCell, arg: -1 })
    } else if c == '.' {
        Some(Instr { kind: Kind::Output, arg: 0 })
    } else if c == ',' {
        Some(Instr { kind: Kind::Input, arg: 0 })
    } else if c == '[' {
        Some(Instr { kind: Kind::LoopOpen, arg: 0 })
    } else if c == ']' {
        Some(Instr { kind: Kind::LoopClose, arg: 0 })
    } else {
        None
    }
}

/// Kinds whose consecutive runs the folding builder merges.
pub open spec fn foldable(k: Kind) -> bool {
    k == Kind::MovePtr || k == Kind::AddCell
}

/// One instruction per recognized character, in source order.
pub open spec fn unit_program(s: Seq<char>) -> Seq<Instr>
    decreases s.len(),
{
    if s.len() == 0 {
        seq![]
    } else {
        let p = unit_program(s.drop_last());
        match unit_instr(s.last()) {
            Some(i) => p.push(i),
            None => p,
        }
    }
}

/// The unit program with every run of like pointer moves, or of like cell
/// changes, merged into one instruction whose argument is the run's net sum.
/// Unrecognized characters do not break a run.
pub open spec fn folded_program(s: Seq<char>) -> Seq<Instr>
    decreases s.len(),
{
    if s.len() == 0 {
        seq![]
    } else {
        let p = folded_program(s.drop_last());
        match unit_instr(s.last()) {
            Some(i) => if foldable(i.kind) && p.len() > 0 && p.last().kind == i.kind {
                p.update(p.len() - 1, Instr { kind: i.kind, arg: p.last().arg + i.arg })
            } else {
                p.push(i)
            },
            None => p,
        }
    }
}

} // verus!
