//! The execution engine: a fetch-decode-execute machine over a wrapping tape.
use vstd::prelude::*;
use vstd::arithmetic::div_mod::{
    lemma_add_mod_noop, lemma_mod_add_multiples_vanish, lemma_mod_twice, lemma_sub_mod_noop,
};
use crate::program::{Instruction, Instr, Kind, model};
use crate::resolver::jumps_in_range;

verus! {

/// Number of cells on the tape.
pub const TAPE_LEN: usize = 64000;

/// The data pointer after moving `delta` cells from `p`, wrapping around
/// both ends of the tape.
pub open spec fn wrap_pointer(p: int, delta: int) -> int {
    (p + delta) % (TAPE_LEN as int)
}

/// The remainder of Rust's truncating division: it takes the sign of `d`.
pub open spec fn trunc_rem(d: int, m: int) -> int {
    if d >= 0 {
        d % m
    } else {
        -((-d) % m)
    }
}

/// The cell value after a cell change of `delta`: the delta is first reduced
/// by truncating remainder modulo 255, then added modulo 256.
pub open spec fn cell_after(c: int, delta: int) -> int {
    (c + trunc_rem(delta, 255)) % 256
}

/// Moving right from the last cell lands where the same move from cell 0
/// minus one step lands, and moving left from cell 0 lands where the same move
/// from the last cell plus one step lands, whatever the size of the move; in
/// particular one step right from the last cell reaches cell 0 and one step
/// left from cell 0 reaches the last cell.
pub proof fn lemma_pointer_wraps_at_ends(d: int)
    ensures
        wrap_pointer(TAPE_LEN - 1, d + 1) == wrap_pointer(0, d),
        wrap_pointer(0, d - 1) == wrap_pointer(TAPE_LEN - 1, d),
        wrap_pointer(TAPE_LEN - 1, 1) == 0,
        wrap_pointer(0, -1) == TAPE_LEN - 1,
{
    assert(TAPE_LEN - 1 + (d + 1) == TAPE_LEN + d);
    lemma_mod_add_multiples_vanish(d, TAPE_LEN as int);
    lemma_mod_add_multiples_vanish(d - 1, TAPE_LEN as int);
}

/// A folded move by `a + b` lands where a move by `a` followed by a move by
/// `b` lands, and every move keeps the pointer on the tape.
pub proof fn lemma_moves_compose(p: int, a: int, b: int)
    requires
        0 <= p < TAPE_LEN,
    ensures
        wrap_pointer(wrap_pointer(p, a), b) == wrap_pointer(p, a + b),
        0 <= wrap_pointer(p, a) < TAPE_LEN,
{
    let n = TAPE_LEN as int;
    lemma_add_mod_noop(p + a, b, n);
    lemma_add_mod_noop((p + a) % n, b, n);
    lemma_mod_twice(p + a, n);
}

/// A single increment takes 255 to 0 and a single decrement takes 0 to 255;
/// on every other value they add or subtract one.
pub proof fn lemma_cell_wraps(c: int)
    requires
        0 <= c <= 255,
    ensures
        cell_after(c, 1) == (if c == 255 { 0 } else { c + 1 }),
        cell_after(c, -1) == (if c == 0 { 255 } else { c - 1 }),
{
}

/// Moves the data pointer `dptr` by `delta`, reducing the delta modulo the
/// tape length first and then bringing the sum back into range.
pub fn move_pointer(dptr: usize, delta: i64) -> (r: usize)
    requires
        dptr < TAPE_LEN,
    ensures
        r == wrap_pointer(dptr as int, delta as int),
        r < TAPE_LEN,
{
    let ghost n = TAPE_LEN as int;
    if delta >= 0 {
        let m: usize = (delta as u64 % (TAPE_LEN as u64)) as usize;
        proof {
            lemma_add_mod_noop(dptr as int, delta as int, n);
            lemma_add_mod_noop(dptr as int, m as int, n);
            assert((m as int) % n == m);
            assert((dptr as int) % n == dptr);
        }
        (dptr + m) % TAPE_LEN
    } else {
        let mag: u64 = (-(delta + 1)) as u64 + 1;
        let m: usize = (mag % (TAPE_LEN as u64)) as usize;
        proof {
            lemma_sub_mod_noop(dptr as int, mag as int, n);
            lemma_sub_mod_noop(dptr as int, m as int, n);
            lemma_mod_add_multiples_vanish(dptr as int - m, n);
            assert((m as int) % n == m);
            assert((dptr as int) % n == dptr);
        }
        (dptr + TAPE_LEN - m) % TAPE_LEN
    }
}

/// Applies a cell change of `delta` to the cell value `c`.
pub fn add_to_cell(c: u8, delta: i64) -> (r: u8)
    ensures
        r == cell_after(c as int, delta as int),
{
    if delta >= 0 {
        let m: u16 = (delta as u64 % 255) as u16;
        ((c as u16 + m) % 256) as u8
    } else {
        let mag: u64 = (-(delta + 1)) as u64 + 1;
        let m: u16 = (mag % 255) as u16;
        proof {
            lemma_mod_add_multiples_vanish(c as int - m, 256);
        }
        ((c as u16 + 256 - m) % 256) as u8
    }
}

/// The model of a machine: the tape, the data pointer and the instruction
/// pointer.
pub struct MState {
    pub tape: Seq<u8>,
    pub dptr: int,
    pub iptr: int,
}

/// A state the engine can be in: a full tape and an in-range data pointer.
pub open spec fn state_ok(s: MState) -> bool {
    &&& s.tape.len() == TAPE_LEN
    &&& 0 <= s.dptr < TAPE_LEN
    &&& 0 <= s.iptr
}

/// Every cell zero, both pointers at 0.
pub open spec fn initial_state() -> MState {
    MState { tape: Seq::new(TAPE_LEN as nat, |i: int| 0u8), dptr: 0, iptr: 0 }
}

/// What one step asks of the world around the machine.
#[derive(Clone, Copy, Debug, PartialEq, Eq, Structural)]
pub enum Action {
    /// An instruction ran with no effect outside the machine.
    Continue,
    /// An output instruction ran and emitted this byte.
    Output(u8),
    /// The current instruction reads input: hand it over with `store_input`.
    ReadInput,
    /// The instruction pointer has reached the end of the program.
    Halted,
}

/// What the next step does, given the program and the state.
pub open spec fn next_action(p: Seq<Instr>, s: MState) -> Action {
    if s.iptr >= p.len() {
        Action::Halted
    } else {
        match p[s.iptr].kind {
            Kind::Output => Action::Output(s.tape[s.dptr]),
            Kind::Input => Action::ReadInput,
            _ => Action::Continue,
        }
    }
}

/// The state after running the current instruction, for every kind but input.
pub open spec fn exec_step(p: Seq<Instr>, s: MState) -> MState {
    let ins = p[s.iptr];
    let cell = s.tape[s.dptr];
    match ins.kind {
        Kind::MovePtr => MState { dptr: wrap_pointer(s.dptr, ins.arg), iptr: s.iptr + 1, ..s },
        Kind::AddCell => MState {
            tape: s.tape.update(s.dptr, cell_after(cell as int, ins.arg) as u8),
            iptr: s.iptr + 1,
            ..s
        },
        Kind::LoopOpen => MState { iptr: if cell == 0 { ins.arg + 1 } else { s.iptr + 1 }, ..s },
        Kind::LoopClose => MState { iptr: if cell != 0 { ins.arg + 1 } else { s.iptr + 1 }, ..s },
        _ => MState { iptr: s.iptr + 1, ..s },
    }
}

/// The state after an input instruction received `v`: the byte read is
/// stored in the current cell, and at the end of input a 0 is stored.
pub open spec fn input_step(s: MState, v: Option<u8>) -> MState {
    let b: u8 = match v {
        Some(b) => b,
        None => 0,
    };
    MState { tape: s.tape.update(s.dptr, b), iptr: s.iptr + 1, ..s }
}

/// The output of at most `fuel` steps from `s`, with `input` as the bytes
/// still to be read, and whether the program halted within them.
pub open spec fn run_spec(p: Seq<Instr>, s: MState, input: Seq<u8>, fuel: nat) -> (Seq<u8>, bool)
    decreases fuel,
{
    if s.iptr >= p.len() {
        (seq![], true)
    } else if fuel == 0 {
        (seq![], false)
    } else {
        match next_action(p, s) {
            Action::ReadInput => if input.len() > 0 {
                run_spec(p, input_step(s, Some(input[0])), input.drop_first(), (fuel - 1) as nat)
            } else {
                run_spec(p, input_step(s, None), input, (fuel - 1) as nat)
            },
            Action::Output(b) => {
                let rest = run_spec(p, exec_step(p, s), input, (fuel - 1) as nat);
                (seq![b] + rest.0, rest.1)
            },
            _ => run_spec(p, exec_step(p, s), input, (fuel - 1) as nat),
        }
    }
}

/// A machine: the tape, the data pointer and the instruction pointer.
pub struct Machine {
    tape: Vec<u8>,
    dptr: usize,
    iptr: usize,
}

impl View for Machine {
    type V = MState;

    closed spec fn view(&self) -> MState {
        MState { tape: self.tape@, dptr: self.dptr as int, iptr: self.iptr as int }
    }
}

impl Machine {
    /// A machine at the start of a run.
    pub fn new() -> (m: Machine)
        ensures
            m@ == initial_state(),
            state_ok(m@),
    {
        let tape: Vec<u8> = vec![0u8; TAPE_LEN];
        let m = Machine { tape, dptr: 0, iptr: 0 };
        assert(m@.tape =~= initial_state().tape);
        m
    }

    /// The value of the current cell.
    pub fn cell(&self) -> (r: u8)
        requires
            state_ok(self@),
        ensures
            r == self@.tape[self@.dptr],
    {
        self.tape[self.dptr]
    }

    /// The value of the cell at index `i`.
    pub fn cell_at(&self, i: usize) -> (r: u8)
        requires
            state_ok(self@),
            i < TAPE_LEN,
        ensures
            r == self@.tape[i as int],
    {
        self.tape[i]
    }

    /// The data pointer.
    pub fn data_pointer(&self) -> (r: usize)
        ensures
            r == self@.dptr,
    {
        self.dptr
    }

    /// The instruction pointer.
    pub fn instruction_pointer(&self) -> (r: usize)
        ensures
            r == self@.iptr,
    {
        self.iptr
    }

    /// Runs the current instruction of `program`, unless the program has
    /// halted or the instruction reads input; says which of these happened.
    pub fn step(&mut self, program: &Vec<Instruction>) -> (a: Action)
        requires
            state_ok(old(self)@),
            jumps_in_range(model(program@)),
        ensures
            a == next_action(model(program@), old(self)@),
            final(self)@ == match a {
                Action::Halted | Action::ReadInput => old(self)@,
                _ => exec_step(model(program@), old(self)@),
            },
            state_ok(final(self)@),
    {
        if self.iptr >= program.len() {
            return Action::Halted;
        }
        let ins = program[self.iptr];
        assert(model(program@)[self.iptr as int] == ins@);
        match ins.kind {
            Kind::Input => {
                return Action::ReadInput;
            },
            Kind::MovePtr => {
                self.dptr = move_pointer(self.dptr, ins.operand);
            },
            Kind::AddCell => {
                let c = add_to_cell(self.tape[self.dptr], ins.operand);
                self.tape.set(self.dptr, c);
            },
            Kind::LoopOpen => {
                if self.tape[self.dptr] == 0 {
                    self.iptr = ins.operand as usize + 1;
                    return Action::Continue;
                }
            },
            Kind::LoopClose => {
                if self.tape[self.dptr] != 0 {
                    self.iptr = ins.operand as usize + 1;
                    return Action::Continue;
                }
            },
            Kind::Output => {
                let b = self.tape[self.dptr];
                self.iptr = self.iptr + 1;
                return Action::Output(b);
            },
            Kind::Nop => {},
        }
        self.iptr = self.iptr + 1;
        Action::Continue
    }

    /// Completes an input instruction with `v`, the byte read, or `None` at
    /// the end of input.
    /// Where the current instruction does not read input, nothing changes.
    pub fn store_input(&mut self, program: &Vec<Instruction>, v: Option<u8>)
        requires
            state_ok(old(self)@),
        ensures
            final(self)@ == if next_action(model(program@), old(self)@) == Action::ReadInput {
                input_step(old(self)@, v)
            } else {
                old(self)@
            },
            state_ok(final(self)@),
    {
        if self.iptr < program.len() {
            let ins = program[self.iptr];
            assert(model(program@)[self.iptr as int] == ins@);
            if ins.kind == Kind::Input {
                let b: u8 = match v {
                    Some(b) => b,
                    None => 0,
                };
                self.tape.set(self.dptr, b);
                self.iptr = self.iptr + 1;
            }
        }
    }
}

/// What a bounded run produced.
pub struct RunResult {
    /// The bytes emitted, in order.
    pub output: Vec<u8>,
    /// Whether the program reached its end within the step budget.
    pub halted: bool,
}

/// Runs `program` from the initial state for at most `fuel` steps, reading
/// `input` byte by byte.
pub fn run(program: &Vec<Instruction>, input: &Vec<u8>, fuel: u64) -> (r: RunResult)
    requires
        jumps_in_range(model(program@)),
    ensures
        (r.output@, r.halted) == run_spec(model(program@), initial_state(), input@, fuel as nat),
{
    let ghost p = model(program@);
    let ghost total = run_spec(p, initial_state(), input@, fuel as nat);
    let mut m = Machine::new();
    let mut out: Vec<u8> = Vec::new();
    let mut pos: usize = 0;
    let mut left: u64 = fuel;
    assert(input@.subrange(0, input@.len() as int) == input@);
    while left > 0
        invariant
            p == model(program@),
            jumps_in_range(p),
            state_ok(m@),
            pos <= input@.len(),
            total == run_spec(p, initial_state(), input@, fuel as nat),
            ({
                let rest = run_spec(p, m@, input@.subrange(pos as int, input@.len() as int), left as nat);
                total.0 == out@ + rest.0 && total.1 == rest.1
            }),
        ensures
            left == 0 || m@.iptr >= p.len(),
        decreases left,
    {
        let ghost inp = input@.subrange(pos as int, input@.len() as int);
        let ghost before = m@;
        let ghost out_before = out@;
        let a = m.step(program);
        match a {
            Action::Halted => {
                assert(out@ + seq![] =~= out@);
                break;
            },
            Action::ReadInput => {
                if pos < input.len() {
                    let b = input[pos];
                    m.store_input(program, Some(b));
                    pos = pos + 1;
                    assert(inp.drop_first() =~= input@.subrange(pos as int, input@.len() as int));
                } else {
                    m.store_input(program, None);
                }
            },
            Action::Output(b) => {
                out.push(b);
                assert(out@ == out_before + seq![b]);
                let ghost rest = run_spec(p, m@, inp, (left - 1) as nat);
                assert(out_before + (seq![b] + rest.0) =~= out@ + rest.0);
            },
            Action::Continue => {},
        }
        left = left - 1;
    }
    let halted = m.instruction_pointer() >= program.len();
    proof {
        let rest = run_spec(p, m@, input@.subrange(pos as int, input@.len() as int), left as nat);
        assert(out@ + rest.0 =~= out@);
    }
    RunResult { output: out, halted }
}

} // verus!
