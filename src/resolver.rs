//! The jump table resolver: pairs every loop-open with its loop-close.
use vstd::prelude::*;
use crate::program::{Instruction, Instr, Kind, model};

verus! {

/// A structural error in a program's brackets, with the index of the
/// offending instruction.
#[derive(Clone, Copy, Debug, PartialEq, Eq, Structural)]
pub enum BracketError {
    /// A loop-close with no unmatched loop-open before it.
    UnmatchedLoopClose(usize),
    /// The earliest loop-open that no loop-close matches.
    UnmatchedLoopOpen(usize),
}

/// How a single instruction changes the nesting depth.
pub open spec fn nesting(i: Instr) -> int {
    if i.kind == Kind::LoopOpen {
        1
    } else if i.kind == Kind::LoopClose {
        -1
    } else {
        0
    }
}

/// Loop-opens minus loop-closes among the first `n` instructions.
pub open spec fn depth(p: Seq<Instr>, n: int) -> int
    decreases n,
{
    if n <= 0 {
        0
    } else {
        depth(p, n - 1) + nesting(p[n - 1])
    }
}

/// No prefix of length at most `n` has more closes than opens.
pub open spec fn never_negative(p: Seq<Instr>, n: int) -> bool {
    forall|k: int| 0 <= k <= n ==> depth(p, k) >= 0
}

/// Every bracket of `p` has a partner.
pub open spec fn balanced(p: Seq<Instr>) -> bool {
    never_negative(p, p.len() as int) && depth(p, p.len() as int) == 0
}

/// The loop-open at `i` and the loop-close at `j` match: `j` is the first
/// point after `i` at which the nesting falls back to what it was before `i`.
pub open spec fn is_partner(p: Seq<Instr>, i: int, j: int) -> bool {
    &&& 0 <= i < j < p.len()
    &&& p[i].kind == Kind::LoopOpen
    &&& p[j].kind == Kind::LoopClose
    &&& depth(p, j + 1) == depth(p, i)
    &&& forall|k: int| i < k <= j ==> depth(p, k) > depth(p, i)
}

/// The loop-close at `j` is the first one with no loop-open left to match.
pub open spec fn unmatched_close_at(p: Seq<Instr>, j: int) -> bool {
    &&& 0 <= j < p.len()
    &&& p[j].kind == Kind::LoopClose
    &&& depth(p, j) == 0
    &&& never_negative(p, j)
}

/// No loop-close is unmatched, and the loop-open at `i` is the earliest one
/// that stays open to the end.
pub open spec fn unmatched_open_at(p: Seq<Instr>, i: int) -> bool {
    &&& never_negative(p, p.len() as int)
    &&& 0 <= i < p.len()
    &&& p[i].kind == Kind::LoopOpen
    &&& depth(p, i) == 0
    &&& forall|k: int| i < k <= p.len() ==> depth(p, k) > 0
}

/// Each bracket's operand names its partner.
pub open spec fn jumps_resolved(old_p: Seq<Instr>, p: Seq<Instr>) -> bool {
    &&& forall|k: int|
        0 <= k < p.len() && #[trigger] p[k].kind == Kind::LoopOpen ==> is_partner(
            old_p,
            k,
            p[k].arg,
        )
    &&& forall|k: int|
        0 <= k < p.len() && #[trigger] p[k].kind == Kind::LoopClose ==> is_partner(
            old_p,
            p[k].arg,
            k,
        )
}

/// Every bracket's operand is an index into the program.
pub open spec fn jumps_in_range(p: Seq<Instr>) -> bool {
    forall|k: int|
        0 <= k < p.len() && (#[trigger] p[k].kind == Kind::LoopOpen || p[k].kind
            == Kind::LoopClose) ==> 0 <= p[k].arg < p.len()
}

/// What resolving the brackets of `before` yields: the resolved sequence,
/// or the error that the first structural fault gives.
pub open spec fn resolves_to(before: Seq<Instr>, after: Result<Seq<Instr>, BracketError>) -> bool {
    match after {
        Ok(q) => {
            &&& balanced(before)
            &&& q.len() == before.len()
            &&& forall|k: int|
                0 <= k < q.len() ==> (#[trigger] q[k]).kind == before[k].kind && (nesting(
                    before[k],
                ) == 0 ==> q[k].arg == before[k].arg)
            &&& jumps_resolved(before, q)
        },
        Err(BracketError::UnmatchedLoopClose(j)) => unmatched_close_at(before, j as int),
        Err(BracketError::UnmatchedLoopOpen(i)) => unmatched_open_at(before, i as int),
    }
}

proof fn lemma_depth_step(p: Seq<Instr>, n: int)
    requires
        0 <= n,
    ensures
        depth(p, n + 1) == depth(p, n) + nesting(p[n]),
{
}

/// A resolved sequence sends every jump to an index inside it.
pub proof fn lemma_resolved_jumps_in_range(before: Seq<Instr>, q: Seq<Instr>)
    requires
        resolves_to(before, Ok(q)),
    ensures
        jumps_in_range(q),
{
    assert forall|k: int|
        0 <= k < q.len() && (#[trigger] q[k].kind == Kind::LoopOpen || q[k].kind
            == Kind::LoopClose) implies 0 <= q[k].arg < q.len() by {
        if q[k].kind == Kind::LoopOpen {
            assert(is_partner(before, k, q[k].arg));
        } else {
            assert(is_partner(before, q[k].arg, k));
        }
    }
}

/// Brackets have one partner each.
pub proof fn lemma_partner_unique(p: Seq<Instr>, a: int, b: int, c: int, d: int)
    requires
        is_partner(p, a, b),
        is_partner(p, c, d),
        a == c || b == d,
    ensures
        a == c && b == d,
{
    if a == c && b < d {
        assert(depth(p, b + 1) > depth(p, a));
    } else if a == c && d < b {
        assert(depth(p, d + 1) > depth(p, a));
    } else if b == d && a < c {
        assert(depth(p, c) > depth(p, a));
    } else if b == d && c < a {
        assert(depth(p, a) > depth(p, c));
    }
}

/// `n` loop-opens followed by `n` loop-closes.
pub open spec fn nested(n: nat) -> Seq<Instr> {
    Seq::new(
        2 * n,
        |k: int|
            if k < n {
                Instr { kind: Kind::LoopOpen, arg: 0 }
            } else {
                Instr { kind: Kind::LoopClose, arg: 0 }
            },
    )
}

proof fn lemma_nested_depth(n: nat, m: int)
    requires
        0 <= m <= 2 * n,
    ensures
        depth(nested(n), m) == if m <= n { m } else { 2 * n - m },
    decreases m,
{
    if m > 0 {
        lemma_nested_depth(n, m - 1);
    }
}

/// Brackets nested to any depth all resolve: `n` loop-opens followed by `n`
/// loop-closes are balanced, and the `k`-th open pairs with the `k`-th close
/// from the end.
pub proof fn lemma_nested_brackets_resolve(n: nat, q: Seq<Instr>)
    ensures
        balanced(nested(n)),
        resolves_to(nested(n), Ok(q)) ==> forall|k: int|
            0 <= k < n ==> (#[trigger] q[k]).arg == 2 * n - 1 - k && q[2 * n - 1 - k].arg == k,
{
    let p = nested(n);
    assert forall|m: int| 0 <= m <= p.len() implies depth(p, m) >= 0 by {
        lemma_nested_depth(n, m);
    }
    lemma_nested_depth(n, 2 * n as int);
    if resolves_to(p, Ok(q)) {
        assert forall|k: int| 0 <= k < n implies (#[trigger] q[k]).arg == 2 * n - 1 - k && q[2 * n
            - 1 - k].arg == k by {
            let j: int = 2 * n - 1 - k;
            assert(q[k].kind == p[k].kind);
            assert(q[j].kind == p[j].kind);
            lemma_nested_depth(n, k);
            lemma_nested_depth(n, j + 1);
            assert forall|m: int| k < m <= j implies depth(p, m) > depth(p, k) by {
                lemma_nested_depth(n, m);
            }
            assert(is_partner(p, k, j));
            assert(is_partner(p, k, q[k].arg));
            assert(is_partner(p, q[j].arg, j));
            lemma_partner_unique(p, k, j, k, q[k].arg);
            lemma_partner_unique(p, k, j, q[j].arg, j);
        }
    }
}

/// Resolves the loop brackets of `program` in one left-to-right scan,
/// writing into each bracket's operand the index of its partner. Kinds, and
/// the operands of all other instructions, are left as they were.
pub fn build_jump_table(program: &mut Vec<Instruction>) -> (r: Result<(), BracketError>)
    requires
        old(program)@.len() <= i64::MAX,
    ensures
        final(program)@.len() == old(program)@.len(),
        forall|k: int|
            0 <= k < old(program)@.len() ==> (#[trigger] model(final(program)@)[k]).kind == model(
                old(program)@,
            )[k].kind,
        r is Ok <==> balanced(model(old(program)@)),
        resolves_to(
            model(old(program)@),
            match r {
                Ok(_) => Ok(model(final(program)@)),
                Err(e) => Err(e),
            },
        ),
{
    let ghost p0 = model(program@);
    let mut stack: Vec<usize> = Vec::new();
    let mut j: usize = 0;
    while j < program.len()
        invariant
            p0 == model(old(program)@),
            p0.len() <= i64::MAX,
            j <= program@.len() == p0.len(),
            forall|k: int|
                0 <= k < p0.len() ==> (#[trigger] model(program@)[k]).kind == p0[k].kind && (
                nesting(p0[k]) == 0 ==> model(program@)[k].arg == p0[k].arg),
            never_negative(p0, j as int),
            stack@.len() == depth(p0, j as int),
            forall|t: int|
                0 <= t < stack@.len() ==> {
                    &&& #[trigger] stack@[t] < j
                    &&& p0[stack@[t] as int].kind == Kind::LoopOpen
                    &&& depth(p0, stack@[t] as int) == t
                    &&& forall|m: int| stack@[t] < m <= j ==> depth(p0, m) > t
                },
            forall|k: int|
                0 <= k < j && #[trigger] p0[k].kind == Kind::LoopOpen ==> (forall|m: int|
                    k < m <= j ==> depth(p0, m) > depth(p0, k)) || is_partner(
                    p0,
                    k,
                    model(program@)[k].arg,
                ),
            forall|k: int|
                0 <= k < j && #[trigger] p0[k].kind == Kind::LoopClose ==> is_partner(
                    p0,
                    model(program@)[k].arg,
                    k,
                ),
        decreases p0.len() - j,
    {
        proof {
            lemma_depth_step(p0, j as int);
        }
        let ins = program[j];
        assert(model(program@)[j as int] == ins@);
        match ins.kind {
            Kind::LoopOpen => {
                stack.push(j);
                assert forall|k: int|
                    0 <= k < j + 1 && #[trigger] p0[k].kind == Kind::LoopOpen implies (forall|
                        m: int,
                    | k < m <= j + 1 ==> depth(p0, m) > depth(p0, k)) || is_partner(
                        p0,
                        k,
                        model(program@)[k].arg,
                    ) by {
                    if k < j && !is_partner(p0, k, model(program@)[k].arg) {
                        assert(depth(p0, j as int) > depth(p0, k));
                    }
                }
            },
            Kind::LoopClose => {
                if stack.len() == 0 {
                    assert(depth(p0, j + 1) < 0);
                    return Err(BracketError::UnmatchedLoopClose(j));
                }
                let top = stack.pop().unwrap();
                let ghost d = depth(p0, j as int);
                let ghost before = model(program@);
                assert(is_partner(p0, top as int, j as int));
                program.set(top, Instruction { kind: Kind::LoopOpen, operand: j as i64 });
                program.set(j, Instruction { kind: Kind::LoopClose, operand: top as i64 });
                assert(model(program@) =~= before.update(
                    top as int,
                    Instr { kind: Kind::LoopOpen, arg: j as int },
                ).update(j as int, Instr { kind: Kind::LoopClose, arg: top as int }));
                assert forall|k: int|
                    0 <= k < j + 1 && #[trigger] p0[k].kind == Kind::LoopOpen implies (forall|
                        m: int,
                    | k < m <= j + 1 ==> depth(p0, m) > depth(p0, k)) || is_partner(
                        p0,
                        k,
                        model(program@)[k].arg,
                    ) by {
                    if k != top && !is_partner(p0, k, model(program@)[k].arg) {
                        assert(model(program@)[k] == before[k]);
                        assert(forall|m: int| k < m <= j ==> depth(p0, m) > depth(p0, k));
                        if depth(p0, k) == d - 1 {
                            if k < top {
                                assert(depth(p0, top as int) > depth(p0, k));
                            } else {
                                assert(depth(p0, k) > d - 1);
                            }
                        }
                    }
                }
            },
            _ => {},
        }
        j = j + 1;
    }
    if stack.len() > 0 {
        return Err(BracketError::UnmatchedLoopOpen(stack[0]));
    }
    proof {
        let q = model(program@);
        assert forall|k: int|
            0 <= k < q.len() && #[trigger] q[k].kind == Kind::LoopOpen implies is_partner(
                p0,
                k,
                q[k].arg,
            ) by {
            assert(p0[k].kind == Kind::LoopOpen);
            assert(depth(p0, p0.len() as int) <= depth(p0, k));
        }
        assert forall|k: int|
            0 <= k < q.len() && #[trigger] q[k].kind == Kind::LoopClose implies is_partner(
                p0,
                q[k].arg,
                k,
            ) by {
            assert(p0[k].kind == Kind::LoopClose);
        }
    }
    Ok(())
}

} // verus!
