//! The folded program behaves as the unit-step program does.
use vstd::prelude::*;
use crate::program::{Instr, Kind, foldable, unit_instr, unit_program, folded_program};
use crate::resolver::{depth, nesting, is_partner, resolves_to, lemma_partner_unique};
use crate::engine::{
    MState, state_ok, wrap_pointer, run_spec, exec_step, next_action, Action,
    initial_state, lemma_moves_compose, TAPE_LEN,
};
use vstd::arithmetic::div_mod::{lemma_add_mod_noop_right, lemma_small_mod};

verus! {

/// Whether `i` joins the last instruction of `p` in a fold.
spec fn merges(p: Seq<Instr>, i: Instr) -> bool {
    foldable(i.kind) && p.len() > 0 && p.last().kind == i.kind
}

/// Folding applied to an instruction sequence.
spec fn fold_seq(u: Seq<Instr>) -> Seq<Instr>
    decreases u.len(),
{
    if u.len() == 0 {
        seq![]
    } else {
        let p = fold_seq(u.drop_last());
        let i = u.last();
        if merges(p, i) {
            p.update(p.len() - 1, Instr { kind: i.kind, arg: p.last().arg + i.arg })
        } else {
            p.push(i)
        }
    }
}

/// For each instruction of `fold_seq(u)`, the index in `u` where its run starts.
spec fn starts(u: Seq<Instr>) -> Seq<int>
    decreases u.len(),
{
    if u.len() == 0 {
        seq![]
    } else if merges(fold_seq(u.drop_last()), u.last()) {
        starts(u.drop_last())
    } else {
        starts(u.drop_last()).push((u.len() - 1) as int)
    }
}

/// Where the run of folded instruction `i` starts in `u`; `u.len()` past the end.
spec fn pos(u: Seq<Instr>, i: int) -> int {
    if 0 <= i < starts(u).len() {
        starts(u)[i]
    } else {
        u.len() as int
    }
}

/// Where the run of folded instruction `i` ends in `u`.
spec fn run_end(u: Seq<Instr>, i: int) -> int {
    pos(u, i + 1)
}

/// The sum of the arguments of `u[a..b]`.
spec fn arg_sum(u: Seq<Instr>, a: int, b: int) -> int
    decreases b - a,
{
    if b <= a {
        0
    } else {
        arg_sum(u, a, b - 1) + u[b - 1].arg
    }
}

/// Every move or cell change is a single step.
spec fn unit_shaped(u: Seq<Instr>) -> bool {
    forall|k: int| 0 <= k < u.len() && foldable(#[trigger] u[k].kind) ==> (u[k].arg == 1 || u[k].arg == -1)
}

proof fn lemma_unit_program_shaped(s: Seq<char>)
    ensures
        unit_shaped(unit_program(s)),
    decreases s.len(),
{
    if s.len() > 0 {
        lemma_unit_program_shaped(s.drop_last());
    }
}

proof fn lemma_folded_is_fold_of_unit(s: Seq<char>)
    ensures
        folded_program(s) == fold_seq(unit_program(s)),
    decreases s.len(),
{
    if s.len() > 0 {
        lemma_folded_is_fold_of_unit(s.drop_last());
        let u = unit_program(s.drop_last());
        match unit_instr(s.last()) {
            Some(i) => {
                assert(u.push(i).drop_last() =~= u);
            },
            None => {},
        }
    }
}

proof fn lemma_arg_sum_prefix(u: Seq<Instr>, x: Instr, a: int, b: int)
    requires
        0 <= a,
        b <= u.len(),
    ensures
        arg_sum(u.push(x), a, b) == arg_sum(u, a, b),
    decreases b - a,
{
    if b > a {
        lemma_arg_sum_prefix(u, x, a, b - 1);
        assert(u.push(x)[b - 1] == u[b - 1]);
    }
}

/// What holds of the run of folded instruction `i` in `u`.
spec fn run_shape(u: Seq<Instr>, f: Seq<Instr>, i: int) -> bool {
    &&& 0 <= pos(u, i)
    &&& pos(u, i) < run_end(u, i)
    &&& run_end(u, i) <= u.len()
    &&& !foldable(f[i].kind) ==> run_end(u, i) == pos(u, i) + 1 && f[i] == u[pos(u, i)]
    &&& foldable(f[i].kind) ==> f[i].arg == arg_sum(u, pos(u, i), run_end(u, i))
}

/// How the runs of `fold_seq(u)` lie in `u`.
spec fn fold_structure(u: Seq<Instr>) -> bool {
    let f = fold_seq(u);
    &&& starts(u).len() == f.len()
    &&& (u.len() > 0 ==> f.len() > 0)
    &&& pos(u, 0) == 0
    &&& forall|i: int| 0 <= i < f.len() ==> run_shape(u, f, i) && #[trigger] f[i] == f[i]
    &&& forall|i: int, k: int|
        0 <= i < f.len() && pos(u, i) <= k < run_end(u, i) ==> (#[trigger] u[k]).kind == (
        #[trigger] f[i]).kind
}

proof fn lemma_fold_structure_merge(w: Seq<Instr>, x: Instr)
    requires
        fold_structure(w),
        merges(fold_seq(w), x),
    ensures
        fold_structure(w.push(x)),
{
    let u = w.push(x);
    assert(u.drop_last() =~= w);
    let fw = fold_seq(w);
    let f = fold_seq(u);
    let n = fw.len() - 1;
    assert(f == fw.update(n, Instr { kind: x.kind, arg: fw[n].arg + x.arg }));
    assert(starts(u) == starts(w));
    assert(forall|i: int| 0 <= i < n + 1 ==> pos(u, i) == pos(w, i));
    assert(pos(u, n + 1) == u.len());
    assert(pos(w, n + 1) == w.len());
    assert(run_shape(w, fw, n) && fw[n] == fw[n]);
    lemma_arg_sum_prefix(w, x, pos(w, n), w.len() as int);
    assert forall|i: int| 0 <= i < f.len() implies run_shape(u, f, i) && #[trigger] f[i] == f[i] by {
        assert(run_shape(w, fw, i) && fw[i] == fw[i]);
        if i < n {
            assert(fw[i] == f[i]);
            assert(pos(u, i + 1) == pos(w, i + 1));
            lemma_arg_sum_prefix(w, x, pos(w, i), pos(w, i + 1));
        }
    }
    assert forall|i: int, k: int|
        0 <= i < f.len() && pos(u, i) <= k < run_end(u, i) implies (#[trigger] u[k]).kind == (
        #[trigger] f[i]).kind by {
        assert(run_shape(w, fw, i) && fw[i] == fw[i]);
        if i < n {
            assert(pos(u, i + 1) == pos(w, i + 1));
            assert(w[k] == u[k]);
            assert(fw[i] == f[i]);
        } else if k < w.len() {
            assert(w[k] == u[k]);
            assert(w[k].kind == fw[n].kind);
        }
    }
}

proof fn lemma_fold_structure_push(w: Seq<Instr>, x: Instr)
    requires
        fold_structure(w),
        !merges(fold_seq(w), x),
    ensures
        fold_structure(w.push(x)),
{
    let u = w.push(x);
    assert(u.drop_last() =~= w);
    let fw = fold_seq(w);
    let f = fold_seq(u);
    let n = fw.len() as int;
    assert(f == fw.push(x));
    assert(starts(u) == starts(w).push(w.len() as int));
    assert(forall|i: int| 0 <= i <= n ==> pos(u, i) == pos(w, i));
    assert(pos(u, n + 1) == u.len());
    assert(arg_sum(u, w.len() as int, u.len() as int) == x.arg) by {
        assert(arg_sum(u, w.len() as int, w.len() as int) == 0);
    }
    assert forall|i: int| 0 <= i < f.len() implies run_shape(u, f, i) && #[trigger] f[i] == f[i] by {
        if i < n {
            assert(run_shape(w, fw, i) && fw[i] == fw[i]);
            assert(fw[i] == f[i]);
            assert(pos(u, i + 1) == pos(w, i + 1));
            lemma_arg_sum_prefix(w, x, pos(w, i), pos(w, i + 1));
        } else {
            assert(pos(u, n) == w.len());
            assert(u[w.len() as int] == x);
        }
    }
    assert forall|i: int, k: int|
        0 <= i < f.len() && pos(u, i) <= k < run_end(u, i) implies (#[trigger] u[k]).kind == (
        #[trigger] f[i]).kind by {
        if i < n {
            assert(run_shape(w, fw, i) && fw[i] == fw[i]);
            assert(pos(u, i + 1) == pos(w, i + 1));
            assert(w[k] == u[k]);
            assert(fw[i] == f[i]);
        }
    }
}

proof fn lemma_fold_structure(u: Seq<Instr>)
    ensures
        fold_structure(u),
    decreases u.len(),
{
    if u.len() > 0 {
        let w = u.drop_last();
        lemma_fold_structure(w);
        assert(w.push(u.last()) =~= u);
        if merges(fold_seq(w), u.last()) {
            lemma_fold_structure_merge(w, u.last());
        } else {
            lemma_fold_structure_push(w, u.last());
        }
    } else {
        assert(pos(u, 0) == 0);
    }
}

proof fn lemma_depth_in_run(u: Seq<Instr>, i: int, m: int)
    requires
        fold_structure(u),
        0 <= i < fold_seq(u).len(),
        pos(u, i) <= m <= run_end(u, i),
    ensures
        nesting(fold_seq(u)[i]) == 0 ==> depth(u, m) == depth(u, pos(u, i)),
        m == run_end(u, i) ==> depth(u, m) == depth(u, pos(u, i)) + nesting(fold_seq(u)[i]),
    decreases m - pos(u, i),
{
    let f = fold_seq(u);
    assert(run_shape(u, f, i) && f[i] == f[i]);
    if m > pos(u, i) {
        lemma_depth_in_run(u, i, m - 1);
        assert(u[m - 1].kind == f[i].kind);
        if !foldable(f[i].kind) {
            assert(m == pos(u, i) + 1);
        }
    }
}

proof fn lemma_depth_matches(u: Seq<Instr>, i: int)
    requires
        fold_structure(u),
        0 <= i <= fold_seq(u).len(),
    ensures
        depth(u, pos(u, i)) == depth(fold_seq(u), i),
    decreases i,
{
    if i > 0 {
        let f = fold_seq(u);
        assert(run_shape(u, f, i - 1) && f[i - 1] == f[i - 1]);
        lemma_depth_matches(u, i - 1);
        lemma_depth_in_run(u, i - 1, run_end(u, i - 1));
    }
}

proof fn lemma_pos_increasing(u: Seq<Instr>, i: int, j: int)
    requires
        fold_structure(u),
        0 <= i < j <= fold_seq(u).len(),
    ensures
        pos(u, i) < pos(u, j),
    decreases j - i,
{
    let f = fold_seq(u);
    assert(run_shape(u, f, i) && f[i] == f[i]);
    if j > i + 1 {
        lemma_pos_increasing(u, i + 1, j);
    }
}

proof fn lemma_partner_inside(u: Seq<Instr>, i: int, j: int, jj: int)
    requires
        fold_structure(u),
        is_partner(fold_seq(u), i, j),
        i < jj <= j,
    ensures
        forall|m: int| pos(u, i) < m <= pos(u, jj) ==> #[trigger] depth(u, m) > depth(u, pos(u, i)),
    decreases jj - i,
{
    let f = fold_seq(u);
    lemma_depth_matches(u, i);
    assert(run_shape(u, f, i) && f[i] == f[i]);
    if jj == i + 1 {
        lemma_depth_matches(u, i + 1);
    } else {
        lemma_partner_inside(u, i, j, jj - 1);
        let k = jj - 1;
        assert(run_shape(u, f, k) && f[k] == f[k]);
        lemma_depth_matches(u, k);
        lemma_depth_matches(u, jj);
        assert forall|m: int| pos(u, k) < m <= pos(u, jj) implies #[trigger] depth(u, m) > depth(u, pos(u, i)) by {
            lemma_depth_in_run(u, k, m);
            if nesting(f[k]) != 0 {
                assert(m == pos(u, jj));
            }
        }
    }
}

proof fn lemma_partner_transfer(u: Seq<Instr>, i: int, j: int)
    requires
        fold_structure(u),
        is_partner(fold_seq(u), i, j),
    ensures
        is_partner(u, pos(u, i), pos(u, j)),
        pos(u, j) + 1 == pos(u, j + 1),
        pos(u, i) + 1 == pos(u, i + 1),
{
    let f = fold_seq(u);
    assert(run_shape(u, f, i) && f[i] == f[i]);
    assert(run_shape(u, f, j) && f[j] == f[j]);
    lemma_pos_increasing(u, i, j);
    lemma_depth_matches(u, i);
    lemma_depth_matches(u, j + 1);
    lemma_partner_inside(u, i, j, j);
}

/// The machine state after the first `t` steps through the run of folded
/// instruction `i`, started from `s`.
spec fn run_state(u: Seq<Instr>, i: int, s: MState, t: int) -> MState {
    let sum = arg_sum(u, pos(u, i), pos(u, i) + t);
    if fold_seq(u)[i].kind == Kind::MovePtr {
        MState { dptr: wrap_pointer(s.dptr, sum), iptr: pos(u, i) + t, ..s }
    } else {
        MState {
            tape: s.tape.update(s.dptr, ((s.tape[s.dptr] + sum) % 256) as u8),
            iptr: pos(u, i) + t,
            ..s
        }
    }
}

/// The unit program `ur` and the folded program `fr`, both resolved, come
/// from the unit sequence `u`, and no folded cell change reaches 255.
spec fn sim_setup(u: Seq<Instr>, ur: Seq<Instr>, fr: Seq<Instr>) -> bool {
    &&& fold_structure(u)
    &&& unit_shaped(u)
    &&& resolves_to(u, Ok(ur))
    &&& resolves_to(fold_seq(u), Ok(fr))
    &&& forall|i: int|
        0 <= i < fr.len() && (#[trigger] fr[i]).kind == Kind::AddCell ==> -255 < fr[i].arg < 255
}

proof fn lemma_run_steps(
    u: Seq<Instr>,
    ur: Seq<Instr>,
    fr: Seq<Instr>,
    i: int,
    s: MState,
    inp: Seq<u8>,
    g: nat,
    t: int,
)
    requires
        sim_setup(u, ur, fr),
        0 <= i < fr.len(),
        foldable(fold_seq(u)[i].kind),
        state_ok(s),
        s.iptr == pos(u, i),
        0 <= t <= run_end(u, i) - pos(u, i),
    ensures
        run_spec(ur, s, inp, g + t as nat) == run_spec(ur, run_state(u, i, s, t), inp, g),
        state_ok(run_state(u, i, s, t)),
    decreases t,
{
    let f = fold_seq(u);
    assert(run_shape(u, f, i) && f[i] == f[i]);
    let p = pos(u, i);
    let n = TAPE_LEN as int;
    if t == 0 {
        assert(arg_sum(u, p, p) == 0);
        if f[i].kind == Kind::MovePtr {
            lemma_small_mod(s.dptr as nat, n as nat);
        } else {
            lemma_small_mod(s.tape[s.dptr] as nat, 256);
            assert(s.tape.update(s.dptr, ((s.tape[s.dptr] + 0) % 256) as u8) =~= s.tape);
        }
        assert(run_state(u, i, s, 0) == s);
    } else {
        lemma_run_steps(u, ur, fr, i, s, inp, g + 1, t - 1);
        assert(g + 1 + (t - 1) as nat == g + t as nat);
        let q = run_state(u, i, s, t - 1);
        let k = p + t - 1;
        let sum = arg_sum(u, p, k);
        assert(u[k].kind == f[i].kind);
        assert(ur[k] == ur[k]);
        assert(ur[k].kind == u[k].kind && ur[k].arg == u[k].arg);
        assert(u[k].arg == 1 || u[k].arg == -1);
        assert(arg_sum(u, p, k + 1) == sum + u[k].arg);
        assert(next_action(ur, q) == Action::Continue);
        if f[i].kind == Kind::MovePtr {
            lemma_moves_compose(s.dptr, sum, u[k].arg);
            assert(exec_step(ur, q) == run_state(u, i, s, t));
        } else {
            let c = s.tape[s.dptr] as int;
            lemma_add_mod_noop_right(u[k].arg, c + sum, 256);
            assert(exec_step(ur, q).tape =~= run_state(u, i, s, t).tape);
            assert(exec_step(ur, q) == run_state(u, i, s, t));
        }
    }
}

proof fn lemma_simulate(
    u: Seq<Instr>,
    ur: Seq<Instr>,
    fr: Seq<Instr>,
    sf: MState,
    su: MState,
    inp: Seq<u8>,
    fuel: nat,
) -> (g: nat)
    requires
        sim_setup(u, ur, fr),
        state_ok(sf),
        su.tape == sf.tape,
        su.dptr == sf.dptr,
        sf.iptr <= fr.len(),
        su.iptr == pos(u, sf.iptr),
    ensures
        run_spec(ur, su, inp, g) == run_spec(fr, sf, inp, fuel),
        g >= fuel,
    decreases fuel,
{
    let f = fold_seq(u);
    if sf.iptr >= fr.len() {
        fuel
    } else if fuel == 0 {
        let i = sf.iptr;
        assert(run_shape(u, f, i) && f[i] == f[i]);
        0
    } else {
        let i = sf.iptr;
        assert(run_shape(u, f, i) && f[i] == f[i]);
        assert(fr[i] == fr[i]);
        let p = pos(u, i);
        if foldable(f[i].kind) {
            let len = run_end(u, i) - p;
            let r = run_state(u, i, su, len);
            let s1 = exec_step(fr, sf);
            assert(fr[i].arg == f[i].arg);
            if f[i].kind == Kind::AddCell {
                let a = f[i].arg;
                if a >= 0 {
                    lemma_small_mod(a as nat, 255);
                } else {
                    lemma_small_mod((-a) as nat, 255);
                }
                assert(r.tape =~= s1.tape);
            }
            assert(r.iptr == pos(u, i + 1));
            let g1 = lemma_simulate(u, ur, fr, s1, r, inp, (fuel - 1) as nat);
            lemma_run_steps(u, ur, fr, i, su, inp, g1, len);
            assert(len >= 1);
            g1 + len as nat
        } else {
            assert(ur[p] == ur[p]);
            assert(u[p] == f[i]);
            let s1 = exec_step(fr, sf);
            let r = exec_step(ur, su);
            if f[i].kind == Kind::LoopOpen {
                let j = fr[i].arg;
                assert(is_partner(f, i, j));
                assert(is_partner(u, p, ur[p].arg));
                lemma_partner_transfer(u, i, j);
                lemma_partner_unique(u, p, ur[p].arg, p, pos(u, j));
            } else if f[i].kind == Kind::LoopClose {
                let a = fr[i].arg;
                assert(is_partner(f, a, i));
                assert(is_partner(u, ur[p].arg, p));
                lemma_partner_transfer(u, a, i);
                lemma_partner_unique(u, ur[p].arg, p, pos(u, a), p);
            }
            let g1 = if f[i].kind == Kind::Input {
                if inp.len() > 0 {
                    lemma_simulate(
                        u,
                        ur,
                        fr,
                        crate::engine::input_step(sf, Some(inp[0])),
                        crate::engine::input_step(su, Some(inp[0])),
                        inp.drop_first(),
                        (fuel - 1) as nat,
                    )
                } else {
                    lemma_simulate(
                        u,
                        ur,
                        fr,
                        crate::engine::input_step(sf, None),
                        crate::engine::input_step(su, None),
                        inp,
                        (fuel - 1) as nat,
                    )
                }
            } else {
                lemma_simulate(u, ur, fr, s1, r, inp, (fuel - 1) as nat)
            };
            g1 + 1
        }
    }
}

/// Once a run has halted, more steps change nothing.
pub proof fn lemma_halted_run_is_final(p: Seq<Instr>, s: MState, input: Seq<u8>, a: nat, b: nat)
    requires
        run_spec(p, s, input, a).1,
        a <= b,
    ensures
        run_spec(p, s, input, b) == run_spec(p, s, input, a),
    decreases a,
{
    if s.iptr < p.len() && a > 0 {
        match next_action(p, s) {
            Action::ReadInput => if input.len() > 0 {
                lemma_halted_run_is_final(
                    p,
                    crate::engine::input_step(s, Some(input[0])),
                    input.drop_first(),
                    (a - 1) as nat,
                    (b - 1) as nat,
                );
            } else {
                lemma_halted_run_is_final(
                    p,
                    crate::engine::input_step(s, None),
                    input,
                    (a - 1) as nat,
                    (b - 1) as nat,
                );
            },
            _ => {
                lemma_halted_run_is_final(p, exec_step(p, s), input, (a - 1) as nat, (b - 1) as nat);
            },
        }
    }
}

/// The unit-step program and the folded program of one source, both
/// resolved, produce the same output. Whatever the folded program emits
/// within `fuel` steps, the unit-step program emits within at least as many
/// steps, halting by then exactly when the folded one has; and where the
/// unit-step program halts within `fuel` steps, the folded one halts within
/// them too, with the same output. This holds wherever no folded cell change
/// reaches 255 in size; beyond that the folded change is reduced modulo 255
/// and the two can differ.
pub proof fn lemma_unit_and_folded_agree(
    source: Seq<char>,
    unit: Seq<Instr>,
    folded: Seq<Instr>,
    input: Seq<u8>,
    fuel: nat,
)
    requires
        resolves_to(unit_program(source), Ok(unit)),
        resolves_to(folded_program(source), Ok(folded)),
        forall|i: int|
            0 <= i < folded.len() && (#[trigger] folded[i]).kind == Kind::AddCell ==> -255
                < folded[i].arg < 255,
    ensures
        exists|g: nat|
            g >= fuel && run_spec(unit, initial_state(), input, g) == run_spec(
                folded,
                initial_state(),
                input,
                fuel,
            ),
        run_spec(unit, initial_state(), input, fuel).1 ==> run_spec(
            folded,
            initial_state(),
            input,
            fuel,
        ) == run_spec(unit, initial_state(), input, fuel),
{
    let u = unit_program(source);
    lemma_folded_is_fold_of_unit(source);
    lemma_unit_program_shaped(source);
    lemma_fold_structure(u);
    let s0 = initial_state();
    let g = lemma_simulate(u, unit, folded, s0, s0, input, fuel);
    assert(run_spec(unit, s0, input, g) == run_spec(folded, s0, input, fuel));
    if run_spec(unit, s0, input, fuel).1 {
        lemma_halted_run_is_final(unit, s0, input, fuel, g);
    }
}

} // verus!
