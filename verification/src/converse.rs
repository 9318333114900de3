//! The converse of the soundness of the translation: under any assignment of values to
//! witnesses, opcodes that all vanish come only from constraints that all hold.
use vstd::prelude::*;
use crate::circuit::{
    Constraint, lemma_term_expr_eval, minus_one, r1cs_value, term_expr, term_view, unfold_outputs,
    unfolded_at,
};
use crate::expression::{ExprView, eval, sum_linear_terms, sum_mul_terms};
use crate::field::modulus;

verus! {

/// Whether every constraint `a * b = c` holds in the field under an assignment of values
/// to witnesses (wire `0` standing for `1`, wire `k` for witness `k - 1`).
pub open spec fn constraints_hold(cs: Seq<Constraint>, asg: spec_fn(u32) -> nat) -> bool {
    forall|i: int|
        0 <= i < cs.len() ==> (r1cs_value(term_view((#[trigger] cs[i]).0@), asg) * r1cs_value(term_view(cs[i].1@), asg))
            % modulus() == r1cs_value(term_view(cs[i].2@), asg)
}

/// Whether every expression has the value zero under an assignment.
pub open spec fn all_vanish(ops: Seq<ExprView>, asg: spec_fn(u32) -> nat) -> bool {
    forall|j: int| 0 <= j < ops.len() ==> eval(#[trigger] ops[j], asg) == 0
}

/// Whether every assignment under which all the opcodes vanish satisfies all the
/// constraints.
pub open spec fn vanishing_implies_holds(ops: Seq<ExprView>, cs: Seq<Constraint>) -> bool {
    forall|asg: spec_fn(u32) -> nat| #[trigger] all_vanish(ops, asg) ==> constraints_hold(cs, asg)
}

/// Translating one more constraint keeps the converse of soundness: the new opcodes
/// vanish only where the constraint holds.
pub(crate) proof fn lemma_converse_step(
    before: Seq<ExprView>,
    ops: Seq<ExprView>,
    cs_prev: Seq<Constraint>,
    con: Constraint,
    first: ExprView,
    ta: u32,
    tb: u32,
    tc: u32,
)
    requires
        vanishing_implies_holds(before, cs_prev),
        ({
            let ea = term_expr(term_view(con.0@));
            ea.linear_combinations.len() > 1 ==> ta + ea.linear_combinations.len() <= u32::MAX
        }),
        ({
            let eb = term_expr(term_view(con.1@));
            eb.linear_combinations.len() > 1 ==> tb + eb.linear_combinations.len() <= u32::MAX
        }),
        ({
            let ec = term_expr(term_view(con.2@));
            ec.linear_combinations.len() > 1 ==> tc + ec.linear_combinations.len() <= u32::MAX
        }),
        ops == before + seq![first] + unfold_outputs(term_expr(term_view(con.0@)), ta).skip(1) + unfold_outputs(
            term_expr(term_view(con.1@)),
            tb,
        ).skip(1) + unfold_outputs(term_expr(term_view(con.2@)), tc).skip(1),
        forall|asg: spec_fn(u32) -> nat|
            #[trigger] eval(first, asg) == ((eval(unfold_outputs(term_expr(term_view(con.0@)), ta)[0], asg) * eval(
                unfold_outputs(term_expr(term_view(con.1@)), tb)[0],
                asg,
            )) % modulus() - eval(unfold_outputs(term_expr(term_view(con.2@)), tc)[0], asg)) % (modulus() as int),
    ensures
        vanishing_implies_holds(ops, cs_prev.push(con)),
{
    let av = term_view(con.0@);
    let bv = term_view(con.1@);
    let cv = term_view(con.2@);
    let ea = term_expr(av);
    let eb = term_expr(bv);
    let ec = term_expr(cv);
    let ua = unfold_outputs(ea, ta);
    let ub = unfold_outputs(eb, tb);
    let uc = unfold_outputs(ec, tc);
    let cs = cs_prev.push(con);
    assert forall|asg: spec_fn(u32) -> nat| #[trigger] all_vanish(ops, asg) implies constraints_hold(cs, asg) by {
        lemma_chain_converse(ea, ta, asg);
        lemma_chain_converse(eb, tb, asg);
        lemma_chain_converse(ec, tc, asg);
        let nb = before.len() as int;
        let oa = nb + 1;
        let ob = oa + ua.len() - 1;
        let oc = ob + ub.len() - 1;
        assert(ops.len() == oc + uc.len() - 1);
        assert forall|j: int| 0 <= j < before.len() implies eval(#[trigger] before[j], asg) == 0 by {
            assert(ops[j] == before[j]);
        }
        assert(all_vanish(before, asg));
        assert(ops[nb] == first);
        assert(eval(first, asg) == 0);
        assert forall|k: int| 1 <= k < ua.len() implies eval(#[trigger] ua[k], asg) == 0 by {
            assert(ops[oa + k - 1] == ua[k]);
        }
        assert forall|k: int| 1 <= k < ub.len() implies eval(#[trigger] ub[k], asg) == 0 by {
            assert(ops[ob + k - 1] == ub[k]);
        }
        assert forall|k: int| 1 <= k < uc.len() implies eval(#[trigger] uc[k], asg) == 0 by {
            assert(ops[oc + k - 1] == uc[k]);
        }
        lemma_term_expr_eval(av, asg);
        lemma_term_expr_eval(bv, asg);
        lemma_term_expr_eval(cv, asg);
        let x = r1cs_value(av, asg);
        let y = r1cs_value(bv, asg);
        let z = r1cs_value(cv, asg);
        assert(((x * y) % modulus() - z) % (modulus() as int) == 0);
        lemma_mod_eq(((x * y) % modulus()) as int, z as int);
        assert forall|i: int| 0 <= i < cs.len() implies (r1cs_value(term_view((#[trigger] cs[i]).0@), asg) * r1cs_value(
            term_view(cs[i].1@),
            asg,
        )) % modulus() == r1cs_value(term_view(cs[i].2@), asg) by {
            if i < cs_prev.len() {
                assert(cs[i] == cs_prev[i]);
            } else {
                assert(cs[i] == con);
            }
        }
    }
}

/// A sum of two multiples of the field order, less a third, is a multiple of it.
proof fn lemma_mod_comb(x: int, y: int, z: int)
    requires
        x % (modulus() as int) == 0,
        y % (modulus() as int) == 0,
    ensures
        (x - y + (modulus() as int) * z) % (modulus() as int) == 0,
{
    let p = modulus() as int;
    vstd::arithmetic::div_mod::lemma_fundamental_div_mod(x, p);
    vstd::arithmetic::div_mod::lemma_fundamental_div_mod(y, p);
    let qx = x / p;
    let qy = y / p;
    assert(x - y + p * z == p * (qx - qy + z) + 0) by (nonlinear_arith)
        requires
            x == p * qx + 0,
            y == p * qy + 0,
    ;
    vstd::arithmetic::div_mod::lemma_mod_multiples_vanish(qx - qy + z, 0, p);
}

/// Two numbers that differ by a multiple of the field order keep that difference after
/// adding the same number to both.
proof fn lemma_mod_shift(a: int, b: int, c: int)
    requires
        (a - b) % (modulus() as int) == 0,
    ensures
        (a + c) % (modulus() as int) == (b + c) % (modulus() as int),
{
    let p = modulus() as int;
    vstd::arithmetic::div_mod::lemma_fundamental_div_mod(a - b, p);
    let q = (a - b) / p;
    assert(a + c == p * q + (b + c));
    vstd::arithmetic::div_mod::lemma_mod_multiples_vanish(q, b + c, p);
}

/// Two field values that differ by a multiple of the field order are equal.
proof fn lemma_mod_eq(a: int, b: int)
    requires
        0 <= a < modulus(),
        0 <= b < modulus(),
        (a - b) % (modulus() as int) == 0,
    ensures
        a == b,
{
    let p = modulus() as int;
    vstd::arithmetic::div_mod::lemma_fundamental_div_mod(a - b, p);
    let q = (a - b) / p;
    assert(q == 0) by (nonlinear_arith)
        requires
            a - b == p * q + 0,
            -p < a - b < p,
            p > 0,
    ;
}

/// Where the links `j + 1 ..= n` of a chain all vanish under `asg`, fresh witness
/// `t0 + j` holds, up to the field order, the sum of the linear terms from `j` on.
proof fn lemma_chain_suffix(e: ExprView, t0: u32, asg: spec_fn(u32) -> nat, j: nat)
    requires
        e.linear_combinations.len() > 1,
        t0 + e.linear_combinations.len() <= u32::MAX,
        j < e.linear_combinations.len(),
        forall|k: int| j < k <= e.linear_combinations.len() ==> eval(#[trigger] unfolded_at(e, t0, k), asg) == 0,
    ensures
        (asg((t0 + j) as u32) + sum_linear_terms(e.linear_combinations.take(j as int), asg)
            - sum_linear_terms(e.linear_combinations, asg)) % (modulus() as int) == 0,
    decreases e.linear_combinations.len() - j,
{
    let lin = e.linear_combinations;
    let n = lin.len();
    let p = modulus() as int;
    let total = sum_linear_terms(lin, asg) as int;
    let tj = asg((t0 + j) as u32) as int;
    let (c, w) = lin[j as int];
    let cx = c * asg(w);
    assert(lin.take(j + 1int).drop_last() =~= lin.take(j as int));
    assert(lin.take(j + 1int).last() == lin[j as int]);
    let pre = sum_linear_terms(lin.take(j as int), asg) as int;
    assert(sum_linear_terms(lin.take(j + 1int), asg) == pre + cx);
    reveal_with_fuel(sum_linear_terms, 4);
    if j == n - 1 {
        let u = unfolded_at(e, t0, n as int);
        assert(u.linear_combinations =~= seq![(c, w), (minus_one(), (t0 + n - 1) as u32)]);
        assert(eval(u, asg) == (cx + minus_one() * asg((t0 + n - 1) as u32)) % modulus());
        assert(lin.take(n as int) =~= lin);
        lemma_mod_comb(0, cx + (p - 1) * tj, tj);
        assert(0 - (cx + (p - 1) * tj) + p * tj == tj + pre - total) by (nonlinear_arith)
            requires
                total == pre + cx,
        ;
    } else {
        lemma_chain_suffix(e, t0, asg, j + 1);
        let tj1 = asg((t0 + j + 1) as u32) as int;
        let pre1 = sum_linear_terms(lin.take(j + 1int), asg) as int;
        let u = unfolded_at(e, t0, j + 1int);
        assert(u.linear_combinations =~= seq![(c, w), (1nat, (t0 + j + 1) as u32), (minus_one(), (t0 + j + 1 - 1) as u32)]);
        assert(eval(u, asg) == (cx + 1 * tj1 + minus_one() * tj) % (modulus() as int));
        lemma_mod_comb(tj1 + pre1 - total, cx + tj1 + (p - 1) * tj, tj);
        assert((tj1 + pre1 - total) - (cx + tj1 + (p - 1) * tj) + p * tj == tj + pre - total) by (nonlinear_arith)
            requires
                pre1 == pre + cx,
        ;
    }
}

/// A law of cutting an expression without product terms, under any assignment of values
/// to witnesses whatever: where every expression of the chain but the first vanishes,
/// the first has the value of the expression.
pub proof fn lemma_chain_converse(e: ExprView, t0: u32, asg: spec_fn(u32) -> nat)
    requires
        e.mul_terms.len() == 0,
        e.linear_combinations.len() > 1 ==> t0 + e.linear_combinations.len() <= u32::MAX,
    ensures
        unfold_outputs(e, t0).len() >= 1,
        (forall|k: int| 1 <= k < unfold_outputs(e, t0).len() ==> eval(#[trigger] unfold_outputs(e, t0)[k], asg) == 0)
            ==> eval(unfold_outputs(e, t0)[0], asg) == eval(e, asg),
{
    let u = unfold_outputs(e, t0);
    let n = e.linear_combinations.len();
    if n > 1 {
        if forall|k: int| 1 <= k < u.len() ==> eval(#[trigger] u[k], asg) == 0 {
            assert forall|k: int| 0 < k <= n implies eval(#[trigger] unfolded_at(e, t0, k), asg) == 0 by {
                assert(u[k] == unfolded_at(e, t0, k));
            }
            lemma_chain_suffix(e, t0, asg, 0);
            let lin = e.linear_combinations;
            assert(lin.take(0) =~= seq![]);
            assert((t0 + 0nat) as u32 == t0);
            let total = sum_linear_terms(lin, asg) as int;
            let t = asg(t0) as int;
            let u0 = u[0];
            assert(u0.linear_combinations =~= seq![(1nat, t0)]);
            assert(u0 == unfolded_at(e, t0, 0));
            assert(u0.mul_terms =~= Seq::<(nat, u32, u32)>::empty());
            assert(sum_linear_terms(u0.linear_combinations, asg) == t) by {
                let l = u0.linear_combinations;
                assert(l.drop_last() =~= Seq::<(nat, u32)>::empty());
                assert(sum_linear_terms(l.drop_last(), asg) == 0);
                assert(l.len() == 1);
                assert(l.last() == (1nat, t0));
                assert(sum_linear_terms(l, asg) == sum_linear_terms(l.drop_last(), asg) + l.last().0 * asg(l.last().1));
                assert(1nat * asg(t0) == asg(t0));
            }
            assert(eval(u0, asg) == (t + e.q_c) % (modulus() as int));
            assert(sum_mul_terms(e.mul_terms, asg) == 0);
            lemma_mod_shift(t, total, e.q_c as int);
        }
    } else {
        assert(u[0] == e);
    }
}

} // verus!
