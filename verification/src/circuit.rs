//! The translation of R1CS constraint systems into ACIR arithmetic opcodes: each
//! constraint `a * b = c` over wires becomes `a' * b' - c'` over witnesses, and every
//! linear side with more than one term is cut into a chain of three-term opcodes over
//! fresh witnesses, whose values are solved into the witness map on the way.
use vstd::prelude::*;
use std::collections::BTreeMap;
use crate::field::{Fe, fr_to_field_element, modulus};
use crate::expression::{Expression, ExprView, eval, sum_linear_terms, sum_mul_terms};
use crate::converse::{all_vanish, constraints_hold, lemma_converse_step, vanishing_implies_holds};

verus! {

/// Values of witnesses, by witness index.
pub struct WitnessMap {
    pub values: BTreeMap<u32, Fe>,
}

impl View for WitnessMap {
    type V = Map<u32, nat>;

    open spec fn view(&self) -> Map<u32, nat> {
        self.values@.map_values(|f: Fe| f@)
    }
}

/// The value of a witness in the map; zero for a witness that it does not hold.
pub open spec fn lookup(m: Map<u32, nat>, w: u32) -> nat {
    if m.contains_key(w) {
        m[w]
    } else {
        0
    }
}

/// The assignment of values to witnesses that a map gives.
pub open spec fn assignment(m: Map<u32, nat>) -> spec_fn(u32) -> nat {
    |w: u32| lookup(m, w)
}

impl WitnessMap {
    /// An empty map.
    pub fn new() -> (r: WitnessMap)
        ensures
            r@ == Map::<u32, nat>::empty(),
    {
        let r = WitnessMap { values: BTreeMap::new() };
        assert(r@ =~= Map::<u32, nat>::empty());
        r
    }

    /// The value of witness `w`, or zero where the map does not hold it.
    pub fn get_or_zero(&self, w: u32) -> (r: Fe)
        ensures
            r@ == lookup(self@, w),
    {
        match self.values.get(&w) {
            Some(v) => *v,
            None => Fe::zero(),
        }
    }

    /// Sets the value of witness `w`.
    pub fn insert(&mut self, w: u32, v: Fe)
        ensures
            final(self)@ == old(self)@.insert(w, v@),
    {
        self.values.insert(w, v);
        assert(self@ =~= old(self)@.insert(w, v@));
    }
}

/// The field element `-1`.
pub open spec fn minus_one() -> nat {
    (modulus() - 1) as nat
}

/// The `k`-th expression of the chain that an expression with more than one linear term
/// is cut into, with fresh witnesses from `t0` on: first `t0 + q_c`, then
/// `c_(k-1) * w_(k-1) + t_k - t_(k-1)` for each term but the last, and last
/// `c_(n-1) * w_(n-1) - t_(n-1)`, where `t_i` is witness `t0 + i`.
pub open spec fn unfolded_at(e: ExprView, t0: u32, k: int) -> ExprView {
    let n = e.linear_combinations.len();
    if k == 0 {
        ExprView { mul_terms: seq![], linear_combinations: seq![(1nat, t0)], q_c: e.q_c }
    } else if k < n {
        let (c, w) = e.linear_combinations[k - 1];
        ExprView {
            mul_terms: seq![],
            linear_combinations: seq![(c, w), (1nat, (t0 + k) as u32), (minus_one(), (t0 + k - 1) as u32)],
            q_c: 0,
        }
    } else {
        let (c, w) = e.linear_combinations[n - 1];
        ExprView {
            mul_terms: seq![],
            linear_combinations: seq![(c, w), (minus_one(), (t0 + n - 1) as u32)],
            q_c: 0,
        }
    }
}

/// The witness map, and the value last solved, after the first `k + 1` fresh witnesses
/// of the chain are solved: `t0` gets the value of the linear part, and each next
/// `t_(i+1)` gets `t_i - c_i * w_i`, with `w_i` looked up in the map as it stands then.
pub open spec fn unfold_state(lin: Seq<(nat, u32)>, m0: Map<u32, nat>, t0: u32, k: nat) -> (
    Map<u32, nat>,
    nat,
)
    decreases k,
{
    if k == 0 {
        let v = sum_linear_terms(lin, assignment(m0)) % modulus();
        (m0.insert(t0, v), v)
    } else {
        let (m, v) = unfold_state(lin, m0, t0, (k - 1) as nat);
        let (c, w) = lin[k - 1];
        let v2 = ((v - c * lookup(m, w)) % (modulus() as int)) as nat;
        (m.insert((t0 + k) as u32, v2), v2)
    }
}


/// What cutting an expression gives: the chain of `unfolded_at` for an expression with
/// more than one linear term, else the expression itself.
pub open spec fn unfold_outputs(e: ExprView, t0: u32) -> Seq<ExprView> {
    let n = e.linear_combinations.len();
    if n <= 1 {
        seq![e]
    } else {
        Seq::new(n + 1, |k: int| unfolded_at(e, t0, k))
    }
}

/// The witness map after cutting an expression.
pub open spec fn unfold_map(e: ExprView, m0: Map<u32, nat>, t0: u32) -> Map<u32, nat> {
    let n = e.linear_combinations.len();
    if n <= 1 {
        m0
    } else {
        unfold_state(e.linear_combinations, m0, t0, (n - 1) as nat).0
    }
}

/// The next free witness index after cutting an expression.
pub open spec fn unfold_tmp(e: ExprView, t0: int) -> int {
    let n = e.linear_combinations.len();
    if n <= 1 {
        t0
    } else {
        t0 + n
    }
}

/// `(a % m + b % m) % m == (a + b) % m`, and the same for a difference.
proof fn lemma_mod_sum(a: int, b: int)
    ensures
        ((a % (modulus() as int)) + b) % (modulus() as int) == (a + b) % (modulus() as int),
        (a - (b % (modulus() as int))) % (modulus() as int) == (a - b) % (modulus() as int),
{
    vstd::arithmetic::div_mod::lemma_add_mod_noop(a, b, modulus() as int);
    vstd::arithmetic::div_mod::lemma_mod_twice(b, modulus() as int);
    vstd::arithmetic::div_mod::lemma_sub_mod_noop(a, b, modulus() as int);
    vstd::arithmetic::div_mod::lemma_mod_twice(a, modulus() as int);
    vstd::arithmetic::div_mod::lemma_add_mod_noop(a, b % (modulus() as int), modulus() as int);
    vstd::arithmetic::div_mod::lemma_sub_mod_noop(a, b % (modulus() as int), modulus() as int);
}

/// Cuts an expression with more than one linear term into a chain of expressions of at
/// most three linear terms over fresh witnesses `*tmp_wit_index`, `*tmp_wit_index + 1`,
/// ..., solving their values into `witness_map` (see `unfolded_at` and `unfold_state`),
/// and moves `*tmp_wit_index` past them. An expression with at most one linear term is
/// given back as it is. The product terms of an expression that is cut are left out.
pub fn unfold_expression(expr: &Expression, tmp_wit_index: &mut u32, witness_map: &mut WitnessMap) -> (exprs: Vec<Expression>)
    requires
        expr.linear_combinations@.len() > 1 ==> *old(tmp_wit_index) + expr.linear_combinations@.len() <= u32::MAX,
    ensures
        exprs@.len() == unfold_outputs(expr@, *old(tmp_wit_index)).len(),
        forall|k: int|
            0 <= k < exprs@.len() ==> (#[trigger] exprs@[k])@ == unfold_outputs(
                expr@,
                *old(tmp_wit_index),
            )[k],
        *final(tmp_wit_index) == unfold_tmp(expr@, *old(tmp_wit_index) as int),
        final(witness_map)@ == unfold_map(expr@, old(witness_map)@, *old(tmp_wit_index)),
{
    let n = expr.linear_combinations.len();
    let mut exprs: Vec<Expression> = Vec::new();
    if n <= 1 {
        exprs.push(expr.copy());
        assert(exprs@[0]@ == unfold_outputs(expr@, *old(tmp_wit_index))[0]);
        return exprs;
    }
    let ghost ev = expr@;
    let ghost lin = ev.linear_combinations;
    let ghost m0 = witness_map@;
    let ghost asg0 = crate::circuit::assignment(m0);
    let t0 = *tmp_wit_index;
    let one = Fe::one();
    let zero = Fe::zero();
    let minus = one.neg();
    proof {
        vstd::arithmetic::div_mod::lemma_fundamental_div_mod_converse(
            -1, modulus() as int, -1, modulus() - 1);
    }
    let first = Expression { mul_terms: Vec::new(), linear_combinations: vec![(one, t0)], q_c: expr.q_c };
    assert(first@ =~= unfolded_at(ev, t0, 0));
    exprs.push(first);
    let mut val = Fe::zero();
    let mut j: usize = 0;
    while j < n
        invariant
            j <= n,
            n == expr.linear_combinations@.len(),
            ev == expr@,
            lin == ev.linear_combinations,
            m0 == witness_map@,
            asg0 == crate::circuit::assignment(m0),
            val@ == sum_linear_terms(lin.take(j as int), asg0) % modulus(),
        decreases n - j,
    {
        let (c, w) = expr.linear_combinations[j];
        let x = witness_map.get_or_zero(w);
        let cx = c.mul(&x);
        let ghost before = val@;
        val = val.add(&cx);
        proof {
            assert(lin.take(j + 1int).drop_last() =~= lin.take(j as int));
            assert(lin[j as int] == (c@, w));
            lemma_mod_sum(sum_linear_terms(lin.take(j as int), asg0) as int, (c@ * x@) as int);
            lemma_mod_sum((c@ * x@) as int, sum_linear_terms(lin.take(j as int), asg0) as int);
        }
        j = j + 1;
    }
    assert(lin.take(n as int) =~= lin);
    witness_map.insert(t0, val);
    let mut i: usize = 0;
    while i < n
        invariant
            2 <= n,
            i <= n,
            n == expr.linear_combinations@.len(),
            ev == expr@,
            lin == ev.linear_combinations,
            t0 == *old(tmp_wit_index),
            t0 + n <= u32::MAX,
            *tmp_wit_index == t0 + i,
            one@ == 1,
            zero@ == 0,
            minus@ == minus_one(),
            exprs@.len() == i + 1,
            forall|k: int| 0 <= k <= i ==> (#[trigger] exprs@[k])@ == unfolded_at(ev, t0, k),
            i < n ==> witness_map@ == unfold_state(lin, m0, t0, i as nat).0 && val@ == unfold_state(lin, m0, t0, i as nat).1,
            i == n ==> witness_map@ == unfold_state(lin, m0, t0, (n - 1) as nat).0,
        decreases n - i,
    {
        let (coeff, witness) = expr.linear_combinations[i];
        let t = *tmp_wit_index;
        if i < n - 1 {
            let e = Expression {
                mul_terms: Vec::new(),
                linear_combinations: vec![(coeff, witness), (one, t + 1), (minus, t)],
                q_c: zero,
            };
            assert(e@ =~= unfolded_at(ev, t0, i + 1));
            exprs.push(e);
            let x = witness_map.get_or_zero(witness);
            let cx = coeff.mul(&x);
            let ghost before = val@;
            val = val.sub(&cx);
            proof {
                lemma_mod_sum(before as int, (coeff@ * x@) as int);
                assert(lin[i as int] == (coeff@, witness));
            }
            witness_map.insert(t + 1, val);
            *tmp_wit_index = t + 1;
        } else {
            let e = Expression {
                mul_terms: Vec::new(),
                linear_combinations: vec![(coeff, witness), (minus, t)],
                q_c: zero,
            };
            assert(e@ =~= unfolded_at(ev, t0, i + 1));
            exprs.push(e);
            *tmp_wit_index = t + 1;
        }
        i = i + 1;
    }
    assert(unfold_outputs(ev, t0).len() == n + 1);
    exprs
}


/// One side of an R1CS constraint: a linear combination of wires, as pairs of a wire
/// index and its coefficient. Wire `0` always holds `1`, so its terms are constants.
pub type ConstraintVec = Vec<(usize, Fe)>;

/// A side of a constraint as plain values.
pub open spec fn term_view(t: Seq<(usize, Fe)>) -> Seq<(usize, nat)> {
    t.map_values(|p: (usize, Fe)| (p.0, p.1@))
}

/// The sum of the coefficients on wire `0`.
pub open spec fn constant_part(t: Seq<(usize, nat)>) -> nat
    decreases t.len(),
{
    if t.len() == 0 {
        0
    } else {
        let r = constant_part(t.drop_last());
        if t.last().0 == 0 {
            (r + t.last().1) % modulus()
        } else {
            r
        }
    }
}

/// The terms on the other wires, in order, with wire `k` standing for witness `k - 1`
/// (the wire index taken as a `u32`).
pub open spec fn linear_part(t: Seq<(usize, nat)>) -> Seq<(nat, u32)>
    decreases t.len(),
{
    if t.len() == 0 {
        seq![]
    } else {
        let r = linear_part(t.drop_last());
        if t.last().0 == 0 {
            r
        } else {
            r.push((t.last().1, ((t.last().0 as u32) - 1) as u32))
        }
    }
}

/// The expression that a side of a constraint becomes.
pub open spec fn term_expr(t: Seq<(usize, nat)>) -> ExprView {
    ExprView { mul_terms: seq![], linear_combinations: linear_part(t), q_c: constant_part(t) }
}

/// Whether every term on a wire other than wire `0` has a nonzero coefficient and a
/// wire index that is nonzero as a `u32`, so that the coefficient can be written out
/// and the witness `index - 1` exists.
pub open spec fn terms_fit(t: Seq<(usize, nat)>) -> bool {
    forall|i: int|
        0 <= i < t.len() && (#[trigger] t[i]).0 != 0 ==> (t[i].0 as u32) != 0 && t[i].1 != 0
}

proof fn lemma_linear_part_len(t: Seq<(usize, nat)>)
    ensures
        linear_part(t).len() <= t.len(),
    decreases t.len(),
{
    if t.len() > 0 {
        lemma_linear_part_len(t.drop_last());
    }
}

/// The expression that a side of an R1CS constraint becomes: the coefficients on wire `0`
/// summed into the constant, and each other wire `k` as a linear term on witness `k - 1`.
pub fn r1cs_term_to_expr(term: &ConstraintVec) -> (e: Expression)
    requires
        terms_fit(term_view(term@)),
    ensures
        e@ == term_expr(term_view(term@)),
{
    let ghost tv = term_view(term@);
    let mut q_c = Fe::zero();
    let mut i: usize = 0;
    while i < term.len()
        invariant
            i <= term@.len(),
            tv == term_view(term@),
            q_c@ == constant_part(tv.take(i as int)),
        decreases term@.len() - i,
    {
        let (wire_index, coeff) = term[i];
        if wire_index == 0 {
            q_c = q_c.fr_add(&coeff);
        }
        assert(tv.take(i + 1).drop_last() =~= tv.take(i as int));
        i = i + 1;
    }
    let q_c = match fr_to_field_element(&q_c) {
        Some(v) => v,
        None => Fe::zero(),
    };
    let mut linear_combinations: Vec<(Fe, u32)> = Vec::new();
    let mut j: usize = 0;
    while j < term.len()
        invariant
            j <= term@.len(),
            tv == term_view(term@),
            terms_fit(tv),
            linear_combinations@.map_values(|t: (Fe, u32)| (t.0@, t.1)) == linear_part(tv.take(j as int)),
        decreases term@.len() - j,
    {
        let (wire_index, coeff) = term[j];
        let ghost before = linear_combinations@;
        if wire_index != 0 {
            assert(tv[j as int].0 == wire_index);
            let w = (wire_index as u32) - 1;
            let c = fr_to_field_element(&coeff).unwrap();
            linear_combinations.push((c, w));
            assert(linear_combinations@.map_values(|t: (Fe, u32)| (t.0@, t.1)) =~= before.map_values(
                |t: (Fe, u32)| (t.0@, t.1),
            ).push((c@, w)));
        }
        assert(tv.take(j + 1).drop_last() =~= tv.take(j as int));
        j = j + 1;
    }
    assert(tv.take(term@.len() as int) =~= tv);
    let e = Expression { mul_terms: Vec::new(), linear_combinations, q_c };
    assert(e@ =~= term_expr(tv));
    e
}


/// A constraint `a * b = c`.
pub type Constraint = (ConstraintVec, ConstraintVec, ConstraintVec);

/// The header of an R1CS file: the number of wires, and of public outputs, public
/// inputs and private inputs (which take the wires after the constant wire, in this order).
pub struct R1csHeader {
    pub n_wires: u32,
    pub n_pub_out: u32,
    pub n_pub_in: u32,
    pub n_prv_in: u32,
}

/// A constraint system as read from a Circom R1CS file.
pub struct R1csFile {
    pub header: R1csHeader,
    pub constraints: Vec<Constraint>,
}

/// A constraint system: the numbers of public inputs, of other variables and of all
/// variables, the constraints, and the signal that each wire stands for, where known.
pub struct R1CS {
    pub num_inputs: usize,
    pub num_aux: usize,
    pub num_variables: usize,
    pub constraints: Vec<Constraint>,
    pub wire_mapping: Option<Vec<usize>>,
}

/// An ACIR circuit whose opcodes are all arithmetic: each expression must equal zero.
pub struct Circuit {
    /// The highest witness index that the circuit uses.
    pub current_witness_index: u32,
    pub opcodes: Vec<Expression>,
    pub public_parameters: Vec<u32>,
    pub return_values: Vec<u32>,
}

/// A sequence of expressions as plain values.
pub open spec fn exprs_view(v: Seq<Expression>) -> Seq<ExprView> {
    v.map_values(|e: Expression| e@)
}

/// The opcodes produced so far, the witness map and the next free witness index.
pub struct TranslationState {
    pub opcodes: Seq<ExprView>,
    pub map: Map<u32, nat>,
    pub tmp: int,
}

/// What translating one constraint `a * b = c` gives, from witness map `m` and next free
/// witness index `t`: each side becomes an expression and is cut (`a`, then `b`, then
/// `c`); the first opcode is `a0 * b0 - c0` over the first expressions of the three
/// chains, followed by the rest of the chain of `a`, of `b` and of `c`.
pub open spec fn constraint_step(
    a: Seq<(usize, nat)>,
    b: Seq<(usize, nat)>,
    c: Seq<(usize, nat)>,
    m: Map<u32, nat>,
    t: int,
) -> TranslationState {
    let ea = term_expr(a);
    let ua = unfold_outputs(ea, t as u32);
    let m1 = unfold_map(ea, m, t as u32);
    let t1 = unfold_tmp(ea, t);
    let eb = term_expr(b);
    let ub = unfold_outputs(eb, t1 as u32);
    let m2 = unfold_map(eb, m1, t1 as u32);
    let t2 = unfold_tmp(eb, t1);
    let ec = term_expr(c);
    let uc = unfold_outputs(ec, t2 as u32);
    let m3 = unfold_map(ec, m2, t2 as u32);
    let t3 = unfold_tmp(ec, t2);
    TranslationState {
        opcodes: seq![crate::expression::acir_expression_sub(crate::expression::acir_expression_mul(ua[0], ub[0]), uc[0])]
            + ua.skip(1) + ub.skip(1) + uc.skip(1),
        map: m3,
        tmp: t3,
    }
}

/// What translating the constraints in order gives, from witness map `m0` and next free
/// witness index `t0`.
pub open spec fn translate_spec(cs: Seq<Constraint>, m0: Map<u32, nat>, t0: int) -> TranslationState
    decreases cs.len(),
{
    if cs.len() == 0 {
        TranslationState { opcodes: seq![], map: m0, tmp: t0 }
    } else {
        let s = translate_spec(cs.drop_last(), m0, t0);
        let st = constraint_step(term_view(cs.last().0@), term_view(cs.last().1@), term_view(cs.last().2@), s.map, s.tmp);
        TranslationState { opcodes: s.opcodes + st.opcodes, map: st.map, tmp: st.tmp }
    }
}

/// Whether every side of every constraint has wire indices that fit (see `terms_fit`).
pub open spec fn constraints_fit(cs: Seq<Constraint>) -> bool {
    forall|i: int|
        0 <= i < cs.len() ==> terms_fit(term_view((#[trigger] cs[i]).0@)) && terms_fit(
            term_view(cs[i].1@),
        ) && terms_fit(term_view(cs[i].2@))
}

/// The first expression that cutting a linear expression gives is linear, with at
/// most one linear term.
proof fn lemma_unfold_first(e: ExprView, t: u32)
    requires
        e.mul_terms.len() == 0,
    ensures
        unfold_outputs(e, t).len() >= 1,
        unfold_outputs(e, t)[0].mul_terms.len() == 0,
        unfold_outputs(e, t)[0].linear_combinations.len() <= 1,
{
}

proof fn lemma_unfold_tmp_grows(e: ExprView, t: int)
    ensures
        unfold_tmp(e, t) >= t,
{
}

/// The next free witness index only grows as constraints are translated.
proof fn lemma_translate_tmp_grows(cs: Seq<Constraint>, m0: Map<u32, nat>, t0: int, k: int)
    requires
        0 <= k <= cs.len(),
    ensures
        translate_spec(cs.take(k), m0, t0).tmp <= translate_spec(cs, m0, t0).tmp,
        t0 <= translate_spec(cs.take(k), m0, t0).tmp,
    decreases cs.len(),
{
    if cs.len() == 0 {
        assert(cs.take(k) =~= cs);
    } else if k == cs.len() {
        assert(cs.take(k) =~= cs);
        lemma_translate_tmp_grows(cs.drop_last(), m0, t0, cs.len() - 1);
        assert(cs.drop_last().take(cs.len() - 1) =~= cs.drop_last());
    } else {
        lemma_translate_tmp_grows(cs.drop_last(), m0, t0, k);
        assert(cs.drop_last().take(k) =~= cs.take(k));
    }
    if cs.len() > 0 {
        lemma_translate_tmp_grows(cs.drop_last(), m0, t0, cs.len() - 1);
        assert(cs.drop_last().take(cs.len() - 1) =~= cs.drop_last());
    }
}

/// Appends all the expressions of `v` but the first.
fn append_tail(out: &mut Vec<Expression>, v: &Vec<Expression>)
    requires
        v@.len() >= 1,
    ensures
        exprs_view(final(out)@) == exprs_view(old(out)@) + exprs_view(v@).skip(1),
{
    let mut i: usize = 1;
    while i < v.len()
        invariant
            1 <= i <= v@.len(),
            exprs_view(out@) == exprs_view(old(out)@) + exprs_view(v@).subrange(1, i as int),
        decreases v@.len() - i,
    {
        let e = v[i].copy();
        let ghost prev = out@;
        out.push(e);
        assert(exprs_view(out@) =~= exprs_view(prev).push(v@[i as int]@));
        i = i + 1;
        assert(exprs_view(out@) =~= exprs_view(old(out)@) + exprs_view(v@).subrange(1, i as int));
    }
    assert(exprs_view(v@).subrange(1, i as int) =~= exprs_view(v@).skip(1));
}

#[verifier::rlimit(60)]
/// Translates the constraints in order (see `translate_spec`), solving the fresh
/// witnesses into `witness` and moving `*tmp_wit_index` past them.
pub(crate) fn translate_constraints(constraints: &Vec<Constraint>, tmp_wit_index: &mut u32, witness: &mut WitnessMap) -> (opcodes: Vec<Expression>)
    requires
        constraints_fit(constraints@),
        translate_spec(constraints@, old(witness)@, *old(tmp_wit_index) as int).tmp <= u32::MAX,
    ensures
        ({
            let st = translate_spec(constraints@, old(witness)@, *old(tmp_wit_index) as int);
            &&& exprs_view(opcodes@) == st.opcodes
            &&& final(witness)@ == st.map
            &&& *final(tmp_wit_index) == st.tmp
        }),
        vanishing_implies_holds(exprs_view(opcodes@), constraints@),
        constraints_below(constraints@, *old(tmp_wit_index) as int) && satisfied(constraints@, old(witness)@) ==> {
            &&& forall|j: int| 0 <= j < opcodes@.len() ==> eval(#[trigger] opcodes@[j]@, assignment(final(witness)@)) == 0
            &&& forall|w: u32| w < *old(tmp_wit_index) ==> #[trigger] lookup(final(witness)@, w) == lookup(old(witness)@, w)
        },
{
    let ghost cs = constraints@;
    let ghost m0 = witness@;
    let ghost t0 = *tmp_wit_index as int;
    let ghost h = constraints_below(cs, t0) && satisfied(cs, m0);
    let mut opcodes: Vec<Expression> = Vec::new();
    let mut k: usize = 0;
    assert(cs.take(0) =~= seq![]);
    assert(exprs_view(opcodes@) =~= seq![]);
    assert forall|asg: spec_fn(u32) -> nat| #[trigger] all_vanish(exprs_view(opcodes@), asg) implies constraints_hold(cs.take(0), asg) by {}
    while k < constraints.len()
        invariant
            k <= cs.len(),
            cs == constraints@,
            constraints_fit(cs),
            translate_spec(cs, m0, t0).tmp <= u32::MAX,
            exprs_view(opcodes@) == translate_spec(cs.take(k as int), m0, t0).opcodes,
            witness@ == translate_spec(cs.take(k as int), m0, t0).map,
            *tmp_wit_index == translate_spec(cs.take(k as int), m0, t0).tmp,
            h == (constraints_below(cs, t0) && satisfied(cs, m0)),
            0 <= t0 <= *tmp_wit_index,
            h ==> forall|w: u32| w < t0 ==> #[trigger] lookup(witness@, w) == lookup(m0, w),
            vanishing_implies_holds(exprs_view(opcodes@), cs.take(k as int)),
            h ==> forall|j: int, asg: spec_fn(u32) -> nat|
                #![trigger eval(exprs_view(opcodes@)[j], asg)]
                0 <= j < opcodes@.len() && agrees_below(asg, witness@, *tmp_wit_index as int) ==> eval(exprs_view(opcodes@)[j], asg) == 0,
        decreases cs.len() - k,
    {
        proof {
            lemma_translate_tmp_grows(cs, m0, t0, k + 1);
            assert(cs.take(k + 1).drop_last() =~= cs.take(k as int));
            assert(cs.take(k + 1).last() == cs[k as int]);
        }
        let (a, b, c) = &constraints[k];
        let ghost s = translate_spec(cs.take(k as int), m0, t0);
        assert(0 <= t0 <= s.tmp);
        assert(h ==> forall|w: u32| w < t0 ==> #[trigger] lookup(s.map, w) == lookup(m0, w));
        let ea = r1cs_term_to_expr(a);
        proof {
            lemma_linear_part_len(term_view(a@));
        }
        let a_exprs = unfold_expression(&ea, tmp_wit_index, witness);
        let eb = r1cs_term_to_expr(b);
        let b_exprs = unfold_expression(&eb, tmp_wit_index, witness);
        let ec = r1cs_term_to_expr(c);
        let c_exprs = unfold_expression(&ec, tmp_wit_index, witness);
        proof {
            lemma_unfold_first(ea@, s.tmp as u32);
            lemma_unfold_first(eb@, unfold_tmp(ea@, s.tmp) as u32);
            lemma_unfold_first(ec@, unfold_tmp(eb@, unfold_tmp(ea@, s.tmp)) as u32);
            assert(a_exprs@[0]@ == unfold_outputs(ea@, s.tmp as u32)[0]);
            assert(b_exprs@[0]@ == unfold_outputs(eb@, unfold_tmp(ea@, s.tmp) as u32)[0]);
            assert(c_exprs@[0]@ == unfold_outputs(ec@, unfold_tmp(eb@, unfold_tmp(ea@, s.tmp)) as u32)[0]);
        }
        let prod = a_exprs[0].mul(&b_exprs[0]);
        let first = prod.sub(&c_exprs[0]);
        let ghost before = exprs_view(opcodes@);
        let ghost first_v = first@;
        let ghost av = term_view(a@);
        let ghost bv = term_view(b@);
        let ghost cv = term_view(c@);
        proof {
            let ea_v = term_expr(av);
            let eb_v = term_expr(bv);
            let ec_v = term_expr(cv);
            let t1 = unfold_tmp(ea_v, s.tmp);
            let t2 = unfold_tmp(eb_v, t1);
            assert(ea@ == ea_v && eb@ == eb_v && ec@ == ec_v);
            assert forall|asg: spec_fn(u32) -> nat| #[trigger] eval(first_v, asg) == ((eval(unfold_outputs(ea_v, s.tmp as u32)[0], asg) * eval(unfold_outputs(eb_v, t1 as u32)[0], asg)) % modulus() - eval(unfold_outputs(ec_v, t2 as u32)[0], asg)) % (modulus() as int) by {
                assert(eval(first@, asg) == (eval(prod@, asg) - eval(c_exprs@[0]@, asg)) % (modulus() as int));
                assert(eval(prod@, asg) == (eval(a_exprs@[0]@, asg) * eval(b_exprs@[0]@, asg)) % modulus());
                assert(a_exprs@[0]@ == unfold_outputs(ea_v, s.tmp as u32)[0]);
                assert(b_exprs@[0]@ == unfold_outputs(eb_v, t1 as u32)[0]);
                assert(c_exprs@[0]@ == unfold_outputs(ec_v, t2 as u32)[0]);
            }
            assert(cs.take(k + 1).last() == (*a, *b, *c));
            assert(translate_spec(cs.take(k + 1), m0, t0).tmp == constraint_step(av, bv, cv, s.map, s.tmp).tmp);
            if h {
                assert(0 <= t0 <= s.tmp);
                assert(cs[k as int] == (*a, *b, *c));
                assert(wires_below(av, t0) && wires_below(bv, t0) && wires_below(cv, t0));
                assert((r1cs_value(av, assignment(m0)) * r1cs_value(bv, assignment(m0))) % modulus() == r1cs_value(cv, assignment(m0)));
                lemma_step_sound(av, bv, cv, m0, t0, s.map, s.tmp, first_v);
            }
        }
        let ghost mid_map = witness@;
        opcodes.push(first);
        append_tail(&mut opcodes, &a_exprs);
        append_tail(&mut opcodes, &b_exprs);
        append_tail(&mut opcodes, &c_exprs);
        assert(exprs_view(a_exprs@) =~= unfold_outputs(ea@, s.tmp as u32));
        k = k + 1;
        assert(exprs_view(opcodes@) =~= translate_spec(cs.take(k as int), m0, t0).opcodes);
        proof {
            let ua = exprs_view(a_exprs@);
            let ub = exprs_view(b_exprs@);
            let uc = exprs_view(c_exprs@);
            let ops = exprs_view(opcodes@);
            assert(ops =~= before + seq![first_v] + ua.skip(1) + ub.skip(1) + uc.skip(1));
            let t1 = unfold_tmp(term_expr(av), s.tmp);
            let t2 = unfold_tmp(term_expr(bv), t1);
            assert(ub =~= unfold_outputs(term_expr(bv), t1 as u32));
            assert(uc =~= unfold_outputs(term_expr(cv), t2 as u32));
            assert(cs.take(k as int) =~= cs.take(k - 1).push(cs[k - 1]));
            assert(cs[k - 1] == (*a, *b, *c));
            lemma_converse_step(before, ops, cs.take(k - 1), cs[k - 1], first_v, s.tmp as u32, t1 as u32, t2 as u32);
            if h {
                assert forall|w: u32| w < t0 implies #[trigger] lookup(witness@, w) == lookup(m0, w) by {
                    assert(lookup(witness@, w) == lookup(s.map, w));
                }
                lemma_invariant_step(before, ops, first_v, ua, ub, uc, s.map, s.tmp, witness@, *tmp_wit_index as int);
            }
        }
    }
    assert(cs.take(k as int) =~= cs);
    proof {
        if h {
            assert forall|j: int| 0 <= j < opcodes@.len() implies eval(#[trigger] opcodes@[j]@, assignment(witness@)) == 0 by {
                assert(exprs_view(opcodes@)[j] == opcodes@[j]@);
                assert(eval(exprs_view(opcodes@)[j], assignment(witness@)) == 0);
            }
        }
    }
    opcodes
}

/// The ACIR circuit of a Circom R1CS file: its constraints translated in order (see
/// `translate_spec`), with fresh witnesses from `*tmp_wit_index` on, solved into
/// `witness`; the circuit's witness index is the next free one. No public parameters or
/// return values are recorded. Soundness: where the constraints hold under the witness
/// map and mention only witnesses below the first fresh one, every opcode vanishes under
/// the solved map. Conversely, under any assignment whatever, opcodes that all vanish
/// mean that every constraint holds.
pub fn acir_circuit_from_r1cs_file(r1cs_file: R1csFile, tmp_wit_index: &mut u32, witness: &mut WitnessMap) -> (circuit: Circuit)
    requires
        constraints_fit(r1cs_file.constraints@),
        translate_spec(r1cs_file.constraints@, old(witness)@, *old(tmp_wit_index) as int).tmp <= u32::MAX,
    ensures
        ({
            let st = translate_spec(r1cs_file.constraints@, old(witness)@, *old(tmp_wit_index) as int);
            &&& exprs_view(circuit.opcodes@) == st.opcodes
            &&& final(witness)@ == st.map
            &&& *final(tmp_wit_index) == st.tmp
            &&& circuit.current_witness_index == st.tmp
            &&& circuit.public_parameters@.len() == 0
            &&& circuit.return_values@.len() == 0
        }),
        vanishing_implies_holds(exprs_view(circuit.opcodes@), r1cs_file.constraints@),
        constraints_below(r1cs_file.constraints@, *old(tmp_wit_index) as int) && satisfied(r1cs_file.constraints@, old(witness)@) ==> {
            &&& forall|j: int| 0 <= j < circuit.opcodes@.len() ==> eval(#[trigger] circuit.opcodes@[j]@, assignment(final(witness)@)) == 0
            &&& forall|w: u32| w < *old(tmp_wit_index) ==> #[trigger] lookup(final(witness)@, w) == lookup(old(witness)@, w)
        },
{
    let opcodes = translate_constraints(&r1cs_file.constraints, tmp_wit_index, witness);
    Circuit {
        current_witness_index: *tmp_wit_index,
        opcodes,
        public_parameters: Vec::new(),
        return_values: Vec::new(),
    }
}



/// Whether an expression has no product term and mentions only witnesses below `bound`.
pub open spec fn linear_below(e: ExprView, bound: int) -> bool {
    &&& e.mul_terms.len() == 0
    &&& forall|j: int| 0 <= j < e.linear_combinations.len() ==> (#[trigger] e.linear_combinations[j]).1 < bound
}

/// The sum of linear terms only depends on the values of the witnesses that they mention.
pub proof fn lemma_sum_linear_agree(lin: Seq<(nat, u32)>, a1: spec_fn(u32) -> nat, a2: spec_fn(u32) -> nat)
    requires
        forall|j: int| 0 <= j < lin.len() ==> a1((#[trigger] lin[j]).1) == a2(lin[j].1),
    ensures
        sum_linear_terms(lin, a1) == sum_linear_terms(lin, a2),
    decreases lin.len(),
{
    if lin.len() > 0 {
        let d = lin.drop_last();
        assert forall|j: int| 0 <= j < d.len() implies a1((#[trigger] d[j]).1) == a2(d[j].1) by {
            assert(d[j] == lin[j]);
        }
        lemma_sum_linear_agree(d, a1, a2);
        assert(lin.last() == lin[lin.len() - 1]);
    }
}

/// The value of an expression without product terms only depends on the values of the
/// witnesses below a bound that it keeps to.
pub proof fn lemma_eval_agree(e: ExprView, bound: int, a1: spec_fn(u32) -> nat, a2: spec_fn(u32) -> nat)
    requires
        linear_below(e, bound),
        forall|w: u32| w < bound ==> #[trigger] a1(w) == a2(w),
    ensures
        eval(e, a1) == eval(e, a2),
{
    assert forall|j: int| 0 <= j < e.linear_combinations.len() implies a1(
        (#[trigger] e.linear_combinations[j]).1,
    ) == a2(e.linear_combinations[j].1) by {
        let w = e.linear_combinations[j].1;
        assert(a1(w) == a2(w));
    }
    lemma_sum_linear_agree(e.linear_combinations, a1, a2);
    assert(sum_mul_terms(e.mul_terms, a1) == 0);
    assert(sum_mul_terms(e.mul_terms, a2) == 0);
}

/// Laws of solving a chain: it only sets the fresh witnesses `t0 ..= t0 + k`, each to
/// the value solved for it.
pub proof fn lemma_unfold_state_lookup(lin: Seq<(nat, u32)>, m0: Map<u32, nat>, t0: u32, k: nat)
    requires
        t0 + k <= u32::MAX,
    ensures
        forall|w: u32| (w < t0 || w > t0 + k) ==> #[trigger] lookup(unfold_state(lin, m0, t0, k).0, w) == lookup(m0, w),
        forall|i: int| 0 <= i <= k ==> #[trigger] lookup(unfold_state(lin, m0, t0, k).0, (t0 + i) as u32) == unfold_state(lin, m0, t0, i as nat).1,
    decreases k,
{
    let cur = unfold_state(lin, m0, t0, k);
    if k == 0 {
        assert forall|w: u32| (w < t0 || w > t0 + k) implies #[trigger] lookup(cur.0, w) == lookup(m0, w) by {
            assert(w != t0);
        }
        assert forall|i: int| 0 <= i <= k implies #[trigger] lookup(cur.0, (t0 + i) as u32) == unfold_state(lin, m0, t0, i as nat).1 by {
            assert(i == 0);
            assert((t0 + i) as u32 == t0);
        }
    } else {
        lemma_unfold_state_lookup(lin, m0, t0, (k - 1) as nat);
        let prev = unfold_state(lin, m0, t0, (k - 1) as nat);
        assert(cur.0 == prev.0.insert((t0 + k) as u32, cur.1));
        assert forall|w: u32| (w < t0 || w > t0 + k) implies #[trigger] lookup(cur.0, w) == lookup(m0, w) by {
            assert(w != (t0 + k) as u32);
            assert(lookup(prev.0, w) == lookup(m0, w));
        }
        assert forall|i: int| 0 <= i <= k implies #[trigger] lookup(cur.0, (t0 + i) as u32) == unfold_state(lin, m0, t0, i as nat).1 by {
            if i < k {
                assert((t0 + i) as u32 != (t0 + k) as u32);
                assert(lookup(prev.0, (t0 + i) as u32) == unfold_state(lin, m0, t0, i as nat).1);
            } else {
                assert(i as nat == k);
            }
        }
    }
}

/// Laws of solving a chain: with fresh witnesses, the value solved for `t0 + k` is what
/// is left of the linear part once its first `k` terms are taken away.
pub proof fn lemma_unfold_values(lin: Seq<(nat, u32)>, m0: Map<u32, nat>, t0: u32, k: nat)
    requires
        t0 + lin.len() <= u32::MAX,
        k < lin.len(),
        forall|j: int| 0 <= j < lin.len() ==> (#[trigger] lin[j]).1 < t0,
    ensures
        unfold_state(lin, m0, t0, k).1 == (sum_linear_terms(lin, assignment(m0)) - sum_linear_terms(lin.take(k as int), assignment(m0))) % (modulus() as int),
    decreases k,
{
    let asg = assignment(m0);
    let total = sum_linear_terms(lin, asg);
    let pm = modulus() as int;
    if k == 0 {
        assert(lin.take(0) =~= seq![]);
    } else {
        let km = (k - 1) as nat;
        lemma_unfold_values(lin, m0, t0, km);
        lemma_unfold_state_lookup(lin, m0, t0, km);
        let (m, v) = unfold_state(lin, m0, t0, km);
        let (c, w) = lin[km as int];
        assert(lookup(m, w) == lookup(m0, w));
        let pre = sum_linear_terms(lin.take(km as int), asg);
        assert(lin.take(k as int).drop_last() =~= lin.take(km as int));
        assert(sum_linear_terms(lin.take(k as int), asg) == pre + c * lookup(m0, w));
        lemma_mod_sum(total - pre, (c * lookup(m0, w)) as int);
        vstd::arithmetic::div_mod::lemma_sub_mod_noop(total - pre, (c * lookup(m0, w)) as int, pm);
        vstd::arithmetic::div_mod::lemma_mod_twice(total - pre, pm);
        vstd::arithmetic::div_mod::lemma_sub_mod_noop((total - pre) % pm, (c * lookup(m0, w)) as int, pm);
    }
}

/// `(x + y % p + (p - 1) * v) % p == 0` when `y == v - x`: an auxiliary expression of
/// the chain evaluates to zero.
proof fn lemma_chain_link_zero(x: int, v: int)
    requires
        0 <= v,
    ensures
        (x + (v - x) % (modulus() as int) + (modulus() - 1) * v) % (modulus() as int) == 0,
{
    let p = modulus() as int;
    let y = v - x;
    vstd::arithmetic::div_mod::lemma_fundamental_div_mod(y, p);
    let q = y / p;
    assert(x + y % p + (p - 1) * v == p * (v - q)) by (nonlinear_arith)
        requires
            y == v - x,
            y == p * q + y % p,
    ;
    vstd::arithmetic::div_mod::lemma_mod_multiples_basic(v - q, p);
    vstd::arithmetic::mul::lemma_mul_is_commutative(v - q, p);
}

/// Laws of cutting an expression without product terms whose witnesses are all below
/// the first fresh witness `t0`: under the solved witness map, the first expression of
/// the chain has the value that the expression had, every other expression of the chain
/// has the value zero, the witnesses below `t0` and from the next free index on keep
/// their values, and the chain only mentions witnesses below the next free index.
pub proof fn lemma_unfold_evaluation(e: ExprView, m0: Map<u32, nat>, t0: u32)
    requires
        linear_below(e, t0 as int),
        e.linear_combinations.len() > 1 ==> t0 + e.linear_combinations.len() <= u32::MAX,
    ensures
        ({
            let u = unfold_outputs(e, t0);
            let m = unfold_map(e, m0, t0);
            let t = unfold_tmp(e, t0 as int);
            &&& u.len() >= 1
            &&& eval(u[0], assignment(m)) == eval(e, assignment(m0))
            &&& forall|k: int| 1 <= k < u.len() ==> eval(#[trigger] u[k], assignment(m)) == 0
            &&& forall|w: u32| (w < t0 || w >= t) ==> #[trigger] lookup(m, w) == lookup(m0, w)
            &&& forall|k: int| 0 <= k < u.len() ==> linear_below(#[trigger] u[k], t)
            &&& t0 <= t
        }),
{
    let n = e.linear_combinations.len();
    let lin = e.linear_combinations;
    let u = unfold_outputs(e, t0);
    let m = unfold_map(e, m0, t0);
    let t = unfold_tmp(e, t0 as int);
    let pm = modulus() as int;
    if n > 1 {
        let asg0 = assignment(m0);
        let asg = assignment(m);
        let total = sum_linear_terms(lin, asg0);
        lemma_unfold_state_lookup(lin, m0, t0, (n - 1) as nat);
        assert forall|j: int| 0 <= j < n implies asg0((#[trigger] lin[j]).1) == asg(lin[j].1) by {
            assert(lin[j].1 < t0);
        }
        lemma_sum_linear_agree(lin, asg0, asg);
        // the first expression
        lemma_unfold_values(lin, m0, t0, 0);
        assert(lin.take(0) =~= seq![]);
        let u0 = u[0];
        assert(u0.linear_combinations =~= seq![(1nat, t0)]);
        assert(m == unfold_state(lin, m0, t0, (n - 1) as nat).0);
        assert(lookup(unfold_state(lin, m0, t0, (n - 1) as nat).0, (t0 + 0int) as u32) == unfold_state(lin, m0, t0, 0int as nat).1);
        assert((t0 + 0int) as u32 == t0);
        assert(sum_linear_terms(u0.linear_combinations, asg) == lookup(m, t0)) by {
            let l = u0.linear_combinations;
            assert(l.drop_last() =~= Seq::<(nat, u32)>::empty());
            assert(sum_linear_terms(l.drop_last(), asg) == 0);
            assert(l.last() == (1nat, t0));
            assert(asg(t0) == lookup(m, t0));
            assert(sum_linear_terms(l, asg) == sum_linear_terms(l.drop_last(), asg) + 1 * asg(t0));
        }
        vstd::arithmetic::div_mod::lemma_add_mod_noop(total as int, e.q_c as int, pm);
        vstd::arithmetic::div_mod::lemma_mod_twice(total as int, pm);
        vstd::arithmetic::div_mod::lemma_add_mod_noop(total as int % pm, e.q_c as int, pm);
        // the other expressions
        assert forall|k: int| 1 <= k < u.len() implies eval(#[trigger] u[k], asg) == 0 by {
            let uk = u[k];
            reveal_with_fuel(sum_linear_terms, 4);
            assert(m == unfold_state(lin, m0, t0, (n - 1) as nat).0);
            if k < n {
                let (c, w) = lin[k - 1];
                let x = lookup(m0, w);
                assert(lookup(m, w) == x);
                lemma_unfold_values(lin, m0, t0, (k - 1) as nat);
                lemma_unfold_state_lookup(lin, m0, t0, (k - 1) as nat);
                let prev = unfold_state(lin, m0, t0, (k - 1) as nat);
                let v = prev.1;
                assert(lookup(prev.0, w) == x);
                assert(lookup(m, (t0 + (k - 1)) as u32) == v);
                assert(lookup(m, (t0 + k) as u32) == unfold_state(lin, m0, t0, k as nat).1);
                assert(unfold_state(lin, m0, t0, k as nat).1 == (v - c * x) % pm);
                let l = uk.linear_combinations;
                assert(l =~= seq![(c, w), (1nat, (t0 + k) as u32), (minus_one(), (t0 + k - 1) as u32)]);
                assert(sum_linear_terms(l, asg) == c * x + 1 * ((v - c * x) % pm) + minus_one() * v);
                lemma_chain_link_zero((c * x) as int, v as int);
            } else {
                let (c, w) = lin[n - 1];
                let x = lookup(m0, w);
                assert(lookup(m, w) == x);
                lemma_unfold_values(lin, m0, t0, (n - 1) as nat);
                let v = unfold_state(lin, m0, t0, (n - 1) as nat).1;
                assert(lookup(m, (t0 + (n - 1)) as u32) == v);
                assert(lin.take(n as int) =~= lin);
                assert(lin.take(n as int).drop_last() =~= lin.take(n - 1));
                assert(total == sum_linear_terms(lin.take(n - 1), asg0) + c * x);
                let l = uk.linear_combinations;
                assert(l =~= seq![(c, w), (minus_one(), (t0 + n - 1) as u32)]);
                assert(sum_linear_terms(l, asg) == c * x + minus_one() * v);
                assert(v == (c * x) as int % pm);
                lemma_chain_link_zero((c * x) as int, (c * x) as int);
                vstd::arithmetic::div_mod::lemma_mod_twice((c * x) as int, pm);
                vstd::arithmetic::div_mod::lemma_add_mod_noop((c * x) as int, (pm - 1) * ((c * x) as int % pm), pm);
                vstd::arithmetic::div_mod::lemma_add_mod_noop((c * x) as int, (pm - 1) * (c * x) as int, pm);
                vstd::arithmetic::div_mod::lemma_mul_mod_noop_right(pm - 1, (c * x) as int, pm);
            }
        }
        assert forall|k: int| 0 <= k < u.len() implies linear_below(#[trigger] u[k], t) by {
            let uk = u[k];
            assert forall|j: int| 0 <= j < uk.linear_combinations.len() implies (#[trigger] uk.linear_combinations[j]).1 < t by {
                if 1 <= k < n {
                    assert(lin[k - 1].1 < t0);
                } else if k == n {
                    assert(lin[n - 1].1 < t0);
                }
            }
        }
    } else {
        assert(u[0] == e);
    }
}


/// The value of a wire under an assignment of values to witnesses: wire `0` is `1`,
/// wire `k` is witness `k - 1` (the wire index taken as a `u32`).
pub open spec fn wire_value(wire: usize, asg: spec_fn(u32) -> nat) -> nat {
    if wire == 0 {
        1
    } else {
        asg(((wire as u32) - 1) as u32)
    }
}

/// The sum of a side of a constraint over the integers.
pub open spec fn r1cs_sum(t: Seq<(usize, nat)>, asg: spec_fn(u32) -> nat) -> nat
    decreases t.len(),
{
    if t.len() == 0 {
        0
    } else {
        r1cs_sum(t.drop_last(), asg) + t.last().1 * wire_value(t.last().0, asg)
    }
}

/// The value of a side of a constraint in the field.
pub open spec fn r1cs_value(t: Seq<(usize, nat)>, asg: spec_fn(u32) -> nat) -> nat {
    r1cs_sum(t, asg) % modulus()
}

/// Whether every wire but wire `0` of a side stands for a witness below `bound`.
pub open spec fn wires_below(t: Seq<(usize, nat)>, bound: int) -> bool {
    forall|i: int| 0 <= i < t.len() && (#[trigger] t[i]).0 != 0 ==> (((t[i].0 as u32) - 1) as u32) < bound
}

/// Whether the witness map's values satisfy every constraint `a * b = c`.
pub open spec fn satisfied(cs: Seq<Constraint>, m: Map<u32, nat>) -> bool {
    forall|i: int|
        0 <= i < cs.len() ==> (r1cs_value(term_view((#[trigger] cs[i]).0@), assignment(m)) * r1cs_value(term_view(cs[i].1@), assignment(m)))
            % modulus() == r1cs_value(term_view(cs[i].2@), assignment(m))
}

/// Whether every wire of every constraint stands for a witness below `bound`.
pub open spec fn constraints_below(cs: Seq<Constraint>, bound: int) -> bool {
    forall|i: int|
        0 <= i < cs.len() ==> wires_below(term_view((#[trigger] cs[i]).0@), bound) && wires_below(
            term_view(cs[i].1@),
            bound,
        ) && wires_below(term_view(cs[i].2@), bound)
}

/// Whether an assignment gives every witness below `bound` its value in the map.
pub open spec fn agrees_below(asg: spec_fn(u32) -> nat, m: Map<u32, nat>, bound: int) -> bool {
    forall|w: u32| w < bound ==> #[trigger] asg(w) == lookup(m, w)
}

/// The expression of a side of a constraint has the value of the side.
pub proof fn lemma_term_expr_eval(t: Seq<(usize, nat)>, asg: spec_fn(u32) -> nat)
    ensures
        eval(term_expr(t), asg) == r1cs_value(t, asg),
{
    lemma_term_sums(t, asg);
    assert(sum_mul_terms(term_expr(t).mul_terms, asg) == 0);
}

proof fn lemma_term_sums(t: Seq<(usize, nat)>, asg: spec_fn(u32) -> nat)
    ensures
        (sum_linear_terms(linear_part(t), asg) + constant_part(t)) % modulus() == r1cs_sum(t, asg) % modulus(),
    decreases t.len(),
{
    let pm = modulus() as int;
    if t.len() > 0 {
        let d = t.drop_last();
        lemma_term_sums(d, asg);
        let (w, c) = t.last();
        let sl = sum_linear_terms(linear_part(d), asg) as int;
        let cp = constant_part(d) as int;
        let rs = r1cs_sum(d, asg) as int;
        if w == 0 {
            vstd::arithmetic::div_mod::lemma_add_mod_noop(sl, cp + c, pm);
            vstd::arithmetic::div_mod::lemma_mod_twice(cp + c, pm);
            vstd::arithmetic::div_mod::lemma_add_mod_noop(sl, (cp + c) % pm, pm);
            vstd::arithmetic::div_mod::lemma_add_mod_noop(sl + cp, c as int, pm);
            vstd::arithmetic::div_mod::lemma_add_mod_noop(rs, c as int, pm);
        } else {
            let lp = linear_part(d);
            assert(linear_part(t) == lp.push((c, ((w as u32) - 1) as u32)));
            assert(linear_part(t).drop_last() =~= lp);
            let x = (c * wire_value(w, asg)) as int;
            vstd::arithmetic::div_mod::lemma_add_mod_noop(sl + cp, x, pm);
            vstd::arithmetic::div_mod::lemma_add_mod_noop(rs, x, pm);
        }
    }
}

/// The expression of a side whose wires stand for witnesses below `bound` keeps to them.
pub proof fn lemma_term_expr_below(t: Seq<(usize, nat)>, bound: int)
    requires
        wires_below(t, bound),
    ensures
        linear_below(term_expr(t), bound),
    decreases t.len(),
{
    if t.len() > 0 {
        let d = t.drop_last();
        assert forall|i: int| 0 <= i < d.len() && (#[trigger] d[i]).0 != 0 implies (((d[i].0 as u32) - 1) as u32) < bound by {
            assert(d[i] == t[i]);
        }
        lemma_term_expr_below(d, bound);
        let l = linear_part(t);
        assert forall|j: int| 0 <= j < l.len() implies (#[trigger] l[j]).1 < bound by {
            if j < linear_part(d).len() {
                assert(linear_part(d)[j] == l[j]);
                assert(term_expr(d).linear_combinations[j] == l[j]);
                assert(l[j].1 < bound);
            } else {
                let i = t.len() - 1;
                assert(t[i] == t.last());
                assert(t.last().0 != 0);
                assert(l == linear_part(d).push((t.last().1, ((t.last().0 as u32) - 1) as u32)));
                assert(l[j] == (t.last().1, ((t.last().0 as u32) - 1) as u32));
                assert(t[i].0 != 0);
                assert(l[j].1 < bound);
            }
        }
    }
}


/// An expression that keeps to witnesses below `bound` has the same value under two maps
/// that agree below `bound`, and under an assignment that agrees with a map below it.
proof fn lemma_eval_maps(e: ExprView, bound: int, ma: Map<u32, nat>, mb: Map<u32, nat>)
    requires
        linear_below(e, bound),
        forall|w: u32| w < bound ==> #[trigger] lookup(ma, w) == lookup(mb, w),
    ensures
        eval(e, assignment(ma)) == eval(e, assignment(mb)),
{
    assert forall|w: u32| w < bound implies #[trigger] assignment(ma)(w) == assignment(mb)(w) by {
        assert(lookup(ma, w) == lookup(mb, w));
    }
    lemma_eval_agree(e, bound, assignment(ma), assignment(mb));
}

proof fn lemma_eval_asg_map(e: ExprView, bound: int, asg: spec_fn(u32) -> nat, m: Map<u32, nat>)
    requires
        linear_below(e, bound),
        agrees_below(asg, m, bound),
    ensures
        eval(e, asg) == eval(e, assignment(m)),
{
    assert forall|w: u32| w < bound implies #[trigger] asg(w) == assignment(m)(w) by {
        assert(asg(w) == lookup(m, w));
    }
    lemma_eval_agree(e, bound, asg, assignment(m));
}

proof fn lemma_below_mono(e: ExprView, b1: int, b2: int)
    requires
        linear_below(e, b1),
        b1 <= b2,
    ensures
        linear_below(e, b2),
{
}

/// One constraint, turned into opcodes from map `m` and next free index `t`, gives opcodes that
/// all evaluate to zero under any assignment that agrees with the new map below the new
/// next free index, when the constraint holds and its witnesses are below `t0 <= t`.
proof fn lemma_step_sound(
    a: Seq<(usize, nat)>,
    b: Seq<(usize, nat)>,
    c: Seq<(usize, nat)>,
    m0: Map<u32, nat>,
    t0: int,
    m: Map<u32, nat>,
    t: int,
    first: ExprView,
)
    requires
        wires_below(a, t0),
        wires_below(b, t0),
        wires_below(c, t0),
        (r1cs_value(a, assignment(m0)) * r1cs_value(b, assignment(m0))) % modulus() == r1cs_value(c, assignment(m0)),
        0 <= t0 <= t,
        forall|w: u32| w < t0 ==> #[trigger] lookup(m, w) == lookup(m0, w),
        ({
            let st = constraint_step(a, b, c, m, t);
            st.tmp <= u32::MAX
        }),
        ({
            let ea = term_expr(a);
            let eb = term_expr(b);
            let ec = term_expr(c);
            let t1 = unfold_tmp(ea, t);
            let t2 = unfold_tmp(eb, t1);
            forall|asg: spec_fn(u32) -> nat| #[trigger] eval(first, asg) == ((eval(unfold_outputs(ea, t as u32)[0], asg) * eval(unfold_outputs(eb, t1 as u32)[0], asg)) % modulus() - eval(unfold_outputs(ec, t2 as u32)[0], asg)) % (modulus() as int)
        }),
    ensures
        ({
            let ea = term_expr(a);
            let eb = term_expr(b);
            let ec = term_expr(c);
            let t1 = unfold_tmp(ea, t);
            let t2 = unfold_tmp(eb, t1);
            let st = constraint_step(a, b, c, m, t);
            &&& t <= st.tmp
            &&& forall|w: u32| w < t ==> #[trigger] lookup(st.map, w) == lookup(m, w)
            &&& forall|asg: spec_fn(u32) -> nat| #![trigger agrees_below(asg, st.map, st.tmp)] agrees_below(asg, st.map, st.tmp) ==> {
                &&& eval(first, asg) == 0
                &&& forall|k: int| 1 <= k < unfold_outputs(ea, t as u32).len() ==> eval(#[trigger] unfold_outputs(ea, t as u32)[k], asg) == 0
                &&& forall|k: int| 1 <= k < unfold_outputs(eb, t1 as u32).len() ==> eval(#[trigger] unfold_outputs(eb, t1 as u32)[k], asg) == 0
                &&& forall|k: int| 1 <= k < unfold_outputs(ec, t2 as u32).len() ==> eval(#[trigger] unfold_outputs(ec, t2 as u32)[k], asg) == 0
            }
        }),
{
    let pm = modulus() as int;
    let ea = term_expr(a);
    let eb = term_expr(b);
    let ec = term_expr(c);
    let ua = unfold_outputs(ea, t as u32);
    let m1 = unfold_map(ea, m, t as u32);
    let t1 = unfold_tmp(ea, t);
    let ub = unfold_outputs(eb, t1 as u32);
    let m2 = unfold_map(eb, m1, t1 as u32);
    let t2 = unfold_tmp(eb, t1);
    let uc = unfold_outputs(ec, t2 as u32);
    let m3 = unfold_map(ec, m2, t2 as u32);
    let t3 = unfold_tmp(ec, t2);
    let st = constraint_step(a, b, c, m, t);
    assert(st.map == m3 && st.tmp == t3);
    lemma_term_expr_below(a, t0);
    lemma_term_expr_below(b, t0);
    lemma_term_expr_below(c, t0);
    lemma_unfold_tmp_grows(ea, t);
    lemma_unfold_tmp_grows(eb, t1);
    lemma_unfold_tmp_grows(ec, t2);
    lemma_below_mono(ea, t0, t);
    lemma_below_mono(eb, t0, t1);
    lemma_below_mono(ec, t0, t2);
    lemma_unfold_evaluation(ea, m, t as u32);
    lemma_unfold_evaluation(eb, m1, t1 as u32);
    lemma_unfold_evaluation(ec, m2, t2 as u32);
    // the maps agree below the index each one started from
    assert forall|w: u32| w < t implies #[trigger] lookup(m3, w) == lookup(m, w) by {
        assert(lookup(m1, w) == lookup(m, w));
        assert(lookup(m2, w) == lookup(m1, w));
        assert(lookup(m3, w) == lookup(m2, w));
    }
    assert forall|w: u32| w < t1 implies #[trigger] lookup(m3, w) == lookup(m1, w) by {
        assert(lookup(m2, w) == lookup(m1, w));
        assert(lookup(m3, w) == lookup(m2, w));
    }
    assert forall|w: u32| w < t2 implies #[trigger] lookup(m3, w) == lookup(m2, w) by {
        assert(lookup(m3, w) == lookup(m2, w));
    }
    assert forall|w: u32| w < t0 implies #[trigger] lookup(m1, w) == lookup(m0, w) by {
        assert(lookup(m1, w) == lookup(m, w));
    }
    assert forall|w: u32| w < t0 implies #[trigger] lookup(m2, w) == lookup(m0, w) by {
        assert(lookup(m2, w) == lookup(m1, w));
        assert(lookup(m1, w) == lookup(m, w));
    }
    // the values of the three sides
    lemma_eval_maps(ea, t0, m, m0);
    lemma_eval_maps(eb, t0, m1, m0);
    lemma_eval_maps(ec, t0, m2, m0);
    lemma_term_expr_eval(a, assignment(m0));
    lemma_term_expr_eval(b, assignment(m0));
    lemma_term_expr_eval(c, assignment(m0));
    lemma_eval_maps(ua[0], t1, m3, m1);
    lemma_eval_maps(ub[0], t2, m3, m2);
    assert forall|asg: spec_fn(u32) -> nat| #![trigger agrees_below(asg, m3, t3)] agrees_below(asg, m3, t3) implies {
        &&& eval(first, asg) == 0
        &&& forall|k: int| 1 <= k < ua.len() ==> eval(#[trigger] ua[k], asg) == 0
        &&& forall|k: int| 1 <= k < ub.len() ==> eval(#[trigger] ub[k], asg) == 0
        &&& forall|k: int| 1 <= k < uc.len() ==> eval(#[trigger] uc[k], asg) == 0
    } by {
        lemma_below_mono(ua[0], t1, t3);
        lemma_below_mono(ub[0], t2, t3);
        lemma_eval_asg_map(ua[0], t3, asg, m3);
        lemma_eval_asg_map(ub[0], t3, asg, m3);
        lemma_eval_asg_map(uc[0], t3, asg, m3);
        let va = r1cs_value(a, assignment(m0));
        let vb = r1cs_value(b, assignment(m0));
        let vc = r1cs_value(c, assignment(m0));
        assert(eval(ua[0], asg) == va);
        assert(eval(ub[0], asg) == vb);
        assert(eval(uc[0], asg) == vc);
        assert(eval(first, asg) == ((va * vb) % modulus() - vc) % pm);
        assert forall|k: int| 1 <= k < ua.len() implies eval(#[trigger] ua[k], asg) == 0 by {
            lemma_below_mono(ua[k], t1, t3);
            lemma_eval_asg_map(ua[k], t3, asg, m3);
            lemma_eval_maps(ua[k], t1, m3, m1);
        }
        assert forall|k: int| 1 <= k < ub.len() implies eval(#[trigger] ub[k], asg) == 0 by {
            lemma_below_mono(ub[k], t2, t3);
            lemma_eval_asg_map(ub[k], t3, asg, m3);
            lemma_eval_maps(ub[k], t2, m3, m2);
        }
        assert forall|k: int| 1 <= k < uc.len() implies eval(#[trigger] uc[k], asg) == 0 by {
            lemma_eval_asg_map(uc[k], t3, asg, m3);
        }
    }
}


/// The opcodes translated so far still all evaluate to zero after one more constraint.
proof fn lemma_invariant_step(
    before: Seq<ExprView>,
    ops: Seq<ExprView>,
    first: ExprView,
    ua: Seq<ExprView>,
    ub: Seq<ExprView>,
    uc: Seq<ExprView>,
    m_old: Map<u32, nat>,
    t_old: int,
    m_new: Map<u32, nat>,
    t_new: int,
)
    requires
        ops == before + seq![first] + ua.skip(1) + ub.skip(1) + uc.skip(1),
        ua.len() >= 1,
        ub.len() >= 1,
        uc.len() >= 1,
        t_old <= t_new,
        forall|w: u32| w < t_old ==> #[trigger] lookup(m_new, w) == lookup(m_old, w),
        forall|j: int, asg: spec_fn(u32) -> nat|
            #![trigger eval(before[j], asg)]
            0 <= j < before.len() && agrees_below(asg, m_old, t_old) ==> eval(before[j], asg) == 0,
        forall|asg: spec_fn(u32) -> nat| #![trigger agrees_below(asg, m_new, t_new)] agrees_below(asg, m_new, t_new) ==> {
            &&& eval(first, asg) == 0
            &&& forall|k: int| 1 <= k < ua.len() ==> eval(#[trigger] ua[k], asg) == 0
            &&& forall|k: int| 1 <= k < ub.len() ==> eval(#[trigger] ub[k], asg) == 0
            &&& forall|k: int| 1 <= k < uc.len() ==> eval(#[trigger] uc[k], asg) == 0
        },
    ensures
        forall|j: int, asg: spec_fn(u32) -> nat|
            #![trigger eval(ops[j], asg)]
            0 <= j < ops.len() && agrees_below(asg, m_new, t_new) ==> eval(ops[j], asg) == 0,
{
    assert forall|j: int, asg: spec_fn(u32) -> nat|
        #![trigger eval(ops[j], asg)]
        0 <= j < ops.len() && agrees_below(asg, m_new, t_new) implies eval(ops[j], asg) == 0 by {
        let nb = before.len();
        assert(ua.skip(1).len() == ua.len() - 1);
        assert(ub.skip(1).len() == ub.len() - 1);
        assert(uc.skip(1).len() == uc.len() - 1);
        let p1 = before + seq![first];
        let p2 = p1 + ua.skip(1);
        let p3 = p2 + ub.skip(1);
        assert(ops == p3 + uc.skip(1));
        if j < nb {
            assert(agrees_below(asg, m_old, t_old)) by {
                assert forall|w: u32| w < t_old implies #[trigger] asg(w) == lookup(m_old, w) by {
                    assert(lookup(m_new, w) == lookup(m_old, w));
                }
            }
            assert(ops[j] == before[j]);
        } else if j == nb {
            assert(ops[j] == first);
            assert(eval(first, asg) == 0);
        } else if j < nb + ua.len() {
            assert(ops[j] == p2[j]);
            assert(p2[j] == ua.skip(1)[j - nb - 1]);
            assert(ops[j] == ua[j - nb]);
            assert(eval(ua[j - nb], asg) == 0);
        } else if j < nb + ua.len() + ub.len() - 1 {
            assert(ops[j] == p3[j]);
            assert(p3[j] == ub.skip(1)[j - nb - ua.len()]);
            assert(ops[j] == ub[j - nb - ua.len() + 1]);
            assert(eval(ub[j - nb - ua.len() + 1], asg) == 0);
        } else {
            assert(ops[j] == uc.skip(1)[j - nb - ua.len() - ub.len() + 1]);
            assert(ops[j] == uc[j - nb - ua.len() - ub.len() + 2]);
            assert(eval(uc[j - nb - ua.len() - ub.len() + 2], asg) == 0);
        }
    }
}

} // verus!
