//! The translation of constraint systems produced by the CirC compiler: its linear
//! combinations (held as plain values: coefficients as big-endian digits of their
//! integers) become R1CS sides, and its signal values a witness map.
use vstd::prelude::*;
use crate::circuit::{
    Circuit, Constraint, ConstraintVec, R1CS, WitnessMap, assignment, constraints_below,
    constraints_fit, exprs_view, lookup, satisfied, translate_constraints, translate_spec,
};
use crate::circuit::{constant_part, linear_part, term_expr, term_view, terms_fit};
use crate::expression::{ExprView, eval};
use crate::converse::vanishing_implies_holds;
use crate::field::{Fe, be_value, modulus};

verus! {

/// A linear combination of CirC variables: a constant and terms on variables, each
/// coefficient as the big-endian digits of its integer.
pub struct Lc {
    pub constant: Vec<u8>,
    pub monomials: Vec<(usize, Vec<u8>)>,
}

/// A constraint system as CirC gives it: its public variables, the next variable index,
/// the constraints `a * b = c`, and the variables that stand for named signals.
pub struct CircR1cs {
    pub public_idxs: Vec<usize>,
    pub next_idx: usize,
    pub constraints: Vec<(Lc, Lc, Lc)>,
    pub signal_idxs: Vec<usize>,
}

/// The value that CirC gives a signal: a field element (the big-endian digits of its
/// integer), or a value of another sort.
pub enum SignalValue {
    Field(Vec<u8>),
    Other,
}

/// Whether every variable of a linear combination has a next index.
pub open spec fn monomials_fit(lc: Lc) -> bool {
    forall|i: int| 0 <= i < lc.monomials@.len() ==> (#[trigger] lc.monomials@[i]).0 < usize::MAX
}

/// Whether `v` is the side that `lc` becomes: the constant on wire `0`, then each term on
/// variable `v` on wire `v + 1`, in order, every coefficient reduced into the field.
pub open spec fn side_of_lc(v: Seq<(usize, Fe)>, lc: Lc) -> bool {
    &&& v.len() == lc.monomials@.len() + 1
    &&& v[0].0 == 0
    &&& v[0].1@ == be_value(lc.constant@) % modulus()
    &&& forall|i: int|
        0 <= i < lc.monomials@.len() ==> (#[trigger] v[i + 1]).0 == lc.monomials@[i].0 + 1
            && v[i + 1].1@ == be_value(lc.monomials@[i].1@) % modulus()
}

/// The side of an R1CS constraint that a linear combination becomes: its constant on
/// wire `0`, then each term on variable `v` on wire `v + 1`, in order, every coefficient
/// reduced into the field.
pub fn lc_to_constraint_vec(lc: &Lc) -> (v: ConstraintVec)
    requires
        monomials_fit(*lc),
    ensures
        side_of_lc(v@, *lc),
{
    let mut v: ConstraintVec = Vec::new();
    let constant_field = Fe::fr_from_be_bytes_mod_order(lc.constant.as_slice());
    v.push((0, constant_field));
    let mut i: usize = 0;
    while i < lc.monomials.len()
        invariant
            i <= lc.monomials@.len(),
            forall|k: int| 0 <= k < lc.monomials@.len() ==> (#[trigger] lc.monomials@[k]).0 < usize::MAX,
            v@.len() == i + 1,
            v@[0].0 == 0,
            v@[0].1@ == be_value(lc.constant@) % modulus(),
            forall|k: int|
                0 <= k < i ==> (#[trigger] v@[k + 1]).0 == lc.monomials@[k].0 + 1
                    && v@[k + 1].1@ == be_value(lc.monomials@[k].1@) % modulus(),
        decreases lc.monomials@.len() - i,
    {
        let (var, coeff) = &lc.monomials[i];
        let coeff_field = Fe::fr_from_be_bytes_mod_order(coeff.as_slice());
        v.push((*var + 1, coeff_field));
        i = i + 1;
    }
    v
}

/// The expression that a linear combination stands for: its constant, and each term on
/// variable `v` as a term on witness `v` (as a `u32`), in order, every coefficient
/// reduced into the field.
pub open spec fn lc_expr(lc: Lc) -> ExprView {
    ExprView {
        mul_terms: seq![],
        linear_combinations: lc.monomials@.map_values(
            |m: (usize, Vec<u8>)| (be_value(m.1@) % modulus(), m.0 as u32),
        ),
        q_c: be_value(lc.constant@) % modulus(),
    }
}

/// The first `k` wires of the side of a linear combination give its constant and its
/// first `k - 1` terms.
proof fn lemma_lc_side_prefix(v: Seq<(usize, Fe)>, lc: Lc, k: nat)
    requires
        side_of_lc(v, lc),
        terms_fit(term_view(v)),
        1 <= k <= v.len(),
    ensures
        linear_part(term_view(v).take(k as int)) == lc_expr(lc).linear_combinations.take(k - 1),
        constant_part(term_view(v).take(k as int)) == be_value(lc.constant@) % modulus(),
    decreases k,
{
    let tv = term_view(v);
    let e = lc_expr(lc);
    if k == 1 {
        let t = tv.take(1);
        assert(t.drop_last() =~= Seq::<(usize, nat)>::empty());
        assert(t.last() == tv[0]);
        assert(tv[0] == (v[0].0, v[0].1@));
        assert(t.last().0 == 0);
        assert(e.linear_combinations.take(0) =~= Seq::<(nat, u32)>::empty());
        vstd::arithmetic::div_mod::lemma_small_mod(v[0].1@, modulus());
        assert(linear_part(t) == linear_part(t.drop_last()));
        assert(linear_part(t.drop_last()) =~= Seq::<(nat, u32)>::empty());
        assert(constant_part(t) == (constant_part(t.drop_last()) + t.last().1) % modulus());
    } else {
        lemma_lc_side_prefix(v, lc, (k - 1) as nat);
        let t = tv.take(k as int);
        let i = k - 2;
        assert(t.drop_last() =~= tv.take(k - 1));
        assert(t.last() == tv[i + 1]);
        let var = lc.monomials@[i].0;
        assert(v[i + 1].0 == var + 1);
        assert(tv[i + 1].0 == var + 1);
        assert(((var + 1) as u32) != 0);
        assert(((var + 1) as u32) != 0 ==> (((var + 1) as u32) - 1) as u32 == var as u32) by (bit_vector);
        assert(tv[i + 1] == (v[i + 1].0, v[i + 1].1@));
        assert(t.last().0 != 0);
        assert(linear_part(t) == linear_part(t.drop_last()).push((t.last().1, ((t.last().0 as u32) - 1) as u32)));
        assert(constant_part(t) == constant_part(t.drop_last()));
        assert(e.linear_combinations[i] == (be_value(lc.monomials@[i].1@) % modulus(), var as u32));
        assert(e.linear_combinations.take(k - 1) =~= e.linear_combinations.take(k - 2).push(e.linear_combinations[i]));
    }
}

/// Law of the two steps together: the side that a linear combination becomes
/// (`lc_to_constraint_vec`) becomes, as an expression (`r1cs_term_to_expr`), the linear
/// combination itself, wire `v + 1` standing for witness `v`.
pub proof fn lemma_lc_side_expr(v: Seq<(usize, Fe)>, lc: Lc)
    requires
        side_of_lc(v, lc),
        terms_fit(term_view(v)),
    ensures
        term_expr(term_view(v)) == lc_expr(lc),
{
    lemma_lc_side_prefix(v, lc, v.len());
    assert(term_view(v).take(v.len() as int) =~= term_view(v));
    assert(lc_expr(lc).linear_combinations.take(v.len() - 1) =~= lc_expr(lc).linear_combinations);
}

/// The R1CS of a CirC constraint system: its public variables are the inputs, the other
/// variables below `next_idx` the rest, each constraint's sides are translated with
/// `lc_to_constraint_vec`, and the signal variables are the wire mapping.
pub fn transform_circ_r1cs_to_r1cs(circ_r1cs: &CircR1cs) -> (r: R1CS)
    requires
        circ_r1cs.public_idxs@.len() <= circ_r1cs.next_idx,
        forall|i: int|
            0 <= i < circ_r1cs.constraints@.len() ==> monomials_fit((#[trigger] circ_r1cs.constraints@[i]).0)
                && monomials_fit(circ_r1cs.constraints@[i].1) && monomials_fit(circ_r1cs.constraints@[i].2),
    ensures
        r.num_inputs == circ_r1cs.public_idxs@.len(),
        r.num_aux == circ_r1cs.next_idx - circ_r1cs.public_idxs@.len(),
        r.num_variables == circ_r1cs.next_idx,
        r.constraints@.len() == circ_r1cs.constraints@.len(),
        forall|i: int|
            0 <= i < r.constraints@.len() ==> side_of_lc((#[trigger] r.constraints@[i]).0@, circ_r1cs.constraints@[i].0)
                && side_of_lc(r.constraints@[i].1@, circ_r1cs.constraints@[i].1)
                && side_of_lc(r.constraints@[i].2@, circ_r1cs.constraints@[i].2),
        r.wire_mapping matches Some(m) && m@ == circ_r1cs.signal_idxs@,
{
    let num_inputs = circ_r1cs.public_idxs.len();
    let num_aux = circ_r1cs.next_idx - num_inputs;
    let num_variables = circ_r1cs.next_idx;
    let mut constraints: Vec<Constraint> = Vec::new();
    let mut i: usize = 0;
    while i < circ_r1cs.constraints.len()
        invariant
            i <= circ_r1cs.constraints@.len(),
            constraints@.len() == i,
            forall|i: int|
                0 <= i < circ_r1cs.constraints@.len() ==> monomials_fit((#[trigger] circ_r1cs.constraints@[i]).0)
                    && monomials_fit(circ_r1cs.constraints@[i].1) && monomials_fit(circ_r1cs.constraints@[i].2),
            forall|k: int|
                0 <= k < i ==> side_of_lc((#[trigger] constraints@[k]).0@, circ_r1cs.constraints@[k].0)
                    && side_of_lc(constraints@[k].1@, circ_r1cs.constraints@[k].1)
                    && side_of_lc(constraints@[k].2@, circ_r1cs.constraints@[k].2),
        decreases circ_r1cs.constraints@.len() - i,
    {
        let (a, b, c) = &circ_r1cs.constraints[i];
        constraints.push((lc_to_constraint_vec(a), lc_to_constraint_vec(b), lc_to_constraint_vec(c)));
        i = i + 1;
    }
    let mut wire_mapping: Vec<usize> = Vec::new();
    let mut j: usize = 0;
    while j < circ_r1cs.signal_idxs.len()
        invariant
            j <= circ_r1cs.signal_idxs@.len(),
            wire_mapping@ == circ_r1cs.signal_idxs@.take(j as int),
        decreases circ_r1cs.signal_idxs@.len() - j,
    {
        wire_mapping.push(circ_r1cs.signal_idxs[j]);
        j = j + 1;
        assert(wire_mapping@ =~= circ_r1cs.signal_idxs@.take(j as int));
    }
    assert(circ_r1cs.signal_idxs@.take(j as int) =~= circ_r1cs.signal_idxs@);
    R1CS { num_inputs, num_aux, num_variables, constraints, wire_mapping: Some(wire_mapping) }
}

/// The ACIR circuit of a constraint system whose variables end at `next_idx`: its
/// constraints translated in order (see `translate_spec`), with fresh witnesses from
/// `next_idx` (as a `u32`) on, solved into `witness`. The circuit's witness index is the
/// number of variables (as a `u32`). No public parameters or return values are recorded.
/// Soundness and its converse hold as for `acir_circuit_from_r1cs_file`.
pub fn get_circuit(r1cs: &R1CS, next_idx: usize, witness: &mut WitnessMap) -> (circuit: Circuit)
    requires
        constraints_fit(r1cs.constraints@),
        translate_spec(r1cs.constraints@, old(witness)@, (next_idx as u32) as int).tmp <= u32::MAX,
    ensures
        ({
            let st = translate_spec(r1cs.constraints@, old(witness)@, (next_idx as u32) as int);
            &&& exprs_view(circuit.opcodes@) == st.opcodes
            &&& final(witness)@ == st.map
            &&& circuit.current_witness_index == r1cs.num_variables as u32
            &&& circuit.public_parameters@.len() == 0
            &&& circuit.return_values@.len() == 0
        }),
        vanishing_implies_holds(exprs_view(circuit.opcodes@), r1cs.constraints@),
        constraints_below(r1cs.constraints@, (next_idx as u32) as int) && satisfied(r1cs.constraints@, old(witness)@) ==> {
            &&& forall|j: int| 0 <= j < circuit.opcodes@.len() ==> eval(#[trigger] circuit.opcodes@[j]@, assignment(final(witness)@)) == 0
            &&& forall|w: u32| w < next_idx as u32 ==> #[trigger] lookup(final(witness)@, w) == lookup(old(witness)@, w)
        },
{
    let mut tmp_wit_index = next_idx as u32;
    let opcodes = translate_constraints(&r1cs.constraints, &mut tmp_wit_index, witness);
    Circuit {
        current_witness_index: r1cs.num_variables as u32,
        opcodes,
        public_parameters: Vec::new(),
        return_values: Vec::new(),
    }
}


/// The witness map that signal values give, taken in order: a signal with a variable
/// index sets the witness of that index (as a `u32`) to its value reduced into the field;
/// a later value for the same witness replaces an earlier one; signals without an index
/// are left out.
pub open spec fn signals_map(s: Seq<(Option<usize>, SignalValue)>) -> Map<u32, nat>
    decreases s.len(),
{
    if s.len() == 0 {
        Map::empty()
    } else {
        let m = signals_map(s.drop_last());
        match s.last() {
            (Some(idx), SignalValue::Field(bytes)) => m.insert(idx as u32, be_value(bytes@) % modulus()),
            _ => m,
        }
    }
}

/// Whether signal `i` has a variable index and no later signal has one that is the same
/// witness (as a `u32`): it is the one whose value the witness keeps.
pub open spec fn last_for_witness(s: Seq<(Option<usize>, SignalValue)>, i: int) -> bool {
    &&& s[i].0 is Some
    &&& forall|j: int| i < j < s.len() && (#[trigger] s[j]).0 is Some ==> (s[j].0->0 as u32) != (s[i].0->0 as u32)
}

/// Whether some signal has a variable index that is witness `w` (as a `u32`) and a field
/// value.
pub open spec fn sets_witness(s: Seq<(Option<usize>, SignalValue)>, w: u32) -> bool {
    exists|i: int| 0 <= i < s.len() && (#[trigger] s[i]).0 is Some && s[i].1 is Field && (s[i].0->0 as u32) == w
}

/// Laws of the witness map of signal values: it holds exactly the witnesses that some
/// signal with a variable index and a field value sets, and the value of such a witness
/// is the big-endian value of the digits of the last signal for it, reduced into the
/// field.
pub proof fn lemma_signals_map_values(s: Seq<(Option<usize>, SignalValue)>)
    ensures
        forall|w: u32| #[trigger] signals_map(s).contains_key(w) <==> sets_witness(s, w),
        forall|i: int|
            0 <= i < s.len() && #[trigger] last_for_witness(s, i) && s[i].1 is Field ==> {
                &&& signals_map(s).contains_key(s[i].0->0 as u32)
                &&& signals_map(s)[s[i].0->0 as u32] == be_value(s[i].1->Field_0@) % modulus()
            },
    decreases s.len(),
{
    if s.len() > 0 {
        let d = s.drop_last();
        lemma_signals_map_values(d);
        let n = s.len() - 1;
        let last_sets = s[n].0 is Some && s[n].1 is Field;
        assert(s.last() == s[n]);
        assert forall|w: u32| #[trigger] signals_map(s).contains_key(w) <==> sets_witness(s, w) by {
            let in_last = last_sets && (s[n].0->0 as u32) == w;
            if last_sets {
                assert(signals_map(s) == signals_map(d).insert(s[n].0->0 as u32, be_value(s[n].1->Field_0@) % modulus()));
            } else {
                assert(signals_map(s) == signals_map(d));
            }
            assert(signals_map(s).contains_key(w) <==> (signals_map(d).contains_key(w) || in_last));
            if sets_witness(d, w) {
                let i = choose|i: int| 0 <= i < d.len() && (#[trigger] d[i]).0 is Some && d[i].1 is Field && (d[i].0->0 as u32) == w;
                assert(s[i] == d[i]);
                assert(sets_witness(s, w));
            }
            if in_last {
                assert(sets_witness(s, w));
            }
            if sets_witness(s, w) {
                let i = choose|i: int| 0 <= i < s.len() && (#[trigger] s[i]).0 is Some && s[i].1 is Field && (s[i].0->0 as u32) == w;
                if i < n {
                    assert(d[i] == s[i]);
                    assert(sets_witness(d, w));
                } else {
                    assert(in_last);
                }
            }
        }
        assert forall|i: int|
            0 <= i < s.len() && #[trigger] last_for_witness(s, i) && s[i].1 is Field implies {
                &&& signals_map(s).contains_key(s[i].0->0 as u32)
                &&& signals_map(s)[s[i].0->0 as u32] == be_value(s[i].1->Field_0@) % modulus()
            } by {
            assert(s.last() == s[n]);
            if i < n {
                assert(d[i] == s[i]);
                assert forall|j: int| i < j < d.len() && (#[trigger] d[j]).0 is Some implies (d[j].0->0 as u32) != (d[i].0->0 as u32) by {
                    assert(d[j] == s[j]);
                }
                assert(last_for_witness(d, i));
                if s[n].0 is Some {
                    assert((s[n].0->0 as u32) != (s[i].0->0 as u32));
                }
            }
        }
    }
}

/// The witness map of CirC's signal values, each given with the variable index of its
/// signal where it has one (see `signals_map`).
pub fn get_witness(assignments: &Vec<(Option<usize>, SignalValue)>) -> (m: WitnessMap)
    requires
        forall|i: int| 0 <= i < assignments@.len() && (#[trigger] assignments@[i]).0 is Some ==> assignments@[i].1 is Field,
    ensures
        m@ == signals_map(assignments@),
        forall|w: u32| #[trigger] m@.contains_key(w) <==> sets_witness(assignments@, w),
        forall|i: int|
            0 <= i < assignments@.len() && #[trigger] last_for_witness(assignments@, i) ==> {
                &&& m@.contains_key(assignments@[i].0->0 as u32)
                &&& m@[assignments@[i].0->0 as u32] == be_value(assignments@[i].1->Field_0@) % modulus()
            },
{
    proof {
        lemma_signals_map_values(assignments@);
    }
    let mut wit = WitnessMap::new();
    let mut i: usize = 0;
    while i < assignments.len()
        invariant
            i <= assignments@.len(),
            forall|k: int| 0 <= k < assignments@.len() && (#[trigger] assignments@[k]).0 is Some ==> assignments@[k].1 is Field,
            wit@ == signals_map(assignments@.take(i as int)),
        decreases assignments@.len() - i,
    {
        assert(assignments@.take(i + 1).drop_last() =~= assignments@.take(i as int));
        assert(assignments@.take(i + 1).last() == assignments@[i as int]);
        let (idx, value) = &assignments[i];
        match idx {
            Some(idx) => {
                let w = *idx as u32;
                match value {
                    SignalValue::Field(bytes) => {
                        let f = Fe::from_be_bytes_reduce(bytes.as_slice());
                        wit.insert(w, f);
                    },
                    SignalValue::Other => {
                        assert(false);
                    },
                }
            },
            None => {},
        }
        i = i + 1;
    }
    assert(assignments@.take(i as int) =~= assignments@);
    wit
}

} // verus!
