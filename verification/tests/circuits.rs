use std::collections::BTreeMap;

use noir_halo2_backend_pse::circ_translator::{
    get_circuit, get_witness, lc_to_constraint_vec, transform_circ_r1cs_to_r1cs, CircR1cs, Lc,
    SignalValue,
};
use noir_halo2_backend_pse::circom::witness_map_from_wtns;
use noir_halo2_backend_pse::circuit::{
    acir_circuit_from_r1cs_file, r1cs_term_to_expr, unfold_expression, ConstraintVec, R1csFile,
    R1csHeader, WitnessMap, R1CS,
};
use noir_halo2_backend_pse::expression::Expression;
use noir_halo2_backend_pse::field::Fe;
use noir_halo2_backend_pse::wtns::{WtnsFile, FB};

const P: [u8; 32] = [
    48, 100, 78, 114, 225, 49, 160, 41, 184, 80, 69, 182, 129, 129, 88, 93, 40, 51, 232, 72, 121,
    185, 112, 145, 67, 225, 245, 147, 240, 0, 0, 1,
];

fn f(n: u64) -> Fe {
    Fe::from_be_bytes_reduce(&n.to_be_bytes())
}

fn bytes(n: u64) -> [u8; 32] {
    let mut b = [0u8; 32];
    b[24..].copy_from_slice(&n.to_be_bytes());
    b
}

fn minus_one() -> [u8; 32] {
    let mut b = P;
    b[31] -= 1;
    b
}

fn map_of(values: &[(u32, u64)]) -> WitnessMap {
    let mut m = WitnessMap::new();
    for (w, v) in values {
        m.insert(*w, f(*v));
    }
    m
}

fn value(m: &WitnessMap, w: u32) -> [u8; 32] {
    m.get_or_zero(w).to_be_bytes()
}

/// The value of an expression under the map, computed with the field operations.
fn evaluate(e: &Expression, m: &WitnessMap) -> [u8; 32] {
    let mut acc = e.q_c;
    for (c, l, r) in &e.mul_terms {
        acc = acc.add(&c.mul(&m.get_or_zero(*l)).mul(&m.get_or_zero(*r)));
    }
    for (c, w) in &e.linear_combinations {
        acc = acc.add(&c.mul(&m.get_or_zero(*w)));
    }
    acc.to_be_bytes()
}

fn lin_shape(e: &Expression) -> Vec<([u8; 32], u32)> {
    e.linear_combinations.iter().map(|(c, w)| (c.to_be_bytes(), *w)).collect()
}

#[test]
fn witness_map_lookup_and_insert() {
    let mut m = WitnessMap::new();
    assert_eq!(value(&m, 3), [0u8; 32]);
    m.insert(3, f(9));
    assert_eq!(value(&m, 3), bytes(9));
    m.insert(3, f(4));
    assert_eq!(value(&m, 3), bytes(4));
}

#[test]
fn side_of_a_constraint_becomes_an_expression() {
    let term: ConstraintVec = vec![(0, f(5)), (3, f(2)), (0, f(6)), (1, f(4))];
    let e = r1cs_term_to_expr(&term);
    assert!(e.mul_terms.is_empty());
    assert_eq!(e.q_c.to_be_bytes(), bytes(11));
    assert_eq!(lin_shape(&e), vec![(bytes(2), 2), (bytes(4), 0)]);
}

#[test]
fn constants_that_cancel_give_a_zero_constant() {
    let term: ConstraintVec =
        vec![(0, Fe::from_be_bytes_reduce(&minus_one())), (2, Fe::from_be_bytes_reduce(&minus_one())), (0, f(1))];
    let e = r1cs_term_to_expr(&term);
    assert_eq!(e.q_c.to_be_bytes(), [0u8; 32]);
    assert_eq!(lin_shape(&e), vec![(minus_one(), 1)]);
}

#[test]
fn expression_with_one_term_is_not_cut() {
    let e = Expression { mul_terms: vec![], linear_combinations: vec![(f(3), 7)], q_c: f(1) };
    let mut tmp = 20u32;
    let mut m = map_of(&[(7, 2)]);
    let out = unfold_expression(&e, &mut tmp, &mut m);
    assert_eq!(out.len(), 1);
    assert_eq!(lin_shape(&out[0]), lin_shape(&e));
    assert_eq!(tmp, 20);
    assert_eq!(m.values.len(), 1);
}

#[test]
fn expression_is_cut_into_a_chain() {
    let e = Expression {
        mul_terms: vec![],
        linear_combinations: vec![(f(3), 0), (f(5), 1), (f(7), 2)],
        q_c: f(11),
    };
    let mut tmp = 10u32;
    let mut m = map_of(&[(0, 1), (1, 2), (2, 3)]);
    let out = unfold_expression(&e, &mut tmp, &mut m);
    assert_eq!(tmp, 13);
    assert_eq!(out.len(), 4);
    assert_eq!(lin_shape(&out[0]), vec![(bytes(1), 10)]);
    assert_eq!(out[0].q_c.to_be_bytes(), bytes(11));
    assert_eq!(lin_shape(&out[1]), vec![(bytes(3), 0), (bytes(1), 11), (minus_one(), 10)]);
    assert_eq!(lin_shape(&out[2]), vec![(bytes(5), 1), (bytes(1), 12), (minus_one(), 11)]);
    assert_eq!(lin_shape(&out[3]), vec![(bytes(7), 2), (minus_one(), 12)]);
    for o in &out[1..] {
        assert_eq!(o.q_c.to_be_bytes(), [0u8; 32]);
    }
    // the solved values: 3*1 + 5*2 + 7*3 = 34, then 34 - 3 = 31, then 31 - 10 = 21
    assert_eq!(value(&m, 10), bytes(34));
    assert_eq!(value(&m, 11), bytes(31));
    assert_eq!(value(&m, 12), bytes(21));
    assert_eq!(value(&m, 0), bytes(1));
    // the first expression keeps the value, the others vanish
    assert_eq!(evaluate(&out[0], &m), evaluate(&e, &m));
    assert_eq!(evaluate(&out[0], &m), bytes(45));
    for o in &out[1..] {
        assert_eq!(evaluate(o, &m), [0u8; 32]);
    }
}

#[test]
fn cutting_drops_product_terms() {
    let e = Expression {
        mul_terms: vec![(f(1), 0, 0)],
        linear_combinations: vec![(f(1), 0), (f(1), 1)],
        q_c: f(0),
    };
    let mut tmp = 5u32;
    let mut m = WitnessMap::new();
    let out = unfold_expression(&e, &mut tmp, &mut m);
    assert!(out.iter().all(|o| o.mul_terms.is_empty()));
}

fn side(terms: &[(usize, u64)]) -> ConstraintVec {
    terms.iter().map(|(w, c)| (*w, f(*c))).collect()
}

fn no_header() -> R1csHeader {
    R1csHeader { n_wires: 4, n_pub_out: 1, n_pub_in: 1, n_prv_in: 1 }
}

#[test]
fn product_constraint_becomes_one_opcode() {
    // wires 1, 2, 3 are x, y, z: x * y = z
    let file = R1csFile {
        header: no_header(),
        constraints: vec![(side(&[(1, 1)]), side(&[(2, 1)]), side(&[(3, 1)]))],
    };
    let mut tmp = 3u32;
    let mut m = map_of(&[(0, 3), (1, 4), (2, 12)]);
    let circuit = acir_circuit_from_r1cs_file(file, &mut tmp, &mut m);
    assert_eq!(tmp, 3);
    assert_eq!(circuit.current_witness_index, 3);
    assert!(circuit.public_parameters.is_empty() && circuit.return_values.is_empty());
    assert_eq!(circuit.opcodes.len(), 1);
    let op = &circuit.opcodes[0];
    let muls: Vec<([u8; 32], u32, u32)> = op.mul_terms.iter().map(|(c, l, r)| (c.to_be_bytes(), *l, *r)).collect();
    assert_eq!(muls, vec![(bytes(1), 0, 1)]);
    assert_eq!(lin_shape(op), vec![(minus_one(), 2)]);
    assert_eq!(evaluate(op, &m), [0u8; 32]);
}

#[test]
fn satisfied_constraints_give_opcodes_that_vanish() {
    // wires 1..=4 are witnesses 0..=3: (x + 2y + 3) * 1 = z, and x * y = w
    let file = R1csFile {
        header: no_header(),
        constraints: vec![
            (side(&[(1, 1), (2, 2), (0, 3)]), side(&[(0, 1)]), side(&[(3, 1)])),
            (side(&[(1, 1)]), side(&[(2, 1)]), side(&[(4, 1)])),
        ],
    };
    let (x, y) = (5u64, 7u64);
    let mut m = map_of(&[(0, x), (1, y), (2, x + 2 * y + 3), (3, x * y)]);
    let mut tmp = 4u32;
    let circuit = acir_circuit_from_r1cs_file(file, &mut tmp, &mut m);
    // the first left side has two linear terms: it is cut with fresh witnesses 4 and 5
    assert_eq!(tmp, 6);
    assert_eq!(circuit.current_witness_index, 6);
    assert_eq!(circuit.opcodes.len(), 1 + 2 + 1);
    for op in &circuit.opcodes {
        assert_eq!(evaluate(op, &m), [0u8; 32]);
    }
    assert_eq!(value(&m, 0), bytes(x));
    assert_eq!(value(&m, 4), bytes(x + 2 * y));
}

#[test]
fn violated_constraint_gives_an_opcode_that_does_not_vanish() {
    let file = R1csFile {
        header: no_header(),
        constraints: vec![(side(&[(1, 1)]), side(&[(2, 1)]), side(&[(3, 1)]))],
    };
    let mut m = map_of(&[(0, 3), (1, 4), (2, 13)]);
    let mut tmp = 3u32;
    let circuit = acir_circuit_from_r1cs_file(file, &mut tmp, &mut m);
    assert_ne!(evaluate(&circuit.opcodes[0], &m), [0u8; 32]);
}

#[test]
fn circuit_of_a_constraint_system() {
    let r1cs = R1CS {
        num_inputs: 1,
        num_aux: 2,
        num_variables: 3,
        constraints: vec![(side(&[(1, 1), (2, 1)]), side(&[(0, 1)]), side(&[(3, 1)]))],
        wire_mapping: None,
    };
    let mut m = map_of(&[(0, 2), (1, 3), (2, 5)]);
    let circuit = get_circuit(&r1cs, 9, &mut m);
    assert_eq!(circuit.current_witness_index, 3);
    assert_eq!(circuit.opcodes.len(), 3);
    assert_eq!(value(&m, 9), bytes(5));
    assert_eq!(value(&m, 10), bytes(3));
    for op in &circuit.opcodes {
        assert_eq!(evaluate(op, &m), [0u8; 32]);
    }
}

#[test]
fn witness_map_of_a_wtns_file() {
    let mut v1 = [0u8; 32];
    v1[0] = 7;
    v1[1] = 1;
    let mut v2 = [0u8; 32];
    v2[0] = 42;
    let file = WtnsFile::<32>::from_vec(vec![FB::from([1u8; 32]), FB::from(v1), FB::from(v2)], FB::from([0u8; 32]));
    let m = witness_map_from_wtns(&file);
    assert_eq!(m.values.len(), 2);
    assert_eq!(value(&m, 0), bytes(7 + 256));
    assert_eq!(value(&m, 1), bytes(42));
    let empty = WtnsFile::<32>::from_vec(vec![], FB::from([0u8; 32]));
    assert!(witness_map_from_wtns(&empty).values.is_empty());
}

#[test]
fn linear_combination_becomes_a_side() {
    let lc = Lc { constant: vec![1, 0], monomials: vec![(0, vec![5]), (4, vec![])] };
    let v = lc_to_constraint_vec(&lc);
    let shape: Vec<(usize, [u8; 32])> = v.iter().map(|(w, c)| (*w, c.to_be_bytes())).collect();
    assert_eq!(shape, vec![(0, bytes(256)), (1, bytes(5)), (5, [0u8; 32])]);
}

#[test]
fn linear_combination_becomes_its_expression() {
    let lc = Lc { constant: vec![1, 0], monomials: vec![(0, vec![5]), (4, vec![7])] };
    let e = r1cs_term_to_expr(&lc_to_constraint_vec(&lc));
    assert!(e.mul_terms.is_empty());
    assert_eq!(e.q_c.to_be_bytes(), bytes(256));
    assert_eq!(lin_shape(&e), vec![(bytes(5), 0), (bytes(7), 4)]);
}

#[test]
fn constraint_system_of_circ() {
    let lc = |k: u8| Lc { constant: vec![k], monomials: vec![(k as usize, vec![1])] };
    let circ = CircR1cs {
        public_idxs: vec![0, 1],
        next_idx: 5,
        constraints: vec![(lc(1), lc(2), lc(3))],
        signal_idxs: vec![4, 0, 2],
    };
    let r = transform_circ_r1cs_to_r1cs(&circ);
    assert_eq!((r.num_inputs, r.num_aux, r.num_variables), (2, 3, 5));
    assert_eq!(r.constraints.len(), 1);
    let (a, b, c) = &r.constraints[0];
    assert_eq!(a.iter().map(|(w, _)| *w).collect::<Vec<_>>(), vec![0, 2]);
    assert_eq!(b[0].1.to_be_bytes(), bytes(2));
    assert_eq!(c[1].0, 4);
    assert_eq!(r.wire_mapping, Some(vec![4, 0, 2]));
}

#[test]
fn witness_of_circ_signals() {
    let m = get_witness(&vec![
        (Some(2), SignalValue::Field(vec![1, 1])),
        (None, SignalValue::Other),
        (Some(0), SignalValue::Field(vec![9])),
        (Some(2), SignalValue::Field(vec![3])),
    ]);
    let got: BTreeMap<u32, [u8; 32]> = m.values.iter().map(|(k, v)| (*k, v.to_be_bytes())).collect();
    let want: BTreeMap<u32, [u8; 32]> = vec![(0, bytes(9)), (2, bytes(3))].into_iter().collect();
    assert_eq!(got, want);
}
