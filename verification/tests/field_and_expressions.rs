use noir_halo2_backend_pse::expression::Expression;
use noir_halo2_backend_pse::field::Fe;
use noir_halo2_backend_pse::PseHalo2;

const P: [u8; 32] = [
    48, 100, 78, 114, 225, 49, 160, 41, 184, 80, 69, 182, 129, 129, 88, 93, 40, 51, 232, 72, 121,
    185, 112, 145, 67, 225, 245, 147, 240, 0, 0, 1,
];

fn p_minus(k: u8) -> [u8; 32] {
    let mut b = P;
    let mut borrow = k as u16;
    for i in (0..32).rev() {
        let cur = b[i] as u16;
        if cur >= borrow {
            b[i] = (cur - borrow) as u8;
            break;
        }
        b[i] = (cur + 256 - borrow) as u8;
        borrow = 1;
    }
    b
}

fn f(n: u64) -> Fe {
    Fe::from_be_bytes_reduce(&n.to_be_bytes())
}

fn bytes(n: u64) -> [u8; 32] {
    let mut b = [0u8; 32];
    b[24..].copy_from_slice(&n.to_be_bytes());
    b
}

#[test]
fn zero_and_one() {
    assert_eq!(Fe::zero().to_be_bytes(), [0u8; 32]);
    assert_eq!(Fe::one().to_be_bytes(), bytes(1));
}

#[test]
fn reduction_modulo_the_field_order() {
    assert_eq!(Fe::from_be_bytes_reduce(&P).to_be_bytes(), [0u8; 32]);
    let mut p_plus_5 = P;
    p_plus_5[31] += 5;
    assert_eq!(Fe::from_be_bytes_reduce(&p_plus_5).to_be_bytes(), bytes(5));
    assert_eq!(Fe::fr_from_be_bytes_mod_order(&p_plus_5).to_be_bytes(), bytes(5));
    assert_eq!(Fe::from_be_bytes_reduce(&[1, 0]).to_be_bytes(), bytes(256));
    assert_eq!(Fe::from_be_bytes_reduce(&[]).to_be_bytes(), [0u8; 32]);
}

#[test]
fn field_arithmetic() {
    assert_eq!(f(2).add(&f(3)).to_be_bytes(), bytes(5));
    assert_eq!(f(2).sub(&f(3)).to_be_bytes(), p_minus(1));
    assert_eq!(f(4).mul(&f(5)).to_be_bytes(), bytes(20));
    assert_eq!(Fe::one().neg().to_be_bytes(), p_minus(1));
    assert_eq!(Fe::zero().neg().to_be_bytes(), [0u8; 32]);
    let minus_one = Fe::from_be_bytes_reduce(&p_minus(1));
    assert_eq!(minus_one.fr_add(&f(2)).to_be_bytes(), bytes(1));
    assert_eq!(minus_one.add(&f(2)).to_be_bytes(), bytes(1));
    assert_eq!(minus_one.mul(&minus_one).to_be_bytes(), bytes(1));
}

fn lin(terms: &[(u64, u32)], q_c: u64) -> Expression {
    Expression {
        mul_terms: Vec::new(),
        linear_combinations: terms.iter().map(|(c, w)| (f(*c), *w)).collect(),
        q_c: f(q_c),
    }
}

fn shape(e: &Expression) -> (Vec<([u8; 32], u32, u32)>, Vec<([u8; 32], u32)>, [u8; 32]) {
    (
        e.mul_terms.iter().map(|(c, l, r)| (c.to_be_bytes(), *l, *r)).collect(),
        e.linear_combinations.iter().map(|(c, w)| (c.to_be_bytes(), *w)).collect(),
        e.q_c.to_be_bytes(),
    )
}

#[test]
fn acir_bytes_roundtrip() {
    let e = Expression {
        mul_terms: vec![(f(8), 2, 4)],
        linear_combinations: vec![(f(2), 2), (f(8), 4)],
        q_c: f(2),
    };
    let b = e.to_acir_bytes();
    assert_eq!(b.len(), 8 + 40 + 2 * 36 + 32);
    assert_eq!(&b[0..8], &[1, 0, 0, 0, 2, 0, 0, 0]);
    assert_eq!(&b[8..40], &bytes(8));
    assert_eq!(&b[40..48], &[2, 0, 0, 0, 4, 0, 0, 0]);
    let back = Expression::from_acir_bytes(&b);
    assert_eq!(shape(&back), shape(&e));
}

#[test]
fn product_of_linear_expressions() {
    let a = lin(&[(2, 2)], 2);
    let b = lin(&[(4, 4)], 1);
    let prod = a.mul(&b);
    assert_eq!(
        shape(&prod),
        (vec![(bytes(8), 2, 4)], vec![(bytes(2), 2), (bytes(8), 4)], bytes(2))
    );
    assert_eq!(shape(&b.mul(&a)), shape(&prod));
}

#[test]
fn product_with_a_constant() {
    let a = Expression { mul_terms: vec![(f(3), 1, 2)], linear_combinations: vec![], q_c: f(0) };
    let k = lin(&[], 5);
    assert_eq!(shape(&a.mul(&k)), (vec![(bytes(15), 1, 2)], vec![], bytes(0)));
}

#[test]
fn difference_of_expressions() {
    let a = lin(&[(2, 2)], 2);
    let b = lin(&[(4, 4)], 1);
    let d = a.sub(&b);
    assert_eq!(shape(&d), (vec![], vec![(bytes(2), 2), (p_minus(4), 4)], bytes(1)));
    // equal terms cancel out
    assert_eq!(shape(&a.sub(&a)), (vec![], vec![], bytes(0)));
}

#[test]
fn copy_keeps_every_term() {
    let e = Expression {
        mul_terms: vec![(f(1), 0, 1)],
        linear_combinations: vec![(f(2), 3)],
        q_c: f(4),
    };
    assert_eq!(shape(&e.copy()), shape(&e));
}

#[test]
fn backend_handle() {
    let a = PseHalo2::new();
    let b = PseHalo2::default();
    assert_eq!(format!("{:?}", a), format!("{:?}", b));
}
