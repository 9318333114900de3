//! Arithmetic expressions of ACIR: `sum q_M * wL * wR + sum q_L * w + q_c` over witness
//! indices, with the byte encoding that `acvm` reads and writes them in, and the
//! product and difference of expressions as `acvm` computes them.
use vstd::prelude::*;
use crate::field::{Fe, be_value, modulus};
use crate::le_bytes::{le_bytes, lemma_u32_roundtrip, read_u32_le, u32_at, u32_to_le};
use crate::wtns::{push_bytes, put_u32};

verus! {

/// An arithmetic expression: a sum of products of two witnesses, a sum of witnesses,
/// and a constant, each with its coefficient.
#[derive(Clone, Debug, PartialEq, Eq)]
pub struct Expression {
    pub mul_terms: Vec<(Fe, u32, u32)>,
    pub linear_combinations: Vec<(Fe, u32)>,
    pub q_c: Fe,
}

/// An expression as plain values: coefficients as their values in the field.
#[verifier::ext_equal]
pub struct ExprView {
    pub mul_terms: Seq<(nat, u32, u32)>,
    pub linear_combinations: Seq<(nat, u32)>,
    pub q_c: nat,
}

impl View for Expression {
    type V = ExprView;

    open spec fn view(&self) -> ExprView {
        ExprView {
            mul_terms: self.mul_terms@.map_values(|t: (Fe, u32, u32)| (t.0@, t.1, t.2)),
            linear_combinations: self.linear_combinations@.map_values(|t: (Fe, u32)| (t.0@, t.1)),
            q_c: self.q_c@,
        }
    }
}

/// The sum of the products, under an assignment of values to witnesses.
pub open spec fn sum_mul_terms(ts: Seq<(nat, u32, u32)>, asg: spec_fn(u32) -> nat) -> nat
    decreases ts.len(),
{
    if ts.len() == 0 {
        0
    } else {
        sum_mul_terms(ts.drop_last(), asg) + ts.last().0 * asg(ts.last().1) * asg(ts.last().2)
    }
}

/// The sum of the linear terms, under an assignment of values to witnesses.
pub open spec fn sum_linear_terms(ts: Seq<(nat, u32)>, asg: spec_fn(u32) -> nat) -> nat
    decreases ts.len(),
{
    if ts.len() == 0 {
        0
    } else {
        sum_linear_terms(ts.drop_last(), asg) + ts.last().0 * asg(ts.last().1)
    }
}

/// The value of an expression in the field, under an assignment of values to witnesses.
pub open spec fn eval(e: ExprView, asg: spec_fn(u32) -> nat) -> nat {
    (sum_mul_terms(e.mul_terms, asg) + sum_linear_terms(e.linear_combinations, asg) + e.q_c)
        % modulus()
}

/// Whether an expression has no witness at all.
pub open spec fn is_const(e: ExprView) -> bool {
    e.mul_terms.len() == 0 && e.linear_combinations.len() == 0
}

/// Whether `acvm` multiplies the two expressions rather than panicking: one of them is a
/// constant, or neither has a product term.
pub open spec fn mul_defined(a: ExprView, b: ExprView) -> bool {
    is_const(a) || is_const(b) || (a.mul_terms.len() == 0 && b.mul_terms.len() == 0)
}

/// The field element whose 32 big-endian bytes start at `p`, reduced.
pub open spec fn fe_at(s: Seq<u8>, p: int) -> nat {
    be_value(s.subrange(p, p + 32)) % modulus()
}

/// Where the `i`-th product term starts in the encoding.
pub open spec fn mul_term_pos(i: int) -> int {
    8 + 40 * i
}

/// Where the `j`-th linear term starts in the encoding, after `nm` product terms.
pub open spec fn linear_term_pos(nm: int, j: int) -> int {
    8 + 40 * nm + 36 * j
}

/// The `i`-th product term of an encoding.
pub open spec fn mul_term_at(s: Seq<u8>, i: int) -> (nat, u32, u32) {
    let p = mul_term_pos(i);
    (fe_at(s, p), u32_at(s, p + 32) as u32, u32_at(s, p + 36) as u32)
}

/// The `j`-th linear term of an encoding with `nm` product terms.
pub open spec fn linear_term_at(s: Seq<u8>, nm: int, j: int) -> (nat, u32) {
    let p = linear_term_pos(nm, j);
    (fe_at(s, p), u32_at(s, p + 32) as u32)
}

/// The expression that `acvm`'s `Expression::read` reads from the start of `s`: the
/// number of product terms and of linear terms as little-endian `u32`s, each product
/// term as its coefficient (32 big-endian bytes, reduced) and its two witnesses, each
/// linear term as its coefficient and its witness, and the constant; `None` where `s`
/// is too short. Bytes after the expression are not read.
pub open spec fn acir_decode(s: Seq<u8>) -> Option<ExprView> {
    if s.len() < 8 {
        None
    } else {
        let nm = u32_at(s, 0) as int;
        let nl = u32_at(s, 4) as int;
        if s.len() < linear_term_pos(nm, nl) + 32 {
            None
        } else {
            Some(
                ExprView {
                    mul_terms: Seq::new(nm as nat, |i: int| mul_term_at(s, i)),
                    linear_combinations: Seq::new(nl as nat, |j: int| linear_term_at(s, nm, j)),
                    q_c: fe_at(s, linear_term_pos(nm, nl)),
                },
            )
        }
    }
}

/// The product that `acvm` computes (`&Expression * &Expression`).
pub uninterp spec fn acir_expression_mul(a: ExprView, b: ExprView) -> ExprView;

/// The difference that `acvm` computes (`&Expression - &Expression`).
pub uninterp spec fn acir_expression_sub(a: ExprView, b: ExprView) -> ExprView;

/// Whether the product of `a` and `b`, as `acvm` forms it, has few enough terms of each
/// kind for their counts to be written as `u32`s: a constant times an expression keeps
/// the expression's terms; two linear expressions give at most one product term per pair
/// of their linear terms and at most one linear term per linear term of either.
pub open spec fn mul_fits(a: ExprView, b: ExprView) -> bool {
    is_const(a) || is_const(b) || (a.linear_combinations.len() * b.linear_combinations.len()
        <= u32::MAX && a.linear_combinations.len() + b.linear_combinations.len() <= u32::MAX)
}

/// The term counts of the product `r` that `acvm` forms of `a` and `b`: those of the
/// other operand where one is constant (each of its terms is scaled), else at most one
/// product term per pair of linear terms and one linear term per linear term.
pub open spec fn mul_counts(a: ExprView, b: ExprView, r: ExprView) -> bool {
    if is_const(a) {
        r.mul_terms.len() == b.mul_terms.len() && r.linear_combinations.len() == b.linear_combinations.len()
    } else if is_const(b) {
        r.mul_terms.len() == a.mul_terms.len() && r.linear_combinations.len() == a.linear_combinations.len()
    } else {
        r.mul_terms.len() <= a.linear_combinations.len() * b.linear_combinations.len()
            && r.linear_combinations.len() <= a.linear_combinations.len() + b.linear_combinations.len()
    }
}

/// The term counts of the difference `r` that `acvm` forms of `a` and `b`: every term
/// of either operand goes into it at most once.
pub open spec fn sub_counts(a: ExprView, b: ExprView, r: ExprView) -> bool {
    &&& r.mul_terms.len() <= a.mul_terms.len() + b.mul_terms.len()
    &&& r.linear_combinations.len() <= a.linear_combinations.len() + b.linear_combinations.len()
}

/// `acvm`'s `&Expression * &Expression` on the expressions that `a` and `b` encode
/// (read with `Expression::read`), written back with `Expression::write`. The source
/// panics unless one operand is constant or neither has a product term. A constant
/// operand scales each term of the other; otherwise the product has one product term per
/// pair of linear terms (merged where `add_mul` meets equal witness pairs or a zero
/// coefficient) and at most one linear term per linear term of either operand, so the
/// value of the product under any assignment is the product of the values. `write`
/// stores each term count as a `u32`, so the product is asked to have counts that fit.
#[verifier::external_body]
fn acir_mul_bytes(a: &[u8], b: &[u8]) -> (r: Vec<u8>)
    requires
        acir_decode(a@) is Some,
        acir_decode(b@) is Some,
        mul_defined(acir_decode(a@)->0, acir_decode(b@)->0),
        mul_fits(acir_decode(a@)->0, acir_decode(b@)->0),
    ensures
        acir_decode(r@) == Some(acir_expression_mul(acir_decode(a@)->0, acir_decode(b@)->0)),
        mul_counts(acir_decode(a@)->0, acir_decode(b@)->0, acir_decode(r@)->0),
        forall|asg: spec_fn(u32) -> nat|
            #[trigger] eval(acir_decode(r@)->0, asg) == (eval(acir_decode(a@)->0, asg) * eval(
                acir_decode(b@)->0,
                asg,
            )) % modulus(),
{
    let a = acvm::acir::native_types::Expression::read(a).unwrap();
    let b = acvm::acir::native_types::Expression::read(b).unwrap();
    let mut out = Vec::new();
    (&a * &b).write(&mut out).unwrap();
    out
}

/// `acvm`'s `&Expression - &Expression` (which is `a.add_mul(-1, b)`) on the expressions
/// that `a` and `b` encode, written back with `Expression::write`. Every term of either
/// operand goes into the difference once (terms on equal witnesses are merged, terms
/// whose coefficient is zero are left out), so its value under any assignment is the
/// difference of the values. `write` stores each term count as a `u32`, so the operands
/// are asked to have, kind by kind, at most `u32::MAX` terms together.
#[verifier::external_body]
fn acir_sub_bytes(a: &[u8], b: &[u8]) -> (r: Vec<u8>)
    requires
        acir_decode(a@) is Some,
        acir_decode(b@) is Some,
        (acir_decode(a@)->0).mul_terms.len() + (acir_decode(b@)->0).mul_terms.len() <= u32::MAX,
        (acir_decode(a@)->0).linear_combinations.len() + (acir_decode(b@)->0).linear_combinations.len() <= u32::MAX,
    ensures
        acir_decode(r@) == Some(acir_expression_sub(acir_decode(a@)->0, acir_decode(b@)->0)),
        sub_counts(acir_decode(a@)->0, acir_decode(b@)->0, acir_decode(r@)->0),
        forall|asg: spec_fn(u32) -> nat|
            #[trigger] eval(acir_decode(r@)->0, asg) == (eval(acir_decode(a@)->0, asg) - eval(
                acir_decode(b@)->0,
                asg,
            )) % (modulus() as int),
{
    let a = acvm::acir::native_types::Expression::read(a).unwrap();
    let b = acvm::acir::native_types::Expression::read(b).unwrap();
    let mut out = Vec::new();
    (&a - &b).write(&mut out).unwrap();
    out
}


/// Bytes appended after `a` leave the bytes of `a` where they were.
pub proof fn lemma_append_keeps(a: Seq<u8>, b: Seq<u8>, p: int, n: int)
    requires
        0 <= p,
        0 <= n,
        p + n <= a.len(),
    ensures
        (a + b).subrange(p, p + n) == a.subrange(p, p + n),
{
    assert((a + b).subrange(p, p + n) =~= a.subrange(p, p + n));
}

impl Expression {
    /// The bytes that `acvm`'s `Expression::write` gives for this expression (with the
    /// coefficients' bytes as held).
    pub fn to_acir_bytes(&self) -> (r: Vec<u8>)
        requires
            self.mul_terms@.len() <= u32::MAX,
            self.linear_combinations@.len() <= u32::MAX,
        ensures
            acir_decode(r@) == Some(self@),
    {
        let nm = self.mul_terms.len();
        let nl = self.linear_combinations.len();
        let mut out: Vec<u8> = Vec::new();
        put_u32(&mut out, nm as u32);
        put_u32(&mut out, nl as u32);
        proof {
            lemma_u32_roundtrip(nm as u32);
            lemma_u32_roundtrip(nl as u32);
            assert(out@.subrange(0, 4) =~= le_bytes(nm as nat, 4));
            assert(out@.subrange(4, 8) =~= le_bytes(nl as nat, 4));
        }
        let ghost v = self@;
        let mut i: usize = 0;
        while i < nm
            invariant
                i <= nm,
                nm == self.mul_terms@.len(),
                nl == self.linear_combinations@.len(),
                v == self@,
                out@.len() == 8 + 40 * i,
                u32_at(out@, 0) == nm,
                u32_at(out@, 4) == nl,
                forall|k: int| 0 <= k < i ==> #[trigger] mul_term_at(out@, k) == v.mul_terms[k],
            decreases nm - i,
        {
            let (c, wl, wr) = self.mul_terms[i];
            let ghost old_out = out@;
            let bytes = c.to_be_bytes();
            push_bytes(&mut out, bytes.as_slice());
            put_u32(&mut out, wl);
            put_u32(&mut out, wr);
            proof {
                let rec = bytes@ + le_bytes(wl as nat, 4) + le_bytes(wr as nat, 4);
                lemma_u32_roundtrip(wl);
                lemma_u32_roundtrip(wr);
                assert(out@ =~= old_out + rec);
                lemma_append_keeps(old_out, rec, 0, 4);
                lemma_append_keeps(old_out, rec, 4, 4);
                assert forall|k: int| 0 <= k < i + 1 implies #[trigger] mul_term_at(out@, k)
                    == v.mul_terms[k] by {
                    if k < i {
                        let p = mul_term_pos(k);
                        lemma_append_keeps(old_out, rec, p, 32);
                        lemma_append_keeps(old_out, rec, p + 32, 4);
                        lemma_append_keeps(old_out, rec, p + 36, 4);
                        assert(mul_term_at(old_out, k) == v.mul_terms[k]);
                    } else {
                        let p = mul_term_pos(k);
                        assert(out@.subrange(p, p + 32) =~= bytes@);
                        assert(out@.subrange(p + 32, p + 36) =~= le_bytes(wl as nat, 4));
                        assert(out@.subrange(p + 36, p + 40) =~= le_bytes(wr as nat, 4));
                    }
                }
            }
            i = i + 1;
        }
        let mut j: usize = 0;
        while j < nl
            invariant
                j <= nl,
                nm == self.mul_terms@.len(),
                nl == self.linear_combinations@.len(),
                v == self@,
                out@.len() == 8 + 40 * nm + 36 * j,
                u32_at(out@, 0) == nm,
                u32_at(out@, 4) == nl,
                forall|k: int| 0 <= k < nm ==> #[trigger] mul_term_at(out@, k) == v.mul_terms[k],
                forall|k: int|
                    0 <= k < j ==> #[trigger] linear_term_at(out@, nm as int, k)
                        == v.linear_combinations[k],
            decreases nl - j,
        {
            let (c, w) = self.linear_combinations[j];
            let ghost old_out = out@;
            let bytes = c.to_be_bytes();
            push_bytes(&mut out, bytes.as_slice());
            put_u32(&mut out, w);
            proof {
                let rec = bytes@ + le_bytes(w as nat, 4);
                lemma_u32_roundtrip(w);
                assert(out@ =~= old_out + rec);
                lemma_append_keeps(old_out, rec, 0, 4);
                lemma_append_keeps(old_out, rec, 4, 4);
                assert forall|k: int| 0 <= k < nm implies #[trigger] mul_term_at(out@, k)
                    == v.mul_terms[k] by {
                    let p = mul_term_pos(k);
                    lemma_append_keeps(old_out, rec, p, 32);
                    lemma_append_keeps(old_out, rec, p + 32, 4);
                    lemma_append_keeps(old_out, rec, p + 36, 4);
                    assert(mul_term_at(old_out, k) == v.mul_terms[k]);
                }
                assert forall|k: int| 0 <= k < j + 1 implies #[trigger] linear_term_at(
                    out@,
                    nm as int,
                    k,
                ) == v.linear_combinations[k] by {
                    let p = linear_term_pos(nm as int, k);
                    if k < j {
                        lemma_append_keeps(old_out, rec, p, 32);
                        lemma_append_keeps(old_out, rec, p + 32, 4);
                        assert(linear_term_at(old_out, nm as int, k) == v.linear_combinations[k]);
                    } else {
                        assert(out@.subrange(p, p + 32) =~= bytes@);
                        assert(out@.subrange(p + 32, p + 36) =~= le_bytes(w as nat, 4));
                    }
                }
            }
            j = j + 1;
        }
        let ghost old_out = out@;
        let bytes = self.q_c.to_be_bytes();
        push_bytes(&mut out, bytes.as_slice());
        proof {
            let rec = bytes@;
            lemma_append_keeps(old_out, rec, 0, 4);
            lemma_append_keeps(old_out, rec, 4, 4);
            assert forall|k: int| 0 <= k < nm implies #[trigger] mul_term_at(out@, k)
                == v.mul_terms[k] by {
                let p = mul_term_pos(k);
                lemma_append_keeps(old_out, rec, p, 32);
                lemma_append_keeps(old_out, rec, p + 32, 4);
                lemma_append_keeps(old_out, rec, p + 36, 4);
                assert(mul_term_at(old_out, k) == v.mul_terms[k]);
            }
            assert forall|k: int| 0 <= k < nl implies #[trigger] linear_term_at(out@, nm as int, k)
                == v.linear_combinations[k] by {
                let p = linear_term_pos(nm as int, k);
                lemma_append_keeps(old_out, rec, p, 32);
                lemma_append_keeps(old_out, rec, p + 32, 4);
                assert(linear_term_at(old_out, nm as int, k) == v.linear_combinations[k]);
            }
            let p = linear_term_pos(nm as int, nl as int);
            assert(out@.subrange(p, p + 32) =~= bytes@);
            let d = acir_decode(out@)->0;
            assert(d.mul_terms =~= v.mul_terms);
            assert(d.linear_combinations =~= v.linear_combinations);
        }
        out
    }

    /// The expression that `acvm`'s `Expression::read` reads from the start of `s`.
    pub fn from_acir_bytes(s: &[u8]) -> (r: Expression)
        requires
            acir_decode(s@) is Some,
        ensures
            r@ == acir_decode(s@)->0,
            r.mul_terms@.len() <= u32::MAX,
            r.linear_combinations@.len() <= u32::MAX,
    {
        let ghost d = acir_decode(s@)->0;
        assert(s@.len() == s.len());
        let nm = read_u32_le(&s[0..4]) as usize;
        let nl = read_u32_le(&s[4..8]) as usize;
        assert(s@.subrange(0, 4).take(4) =~= s@.subrange(0, 4));
        assert(s@.subrange(4, 8).take(4) =~= s@.subrange(4, 8));
        let mut mul_terms: Vec<(Fe, u32, u32)> = Vec::new();
        let mut i: usize = 0;
        while i < nm
            invariant
                i <= nm,
                nm == u32_at(s@, 0),
                nl == u32_at(s@, 4),
                d == acir_decode(s@)->0,
                s@.len() >= linear_term_pos(nm as int, nl as int) + 32,
                s@.len() <= usize::MAX,
                mul_terms@.len() == i,
                forall|k: int|
                    0 <= k < i ==> (#[trigger] mul_terms@[k]).0@ == mul_term_at(s@, k).0
                        && mul_terms@[k].1 == mul_term_at(s@, k).1 && mul_terms@[k].2
                        == mul_term_at(s@, k).2,
            decreases nm - i,
        {
            let p = 8 + 40 * i;
            let c = Fe::from_be_bytes_reduce(&s[p..p + 32]);
            let wl = read_u32_le(&s[p + 32..p + 36]);
            let wr = read_u32_le(&s[p + 36..p + 40]);
            assert(s@.subrange(p + 32, p + 36 as int).take(4) =~= s@.subrange(p + 32, p + 36 as int));
            assert(s@.subrange(p + 36, p + 40 as int).take(4) =~= s@.subrange(p + 36, p + 40 as int));
            mul_terms.push((c, wl, wr));
            i = i + 1;
        }
        let mut linear_combinations: Vec<(Fe, u32)> = Vec::new();
        let mut j: usize = 0;
        while j < nl
            invariant
                j <= nl,
                nm == u32_at(s@, 0),
                nl == u32_at(s@, 4),
                s@.len() >= linear_term_pos(nm as int, nl as int) + 32,
                s@.len() <= usize::MAX,
                linear_combinations@.len() == j,
                forall|k: int|
                    0 <= k < j ==> (#[trigger] linear_combinations@[k]).0@ == linear_term_at(
                        s@,
                        nm as int,
                        k,
                    ).0 && linear_combinations@[k].1 == linear_term_at(s@, nm as int, k).1,
            decreases nl - j,
        {
            let p = 8 + 40 * nm + 36 * j;
            let c = Fe::from_be_bytes_reduce(&s[p..p + 32]);
            let w = read_u32_le(&s[p + 32..p + 36]);
            assert(s@.subrange(p + 32, p + 36 as int).take(4) =~= s@.subrange(p + 32, p + 36 as int));
            linear_combinations.push((c, w));
            j = j + 1;
        }
        let p = 8 + 40 * nm + 36 * nl;
        let q_c = Fe::from_be_bytes_reduce(&s[p..p + 32]);
        let r = Expression { mul_terms, linear_combinations, q_c };
        assert(r@.mul_terms =~= d.mul_terms);
        assert(r@.linear_combinations =~= d.linear_combinations);
        r
    }

    /// `self * other`, as `acvm` computes it. Its value under any assignment is the
    /// product of the values.
    pub fn mul(&self, other: &Expression) -> (r: Expression)
        requires
            self.mul_terms@.len() <= u32::MAX,
            self.linear_combinations@.len() <= u32::MAX,
            other.mul_terms@.len() <= u32::MAX,
            other.linear_combinations@.len() <= u32::MAX,
            mul_defined(self@, other@),
            mul_fits(self@, other@),
        ensures
            r@ == acir_expression_mul(self@, other@),
            mul_counts(self@, other@, r@),
            r.mul_terms@.len() <= u32::MAX,
            r.linear_combinations@.len() <= u32::MAX,
            forall|asg: spec_fn(u32) -> nat|
                #[trigger] eval(r@, asg) == (eval(self@, asg) * eval(other@, asg)) % modulus(),
    {
        let a = self.to_acir_bytes();
        let b = other.to_acir_bytes();
        let c = acir_mul_bytes(a.as_slice(), b.as_slice());
        let r = Expression::from_acir_bytes(c.as_slice());
        assert(forall|asg: spec_fn(u32) -> nat| #[trigger] eval(r@, asg) == eval(acir_decode(c@)->0, asg));
        r
    }

    /// `self - other`, as `acvm` computes it. Its value under any assignment is the
    /// difference of the values.
    pub fn sub(&self, other: &Expression) -> (r: Expression)
        requires
            self.mul_terms@.len() <= u32::MAX,
            self.linear_combinations@.len() <= u32::MAX,
            other.mul_terms@.len() <= u32::MAX,
            other.linear_combinations@.len() <= u32::MAX,
            self.mul_terms@.len() + other.mul_terms@.len() <= u32::MAX,
            self.linear_combinations@.len() + other.linear_combinations@.len() <= u32::MAX,
        ensures
            r@ == acir_expression_sub(self@, other@),
            sub_counts(self@, other@, r@),
            r.mul_terms@.len() <= u32::MAX,
            r.linear_combinations@.len() <= u32::MAX,
            forall|asg: spec_fn(u32) -> nat|
                #[trigger] eval(r@, asg) == (eval(self@, asg) - eval(other@, asg)) % (
                modulus() as int),
    {
        let a = self.to_acir_bytes();
        let b = other.to_acir_bytes();
        let c = acir_sub_bytes(a.as_slice(), b.as_slice());
        let r = Expression::from_acir_bytes(c.as_slice());
        assert(forall|asg: spec_fn(u32) -> nat| #[trigger] eval(r@, asg) == eval(acir_decode(c@)->0, asg));
        r
    }
}


impl Expression {
    /// A copy of the expression, term for term.
    pub fn copy(&self) -> (r: Expression)
        ensures
            r.mul_terms@ == self.mul_terms@,
            r.linear_combinations@ == self.linear_combinations@,
            r.q_c == self.q_c,
            r@ == self@,
    {
        let mut mul_terms: Vec<(Fe, u32, u32)> = Vec::new();
        let mut i: usize = 0;
        while i < self.mul_terms.len()
            invariant
                i <= self.mul_terms@.len(),
                mul_terms@ == self.mul_terms@.take(i as int),
            decreases self.mul_terms@.len() - i,
        {
            mul_terms.push(self.mul_terms[i]);
            i = i + 1;
            assert(mul_terms@ =~= self.mul_terms@.take(i as int));
        }
        let mut linear_combinations: Vec<(Fe, u32)> = Vec::new();
        let mut j: usize = 0;
        while j < self.linear_combinations.len()
            invariant
                j <= self.linear_combinations@.len(),
                linear_combinations@ == self.linear_combinations@.take(j as int),
            decreases self.linear_combinations@.len() - j,
        {
            linear_combinations.push(self.linear_combinations[j]);
            j = j + 1;
            assert(linear_combinations@ =~= self.linear_combinations@.take(j as int));
        }
        assert(mul_terms@ =~= self.mul_terms@.take(i as int));
        assert(self.mul_terms@.take(i as int) =~= self.mul_terms@);
        assert(self.linear_combinations@.take(j as int) =~= self.linear_combinations@);
        Expression { mul_terms, linear_combinations, q_c: self.q_c }
    }
}

} // verus!
