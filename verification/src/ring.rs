//! Ring contexts over a product of word-sized moduli, and the constant
//! elements of such a ring in their two representations.

use vstd::prelude::*;
use vstd::arithmetic::div_mod::lemma_small_mod;
use crate::bigint::{big_from_u64, big_mul_u64, big_rem_u64, le_value};

verus! {

/// The product of a sequence of moduli.
pub open spec fn product(s: Seq<u64>) -> nat
    decreases s.len(),
{
    if s.len() == 0 {
        1
    } else {
        product(s.drop_last()) * (s.last() as nat)
    }
}

/// A product with a zero factor is zero.
pub proof fn lemma_product_zero(s: Seq<u64>, i: int)
    requires
        0 <= i < s.len(),
        s[i] == 0,
    ensures
        product(s) == 0,
    decreases s.len(),
{
    if i < s.len() - 1 {
        lemma_product_zero(s.drop_last(), i);
        assert(product(s.drop_last()) * (s.last() as nat) == 0) by (nonlinear_arith)
            requires
                product(s.drop_last()) == 0,
        ;
    }
}

/// The first `n` entries of `v`.
pub fn prefix(v: &Vec<u64>, n: usize) -> (r: Vec<u64>)
    requires
        n <= v.len(),
    ensures
        r@ == v@.take(n as int),
{
    let mut r: Vec<u64> = Vec::new();
    let mut i: usize = 0;
    while i < n
        invariant
            i <= n,
            n <= v.len(),
            r@ == v@.take(i as int),
        decreases n - i,
    {
        r.push(v[i]);
        i = i + 1;
        assert(r@ =~= v@.take(i as int));
    }
    r
}

/// `n` copies of `value`.
pub fn filled(value: u64, n: usize) -> (r: Vec<u64>)
    ensures
        r.len() == n,
        forall|j: int| 0 <= j < n ==> r[j] == value,
{
    let mut r: Vec<u64> = Vec::new();
    let mut i: usize = 0;
    while i < n
        invariant
            i <= n,
            r.len() == i,
            forall|j: int| 0 <= j < i ==> r[j] == value,
        decreases n - i,
    {
        r.push(value);
        i = i + 1;
    }
    r
}

/// The rows of a table, each as a sequence.
pub open spec fn rows_of(table: Seq<Vec<u64>>) -> Seq<Seq<u64>> {
    Seq::new(table.len(), |i: int| table[i]@)
}

/// A polynomial ring modulo the product of `moduli`, of dimension `degree`.
pub struct PolyContext {
    pub moduli: Vec<u64>,
    pub degree: usize,
    /// The product of the moduli, in little-endian bytes.
    pub modulus: Vec<u8>,
}

impl PolyContext {
    /// The stored product is the product of the moduli.
    pub open spec fn wf(&self) -> bool {
        le_value(self.modulus@) == product(self.moduli@)
    }

    /// The context over `moduli`, with their product computed once.
    pub fn new(moduli: Vec<u64>, degree: usize) -> (r: PolyContext)
        ensures
            r.wf(),
            r.moduli@ == moduli@,
            r.degree == degree,
    {
        let mut acc: Vec<u8> = big_from_u64(1);
        let mut i: usize = 0;
        assert(moduli@.take(0) =~= Seq::<u64>::empty());
        while i < moduli.len()
            invariant
                i <= moduli.len(),
                le_value(acc@) == product(moduli@.take(i as int)),
            decreases moduli.len() - i,
        {
            assert(moduli@.take(i + 1).drop_last() =~= moduli@.take(i as int));
            acc = big_mul_u64(&acc, moduli[i]);
            i = i + 1;
        }
        assert(moduli@.take(moduli.len() as int) =~= moduli@);
        PolyContext { moduli, degree, modulus: acc }
    }

    /// The moduli of the context, in order.
    pub fn moduli(&self) -> (r: &Vec<u64>)
        ensures
            r@ == self.moduli@,
    {
        &self.moduli
    }

    /// The product of the moduli, in little-endian bytes.
    pub fn modulus(&self) -> (r: &Vec<u8>)
        ensures
            r@ == self.modulus@,
    {
        &self.modulus
    }
}

/// How the entries of a ring element are to be read.
#[derive(Clone, Copy, Debug, PartialEq, Eq, Structural)]
pub enum Representation {
    /// Entry `j` of a row is the coefficient of `X^j`.
    Coefficient,
    /// Entry `j` of a row is the value at the `j`-th point of the transform.
    Evaluation,
}

/// What entry `j` of the row for modulus `q` holds when the element is the
/// constant `x`: as coefficients the constant term alone, as evaluations the
/// constant at every point.
pub open spec fn constant_entry(rep: Representation, x: nat, q: u64, j: int) -> nat {
    match rep {
        Representation::Coefficient => if j == 0 {
            x % (q as nat)
        } else {
            0
        },
        Representation::Evaluation => x % (q as nat),
    }
}

/// The value at `point` of the polynomial with the given coefficients,
/// reduced modulo `q`.
pub open spec fn evaluate(coefficients: Seq<u64>, point: nat, q: nat) -> nat
    decreases coefficients.len(),
{
    if coefficients.len() == 0 {
        0
    } else {
        (coefficients[0] as nat + point * evaluate(coefficients.drop_first(), point, q)) % q
    }
}

/// The zero polynomial is zero at every point.
pub proof fn lemma_evaluate_zero(coefficients: Seq<u64>, point: nat, q: nat)
    requires
        q > 0,
        forall|j: int| 0 <= j < coefficients.len() ==> coefficients[j] == 0,
    ensures
        evaluate(coefficients, point, q) == 0,
    decreases coefficients.len(),
{
    if coefficients.len() > 0 {
        let rest = coefficients.drop_first();
        assert forall|j: int| 0 <= j < rest.len() implies rest[j] == 0 by {
            assert(rest[j] == coefficients[j + 1]);
        }
        lemma_evaluate_zero(rest, point, q);
        assert(point * evaluate(rest, point, q) == 0) by (nonlinear_arith)
            requires
                evaluate(rest, point, q) == 0,
        ;
        lemma_small_mod(0, q);
    }
}

/// A polynomial with nothing but a constant term takes that term, reduced,
/// at every point: this is why the evaluation representation of a constant
/// repeats it along the row.
pub proof fn lemma_evaluate_constant(coefficients: Seq<u64>, point: nat, q: nat)
    requires
        q > 0,
        coefficients.len() > 0,
        forall|j: int| 1 <= j < coefficients.len() ==> coefficients[j] == 0,
    ensures
        evaluate(coefficients, point, q) == (coefficients[0] as nat) % q,
{
    let rest = coefficients.drop_first();
    assert forall|j: int| 0 <= j < rest.len() implies rest[j] == 0 by {
        assert(rest[j] == coefficients[j + 1]);
    }
    lemma_evaluate_zero(rest, point, q);
    assert(point * evaluate(rest, point, q) == 0) by (nonlinear_arith)
        requires
            evaluate(rest, point, q) == 0,
    ;
}

/// A ring element: one row of `degree` residues for each modulus, tagged with
/// the representation the rows are in.
pub struct Poly {
    pub coefficients: Vec<Vec<u64>>,
    pub representation: Representation,
}

impl Poly {
    /// The rows of residues, one per modulus.
    pub open spec fn rows(&self) -> Seq<Seq<u64>> {
        rows_of(self.coefficients@)
    }

    /// The element is the constant `x` of the ring over `moduli` of dimension
    /// `degree`, in its tagged representation.
    pub open spec fn is_constant(&self, x: nat, moduli: Seq<u64>, degree: nat) -> bool {
        &&& self.coefficients.len() == moduli.len()
        &&& forall|i: int|
            0 <= i < moduli.len() ==> (#[trigger] self.coefficients@[i]).len() == degree
        &&& forall|i: int, j: int|
            0 <= i < moduli.len() && 0 <= j < degree ==> #[trigger] self.coefficients@[i]@[j]
                == constant_entry(self.representation, x, moduli[i], j)
    }

    /// Every coefficient but the constant term is zero.
    pub open spec fn only_constant_term(&self) -> bool {
        &&& self.representation == Representation::Coefficient
        &&& forall|i: int, j: int|
            0 <= i < self.coefficients.len() && 1 <= j < self.coefficients@[i].len()
                ==> #[trigger] self.coefficients@[i]@[j] == 0
    }

    /// The constant `value` as an element of the ring of `context`, in
    /// coefficient representation.
    pub fn from_constant(value: &Vec<u8>, context: &PolyContext) -> (r: Poly)
        requires
            forall|i: int| 0 <= i < context.moduli.len() ==> context.moduli[i] != 0,
        ensures
            r.representation == Representation::Coefficient,
            r.is_constant(le_value(value@), context.moduli@, context.degree as nat),
            r.only_constant_term(),
    {
        let mut rows: Vec<Vec<u64>> = Vec::new();
        let mut i: usize = 0;
        while i < context.moduli.len()
            invariant
                i <= context.moduli.len(),
                rows.len() == i,
                forall|k: int| 0 <= k < context.moduli.len() ==> context.moduli[k] != 0,
                forall|k: int| 0 <= k < i ==> (#[trigger] rows@[k]).len() == context.degree,
                forall|k: int, j: int|
                    0 <= k < i && 0 <= j < context.degree ==> #[trigger] rows@[k]@[j]
                        == constant_entry(
                        Representation::Coefficient,
                        le_value(value@),
                        context.moduli[k],
                        j,
                    ),
            decreases context.moduli.len() - i,
        {
            let residue: u64 = big_rem_u64(value, context.moduli[i]);
            let mut row: Vec<u64> = filled(0, context.degree);
            if context.degree > 0 {
                row.set(0, residue);
            }
            rows.push(row);
            i = i + 1;
        }
        Poly { coefficients: rows, representation: Representation::Coefficient }
    }

    /// Moves a constant element from coefficient to evaluation
    /// representation: a constant polynomial takes its constant term as value
    /// at every point.
    pub fn constant_to_evaluation(&mut self)
        requires
            old(self).only_constant_term(),
        ensures
            final(self).representation == Representation::Evaluation,
            final(self).coefficients.len() == old(self).coefficients.len(),
            forall|i: int|
                0 <= i < old(self).coefficients.len()
                    ==> (#[trigger] final(self).coefficients@[i]).len()
                        == old(self).coefficients@[i].len(),
            forall|i: int, j: int|
                0 <= i < old(self).coefficients.len() && 0 <= j < old(self).coefficients@[i].len()
                    ==> #[trigger] final(self).coefficients@[i]@[j]
                        == old(self).coefficients@[i]@[0],
            forall|i: int, j: int, point: nat, q: nat|
                0 <= i < old(self).coefficients.len() && 0 <= j < old(self).coefficients@[i].len()
                    && q > old(self).coefficients@[i]@[0]
                    ==> #[trigger] final(self).coefficients@[i]@[j]
                        == #[trigger] evaluate(old(self).coefficients@[i]@, point, q),
    {
        proof {
            assert forall|i: int, point: nat, q: nat|
                0 <= i < self.coefficients.len() && 0 < self.coefficients@[i].len()
                    && q > self.coefficients@[i]@[0]
                implies #[trigger] evaluate(self.coefficients@[i]@, point, q)
                    == self.coefficients@[i]@[0] by {
                lemma_evaluate_constant(self.coefficients@[i]@, point, q);
                lemma_small_mod(self.coefficients@[i]@[0] as nat, q);
            }
        }
        let mut rows: Vec<Vec<u64>> = Vec::new();
        let mut i: usize = 0;
        while i < self.coefficients.len()
            invariant
                i <= self.coefficients.len(),
                rows.len() == i,
                forall|k: int|
                    0 <= k < i ==> (#[trigger] rows@[k]).len() == self.coefficients@[k].len(),
                forall|k: int, j: int|
                    0 <= k < i && 0 <= j < self.coefficients@[k].len() ==> #[trigger] rows@[k]@[j]
                        == self.coefficients@[k]@[0],
            decreases self.coefficients.len() - i,
        {
            let n: usize = self.coefficients[i].len();
            let row: Vec<u64> = if n > 0 {
                filled(self.coefficients[i][0], n)
            } else {
                Vec::new()
            };
            rows.push(row);
            i = i + 1;
        }
        self.coefficients = rows;
        self.representation = Representation::Evaluation;
    }
}

} // verus!
