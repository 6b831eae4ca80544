//! The parameter set: validation of the request, the chain of moduli and
//! contexts, and the per-level constants, assembled once and never changed.

use vstd::prelude::*;
use vstd::arithmetic::power2::{
    pow2, lemma2_to64, lemma2_to64_rest, lemma_pow2_strictly_increases, lemma_pow2_unfold,
};
use vstd::slice::slice_to_vec;
use crate::bigint::invertible;
use crate::decryption::{decryption_constants, decryption_rows, some_qhat_not_invertible};
use crate::encryption::{encryption_constants, encryption_entry, neg_t};
use crate::primes::has_bit_size;
use crate::ring::{prefix, product, Poly, PolyContext};
use crate::laws::lemma_levels_invertible;
use crate::selection::{
    is_pick, is_selection, lemma_stuck_excludes_selection, select_moduli, selection_stuck,
};

verus! {

/// Why a parameter set could not be built.
#[derive(Clone, Copy, Debug, PartialEq, Eq, Structural)]
pub enum ParameterError {
    /// Some requested bit size was left without a suitable prime.
    InsufficientPrimes,
    /// An inverse that the constants need does not exist.
    NonInvertible,
    /// The request itself is malformed.
    InvalidConfiguration,
}

/// `n` is a power of two.
pub open spec fn power_of_two(n: usize) -> bool {
    exists|e: nat| n == #[trigger] pow2(e)
}

/// A request is well formed: at least one bit size, a plaintext modulus above
/// one, and a ring dimension that is a power of two.
pub open spec fn valid_configuration(sizes: Seq<usize>, t: u64, degree: usize) -> bool {
    &&& sizes.len() > 0
    &&& t > 1
    &&& power_of_two(degree)
}

/// The largest entry of `sizes`; zero for none.
pub open spec fn max_size(sizes: Seq<usize>) -> nat
    decreases sizes.len(),
{
    if sizes.len() == 0 {
        0
    } else {
        let rest = max_size(sizes.drop_last());
        if sizes.last() as nat > rest {
            sizes.last() as nat
        } else {
            rest
        }
    }
}

/// The moduli of level `i`: all but the last `i` of the chain.
pub open spec fn level_moduli(moduli: Seq<u64>, i: int) -> Seq<u64> {
    moduli.take(moduli.len() - i)
}

/// Every inverse that the constants of the level over `level` need exists.
pub open spec fn level_invertible(level: Seq<u64>, t: u64) -> bool {
    &&& invertible(neg_t(product(level), t as nat), product(level))
    &&& !some_qhat_not_invertible(level)
}

/// Every level of the chain has the inverses its constants need.
pub open spec fn all_levels_invertible(moduli: Seq<u64>, t: u64) -> bool {
    forall|n: int| 1 <= n <= moduli.len() ==> level_invertible(#[trigger] moduli.take(n), t)
}

/// The context and the constants stored for level `i` are those of that
/// level of the chain `moduli`.
pub open spec fn level_ok(
    moduli: Seq<u64>,
    degree: usize,
    t: u64,
    b: nat,
    i: int,
    context: PolyContext,
    ql_modt: u64,
    neg_t_inv: Poly,
    rationals: Seq<u64>,
    brationals: Seq<u64>,
    fractionals: Seq<u64>,
    bfractionals: Seq<u64>,
) -> bool {
    let level = level_moduli(moduli, i);
    &&& context.wf()
    &&& context.moduli@ == level
    &&& context.degree == degree
    &&& encryption_entry(level, degree, t, ql_modt, neg_t_inv)
    &&& decryption_rows(level, t, b, rationals, brationals, fractionals, bfractionals)
}

/// Whether `n` is a power of two.
pub fn is_power_of_two(n: usize) -> (r: bool)
    ensures
        r == power_of_two(n),
{
    let mut p: usize = 1;
    let ghost mut e: nat = 0;
    proof {
        lemma2_to64();
    }
    while p < n && p <= usize::MAX / 2
        invariant
            p >= 1,
            p == pow2(e),
            forall|f: nat| f < e ==> #[trigger] pow2(f) < n,
        decreases usize::MAX - p,
    {
        proof {
            lemma_pow2_unfold(e + 1);
            e = e + 1;
        }
        p = p * 2;
    }
    proof {
        if p != n {
            assert forall|f: nat| n != #[trigger] pow2(f) by {
                if f > e {
                    lemma_pow2_unfold(e + 1);
                    if f > e + 1 {
                        lemma_pow2_strictly_increases(e + 1, f);
                    }
                }
            }
        }
    }
    p == n
}

/// The largest entry of `sizes`; zero for none.
pub fn largest(sizes: &[usize]) -> (m: usize)
    ensures
        m == max_size(sizes@),
{
    let mut m: usize = 0;
    let mut i: usize = 0;
    assert(sizes@.take(0) =~= Seq::<usize>::empty());
    while i < sizes.len()
        invariant
            i <= sizes.len(),
            m == max_size(sizes@.take(i as int)),
        decreases sizes.len() - i,
    {
        assert(sizes@.take(i + 1).drop_last() =~= sizes@.take(i as int));
        if sizes[i] > m {
            m = sizes[i];
        }
        i = i + 1;
    }
    assert(sizes@.take(i as int) =~= sizes@);
    m
}

/// A bound on every entry bounds the largest.
pub proof fn lemma_max_size_bound(sizes: Seq<usize>, bound: nat)
    requires
        forall|k: int| 0 <= k < sizes.len() ==> sizes[k] <= bound,
    ensures
        max_size(sizes) <= bound,
    decreases sizes.len(),
{
    if sizes.len() > 0 {
        lemma_max_size_bound(sizes.drop_last(), bound);
    }
}

/// A 64-bit word has at most 64 bits.
pub proof fn lemma_bit_size_bound(p: u64, size: usize)
    requires
        has_bit_size(p, size),
    ensures
        size <= 64,
{
    lemma2_to64_rest();
    if size - 1 > 64 {
        lemma_pow2_strictly_increases(64, (size - 1) as nat);
    }
}

/// The public parameters of the scheme: the moduli in the order they were
/// selected, one ring context per level, and the constants of every level.
pub struct BfvParameters {
    pub ciphertext_moduli: Vec<u64>,
    pub ciphertext_moduli_sizes: Vec<usize>,
    pub ciphertext_poly_contexts: Vec<PolyContext>,
    pub plaintext_modulus: u64,
    pub polynomial_degree: usize,
    pub ql_modt: Vec<u64>,
    pub neg_t_inv_modql: Vec<Poly>,
    pub t_qlhat_inv_modql_divql_modt: Vec<Vec<u64>>,
    pub t_bqlhat_inv_modql_divql_modt: Vec<Vec<u64>>,
    /// Numerators of the fractions, each over its modulus.
    pub t_qlhat_inv_modql_divql_frac: Vec<Vec<u64>>,
    /// Numerators of the shifted fractions, each over its modulus.
    pub t_bqlhat_inv_modql_divql_frac: Vec<Vec<u64>>,
    pub max_bit_size_by2: usize,
}

impl BfvParameters {
    /// The moduli of level `i`.
    pub open spec fn level(&self, i: int) -> Seq<u64> {
        level_moduli(self.ciphertext_moduli@, i)
    }

    /// The modulus of level `i`: the product of its moduli.
    pub open spec fn level_modulus(&self, i: int) -> nat {
        product(self.level(i))
    }

    /// What is stored for level `i` belongs to that level.
    pub open spec fn level_holds(&self, i: int) -> bool {
        level_ok(
            self.ciphertext_moduli@,
            self.polynomial_degree,
            self.plaintext_modulus,
            self.max_bit_size_by2 as nat,
            i,
            self.ciphertext_poly_contexts@[i],
            self.ql_modt@[i],
            self.neg_t_inv_modql@[i],
            self.t_qlhat_inv_modql_divql_modt@[i]@,
            self.t_bqlhat_inv_modql_divql_modt@[i]@,
            self.t_qlhat_inv_modql_divql_frac@[i]@,
            self.t_bqlhat_inv_modql_divql_frac@[i]@,
        )
    }

    /// The invariant of a parameter set: the request is well formed, the
    /// moduli are the selection for it, the shift is half the largest bit
    /// size, and every level holds its own context and constants.
    pub open spec fn wf(&self) -> bool {
        let count = self.ciphertext_moduli.len();
        &&& valid_configuration(
            self.ciphertext_moduli_sizes@,
            self.plaintext_modulus,
            self.polynomial_degree,
        )
        &&& is_selection(
            self.ciphertext_moduli@,
            self.ciphertext_moduli_sizes@,
            self.polynomial_degree,
        )
        &&& self.max_bit_size_by2 == max_size(self.ciphertext_moduli_sizes@) / 2
        &&& self.ciphertext_poly_contexts.len() == count
        &&& self.ql_modt.len() == count
        &&& self.neg_t_inv_modql.len() == count
        &&& self.t_qlhat_inv_modql_divql_modt.len() == count
        &&& self.t_bqlhat_inv_modql_divql_modt.len() == count
        &&& self.t_qlhat_inv_modql_divql_frac.len() == count
        &&& self.t_bqlhat_inv_modql_divql_frac.len() == count
        &&& forall|i: int| 0 <= i < count ==> #[trigger] self.level_holds(i)
    }

    /// Builds the parameter set for the requested bit sizes, plaintext
    /// modulus `plaintext_modulus` and ring dimension `polynomial_degree`.
    ///
    /// The request is validated first, then the moduli are selected, then the
    /// constants of each level are computed; the first of these to fail gives
    /// the error.
    pub fn new(
        ciphertext_moduli_sizes: &[usize],
        plaintext_modulus: u64,
        polynomial_degree: usize,
    ) -> (r: Result<BfvParameters, ParameterError>)
        ensures
            match r {
                Ok(p) => {
                    &&& p.wf()
                    &&& p.ciphertext_moduli_sizes@ == ciphertext_moduli_sizes@
                    &&& p.plaintext_modulus == plaintext_modulus
                    &&& p.polynomial_degree == polynomial_degree
                    &&& all_levels_invertible(p.ciphertext_moduli@, plaintext_modulus)
                },
                Err(ParameterError::InvalidConfiguration) => !valid_configuration(
                    ciphertext_moduli_sizes@,
                    plaintext_modulus,
                    polynomial_degree,
                ),
                Err(ParameterError::InsufficientPrimes) => {
                    &&& valid_configuration(
                        ciphertext_moduli_sizes@,
                        plaintext_modulus,
                        polynomial_degree,
                    )
                    &&& selection_stuck(ciphertext_moduli_sizes@, polynomial_degree)
                    &&& forall|moduli: Seq<u64>|
                        !is_selection(moduli, ciphertext_moduli_sizes@, polynomial_degree)
                },
                Err(ParameterError::NonInvertible) => {
                    &&& valid_configuration(
                        ciphertext_moduli_sizes@,
                        plaintext_modulus,
                        polynomial_degree,
                    )
                    &&& exists|moduli: Seq<u64>| #[trigger]
                        is_selection(moduli, ciphertext_moduli_sizes@, polynomial_degree)
                            && !all_levels_invertible(moduli, plaintext_modulus)
                },
            },
    {
        if ciphertext_moduli_sizes.len() == 0 || plaintext_modulus <= 1 || !is_power_of_two(
            polynomial_degree,
        ) {
            return Err(ParameterError::InvalidConfiguration);
        }
        let moduli: Vec<u64> = match select_moduli(ciphertext_moduli_sizes, polynomial_degree) {
            None => {
                proof {
                    lemma_stuck_excludes_selection(ciphertext_moduli_sizes@, polynomial_degree);
                }
                return Err(ParameterError::InsufficientPrimes);
            },
            Some(moduli) => moduli,
        };
        let b: usize = largest(ciphertext_moduli_sizes) / 2;
        proof {
            assert forall|k: int|
                0 <= k < ciphertext_moduli_sizes.len() implies ciphertext_moduli_sizes@[k]
                <= 64 by {
                assert(is_pick(
                    moduli@[k],
                    ciphertext_moduli_sizes@[k],
                    polynomial_degree,
                    moduli@.take(k),
                ));
                lemma_bit_size_bound(moduli@[k], ciphertext_moduli_sizes@[k]);
            }
            lemma_max_size_bound(ciphertext_moduli_sizes@, 64);
        }
        let count: usize = moduli.len();
        let mut contexts: Vec<PolyContext> = Vec::new();
        let mut ql_modt: Vec<u64> = Vec::new();
        let mut neg_t_inv_modql: Vec<Poly> = Vec::new();
        let mut rationals: Vec<Vec<u64>> = Vec::new();
        let mut brationals: Vec<Vec<u64>> = Vec::new();
        let mut fractionals: Vec<Vec<u64>> = Vec::new();
        let mut bfractionals: Vec<Vec<u64>> = Vec::new();
        let mut i: usize = 0;
        while i < count
            invariant
                i <= count,
                count == moduli.len(),
                b < 64,
                plaintext_modulus > 1,
                contexts.len() == i,
                ql_modt.len() == i,
                neg_t_inv_modql.len() == i,
                rationals.len() == i,
                brationals.len() == i,
                fractionals.len() == i,
                bfractionals.len() == i,
                is_selection(moduli@, ciphertext_moduli_sizes@, polynomial_degree),
                valid_configuration(
                    ciphertext_moduli_sizes@,
                    plaintext_modulus,
                    polynomial_degree,
                ),
                forall|j: int|
                    0 <= j < i ==> level_ok(
                        moduli@,
                        polynomial_degree,
                        plaintext_modulus,
                        b as nat,
                        j,
                        #[trigger] contexts@[j],
                        ql_modt@[j],
                        neg_t_inv_modql@[j],
                        rationals@[j]@,
                        brationals@[j]@,
                        fractionals@[j]@,
                        bfractionals@[j]@,
                    ),
            decreases count - i,
        {
            let context = PolyContext::new(prefix(&moduli, count - i), polynomial_degree);
            let ghost level = moduli@.take(count - i);
            let (ql, neg_t_inv) = match encryption_constants(&context, plaintext_modulus) {
                None => {
                    assert(!level_invertible(level, plaintext_modulus));
                    return Err(ParameterError::NonInvertible);
                },
                Some(pair) => pair,
            };
            let table = match decryption_constants(&context, plaintext_modulus, b) {
                None => {
                    assert(!level_invertible(level, plaintext_modulus));
                    return Err(ParameterError::NonInvertible);
                },
                Some(table) => table,
            };
            contexts.push(context);
            ql_modt.push(ql);
            neg_t_inv_modql.push(neg_t_inv);
            rationals.push(table.rationals);
            brationals.push(table.brationals);
            fractionals.push(table.fractionals);
            bfractionals.push(table.bfractionals);
            i = i + 1;
        }
        let r = BfvParameters {
            ciphertext_moduli: moduli,
            ciphertext_moduli_sizes: slice_to_vec(ciphertext_moduli_sizes),
            ciphertext_poly_contexts: contexts,
            plaintext_modulus,
            polynomial_degree,
            ql_modt,
            neg_t_inv_modql,
            t_qlhat_inv_modql_divql_modt: rationals,
            t_bqlhat_inv_modql_divql_modt: brationals,
            t_qlhat_inv_modql_divql_frac: fractionals,
            t_bqlhat_inv_modql_divql_frac: bfractionals,
            max_bit_size_by2: b,
        };
        assert forall|j: int| 0 <= j < count implies #[trigger] r.level_holds(j) by {
            assert(r.ciphertext_poly_contexts@[j] == contexts@[j]);
        }
        proof {
            lemma_levels_invertible(r);
        }
        Ok(r)
    }
}

} // verus!
