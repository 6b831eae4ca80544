//! Constants that encryption reads at a level: the level's modulus reduced
//! by the plaintext modulus, and the inverse of the negated plaintext modulus
//! as a ring element ready for pointwise multiplication.

use vstd::prelude::*;
use vstd::arithmetic::div_mod::lemma_small_mod;
use crate::bigint::{
    big_from_u64, big_mod_inverse, big_rem_u64, big_sub_u64, big_to_u64, invertible, is_inverse,
    le_value,
};
use crate::ring::{lemma_product_zero, product, Poly, PolyContext, Representation};

verus! {

/// `-t` reduced into `[0, q)`.
pub open spec fn neg_t(q: nat, t: nat) -> nat {
    if q == 0 {
        0
    } else {
        ((q - t % q) % (q as int)) as nat
    }
}

/// `ql_modt` and `neg_t_inv` are the encryption constants of the level over
/// `moduli`: the product of the moduli reduced by `t`, and the constant ring
/// element, in evaluation representation, of the integer below the product
/// that inverts `-t` modulo the product.
pub open spec fn encryption_entry(
    moduli: Seq<u64>,
    degree: usize,
    t: u64,
    ql_modt: u64,
    neg_t_inv: Poly,
) -> bool {
    &&& ql_modt == product(moduli) % (t as nat)
    &&& neg_t_inv.representation == Representation::Evaluation
    &&& exists|x: nat|
        is_inverse(x, neg_t(product(moduli), t as nat), product(moduli))
            && #[trigger] neg_t_inv.is_constant(x, moduli, degree as nat)
}

/// The encryption constants of the level of `context` for plaintext modulus
/// `t`; `None` when `-t` has no inverse modulo the level's modulus.
pub fn encryption_constants(context: &PolyContext, t: u64) -> (r: Option<(u64, Poly)>)
    requires
        context.wf(),
        t > 0,
    ensures
        match r {
            Some((ql_modt, neg_t_inv)) => encryption_entry(
                context.moduli@,
                context.degree,
                t,
                ql_modt,
                neg_t_inv,
            ),
            None => !invertible(
                neg_t(product(context.moduli@), t as nat),
                product(context.moduli@),
            ),
        },
{
    let q = context.modulus();
    let ghost qn = product(context.moduli@);
    let ghost a = neg_t(qn, t as nat);
    let ql_modt: u64 = big_rem_u64(q, t);
    let small = big_to_u64(q);
    let fits: bool = match small {
        Some(qs) => qs <= t,
        None => false,
    };
    let negated: Vec<u8> = if fits {
        let qs: u64 = match small {
            Some(qs) => qs,
            None => 0,
        };
        if qs <= 1 {
            proof {
                assert forall|x: nat| !is_inverse(x, a, qn) by {
                    assert(a * 0 == 0);
                }
            }
            return None;
        }
        big_from_u64((qs - t % qs) % qs)
    } else {
        proof {
            lemma_small_mod(t as nat, qn);
            lemma_small_mod((qn - t) as nat, qn);
        }
        big_sub_u64(q, t)
    };
    assert(le_value(negated@) == a);
    match big_mod_inverse(&negated, q) {
        None => None,
        Some(x) => {
            proof {
                assert forall|i: int| 0 <= i < context.moduli.len() implies context.moduli[i]
                    != 0 by {
                    if context.moduli[i] == 0 {
                        lemma_product_zero(context.moduli@, i);
                    }
                }
            }
            let mut poly = Poly::from_constant(&x, context);
            poly.constant_to_evaluation();
            assert(poly.is_constant(le_value(x@), context.moduli@, context.degree as nat));
            Some((ql_modt, poly))
        },
    }
}

} // verus!
