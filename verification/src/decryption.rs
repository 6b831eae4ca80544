//! Constants that decryption reads at a level: for each modulus the scaled
//! inverse of the product of the others, split into a whole part modulo the
//! plaintext modulus and a fraction, once as it is and once shifted by a
//! power of two.

use vstd::prelude::*;
use vstd::arithmetic::power2::pow2;
use crate::bigint::{
    big_div_u64, big_from_u64, big_mod_inverse, big_to_u64, invertible, is_inverse,
};
use crate::primes::pow2_u64;
use crate::ring::{product, PolyContext};

verus! {

/// The whole part of `t * x / q`, reduced modulo `t`.
pub open spec fn rational_part(x: nat, q: nat, t: nat) -> nat {
    ((t * x) / q) % t
}

/// The numerator over `q` of the fractional part of `t * x / q`.
pub open spec fn fractional_part(x: nat, q: nat, t: nat) -> nat {
    (t * x) % q
}

/// `x` times two to the `b`, reduced modulo `q`.
pub open spec fn shifted(x: nat, q: nat, b: nat) -> nat {
    (x * pow2(b)) % q
}

/// The whole part modulo `t` and the fraction's numerator of `t * x / q`.
pub fn split_scaled(x: u64, q: u64, t: u64) -> (r: (u64, u64))
    requires
        q > 0,
        t > 0,
    ensures
        r.0 == rational_part(x as nat, q as nat, t as nat),
        r.1 == fractional_part(x as nat, q as nat, t as nat),
{
    assert((t as int) * (x as int) <= 0xffff_ffff_ffff_ffff * 0xffff_ffff_ffff_ffff)
        by (nonlinear_arith)
        requires
            0 <= t <= 0xffff_ffff_ffff_ffff,
            0 <= x <= 0xffff_ffff_ffff_ffff,
    ;
    let scaled: u128 = (t as u128) * (x as u128);
    let rational: u128 = (scaled / (q as u128)) % (t as u128);
    let fractional: u128 = scaled % (q as u128);
    (rational as u64, fractional as u64)
}

/// `x` times two to the `b`, reduced modulo `q`.
pub fn shift_reduce(x: u64, q: u64, b: usize) -> (r: u64)
    requires
        q > 0,
        b < 64,
    ensures
        r == shifted(x as nat, q as nat, b as nat),
{
    let factor: u64 = pow2_u64(b);
    assert((x as int) * (factor as int) <= 0xffff_ffff_ffff_ffff * 0xffff_ffff_ffff_ffff)
        by (nonlinear_arith)
        requires
            0 <= factor <= 0xffff_ffff_ffff_ffff,
            0 <= x <= 0xffff_ffff_ffff_ffff,
    ;
    let wide: u128 = (x as u128) * (factor as u128);
    (wide % (q as u128)) as u64
}

/// The four constants of one modulus.
pub struct DecryptionEntry {
    pub rational: u64,
    pub brational: u64,
    /// Numerator of the fraction over the modulus.
    pub fractional: u64,
    /// Numerator of the shifted fraction over the modulus.
    pub bfractional: u64,
}

/// The constants that belong to the inverse `inv` modulo `q`, for plaintext
/// modulus `t` and shift `b`.
pub open spec fn entry_of(inv: nat, q: nat, t: nat, b: nat, e: DecryptionEntry) -> bool {
    &&& e.rational == rational_part(inv, q, t)
    &&& e.fractional == fractional_part(inv, q, t)
    &&& e.brational == rational_part(shifted(inv, q, b), q, t)
    &&& e.bfractional == fractional_part(shifted(inv, q, b), q, t)
}

/// The four constants for a modulus `q` whose partial product has the inverse
/// `inv` modulo `q`.
pub fn decryption_entry(inv: u64, q: u64, t: u64, b: usize) -> (e: DecryptionEntry)
    requires
        q > 0,
        t > 0,
        b < 64,
    ensures
        entry_of(inv as nat, q as nat, t as nat, b as nat, e),
{
    let plain = split_scaled(inv, q, t);
    let moved = split_scaled(shift_reduce(inv, q, b), q, t);
    DecryptionEntry {
        rational: plain.0,
        brational: moved.0,
        fractional: plain.1,
        bfractional: moved.1,
    }
}

/// The constants of a whole level, one entry per modulus in four parallel
/// rows.
pub struct DecryptionTable {
    pub rationals: Vec<u64>,
    pub brationals: Vec<u64>,
    pub fractionals: Vec<u64>,
    pub bfractionals: Vec<u64>,
}

/// The product of all the moduli but the one at `i`.
pub open spec fn qhat(moduli: Seq<u64>, i: int) -> nat {
    product(moduli) / (moduli[i] as nat)
}

/// The four values are the constants of modulus `i` of the level over
/// `moduli`: those of the integer below that modulus which inverts the
/// product of the others.
pub open spec fn decryption_entry_ok(
    moduli: Seq<u64>,
    i: int,
    t: u64,
    b: nat,
    e: DecryptionEntry,
) -> bool {
    exists|inv: nat| #[trigger]
        is_inverse(inv, qhat(moduli, i), moduli[i] as nat) && entry_of(
            inv,
            moduli[i] as nat,
            t as nat,
            b,
            e,
        )
}

/// The four rows hold, at each index, the constants of that modulus of the
/// level over `moduli`.
pub open spec fn decryption_rows(
    moduli: Seq<u64>,
    t: u64,
    b: nat,
    rationals: Seq<u64>,
    brationals: Seq<u64>,
    fractionals: Seq<u64>,
    bfractionals: Seq<u64>,
) -> bool {
    &&& rationals.len() == moduli.len()
    &&& brationals.len() == moduli.len()
    &&& fractionals.len() == moduli.len()
    &&& bfractionals.len() == moduli.len()
    &&& forall|i: int|
        0 <= i < moduli.len() ==> decryption_entry_ok(
            moduli,
            i,
            t,
            b,
            (DecryptionEntry {
                rational: #[trigger] rationals[i],
                brational: brationals[i],
                fractional: fractionals[i],
                bfractional: bfractionals[i],
            }),
        )
}

/// Some modulus of the level does not invert the product of the others.
pub open spec fn some_qhat_not_invertible(moduli: Seq<u64>) -> bool {
    exists|i: int|
        0 <= i < moduli.len() && !invertible(#[trigger] qhat(moduli, i), moduli[i] as nat)
}

/// The decryption constants of the level of `context` for plaintext modulus
/// `t` and shift `b`; `None` when for some modulus the product of the others
/// has no inverse.
pub fn decryption_constants(context: &PolyContext, t: u64, b: usize) -> (r: Option<DecryptionTable>)
    requires
        context.wf(),
        t > 0,
        b < 64,
    ensures
        match r {
            Some(table) => decryption_rows(
                context.moduli@,
                t,
                b as nat,
                table.rationals@,
                table.brationals@,
                table.fractionals@,
                table.bfractionals@,
            ),
            None => some_qhat_not_invertible(context.moduli@),
        },
{
    let q = context.modulus();
    let mut table = DecryptionTable {
        rationals: Vec::new(),
        brationals: Vec::new(),
        fractionals: Vec::new(),
        bfractionals: Vec::new(),
    };
    let mut i: usize = 0;
    while i < context.moduli.len()
        invariant
            i <= context.moduli.len(),
            context.wf(),
            q@ == context.modulus@,
            t > 0,
            b < 64,
            table.rationals.len() == i,
            table.brationals.len() == i,
            table.fractionals.len() == i,
            table.bfractionals.len() == i,
            forall|k: int|
                0 <= k < i ==> decryption_entry_ok(
                    context.moduli@,
                    k,
                    t,
                    b as nat,
                    (DecryptionEntry {
                        rational: #[trigger] table.rationals@[k],
                        brational: table.brationals@[k],
                        fractional: table.fractionals@[k],
                        bfractional: table.bfractionals@[k],
                    }),
                ),
        decreases context.moduli.len() - i,
    {
        let qi: u64 = context.moduli[i];
        let ghost hat = qhat(context.moduli@, i as int);
        if qi <= 1 {
            proof {
                assert forall|x: nat| !is_inverse(x, hat, qi as nat) by {
                    assert(hat * 0 == 0);
                }
            }
            return None;
        }
        let others: Vec<u8> = big_div_u64(q, qi);
        let modulus: Vec<u8> = big_from_u64(qi);
        let inverse: u64 = match big_mod_inverse(&others, &modulus) {
            None => {
                return None;
            },
            Some(x) => match big_to_u64(&x) {
                Some(v) => v,
                None => 0,
            },
        };
        assert(is_inverse(inverse as nat, hat, qi as nat));
        let entry = decryption_entry(inverse, qi, t, b);
        let ghost before = table;
        table.rationals.push(entry.rational);
        table.brationals.push(entry.brational);
        table.fractionals.push(entry.fractional);
        table.bfractionals.push(entry.bfractional);
        proof {
            let level = context.moduli@;
            let n = i as int;
            assert forall|k: int| 0 <= k < n + 1 implies decryption_entry_ok(
                level,
                k,
                t,
                b as nat,
                (DecryptionEntry {
                    rational: #[trigger] table.rationals@[k],
                    brational: table.brationals@[k],
                    fractional: table.fractionals@[k],
                    bfractional: table.bfractionals@[k],
                }),
            ) by {
                if k < n {
                    assert(decryption_entry_ok(
                        level,
                        k,
                        t,
                        b as nat,
                        (DecryptionEntry {
                            rational: before.rationals@[k],
                            brational: before.brationals@[k],
                            fractional: before.fractionals@[k],
                            bfractional: before.bfractionals@[k],
                        }),
                    ));
                }
            }
        }
        i = i + 1;
    }
    Some(table)
}

} // verus!
