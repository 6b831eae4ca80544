//! What holds of every parameter set: its levels have the inverses they
//! need, and its tables are a function of the request alone.

use vstd::prelude::*;
use vstd::arithmetic::div_mod::{lemma_mul_mod_noop_right, lemma_small_mod};
use crate::bigint::{invertible, is_inverse};
use crate::decryption::{
    decryption_entry_ok, decryption_rows, entry_of, fractional_part, qhat, rational_part,
    shifted, DecryptionEntry,
};
use crate::encryption::{encryption_entry, neg_t};
use crate::parameters::{
    all_levels_invertible, level_invertible, level_moduli, BfvParameters,
};
use crate::ring::{product, rows_of, Poly};
use crate::selection::lemma_selection_unique;

verus! {

/// An inverse modulo `m`, reduced into `[0, m)`, is unique.
pub proof fn lemma_inverse_unique(x: nat, y: nat, a: nat, m: nat)
    requires
        is_inverse(x, a, m),
        is_inverse(y, a, m),
    ensures
        x == y,
{
    let mi = m as int;
    lemma_mul_mod_noop_right(x as int, (a * y) as int, mi);
    lemma_mul_mod_noop_right(y as int, (a * x) as int, mi);
    assert(x * (a * y) == y * (a * x)) by (nonlinear_arith);
    assert(x * 1 == x && y * 1 == y);
    lemma_small_mod(x, m);
    lemma_small_mod(y, m);
}

/// The encryption constants of a level are determined by the level's moduli,
/// the ring dimension and the plaintext modulus.
pub proof fn lemma_encryption_entry_unique(
    moduli: Seq<u64>,
    degree: usize,
    t: u64,
    ql_a: u64,
    poly_a: Poly,
    ql_b: u64,
    poly_b: Poly,
)
    requires
        encryption_entry(moduli, degree, t, ql_a, poly_a),
        encryption_entry(moduli, degree, t, ql_b, poly_b),
    ensures
        ql_a == ql_b,
        poly_a.representation == poly_b.representation,
        poly_a.rows() == poly_b.rows(),
{
    let q = product(moduli);
    let a = neg_t(q, t as nat);
    let x = choose|x: nat| is_inverse(x, a, q) && #[trigger] poly_a.is_constant(x, moduli, degree as nat);
    let y = choose|y: nat| is_inverse(y, a, q) && #[trigger] poly_b.is_constant(y, moduli, degree as nat);
    lemma_inverse_unique(x, y, a, q);
    assert forall|i: int| 0 <= i < moduli.len() implies #[trigger] poly_a.rows()[i]
        == poly_b.rows()[i] by {
        assert(poly_a.coefficients@[i].len() == degree);
        assert(poly_b.coefficients@[i].len() == degree);
        assert forall|j: int| 0 <= j < degree implies poly_a.coefficients@[i]@[j]
            == poly_b.coefficients@[i]@[j] by {
        }
        assert(poly_a.coefficients@[i]@ =~= poly_b.coefficients@[i]@);
    }
    assert(poly_a.rows() =~= poly_b.rows());
}

/// The decryption constants of a level are determined by the level's moduli,
/// the plaintext modulus and the shift.
pub proof fn lemma_decryption_rows_unique(
    moduli: Seq<u64>,
    t: u64,
    b: nat,
    rationals_a: Seq<u64>,
    brationals_a: Seq<u64>,
    fractionals_a: Seq<u64>,
    bfractionals_a: Seq<u64>,
    rationals_b: Seq<u64>,
    brationals_b: Seq<u64>,
    fractionals_b: Seq<u64>,
    bfractionals_b: Seq<u64>,
)
    requires
        decryption_rows(moduli, t, b, rationals_a, brationals_a, fractionals_a, bfractionals_a),
        decryption_rows(moduli, t, b, rationals_b, brationals_b, fractionals_b, bfractionals_b),
    ensures
        rationals_a == rationals_b,
        brationals_a == brationals_b,
        fractionals_a == fractionals_b,
        bfractionals_a == bfractionals_b,
{
    assert forall|i: int| 0 <= i < moduli.len() implies {
        &&& rationals_a[i] == rationals_b[i]
        &&& brationals_a[i] == brationals_b[i]
        &&& fractionals_a[i] == fractionals_b[i]
        &&& bfractionals_a[i] == bfractionals_b[i]
    } by {
        let ea = DecryptionEntry {
            rational: rationals_a[i],
            brational: brationals_a[i],
            fractional: fractionals_a[i],
            bfractional: bfractionals_a[i],
        };
        let eb = DecryptionEntry {
            rational: rationals_b[i],
            brational: brationals_b[i],
            fractional: fractionals_b[i],
            bfractional: bfractionals_b[i],
        };
        assert(decryption_entry_ok(moduli, i, t, b, ea));
        assert(decryption_entry_ok(moduli, i, t, b, eb));
        let q = moduli[i] as nat;
        let x = choose|x: nat| #[trigger]
            is_inverse(x, qhat(moduli, i), q) && entry_of(x, q, t as nat, b, ea);
        let y = choose|y: nat| #[trigger]
            is_inverse(y, qhat(moduli, i), q) && entry_of(y, q, t as nat, b, eb);
        lemma_inverse_unique(x, y, qhat(moduli, i), q);
    }
    assert(rationals_a =~= rationals_b);
    assert(brationals_a =~= brationals_b);
    assert(fractionals_a =~= fractionals_b);
    assert(bfractionals_a =~= bfractionals_b);
}

/// Level `i` of a parameter set is the ring over all but the last `i` moduli.
pub proof fn lemma_levels_are_prefixes(p: BfvParameters)
    requires
        p.wf(),
    ensures
        forall|i: int|
            0 <= i < p.ciphertext_moduli.len() ==> (#[trigger] p.ciphertext_poly_contexts@[i]).moduli@
                == p.ciphertext_moduli@.take(p.ciphertext_moduli.len() - i),
{
    assert forall|i: int| 0 <= i < p.ciphertext_moduli.len() implies (
    #[trigger] p.ciphertext_poly_contexts@[i]).moduli@ == p.ciphertext_moduli@.take(
        p.ciphertext_moduli.len() - i,
    ) by {
        assert(p.level_holds(i));
    }
}

/// At every level the stored reduction is the product of the level's moduli
/// modulo the plaintext modulus.
pub proof fn lemma_ql_modt(p: BfvParameters, i: int)
    requires
        p.wf(),
        0 <= i < p.ciphertext_moduli.len(),
    ensures
        p.ql_modt@[i] == p.level_modulus(i) % (p.plaintext_modulus as nat),
{
    assert(p.level_holds(i));
}

/// At every level the stored encryption element is, in evaluation
/// representation, the constant `x` below the level's modulus `q` for which
/// `x` times `-t` reduced modulo `q` is one modulo `q`.
pub proof fn lemma_neg_t_inverse(p: BfvParameters, i: int)
    requires
        p.wf(),
        0 <= i < p.ciphertext_moduli.len(),
    ensures
        exists|x: nat|
            x < p.level_modulus(i) && (neg_t(p.level_modulus(i), p.plaintext_modulus as nat) * x)
                % p.level_modulus(i) == 1 && #[trigger] p.neg_t_inv_modql@[i].is_constant(
                x,
                p.level(i),
                p.polynomial_degree as nat,
            ),
{
    assert(p.level_holds(i));
    let level = level_moduli(p.ciphertext_moduli@, i);
    let q = product(level);
    let x = choose|x: nat|
        is_inverse(x, neg_t(q, p.plaintext_modulus as nat), q)
            && #[trigger] p.neg_t_inv_modql@[i].is_constant(
            x,
            level,
            p.polynomial_degree as nat,
        );
    assert(encryption_entry(
        level,
        p.polynomial_degree,
        p.plaintext_modulus,
        p.ql_modt@[i],
        p.neg_t_inv_modql@[i],
    ));
    assert(is_inverse(x, neg_t(q, p.plaintext_modulus as nat), q));
    assert(p.neg_t_inv_modql@[i].is_constant(x, p.level(i), p.polynomial_degree as nat));
}

/// At every level and for every modulus `q` of it, the four stored values
/// are the whole part modulo `t` and the fraction's numerator of `t * inv / q`
/// and of `t * ((inv * 2^b) mod q) / q`, where `inv` inverts modulo `q` the
/// product of the level's other moduli and `b` is the stored shift: with
/// `rational_part(x, q, t)` for `floor(t * x / q) mod t` and
/// `fractional_part(x, q, t)` for `(t * x) mod q`.
pub proof fn lemma_decryption_values(p: BfvParameters, i: int, k: int)
    requires
        p.wf(),
        0 <= i < p.ciphertext_moduli.len(),
        0 <= k < p.ciphertext_moduli.len() - i,
    ensures
        exists|inv: nat| #[trigger]
            is_inverse(inv, p.level_modulus(i) / (p.level(i)[k] as nat), p.level(i)[k] as nat)
                && p.t_qlhat_inv_modql_divql_modt@[i]@[k] == rational_part(
                inv,
                p.level(i)[k] as nat,
                p.plaintext_modulus as nat,
            ) && p.t_qlhat_inv_modql_divql_frac@[i]@[k] == fractional_part(
                inv,
                p.level(i)[k] as nat,
                p.plaintext_modulus as nat,
            ) && p.t_bqlhat_inv_modql_divql_modt@[i]@[k] == rational_part(
                shifted(inv, p.level(i)[k] as nat, p.max_bit_size_by2 as nat),
                p.level(i)[k] as nat,
                p.plaintext_modulus as nat,
            ) && p.t_bqlhat_inv_modql_divql_frac@[i]@[k] == fractional_part(
                shifted(inv, p.level(i)[k] as nat, p.max_bit_size_by2 as nat),
                p.level(i)[k] as nat,
                p.plaintext_modulus as nat,
            ),
{
    assert(p.level_holds(i));
    let level = level_moduli(p.ciphertext_moduli@, i);
    let q = level[k] as nat;
    let t = p.plaintext_modulus as nat;
    let e = DecryptionEntry {
        rational: p.t_qlhat_inv_modql_divql_modt@[i]@[k],
        brational: p.t_bqlhat_inv_modql_divql_modt@[i]@[k],
        fractional: p.t_qlhat_inv_modql_divql_frac@[i]@[k],
        bfractional: p.t_bqlhat_inv_modql_divql_frac@[i]@[k],
    };
    assert(decryption_entry_ok(level, k, p.plaintext_modulus, p.max_bit_size_by2 as nat, e));
    let inv = choose|inv: nat| #[trigger]
        is_inverse(inv, qhat(level, k), q) && entry_of(inv, q, t, p.max_bit_size_by2 as nat, e);
    assert(is_inverse(inv, product(level) / q, q));
    assert(is_inverse(inv, p.level_modulus(i) / (p.level(i)[k] as nat), p.level(i)[k] as nat));
}

/// In a parameter set every level has the inverses that its constants need.
pub proof fn lemma_levels_invertible(p: BfvParameters)
    requires
        p.wf(),
    ensures
        all_levels_invertible(p.ciphertext_moduli@, p.plaintext_modulus),
{
    let moduli = p.ciphertext_moduli@;
    let t = p.plaintext_modulus;
    assert forall|n: int| 1 <= n <= moduli.len() implies level_invertible(
        #[trigger] moduli.take(n),
        t,
    ) by {
        let i = moduli.len() - n;
        let level = moduli.take(n);
        assert(p.level_holds(i));
        assert(level_moduli(moduli, i) == level);
        assert(invertible(neg_t(product(level), t as nat), product(level)));
        assert forall|k: int| 0 <= k < level.len() implies invertible(
            #[trigger] qhat(level, k),
            level[k] as nat,
        ) by {
            assert(decryption_entry_ok(
                level,
                k,
                t,
                p.max_bit_size_by2 as nat,
                (DecryptionEntry {
                    rational: p.t_qlhat_inv_modql_divql_modt@[i]@[k],
                    brational: p.t_bqlhat_inv_modql_divql_modt@[i]@[k],
                    fractional: p.t_qlhat_inv_modql_divql_frac@[i]@[k],
                    bfractional: p.t_bqlhat_inv_modql_divql_frac@[i]@[k],
                }),
            ));
        }
    }
}

/// Level `i` of `a` and of `b` have the same moduli and the same encryption
/// element.
pub open spec fn same_level(a: BfvParameters, b: BfvParameters, i: int) -> bool {
    &&& a.ciphertext_poly_contexts@[i].moduli@ == b.ciphertext_poly_contexts@[i].moduli@
    &&& a.neg_t_inv_modql@[i].rows() == b.neg_t_inv_modql@[i].rows()
    &&& a.neg_t_inv_modql@[i].representation == b.neg_t_inv_modql@[i].representation
}

/// Two parameter sets built for the same request hold the same moduli, the
/// same shift and, level by level, the same constants.
pub proof fn lemma_parameters_determined(a: BfvParameters, b: BfvParameters)
    requires
        a.wf(),
        b.wf(),
        a.ciphertext_moduli_sizes@ == b.ciphertext_moduli_sizes@,
        a.plaintext_modulus == b.plaintext_modulus,
        a.polynomial_degree == b.polynomial_degree,
    ensures
        a.ciphertext_moduli@ == b.ciphertext_moduli@,
        a.max_bit_size_by2 == b.max_bit_size_by2,
        a.ql_modt@ == b.ql_modt@,
        forall|i: int| 0 <= i < a.ciphertext_moduli.len() ==> #[trigger] same_level(a, b, i),
        rows_of(a.t_qlhat_inv_modql_divql_modt@) == rows_of(b.t_qlhat_inv_modql_divql_modt@),
        rows_of(a.t_bqlhat_inv_modql_divql_modt@) == rows_of(b.t_bqlhat_inv_modql_divql_modt@),
        rows_of(a.t_qlhat_inv_modql_divql_frac@) == rows_of(b.t_qlhat_inv_modql_divql_frac@),
        rows_of(a.t_bqlhat_inv_modql_divql_frac@) == rows_of(b.t_bqlhat_inv_modql_divql_frac@),
{
    lemma_selection_unique(
        a.ciphertext_moduli@,
        b.ciphertext_moduli@,
        a.ciphertext_moduli_sizes@,
        a.polynomial_degree,
    );
    let moduli = a.ciphertext_moduli@;
    let t = a.plaintext_modulus;
    let shift = a.max_bit_size_by2 as nat;
    assert forall|i: int| 0 <= i < moduli.len() implies {
        &&& #[trigger] same_level(a, b, i)
        &&& a.ql_modt@[i] == b.ql_modt@[i]
        &&& a.t_qlhat_inv_modql_divql_modt@[i]@ == b.t_qlhat_inv_modql_divql_modt@[i]@
        &&& a.t_bqlhat_inv_modql_divql_modt@[i]@ == b.t_bqlhat_inv_modql_divql_modt@[i]@
        &&& a.t_qlhat_inv_modql_divql_frac@[i]@ == b.t_qlhat_inv_modql_divql_frac@[i]@
        &&& a.t_bqlhat_inv_modql_divql_frac@[i]@ == b.t_bqlhat_inv_modql_divql_frac@[i]@
    } by {
        assert(a.level_holds(i));
        assert(b.level_holds(i));
        let level = level_moduli(moduli, i);
        lemma_encryption_entry_unique(
            level,
            a.polynomial_degree,
            t,
            a.ql_modt@[i],
            a.neg_t_inv_modql@[i],
            b.ql_modt@[i],
            b.neg_t_inv_modql@[i],
        );
        lemma_decryption_rows_unique(
            level,
            t,
            shift,
            a.t_qlhat_inv_modql_divql_modt@[i]@,
            a.t_bqlhat_inv_modql_divql_modt@[i]@,
            a.t_qlhat_inv_modql_divql_frac@[i]@,
            a.t_bqlhat_inv_modql_divql_frac@[i]@,
            b.t_qlhat_inv_modql_divql_modt@[i]@,
            b.t_bqlhat_inv_modql_divql_modt@[i]@,
            b.t_qlhat_inv_modql_divql_frac@[i]@,
            b.t_bqlhat_inv_modql_divql_frac@[i]@,
        );
    }
    assert forall|i: int| 0 <= i < moduli.len() implies #[trigger] a.ql_modt@[i]
        == b.ql_modt@[i] by {
        assert(same_level(a, b, i));
    }
    assert forall|i: int| 0 <= i < moduli.len() implies #[trigger] rows_of(a.t_qlhat_inv_modql_divql_modt@)[i]
        == rows_of(b.t_qlhat_inv_modql_divql_modt@)[i] by {
        assert(same_level(a, b, i));
    }
    assert forall|i: int| 0 <= i < moduli.len() implies #[trigger] rows_of(a.t_bqlhat_inv_modql_divql_modt@)[i]
        == rows_of(b.t_bqlhat_inv_modql_divql_modt@)[i] by {
        assert(same_level(a, b, i));
    }
    assert forall|i: int| 0 <= i < moduli.len() implies #[trigger] rows_of(a.t_qlhat_inv_modql_divql_frac@)[i]
        == rows_of(b.t_qlhat_inv_modql_divql_frac@)[i] by {
        assert(same_level(a, b, i));
    }
    assert forall|i: int| 0 <= i < moduli.len() implies #[trigger] rows_of(a.t_bqlhat_inv_modql_divql_frac@)[i]
        == rows_of(b.t_bqlhat_inv_modql_divql_frac@)[i] by {
        assert(same_level(a, b, i));
    }
    assert(a.ql_modt@ =~= b.ql_modt@);
    assert(rows_of(a.t_qlhat_inv_modql_divql_modt@) =~= rows_of(b.t_qlhat_inv_modql_divql_modt@));
    assert(rows_of(a.t_bqlhat_inv_modql_divql_modt@) =~= rows_of(
        b.t_bqlhat_inv_modql_divql_modt@,
    ));
    assert(rows_of(a.t_qlhat_inv_modql_divql_frac@) =~= rows_of(b.t_qlhat_inv_modql_divql_frac@));
    assert(rows_of(a.t_bqlhat_inv_modql_divql_frac@) =~= rows_of(
        b.t_bqlhat_inv_modql_divql_frac@,
    ));
}

} // verus!
