//! Primes that suit a negacyclic transform: search within a bit size, below a
//! bound, in the residue class of one modulo a given factor.

use vstd::prelude::*;
use vstd::arithmetic::power2::*;
use vstd::arithmetic::div_mod::*;

verus! {

/// `n` is prime: at least two, and divisible by nothing strictly between one
/// and itself.
pub open spec fn is_prime(n: nat) -> bool {
    n >= 2 && forall|d: nat| 2 <= d < n ==> #[trigger] (n % d) != 0
}

/// `p` has exactly `num_bits` bits.
pub open spec fn has_bit_size(p: u64, num_bits: usize) -> bool {
    num_bits >= 1 && pow2((num_bits - 1) as nat) <= p && p < pow2(num_bits as nat)
}

/// `q` leaves the remainder one on division by `m`.
pub open spec fn one_mod(q: nat, m: nat) -> bool {
    m >= 2 && q % m == 1
}

/// `p` is a prime of `num_bits` bits that is one modulo `modulo`.
pub open spec fn suits(p: u64, num_bits: usize, modulo: nat) -> bool {
    &&& is_prime(p as nat)
    &&& has_bit_size(p, num_bits)
    &&& one_mod(p as nat, modulo)
}

/// Trusted: `num_bigint_dig::prime::probably_prime` with no extra rounds.
/// Its documentation promises an exact answer for every input below 2^64,
/// which is what the contract claims.
#[verifier::external_body]
pub(crate) fn is_prime_u64(n: u64) -> (r: bool)
    ensures
        r == is_prime(n as nat),
{
    num_bigint_dig::prime::probably_prime(&num_bigint_dig::BigUint::from(n), 0)
}

/// Two to the power `e`.
pub fn pow2_u64(e: usize) -> (r: u64)
    requires
        e < 64,
    ensures
        r == pow2(e as nat),
{
    let mut r: u64 = 1;
    let mut i: usize = 0;
    proof {
        lemma2_to64();
    }
    while i < e
        invariant
            i <= e,
            e < 64,
            r == pow2(i as nat),
        decreases e - i,
    {
        proof {
            lemma_pow2_unfold((i + 1) as nat);
            if i + 1 < 63 {
                lemma_pow2_strictly_increases((i + 1) as nat, 63);
            }
            lemma2_to64_rest();
        }
        r = r * 2;
        i = i + 1;
    }
    r
}

/// Two numbers in one residue class lie at least a modulus apart.
pub proof fn lemma_same_residue_gap(q: nat, c: nat, m: nat)
    requires
        m > 0,
        q < c,
        q % m == c % m,
    ensures
        q + m <= c,
{
    lemma_fundamental_div_mod(q as int, m as int);
    lemma_fundamental_div_mod(c as int, m as int);
    let a = (q / m) as int;
    let b = (c / m) as int;
    let r = (q % m) as int;
    let mi = m as int;
    assert(a < b) by (nonlinear_arith)
        requires
            mi * a + r < mi * b + r,
            mi > 0,
    ;
    assert(mi * a + mi <= mi * b) by (nonlinear_arith)
        requires
            a + 1 <= b,
            mi > 0,
    ;
}

/// The largest prime of `num_bits` bits that is one modulo `modulo` and lies
/// strictly below `upper_bound`; `None` when there is none.
pub fn generate_prime(num_bits: usize, modulo: u64, upper_bound: u64) -> (r: Option<u64>)
    ensures
        match r {
            Some(p) => {
                &&& suits(p, num_bits, modulo as nat)
                &&& p < upper_bound
                &&& forall|q: u64|
                    #[trigger] suits(q, num_bits, modulo as nat) && q < upper_bound ==> q <= p
            },
            None => forall|q: u64|
                #[trigger] suits(q, num_bits, modulo as nat) ==> q >= upper_bound,
        },
{
    if num_bits == 0 || modulo < 2 {
        return None;
    }
    if num_bits > 64 {
        proof {
            lemma2_to64_rest();
            if num_bits - 1 > 64 {
                lemma_pow2_strictly_increases(64, (num_bits - 1) as nat);
            }
        }
        return None;
    }
    let low: u64 = pow2_u64(num_bits - 1);
    proof {
        lemma2_to64_rest();
        lemma_pow2_unfold(num_bits as nat);
        lemma_pow2_pos((num_bits - 1) as nat);
        if num_bits - 1 < 63 {
            lemma_pow2_strictly_increases((num_bits - 1) as nat, 63);
        }
    }
    // The largest value allowed.
    let high: u64 = if num_bits == 64 || upper_bound <= low + (low - 1) {
        if upper_bound == 0 {
            return None;
        }
        upper_bound - 1
    } else {
        low + (low - 1)
    };
    if high < low {
        return None;
    }
    assert(forall|q: u64|
        #[trigger] suits(q, num_bits, modulo as nat) && q < upper_bound ==> low <= q <= high);
    // The largest value up to `high` in the residue class of one.
    let excess: u64 = (high - 1) % modulo;
    proof {
        let top = (high - excess) as int;
        let k = ((high - 1) as int) / (modulo as int);
        lemma_fundamental_div_mod((high - 1) as int, modulo as int);
        assert(k * modulo == modulo * k) by (nonlinear_arith);
        lemma_fundamental_div_mod_converse(top, modulo as int, k, 1);
        assert forall|q: u64| top < q <= high implies !#[trigger] suits(
            q,
            num_bits,
            modulo as nat,
        ) by {
            if one_mod(q as nat, modulo as nat) {
                lemma_same_residue_gap(top as nat, q as nat, modulo as nat);
            }
        }
    }
    if high - low < excess {
        return None;
    }
    let mut c: u64 = high - excess;
    loop
        invariant
            low <= c <= high,
            modulo >= 2,
            (c as nat) % (modulo as nat) == 1,
            forall|q: u64|
                #[trigger] suits(q, num_bits, modulo as nat) && q < upper_bound ==> low <= q <= high,
            forall|q: u64| c < q <= high ==> !#[trigger] suits(q, num_bits, modulo as nat),
            num_bits >= 1,
            low == pow2((num_bits - 1) as nat),
            high < pow2(num_bits as nat),
            high < upper_bound,
        decreases c,
    {
        if is_prime_u64(c) {
            return Some(c);
        }
        if c - low < modulo {
            proof {
                assert forall|q: u64| suits(q, num_bits, modulo as nat) implies q >= upper_bound by {
                    if q < upper_bound && q < c {
                        lemma_same_residue_gap(q as nat, c as nat, modulo as nat);
                    }
                }
            }
            return None;
        }
        proof {
            let next = (c - modulo) as u64;
            assert forall|q: u64| next < q <= high implies !suits(q, num_bits, modulo as nat) by {
                if q < c && (q as nat) % (modulo as nat) == 1 {
                    lemma_same_residue_gap(q as nat, c as nat, modulo as nat);
                }
            }
            lemma_mod_sub_multiples_vanish(c as int, modulo as int);
        }
        c = c - modulo;
    }
}

} // verus!
