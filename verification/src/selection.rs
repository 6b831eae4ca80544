//! The chain of moduli: one prime for each requested bit size, each the
//! largest suitable prime that no earlier request has taken.

use vstd::prelude::*;
use vstd::arithmetic::power2::{pow2, lemma2_to64_rest};
use vstd::arithmetic::div_mod::lemma_small_mod;
use crate::primes::{generate_prime, has_bit_size, is_prime, one_mod, pow2_u64, suits};

verus! {

/// Twice the ring dimension: the primes of a negacyclic transform of that
/// dimension are one modulo this factor.
pub open spec fn ntt_factor(degree: usize) -> nat {
    2 * (degree as nat)
}

/// `p` is the largest prime that suits `size` and `degree` and is not among
/// `taken`.
pub open spec fn is_pick(p: u64, size: usize, degree: usize, taken: Seq<u64>) -> bool {
    &&& suits(p, size, ntt_factor(degree))
    &&& !taken.contains(p)
    &&& forall|q: u64| #[trigger]
        suits(q, size, ntt_factor(degree)) && !taken.contains(q) ==> q <= p
}

/// `moduli` answers `sizes` one for one: each entry is the pick for its size
/// with the entries before it taken.
pub open spec fn is_selection(moduli: Seq<u64>, sizes: Seq<usize>, degree: usize) -> bool {
    &&& moduli.len() == sizes.len()
    &&& forall|k: int|
        0 <= k < moduli.len() ==> is_pick(#[trigger] moduli[k], sizes[k], degree, moduli.take(k))
}

/// Every prime that suits `size` and `degree` is among `taken`.
pub open spec fn exhausted(taken: Seq<u64>, size: usize, degree: usize) -> bool {
    forall|q: u64| #[trigger] suits(q, size, ntt_factor(degree)) ==> taken.contains(q)
}

/// `taken` answers a proper prefix of `sizes`, and leaves no prime for the
/// next size.
pub open spec fn stuck_after(taken: Seq<u64>, sizes: Seq<usize>, degree: usize) -> bool {
    &&& taken.len() < sizes.len()
    &&& is_selection(taken, sizes.take(taken.len() as int), degree)
    &&& exhausted(taken, sizes[taken.len() as int], degree)
}

/// The selection for `sizes` runs out of primes before its end.
pub open spec fn selection_stuck(sizes: Seq<usize>, degree: usize) -> bool {
    exists|taken: Seq<u64>| #[trigger] stuck_after(taken, sizes, degree)
}

/// Whether `x` occurs in `v`.
pub fn contains(v: &Vec<u64>, x: u64) -> (r: bool)
    ensures
        r == v@.contains(x),
{
    let mut i: usize = 0;
    while i < v.len()
        invariant
            i <= v.len(),
            forall|j: int| 0 <= j < i ==> v@[j] != x,
        decreases v.len() - i,
    {
        if v[i] == x {
            assert(v@[i as int] == x);
            return true;
        }
        i = i + 1;
    }
    false
}

/// The largest prime of `size` bits that is one modulo twice `degree` and not
/// among `taken`; `None` when every such prime is taken.
pub fn pick_prime(size: usize, degree: usize, taken: &Vec<u64>) -> (r: Option<u64>)
    ensures
        match r {
            Some(p) => is_pick(p, size, degree, taken@),
            None => exhausted(taken@, size, degree),
        },
{
    if degree as u64 > u64::MAX / 2 {
        proof {
            assert forall|q: u64| !#[trigger] suits(q, size, ntt_factor(degree)) by {
                lemma_small_mod(q as nat, ntt_factor(degree));
            }
        }
        return None;
    }
    let modulo: u64 = 2 * (degree as u64);
    let mut upper: u64 = if size < 64 {
        pow2_u64(size)
    } else {
        u64::MAX
    };
    proof {
        lemma2_to64_rest();
        assert(0xffff_ffff_ffff_ffffnat % 3 == 0);
        assert(!is_prime(u64::MAX as nat));
    }
    loop
        invariant
            modulo == ntt_factor(degree),
            forall|q: u64| #[trigger]
                suits(q, size, modulo as nat) && q >= upper ==> taken@.contains(q),
        decreases upper,
    {
        match generate_prime(size, modulo, upper) {
            None => {
                return None;
            },
            Some(p) => {
                if !contains(taken, p) {
                    return Some(p);
                }
                upper = p;
            },
        }
    }
}

/// One prime for each entry of `sizes`, in order, each the pick for its size
/// with the earlier ones taken; `None` when some size is left without a prime.
pub fn select_moduli(sizes: &[usize], degree: usize) -> (r: Option<Vec<u64>>)
    ensures
        match r {
            Some(moduli) => is_selection(moduli@, sizes@, degree),
            None => selection_stuck(sizes@, degree),
        },
{
    let mut moduli: Vec<u64> = Vec::new();
    let mut k: usize = 0;
    while k < sizes.len()
        invariant
            k <= sizes.len(),
            moduli.len() == k,
            is_selection(moduli@, sizes@.take(k as int), degree),
        decreases sizes.len() - k,
    {
        match pick_prime(sizes[k], degree, &moduli) {
            None => {
                assert(stuck_after(moduli@, sizes@, degree));
                return None;
            },
            Some(p) => {
                let ghost before = moduli@;
                moduli.push(p);
                proof {
                    assert forall|j: int| 0 <= j < moduli.len() implies is_pick(
                        #[trigger] moduli@[j],
                        sizes@.take(k + 1)[j],
                        degree,
                        moduli@.take(j),
                    ) by {
                        if j < k {
                            assert(moduli@.take(j) =~= before.take(j));
                            assert(is_pick(before[j], sizes@.take(k as int)[j], degree, before.take(j)));
                        } else {
                            assert(moduli@.take(j) =~= before);
                        }
                    }
                }
                k = k + 1;
            },
        }
    }
    assert(sizes@.take(k as int) =~= sizes@);
    Some(moduli)
}

/// Every selected modulus is a prime of the bit size requested for it, and is
/// one modulo twice the ring dimension.
pub proof fn lemma_selected_primes_suit(moduli: Seq<u64>, sizes: Seq<usize>, degree: usize)
    requires
        is_selection(moduli, sizes, degree),
    ensures
        forall|k: int|
            0 <= k < moduli.len() ==> {
                &&& is_prime(#[trigger] moduli[k] as nat)
                &&& sizes[k] >= 1
                &&& pow2((sizes[k] - 1) as nat) <= moduli[k] < pow2(sizes[k] as nat)
                &&& (moduli[k] as nat) % (2 * (degree as nat)) == 1
            },
{
    assert forall|k: int| 0 <= k < moduli.len() implies {
        &&& is_prime(#[trigger] moduli[k] as nat)
        &&& sizes[k] >= 1
        &&& pow2((sizes[k] - 1) as nat) <= moduli[k] < pow2(sizes[k] as nat)
        &&& (moduli[k] as nat) % (2 * (degree as nat)) == 1
    } by {
        assert(is_pick(moduli[k], sizes[k], degree, moduli.take(k)));
        assert(has_bit_size(moduli[k], sizes[k]));
        assert(one_mod(moduli[k] as nat, ntt_factor(degree)));
    }
}

/// The selected moduli are pairwise distinct.
pub proof fn lemma_selection_distinct(moduli: Seq<u64>, sizes: Seq<usize>, degree: usize)
    requires
        is_selection(moduli, sizes, degree),
    ensures
        forall|i: int, j: int| 0 <= i < j < moduli.len() ==> moduli[i] != moduli[j],
{
    assert forall|i: int, j: int| 0 <= i < j < moduli.len() implies moduli[i] != moduli[j] by {
        assert(is_pick(moduli[j], sizes[j], degree, moduli.take(j)));
        assert(moduli.take(j)[i] == moduli[i]);
    }
}

/// A prefix of a selection is the selection for the same prefix of the sizes.
pub proof fn lemma_selection_prefix(moduli: Seq<u64>, sizes: Seq<usize>, degree: usize, n: int)
    requires
        is_selection(moduli, sizes, degree),
        0 <= n <= moduli.len(),
    ensures
        is_selection(moduli.take(n), sizes.take(n), degree),
{
    assert forall|k: int| 0 <= k < n implies is_pick(
        #[trigger] moduli.take(n)[k],
        sizes.take(n)[k],
        degree,
        moduli.take(n).take(k),
    ) by {
        assert(moduli.take(n).take(k) =~= moduli.take(k));
        assert(is_pick(moduli[k], sizes[k], degree, moduli.take(k)));
    }
}

/// Two selections for the same sizes and dimension agree on their first `n`
/// entries.
pub proof fn lemma_selections_agree(
    a: Seq<u64>,
    b: Seq<u64>,
    sizes: Seq<usize>,
    degree: usize,
    n: int,
)
    requires
        is_selection(a, sizes, degree),
        is_selection(b, sizes, degree),
        0 <= n <= sizes.len(),
    ensures
        a.take(n) == b.take(n),
    decreases n,
{
    if n == 0 {
        assert(a.take(0) =~= b.take(0));
    } else {
        lemma_selections_agree(a, b, sizes, degree, n - 1);
        assert(is_pick(a[n - 1], sizes[n - 1], degree, a.take(n - 1)));
        assert(is_pick(b[n - 1], sizes[n - 1], degree, b.take(n - 1)));
        assert(a[n - 1] == b[n - 1]);
        assert(a.take(n) =~= a.take(n - 1).push(a[n - 1]));
        assert(b.take(n) =~= b.take(n - 1).push(b[n - 1]));
    }
}

/// The moduli are a function of the sizes and the dimension: two selections
/// for the same request are the same sequence.
pub proof fn lemma_selection_unique(a: Seq<u64>, b: Seq<u64>, sizes: Seq<usize>, degree: usize)
    requires
        is_selection(a, sizes, degree),
        is_selection(b, sizes, degree),
    ensures
        a == b,
{
    lemma_selections_agree(a, b, sizes, degree, sizes.len() as int);
    assert(a.take(a.len() as int) =~= a);
    assert(b.take(b.len() as int) =~= b);
}

/// A request that runs out of primes has no selection at all.
pub proof fn lemma_stuck_excludes_selection(sizes: Seq<usize>, degree: usize)
    requires
        selection_stuck(sizes, degree),
    ensures
        forall|moduli: Seq<u64>| !is_selection(moduli, sizes, degree),
{
    let taken = choose|taken: Seq<u64>| #[trigger] stuck_after(taken, sizes, degree);
    let n = taken.len() as int;
    assert forall|moduli: Seq<u64>| !is_selection(moduli, sizes, degree) by {
        if is_selection(moduli, sizes, degree) {
            lemma_selection_prefix(moduli, sizes, degree, n);
            lemma_selection_unique(moduli.take(n), taken, sizes.take(n), degree);
            assert(is_pick(moduli[n], sizes[n], degree, moduli.take(n)));
        }
    }
}

} // verus!
