//! Generation of all primes up to an inclusive bound.

use vstd::prelude::*;

use crate::primality::is_prime;
use crate::primality::is_prime_spec;

verus! {

/// Holds when `s` lists exactly the primes in `[2, target]`, in strictly
/// increasing order.
pub open spec fn primes_upto(s: Seq<u32>, target: u32) -> bool {
    &&& forall|k: int, l: int| 0 <= k < l < s.len() ==> s[k] < s[l]
    &&& forall|k: int| 0 <= k < s.len() ==> is_prime_spec(#[trigger] s[k] as int) && s[k] <= target
    &&& forall|p: u32| is_prime_spec(p as int) && p <= target ==> s.contains(p)
}

/// Two strictly increasing sequences with the same members are identical.
proof fn lemma_increasing_same_members_equal(s1: Seq<u32>, s2: Seq<u32>)
    requires
        forall|k: int, l: int| 0 <= k < l < s1.len() ==> s1[k] < s1[l],
        forall|k: int, l: int| 0 <= k < l < s2.len() ==> s2[k] < s2[l],
        forall|p: u32| s1.contains(p) <==> s2.contains(p),
    ensures
        s1 == s2,
    decreases s1.len(),
{
    if s1.len() == 0 {
        if s2.len() > 0 {
            assert(s2.contains(s2[0]));
            assert(s1.contains(s2[0]));
        }
        assert(s1 =~= s2);
    } else if s2.len() == 0 {
        assert(s1.contains(s1[0]));
        assert(s2.contains(s1[0]));
    } else {
        assert(s1.contains(s1[0]));
        assert(s2.contains(s2[0]));
        let k1: int = choose|k: int| 0 <= k < s1.len() && s1[k] == s2[0];
        let k2: int = choose|k: int| 0 <= k < s2.len() && s2[k] == s1[0];
        assert(s1[k1] == s2[0] && s2[k2] == s1[0]);
        if k1 > 0 {
            assert(s1[0] < s1[k1]);
        }
        if k2 > 0 {
            assert(s2[0] < s2[k2]);
        }
        assert(s1[0] == s2[0]);
        let t1: Seq<u32> = s1.subrange(1, s1.len() as int);
        let t2: Seq<u32> = s2.subrange(1, s2.len() as int);
        assert forall|p: u32| t1.contains(p) implies t2.contains(p) by {
            let k: int = choose|k: int| 0 <= k < t1.len() && t1[k] == p;
            assert(s1[k + 1] == p);
            assert(s1[0] < p);
            assert(s1.contains(p));
            assert(s2.contains(p));
            let m: int = choose|m: int| 0 <= m < s2.len() && s2[m] == p;
            assert(m > 0);
            assert(t2[m - 1] == p);
        }
        assert forall|p: u32| t2.contains(p) implies t1.contains(p) by {
            let k: int = choose|k: int| 0 <= k < t2.len() && t2[k] == p;
            assert(s2[k + 1] == p);
            assert(s2[0] < p);
            assert(s2.contains(p));
            assert(s1.contains(p));
            let m: int = choose|m: int| 0 <= m < s1.len() && s1[m] == p;
            assert(m > 0);
            assert(t1[m - 1] == p);
        }
        lemma_increasing_same_members_equal(t1, t2);
        assert forall|k: int| 0 <= k < s1.len() implies s1[k] == s2[k] by {
            if k > 0 {
                assert(t1[k - 1] == t2[k - 1]);
            }
        }
        assert(s1 =~= s2);
    }
}

/// The generator's contract admits only one output for a given bound: any
/// two sequences that both list exactly the primes up to `target` in
/// increasing order are the same sequence.
pub proof fn lemma_primes_upto_unique(s1: Seq<u32>, s2: Seq<u32>, target: u32)
    requires
        primes_upto(s1, target),
        primes_upto(s2, target),
    ensures
        s1 == s2,
{
    assert forall|p: u32| s1.contains(p) implies s2.contains(p) by {
        let k: int = choose|k: int| 0 <= k < s1.len() && s1[k] == p;
        assert(is_prime_spec(s1[k] as int) && s1[k] <= target);
    }
    assert forall|p: u32| s2.contains(p) implies s1.contains(p) by {
        let k: int = choose|k: int| 0 <= k < s2.len() && s2[k] == p;
        assert(is_prime_spec(s2[k] as int) && s2[k] <= target);
    }
    lemma_increasing_same_members_equal(s1, s2);
}

/// Produces every prime `p` with `2 <= p <= target`, in increasing order,
/// by testing each candidate in turn. A bound below 2 yields the empty
/// sequence.
pub fn generate_primes(target: u32) -> (r: Vec<u32>)
    ensures
        primes_upto(r@, target),
        target < 2 ==> r@.len() == 0,
{
    let mut v: Vec<u32> = Vec::new();
    let mut n: u64 = 2;
    while n <= target as u64
        invariant
            2 <= n,
            forall|k: int, l: int| 0 <= k < l < v@.len() ==> v@[k] < v@[l],
            forall|k: int| 0 <= k < v@.len()
                ==> is_prime_spec(#[trigger] v@[k] as int) && 2 <= v@[k] && v@[k] <= target
                    && (v@[k] as u64) < n,
            forall|p: u32| is_prime_spec(p as int) && (p as u64) < n ==> v@.contains(p),
        decreases target as int + 1 - n as int,
    {
        let c: u32 = n as u32;
        if is_prime(c) {
            let ghost v0: Seq<u32> = v@;
            v.push(c);
            assert forall|p: u32| is_prime_spec(p as int) && (p as u64) < n + 1 implies
                v@.contains(p) by {
                if (p as u64) < n {
                    let k: int = choose|k: int| 0 <= k < v0.len() && v0[k] == p;
                    assert(v@[k] == p);
                } else {
                    assert(v@[v@.len() - 1] == p);
                }
            }
        } else {
            assert forall|p: u32| is_prime_spec(p as int) && (p as u64) < n + 1 implies
                v@.contains(p) by {
                assert(p as u64 != n);
            }
        }
        n = n + 1;
    }
    assert forall|p: u32| is_prime_spec(p as int) && p <= target implies v@.contains(p) by {
        assert((p as u64) < n);
    }
    proof {
        if target < 2 && v@.len() > 0 {
            assert(is_prime_spec(v@[0] as int));
        }
    }
    v
}

} // verus!
