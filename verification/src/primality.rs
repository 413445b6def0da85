//! Primality testing by trial division.

use vstd::prelude::*;

verus! {

/// A number is prime when it is at least 2 and no number strictly between
/// 1 and itself divides it.
pub open spec fn is_prime_spec(n: int) -> bool {
    n >= 2 && forall|d: int| 2 <= d < n ==> #[trigger] (n % d) != 0
}

/// If `n >= 2` has no divisor in `[2, i)` and `i * i > n`, it has no divisor
/// in `[2, n)` at all: a factorisation `n == d * q` with `d >= i` forces the
/// cofactor `q` below `i`, where divisors were already ruled out.
proof fn lemma_no_divisor_above_sqrt(n: int, i: int)
    requires
        n >= 2,
        i >= 2,
        i * i > n,
        forall|d: int| 2 <= d < i ==> #[trigger] (n % d) != 0,
    ensures
        forall|d: int| 2 <= d < n ==> #[trigger] (n % d) != 0,
{
    assert forall|d: int| 2 <= d < n implies #[trigger] (n % d) != 0 by {
        if n % d == 0 && d >= i {
            let q: int = n / d;
            vstd::arithmetic::div_mod::lemma_fundamental_div_mod(n, d);
            assert(n == d * q);
            assert(q >= 2) by (nonlinear_arith)
                requires
                    n == d * q,
                    2 <= d < n,
            ;
            assert(q < i) by (nonlinear_arith)
                requires
                    n == d * q,
                    d >= i,
                    i >= 2,
                    q >= 2,
                    i * i > n,
            ;
            vstd::arithmetic::div_mod::lemma_mod_multiples_basic(d, q);
            assert(n % q == 0);
        }
    }
}

/// The set of positive divisors of `n`.
pub open spec fn divisors(n: int) -> Set<int> {
    Set::new(|d: int| 1 <= d <= n && n % d == 0)
}

/// A number is prime exactly when it has exactly two distinct positive
/// divisors, namely 1 and itself.
pub proof fn lemma_prime_iff_two_divisors(n: int)
    ensures
        is_prime_spec(n) <==> (divisors(n).finite() && divisors(n).len() == 2),
        is_prime_spec(n) ==> divisors(n) =~= set![1, n],
{
    if n >= 1 {
        vstd::arithmetic::div_mod::lemma_mod_self_0(n);
        assert(divisors(n).contains(1));
        assert(divisors(n).contains(n));
    }
    if is_prime_spec(n) {
        assert forall|d: int| divisors(n).contains(d) implies set![1, n].contains(d) by {
            if 2 <= d && d < n {
                assert(n % d != 0);
            }
        }
        assert(divisors(n) =~= set![1, n]);
        assert(set![1, n].len() == 2);
    } else {
        if n <= 0 {
            assert(divisors(n) =~= Set::<int>::empty());
        } else if n == 1 {
            assert(divisors(n) =~= set![1int]);
        } else {
            let d: int = choose|d: int| 2 <= d < n && #[trigger] (n % d) == 0;
            assert(2 <= d < n && n % d == 0);
            assert(divisors(n).contains(d));
            if divisors(n).finite() {
                vstd::set_lib::lemma_len_subset(set![1, d, n], divisors(n));
                assert(set![1, d, n].len() == 3);
            }
        }
    }
}

/// Decides whether `n` is prime by trial division: `n <= 1` is rejected
/// outright, and otherwise every candidate divisor `i` with `i * i <= n`
/// is tried in turn. The square is taken in 64 bits so the test cannot
/// overflow even for candidates near the top of the 32-bit range.
pub fn is_prime(n: u32) -> (r: bool)
    ensures
        r == is_prime_spec(n as int),
        n <= 1 ==> r == false,
{
    if n <= 1 {
        return false;
    }
    let mut i: u32 = 2;
    loop
        invariant
            2 <= i <= 0x10000,
            n >= 2,
            forall|d: int| 2 <= d < i ==> #[trigger] ((n as int) % d) != 0,
        ensures
            (i as int) * (i as int) > n as int,
            forall|d: int| 2 <= d < i ==> #[trigger] ((n as int) % d) != 0,
        decreases 0x10001 - i as int,
    {
        proof {
            assert((i as int) * (i as int) <= 0x10000 * 0x10000) by (nonlinear_arith)
                requires
                    0 <= i as int <= 0x10000,
            ;
        }
        let ii: u64 = (i as u64) * (i as u64);
        if ii > n as u64 {
            break;
        }
        if n % i == 0 {
            proof {
                assert((i as int) < n as int) by (nonlinear_arith)
                    requires
                        2 <= i as int,
                        (i as int) * (i as int) <= n as int,
                ;
            }
            return false;
        }
        proof {
            assert((i as int) < 0x10000) by (nonlinear_arith)
                requires
                    2 <= i as int,
                    (i as int) * (i as int) <= n as int,
                    (n as int) < 0x1_0000_0000,
            ;
        }
        i = i + 1;
    }
    proof {
        lemma_no_divisor_above_sqrt(n as int, i as int);
    }
    true
}

} // verus!
