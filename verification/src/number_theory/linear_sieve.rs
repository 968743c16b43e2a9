use crate::order::{lemma_std_orders_u32, std_orders_u32};
use std::collections::BTreeSet;
use vstd::arithmetic::div_mod::{lemma_fundamental_div_mod, lemma_mod_multiples_basic};
use vstd::prelude::*;

verus! {

/// `n` is at least two and no number from two up to `n` divides it.
pub open spec fn is_prime(n: int) -> bool {
    n >= 2 && forall|d: int| 2 <= d < n ==> #[trigger] (n % d) != 0
}

/// The least number from `d` on that divides `n`, and `n` where none below
/// `n` does.
pub open spec fn least_divisor_from(n: int, d: int) -> int
    decreases n - d,
{
    if d >= n {
        n
    } else if n % d == 0 {
        d
    } else {
        least_divisor_from(n, d + 1)
    }
}

/// The least number from two on that divides `n`.
pub open spec fn least_divisor(n: int) -> int {
    least_divisor_from(n, 2)
}

/// `n` divided by its least divisor.
pub open spec fn cofactor(n: int) -> int {
    n / least_divisor(n)
}

/// The prime `p` stands at place `j` of the list.
pub open spec fn found_at(primes: Seq<u32>, j: int, p: int) -> bool {
    0 <= j < primes.len() && primes[j] == p
}

/// A product of two numbers that are at least two is no prime.
pub proof fn lemma_product_is_composite(a: int, b: int)
    requires
        a >= 2,
        b >= 2,
    ensures
        !is_prime(a * b),
        (a * b) % b == 0,
        b < a * b,
{
    assert(b < a * b) by (nonlinear_arith)
        requires
            a >= 2,
            b >= 2,
    ;
    lemma_mod_multiples_basic(a, b);
}

/// What divides a divisor divides the number.
pub proof fn lemma_divides_through(a: int, b: int, c: int)
    requires
        a >= 0,
        b > 0,
        c > 0,
        a % b == 0,
        b % c == 0,
    ensures
        a % c == 0,
{
    lemma_fundamental_div_mod(a, b);
    lemma_fundamental_div_mod(b, c);
    let x = a / b;
    let y = b / c;
    assert(a == (x * y) * c) by (nonlinear_arith)
        requires
            a == b * x,
            b == c * y,
    ;
    lemma_mod_multiples_basic(x * y, c);
}

/// The search for a divisor finds the least one.
pub proof fn lemma_least_divisor_from(n: int, d: int)
    requires
        2 <= d <= n,
        forall|e: int| 2 <= e < d ==> #[trigger] (n % e) != 0,
    ensures
        d <= least_divisor_from(n, d) <= n,
        n % least_divisor_from(n, d) == 0,
        forall|e: int| 2 <= e < least_divisor_from(n, d) ==> #[trigger] (n % e) != 0,
    decreases n - d,
{
    if d >= n {
        assert(n % n == 0) by (nonlinear_arith)
            requires
                n >= 2,
        ;
    } else if n % d != 0 {
        lemma_least_divisor_from(n, d + 1);
    }
}

/// The least divisor divides the number, nothing smaller does, and it is a
/// prime; it is the number itself exactly where the number is a prime.
pub proof fn lemma_least_divisor(n: int)
    requires
        n >= 2,
    ensures
        2 <= least_divisor(n) <= n,
        n % least_divisor(n) == 0,
        forall|e: int| 2 <= e < least_divisor(n) ==> #[trigger] (n % e) != 0,
        is_prime(least_divisor(n)),
        is_prime(n) <==> least_divisor(n) == n,
        n == least_divisor(n) * cofactor(n),
        !is_prime(n) ==> 2 <= cofactor(n) < n,
{
    lemma_least_divisor_from(n, 2);
    let p = least_divisor(n);
    assert forall|e: int| 2 <= e < p implies #[trigger] (p % e) != 0 by {
        if p % e == 0 {
            lemma_divides_through(n, p, e);
        }
    }
    lemma_fundamental_div_mod(n, p);
    let q = n / p;
    if p < n {
        assert(2 <= q < n) by (nonlinear_arith)
            requires
                n == p * q,
                2 <= p < n,
        ;
    }
}

/// The least divisor of a number is no more than that of its cofactor.
pub proof fn lemma_cofactor_divisor(c: int)
    requires
        c >= 2,
        !is_prime(c),
    ensures
        least_divisor(c) <= least_divisor(cofactor(c)) <= cofactor(c),
{
    lemma_least_divisor(c);
    let p = least_divisor(c);
    let i = cofactor(c);
    lemma_least_divisor(i);
    let q = least_divisor(i);
    assert(c == i * p) by (nonlinear_arith)
        requires
            c == p * i,
    ;
    lemma_mod_multiples_basic(p, i);
    assert(c % i == 0) by {
        assert(c == p * i);
    }
    lemma_divides_through(c, i, q);
}

/// The primes up to `to`, in ascending order, found by marking each
/// composite number once, as the product of its least divisor and the rest.
pub fn linear_sieve(to: u32) -> (primes: Vec<u32>)
    ensures
        forall|i: int, j: int| 0 <= i < j < primes@.len() ==> primes@[i] < primes@[j],
        forall|i: int| 0 <= i < primes@.len() ==> #[trigger] primes@[i] <= to && is_prime(primes@[i] as int),
        forall|p: int| 2 <= p <= to && is_prime(p) ==> exists|i: int|
            0 <= i < primes@.len() && #[trigger] primes@[i] == p,
{
    broadcast use vstd::std_specs::btree::group_btree_axioms;

    proof {
        lemma_std_orders_u32();
    }
    let mut composites: BTreeSet<u32> = BTreeSet::new();
    let mut primes: Vec<u32> = Vec::new();
    let mut i: u64 = 2;
    proof {
        assert forall|c: int| 2 <= c <= to && !is_prime(c) && cofactor(c) < 2 implies #[trigger] composites@.contains(
            c as u32,
        ) by {
            lemma_least_divisor(c);
        }
    }
    while i <= to as u64
        invariant
            2 <= i <= to + 1 || (i == 2 && to < 2),
            std_orders_u32(),
            forall|m: u32| #[trigger] composites@.contains(m) ==> !is_prime(m as int),
            forall|c: int|
                2 <= c <= to && !is_prime(c) && cofactor(c) < i ==> #[trigger] composites@.contains(
                    c as u32,
                ),
            forall|a: int, b: int| 0 <= a < b < primes@.len() ==> primes@[a] < primes@[b],
            forall|a: int| 0 <= a < primes@.len() ==> #[trigger] primes@[a] < i && is_prime(primes@[a] as int),
            forall|p: int| 2 <= p < i && is_prime(p) ==> exists|a: int|
                0 <= a < primes@.len() && #[trigger] primes@[a] == p,
        decreases to + 1 - i,
    {
        let n: u32 = i as u32;
        let ghost earlier = primes@;
        proof {
            if !is_prime(n as int) {
                lemma_least_divisor(n as int);
                assert(composites@.contains(n));
            }
        }
        if !composites.contains(&n) {
            primes.push(n);
        }
        proof {
            assert forall|p: int| 2 <= p < i + 1 && is_prime(p) implies exists|a: int|
                0 <= a < primes@.len() && #[trigger] primes@[a] == p by {
                if p < i {
                    let a = choose|a: int| 0 <= a < earlier.len() && #[trigger] earlier[a] == p;
                    assert(primes@[a] == p);
                } else {
                    assert(!composites@.contains(n));
                    assert(primes@[primes@.len() - 1] == p);
                }
            }
        }
        let mut k: usize = 0;
        let mut go: bool = true;
        while go && k < primes.len()
            invariant
                2 <= i <= to,
                n == i,
                k <= primes@.len(),
                std_orders_u32(),
                forall|m: u32| #[trigger] composites@.contains(m) ==> !is_prime(m as int),
                forall|c: int|
                    2 <= c <= to && !is_prime(c) && cofactor(c) < i ==> #[trigger] composites@.contains(
                        c as u32,
                    ),
                forall|c: int, j: int|
                    2 <= c <= to && !is_prime(c) && cofactor(c) == i && j < k && #[trigger] found_at(
                        primes@,
                        j,
                        least_divisor(c),
                    ) ==> composites@.contains(c as u32),
                go ==> forall|j: int| 0 <= j < k ==> i % (#[trigger] primes@[j] as u64) != 0,
                !go ==> forall|c: int|
                    2 <= c <= to && !is_prime(c) && cofactor(c) == i ==> #[trigger] composites@.contains(
                        c as u32,
                    ),
                forall|a: int, b: int| 0 <= a < b < primes@.len() ==> primes@[a] < primes@[b],
                forall|a: int| 0 <= a < primes@.len() ==> #[trigger] primes@[a] <= i && is_prime(primes@[a] as int),
                forall|p: int| 2 <= p <= i && is_prime(p) ==> exists|a: int|
                    0 <= a < primes@.len() && #[trigger] primes@[a] == p,
            decreases primes@.len() - k + (if go { 1int } else { 0int }),
        {
            let prime: u32 = primes[k];
            assert(i * prime <= 0xffff_ffff * 0xffff_ffff) by (nonlinear_arith)
                requires
                    0 <= i <= 0xffff_ffff,
                    0 <= prime <= 0xffff_ffff,
            ;
            let product: u64 = i * (prime as u64);
            if product > to as u64 {
                go = false;
                proof {
                    assert forall|c: int|
                        2 <= c <= to && !is_prime(c) && cofactor(c) == i implies #[trigger] composites@.contains(
                        c as u32) by {
                        lemma_least_divisor(c);
                        lemma_cofactor_divisor(c);
                        let p = least_divisor(c);
                        let j = choose|j: int| 0 <= j < primes@.len() && #[trigger] primes@[j] == p;
                        if j >= k {
                            assert(primes@[j] >= primes@[k as int]);
                            assert(i * p >= i * prime) by (nonlinear_arith)
                                requires
                                    p >= prime,
                                    i >= 0,
                            ;
                            assert(c == i * p) by (nonlinear_arith)
                                requires
                                    c == p * i,
                            ;
                        } else {
                            assert(found_at(primes@, j, p));
                        }
                    }
                }
            } else {
                proof {
                    lemma_product_is_composite(i as int, prime as int);
                }
                let ghost marked = composites@;
                composites.insert(product as u32);
                proof {
                    assert forall|c: int, j: int|
                        2 <= c <= to && !is_prime(c) && cofactor(c) == i && j < k + 1
                            && #[trigger] found_at(
                            primes@,
                            j,
                            least_divisor(c),
                        ) implies composites@.contains(c as u32) by {
                        if j < k {
                            assert(marked.contains(c as u32));
                        } else {
                            lemma_least_divisor(c);
                            assert(c == product) by (nonlinear_arith)
                                requires
                                    c == least_divisor(c) * i,
                                    least_divisor(c) == prime,
                                    product == i * prime,
                            ;
                        }
                    }
                }
                if n % prime == 0 {
                    go = false;
                    proof {
                        assert forall|c: int|
                            2 <= c <= to && !is_prime(c) && cofactor(c) == i implies #[trigger] composites@.contains(
                            c as u32) by {
                            lemma_least_divisor(c);
                            lemma_cofactor_divisor(c);
                            lemma_least_divisor(i as int);
                            let p = least_divisor(c);
                            let j = choose|j: int|
                                0 <= j < primes@.len() && #[trigger] primes@[j] == p;
                            if j > k {
                                assert(primes@[j] > primes@[k as int]);
                                assert(least_divisor(i as int) <= prime) by {
                                    if least_divisor(i as int) > prime {
                                        assert((i as int) % (prime as int) != 0);
                                    }
                                }
                            } else {
                                assert(found_at(primes@, j, p));
                            }
                        }
                    }
                }
                k += 1;
            }
        }
        proof {
            if go {
                assert forall|c: int|
                    2 <= c <= to && !is_prime(c) && cofactor(c) == i implies #[trigger] composites@.contains(
                    c as u32) by {
                    lemma_least_divisor(c);
                    lemma_cofactor_divisor(c);
                    let p = least_divisor(c);
                    let j = choose|j: int| 0 <= j < primes@.len() && #[trigger] primes@[j] == p;
                    assert(found_at(primes@, j, p));
                }
            }
        }
        i += 1;
    }
    primes
}

} // verus!
