//! A verified Sieve of Eratosthenes, stepped one candidate at a time so that
//! the caller can interleave advisory progress reporting between steps.

use vstd::arithmetic::div_mod::lemma_fundamental_div_mod;
use vstd::arithmetic::div_mod::lemma_mod_multiples_basic;
use vstd::prelude::*;

use crate::is_prime;
use crate::parse::parse_spec;

verus! {

/// `i` has a proper divisor that is at least 2 and below `p`.
pub open spec fn divisor_below(i: int, p: int) -> bool {
    exists|q: int| 2 <= q < p && q < i && #[trigger] (i % q) == 0
}

/// With integer division, `p <= b / p` says exactly that `p * p <= b`.
proof fn lemma_square_vs_div(p: int, b: int) by (nonlinear_arith)
    requires
        1 <= p,
        0 <= b,
    ensures
        (p <= b / p) <==> (p * p <= b),
{
}

/// Divisibility is transitive: a divisor of `p` divides every multiple of `p`.
proof fn lemma_divides_transitive(i: int, p: int, q: int)
    requires
        1 <= q,
        1 <= p,
        0 <= i,
        p % q == 0,
        i % p == 0,
    ensures
        i % q == 0,
{
    lemma_fundamental_div_mod(p, q);
    lemma_fundamental_div_mod(i, p);
    let a = p / q;
    let b = i / p;
    assert(i == (b * a) * q) by (nonlinear_arith)
        requires
            p == q * a,
            i == p * b,
    ;
    lemma_mod_multiples_basic(b * a, q);
}

/// Strictly between a multiple of `p` and the next one, nothing is divisible
/// by `p`.
proof fn lemma_between_multiples(i: int, m: int, p: int) by (nonlinear_arith)
    requires
        1 <= p,
        0 <= m,
        m % p == 0,
        m < i,
        i < m + p,
    ensures
        i % p != 0,
{
}

/// A multiple of `p` that lies strictly between `p` and `p * p` already has a
/// proper divisor below `p`: its cofactor.
proof fn lemma_small_multiple_has_divisor(i: int, p: int)
    requires
        2 <= p,
        p < i,
        i < p * p,
        i % p == 0,
    ensures
        divisor_below(i, p),
{
    lemma_fundamental_div_mod(i, p);
    let q = i / p;
    assert(2 <= q && q < p && q < i) by (nonlinear_arith)
        requires
            i == p * q,
            2 <= p,
            p < i,
            i < p * p,
    ;
    lemma_mod_multiples_basic(p, q);
    assert(i % q == 0);
}

/// A composite number has a divisor no larger than its square root: of a
/// factorisation into two proper factors, the smaller one qualifies.
proof fn lemma_composite_has_small_divisor(i: int)
    requires
        2 <= i,
        !is_prime(i),
    ensures
        exists|d: int| 2 <= d && d < i && #[trigger] (i % d) == 0 && d * d <= i,
{
    let d0 = choose|d: int| 2 <= d < i && #[trigger] (i % d) == 0;
    assert(2 <= d0 < i && i % d0 == 0);
    lemma_fundamental_div_mod(i, d0);
    let e = i / d0;
    assert(2 <= e && e < i) by (nonlinear_arith)
        requires
            i == d0 * e,
            2 <= d0,
            d0 < i,
            2 <= i,
    ;
    lemma_mod_multiples_basic(d0, e);
    assert(i % e == 0);
    if d0 * d0 <= i {
        assert(2 <= d0 && d0 < i && i % d0 == 0 && d0 * d0 <= i);
    } else {
        assert(e * e <= i) by (nonlinear_arith)
            requires
                i == d0 * e,
                i < d0 * d0,
                2 <= d0,
                2 <= e,
        ;
        assert(2 <= e && e < i && i % e == 0 && e * e <= i);
    }
}

/// The state of a sieve run over `0..=bound`: a primality table and the next
/// candidate to process. One `step` eliminates the multiples of one
/// candidate, so a caller may report progress between steps.
pub struct Sieve {
    /// Upper bound of the searched range, inclusive.
    pub bound: usize,
    /// The next candidate whose multiples are to be marked.
    pub p: usize,
    /// `table[i]` records whether `i` is still considered prime.
    pub table: Vec<bool>,
}

impl Sieve {
    /// The table is exactly the numbers with no proper divisor below the
    /// current candidate: the sieve's running invariant.
    pub open spec fn wf(&self) -> bool {
        &&& 1 < self.bound < usize::MAX
        &&& 2 <= self.p <= self.bound
        &&& self.table@.len() == self.bound + 1
        &&& forall|i: int|
            0 <= i <= self.bound ==> #[trigger] self.table@[i] == (i >= 2 && !divisor_below(
                i,
                self.p as int,
            ))
    }

    /// All candidates up to the square root of the bound have been processed.
    pub open spec fn done(&self) -> bool {
        self.p * self.p > self.bound
    }

    /// A fresh table over `0..=bound`: 0 and 1 marked out, everything else
    /// still in, the first candidate being 2.
    pub fn new(bound: usize) -> (s: Sieve)
        requires
            1 < bound < usize::MAX,
        ensures
            s.wf(),
            s.bound == bound,
            s.p == 2,
    {
        let mut table: Vec<bool> = Vec::new();
        let mut idx: usize = 0;
        while idx <= bound
            invariant
                bound < usize::MAX,
                idx <= bound + 1,
                table@.len() == idx,
                forall|i: int| 0 <= i < idx ==> table@[i] == (i >= 2),
            decreases bound + 1 - idx,
        {
            table.push(idx >= 2);
            idx = idx + 1;
        }
        Sieve { bound, p: 2, table }
    }

    /// Whether every needed candidate has been processed, decided by the
    /// division `p <= bound / p`.
    pub fn is_done(&self) -> (r: bool)
        requires
            self.wf(),
        ensures
            r == self.done(),
    {
        proof {
            lemma_square_vs_div(self.p as int, self.bound as int);
        }
        self.p > self.bound / self.p
    }

    /// The candidate the next `step` will process; it never lies beyond the
    /// bound, so a progress line built from it cannot overshoot.
    pub fn current_candidate(&self) -> (r: usize)
        requires
            self.wf(),
        ensures
            r == self.p,
            2 <= r <= self.bound,
    {
        self.p
    }

    /// Process one candidate: if it is still in the table, mark all its
    /// multiples from its square upward as composite; then move on.
    pub fn step(&mut self)
        requires
            old(self).wf(),
            !old(self).done(),
        ensures
            final(self).wf(),
            final(self).bound == old(self).bound,
            final(self).p == old(self).p + 1,
    {
        let p = self.p;
        let bound = self.bound;
        assert(p * p <= bound);
        assert(2 * p <= p * p) by (nonlinear_arith)
            requires
                2 <= p,
        ;
        if self.table[p] {
            assert(!divisor_below(p as int, p as int));
            let mut m: usize = p * p;
            proof {
                lemma_mod_multiples_basic(p as int, p as int);
            }
            while m <= bound
                invariant_except_break
                    p * p <= m <= bound,
                    (m as int) % (p as int) == 0,
                    forall|i: int|
                        0 <= i <= bound ==> #[trigger] self.table@[i] == (i >= 2 && !divisor_below(
                            i,
                            p as int,
                        ) && !(p * p <= i < m && i % (p as int) == 0)),
                invariant
                    self.p == p,
                    self.bound == bound,
                    2 <= p,
                    2 * p <= p * p,
                    p * p <= bound < usize::MAX,
                    self.table@.len() == bound + 1,
                ensures
                    self.p == p,
                    self.bound == bound,
                    self.table@.len() == bound + 1,
                    forall|i: int|
                        0 <= i <= bound ==> #[trigger] self.table@[i] == (i >= 2 && !divisor_below(
                            i,
                            p as int,
                        ) && !(p * p <= i <= bound && i % (p as int) == 0)),
                decreases bound - m,
            {
                self.table.set(m, false);
                proof {
                    assert(m >= 2);
                    assert((m as int) % (p as int) == 0);
                    assert forall|i: int|
                        0 <= i <= bound implies #[trigger] self.table@[i] == (i >= 2 && !divisor_below(
                        i,
                        p as int,
                    ) && !(p * p <= i < m + p && i % (p as int) == 0)) by {
                        if i != m && m < i < m + p {
                            lemma_between_multiples(i, m as int, p as int);
                        }
                    }
                }
                if bound - m < p {
                    proof {
                        assert forall|i: int|
                            0 <= i <= bound implies #[trigger] self.table@[i] == (i >= 2 && !divisor_below(
                            i,
                            p as int,
                        ) && !(p * p <= i <= bound && i % (p as int) == 0)) by {
                            assert(bound < m + p);
                        }
                    }
                    break ;
                }
                proof {
                    vstd::arithmetic::div_mod::lemma_mod_add_multiples_vanish(
                        m as int,
                        p as int,
                    );
                }
                m = m + p;
            }
            proof {
                self.transition(p as int, bound as int, true);
            }
        } else {
            assert(divisor_below(p as int, p as int));
            proof {
                self.transition(p as int, bound as int, false);
            }
        }
        self.p = p + 1;
    }

    /// After the multiples of candidate `p` are gone from the table (or were
    /// never there, `p` itself being marked out), the table matches the
    /// invariant for candidate `p + 1`.
    proof fn transition(&self, p: int, bound: int, p_in_table: bool)
        requires
            2 <= p,
            p * p <= bound,
            self.table@.len() == bound + 1,
            p_in_table ==> !divisor_below(p, p) && forall|i: int|
                0 <= i <= bound ==> #[trigger] self.table@[i] == (i >= 2 && !divisor_below(i, p) && !(p * p
                    <= i <= bound && i % p == 0)),
            !p_in_table ==> divisor_below(p, p) && forall|i: int|
                0 <= i <= bound ==> #[trigger] self.table@[i] == (i >= 2 && !divisor_below(i, p)),
        ensures
            forall|i: int|
                0 <= i <= bound ==> #[trigger] self.table@[i] == (i >= 2 && !divisor_below(i, p + 1)),
    {
        assert(p < p * p) by (nonlinear_arith)
            requires
                2 <= p,
        ;
        assert forall|i: int|
            0 <= i <= bound implies #[trigger] self.table@[i] == (i >= 2 && !divisor_below(i, p + 1)) by {
            if i >= 2 {
                if divisor_below(i, p) {
                    let q = choose|q: int| 2 <= q < p && q < i && #[trigger] (i % q) == 0;
                    assert(2 <= q < p + 1 && q < i && i % q == 0);
                    assert(divisor_below(i, p + 1));
                } else {
                    if divisor_below(i, p + 1) {
                        let q = choose|q: int| 2 <= q < p + 1 && q < i && #[trigger] (i % q) == 0;
                        assert(q == p);
                        // i is a proper multiple of p
                        if p_in_table {
                            if i < p * p {
                                lemma_small_multiple_has_divisor(i, p);
                                assert(false);
                            }
                            assert(!self.table@[i]);
                        } else {
                            let q0 = choose|q0: int|
                                2 <= q0 < p && q0 < p && #[trigger] (p % q0) == 0;
                            lemma_divides_transitive(i, p, q0);
                            assert(2 <= q0 < p && q0 < i && i % q0 == 0);
                            assert(divisor_below(i, p));
                            assert(false);
                        }
                    } else {
                        if p_in_table && p * p <= i <= bound && i % p == 0 {
                            assert(2 <= p < p + 1 && p < i && i % p == 0);
                            assert(divisor_below(i, p + 1));
                            assert(false);
                        }
                        assert(self.table@[i]);
                    }
                }
            }
        }
    }
    /// Once every candidate up to the square root is processed, the table is
    /// exactly the primality predicate.
    proof fn lemma_table_final(&self)
        requires
            self.wf(),
            self.done(),
        ensures
            forall|i: int| 0 <= i <= self.bound ==> #[trigger] self.table@[i] == is_prime(i),
    {
        let p = self.p as int;
        let bound = self.bound as int;
        assert forall|i: int| 0 <= i <= bound implies #[trigger] self.table@[i] == is_prime(i) by {
            if self.table@[i] {
                if !is_prime(i) {
                    lemma_composite_has_small_divisor(i);
                    let d = choose|d: int|
                        2 <= d && d < i && #[trigger] (i % d) == 0 && d * d <= i;
                    assert(d < p) by (nonlinear_arith)
                        requires
                            d * d <= bound,
                            p * p > bound,
                            0 <= d,
                            0 <= p,
                    ;
                    assert(divisor_below(i, p));
                    assert(false);
                }
            } else {
                if i >= 2 {
                    let q = choose|q: int| 2 <= q < p && q < i && #[trigger] (i % q) == 0;
                    assert(!is_prime(i));
                }
            }
        }
    }

    /// The primes found, in ascending order: every entry is a prime up to the
    /// bound, and every such prime is an entry.
    pub fn primes(&self) -> (r: Vec<usize>)
        requires
            self.wf(),
            self.done(),
        ensures
            forall|k1: int, k2: int| 0 <= k1 < k2 < r@.len() ==> r@[k1] < r@[k2],
            forall|k: int|
                0 <= k < r@.len() ==> 2 <= #[trigger] r@[k] <= self.bound && is_prime(
                    r@[k] as int,
                ),
            forall|n: int|
                2 <= n <= self.bound && is_prime(n) ==> exists|k: int|
                    0 <= k < r@.len() && r@[k] == n,
    {
        proof {
            self.lemma_table_final();
        }
        let bound = self.bound;
        let mut r: Vec<usize> = Vec::new();
        let mut num: usize = 0;
        while num <= bound
            invariant
                bound == self.bound,
                bound < usize::MAX,
                self.table@.len() == bound + 1,
                num <= bound + 1,
                forall|i: int| 0 <= i <= bound ==> #[trigger] self.table@[i] == is_prime(i),
                forall|k: int| 0 <= k < r@.len() ==> 2 <= #[trigger] r@[k] && r@[k] < num,
                forall|k: int| 0 <= k < r@.len() ==> is_prime(#[trigger] r@[k] as int),
                forall|k1: int, k2: int| 0 <= k1 < k2 < r@.len() ==> r@[k1] < r@[k2],
                forall|n: int|
                    0 <= n < num && is_prime(n) ==> exists|k: int|
                        0 <= k < r@.len() && r@[k] == n,
            decreases bound + 1 - num,
        {
            if self.table[num] {
                let ghost old_r = r@;
                r.push(num);
                proof {
                    assert forall|n: int| 0 <= n < num + 1 && is_prime(n) implies exists|k: int|
                        0 <= k < r@.len() && r@[k] == n by {
                        if n == num {
                            assert(r@[r@.len() - 1] == num);
                        } else {
                            let k0 = choose|k: int| 0 <= k < old_r.len() && old_r[k] == n;
                            assert(r@[k0] == n);
                        }
                    }
                }
            }
            num = num + 1;
        }
        r
    }
}

/// Run a whole sieve in one call: the primes up to `bound`, ascending.
pub fn sieve_primes(bound: usize) -> (primes: Vec<usize>)
    requires
        1 < bound < usize::MAX,
    ensures
        forall|k1: int, k2: int| 0 <= k1 < k2 < primes@.len() ==> primes@[k1] < primes@[k2],
        forall|k: int|
            0 <= k < primes@.len() ==> 2 <= #[trigger] primes@[k] <= bound && is_prime(
                primes@[k] as int,
            ),
        forall|n: int|
            2 <= n <= bound && is_prime(n) ==> exists|k: int|
                0 <= k < primes@.len() && primes@[k] == n,
{
    let mut s = Sieve::new(bound);
    loop
        invariant
            s.wf(),
            s.bound == bound,
        ensures
            s.wf(),
            s.bound == bound,
            s.done(),
        decreases bound - s.p,
    {
        if s.is_done() {
            break ;
        }
        s.step();
    }
    s.primes()
}

/// Parse and validate a sieve bound as the console flow does: the trimmed
/// input must read as a decimal integer that fits the machine word and is
/// greater than 1; anything else is rejected.
pub fn parse_bound(s: &[u8]) -> (r: Option<usize>)
    ensures
        match parse_spec(s@) {
            Some(v) => r == (if 1 < v && v <= usize::MAX as u64 {
                Some(v as usize)
            } else {
                None::<usize>
            }),
            None => r is None,
        },
{
    match crate::parse::parse_u64(s) {
        Some(v) => if 1 < v && v <= usize::MAX as u64 {
            Some(v as usize)
        } else {
            None
        },
        None => None,
    }
}

} // verus!
