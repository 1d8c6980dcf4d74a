use vstd::prelude::*;
use vstd::arithmetic::div_mod::{lemma_fundamental_div_mod, lemma_mod_multiples_basic, lemma_mod_self_0};
use vstd::arithmetic::mul::lemma_mul_is_associative;
use crate::bitset::strictly_increasing;

verus! {

/// Base primes are the primes below this bound: divisors enough for every
/// candidate below its square, the whole 32-bit candidate space.
pub const BASE_PRIME_BOUND: u32 = 0x1_0000;

/// `d` divides `n` evenly.
pub open spec fn divides(d: int, n: int) -> bool {
    n % d == 0
}

/// `n` has no divisor other than 1 and itself.
pub open spec fn is_prime(n: int) -> bool {
    n >= 2 && forall|d: int| 2 <= d < n ==> !#[trigger] divides(d, n)
}

/// No integer from 2 up to the square root of `n` divides `n`.
pub open spec fn survives_trial_division(n: int) -> bool {
    forall|d: int| 2 <= d && d * d <= n ==> !#[trigger] divides(d, n)
}

/// The primes `p` with `lo <= p < hi`, in increasing order.
pub open spec fn primes_between(lo: int, hi: int) -> Seq<u32>
    decreases hi - lo,
{
    if hi <= lo {
        Seq::empty()
    } else {
        let before = primes_between(lo, hi - 1);
        if is_prime(hi - 1) {
            before.push((hi - 1) as u32)
        } else {
            before
        }
    }
}

/// Zero entries that bring a sequence of `len` entries to a multiple of four.
pub open spec fn padding_len(len: nat) -> nat {
    ((4 - len % 4) % 4) as nat
}

/// The sequence followed by zeros up to the next multiple of four.
pub open spec fn padded(s: Seq<u32>) -> Seq<u32> {
    s + Seq::new(padding_len(s.len()), |i: int| 0u32)
}

proof fn lemma_cofactor(n: int, d: int)
    by (nonlinear_arith)
    requires
        2 <= d < n,
        n % d == 0,
    ensures
        2 <= n / d < n,
        d * (n / d) == n,
        n % (n / d) == 0,
        d * d <= n || (n / d) * (n / d) <= n,
{
    let e = n / d;
    assert(n == d * e + n % d);
    assert(e >= 2) by {
        if e <= 1 {
            assert(d * e <= d);
        }
    }
    assert(e < n);
    assert(n == e * d + 0);
    assert(n % e == 0) by {
        assert(n == e * d);
        assert((e * d) % e == 0);
    }
    if d <= e {
        assert(d * d <= d * e);
    } else {
        assert(e * e <= d * e);
    }
}

proof fn lemma_square_exceeds(n: int, d: int)
    by (nonlinear_arith)
    requires
        n >= 0,
        d >= 1,
        d > n / d,
    ensures
        d * d > n,
{
    assert(n == d * (n / d) + n % d);
    assert(n % d < d);
    assert(d * (n / d + 1) <= d * d);
}

proof fn lemma_square_monotonic(a: int, b: int)
    by (nonlinear_arith)
    requires
        0 <= a <= b,
    ensures
        a * a <= b * b,
{
}

/// The least divisor of `n` from `k` on; `n` itself when none is smaller.
pub open spec fn least_divisor_from(n: int, k: int) -> int
    decreases n - k,
{
    if k >= n {
        n
    } else if divides(k, n) {
        k
    } else {
        least_divisor_from(n, k + 1)
    }
}

proof fn lemma_least_divisor_from(n: int, k: int)
    requires
        2 <= k <= n,
    ensures
        k <= least_divisor_from(n, k) <= n,
        divides(least_divisor_from(n, k), n),
        forall|e: int| k <= e < least_divisor_from(n, k) ==> !#[trigger] divides(e, n),
    decreases n - k,
{
    if k >= n {
        lemma_mod_self_0(n);
    } else if !divides(k, n) {
        lemma_least_divisor_from(n, k + 1);
    }
}

proof fn lemma_divides_transitive(e: int, q: int, c: int)
    requires
        e > 0,
        q > 0,
        divides(e, q),
        divides(q, c),
    ensures
        divides(e, c),
{
    lemma_fundamental_div_mod(q, e);
    lemma_fundamental_div_mod(c, q);
    let a = q / e;
    let b = c / q;
    assert(c == (e * a) * b);
    lemma_mul_is_associative(e, a, b);
    assert(c == (a * b) * e) by (nonlinear_arith)
        requires
            c == e * (a * b),
    ;
    lemma_mod_multiples_basic(a * b, e);
}

/// The least divisor of a composite `c` from 2 on is a prime whose square
/// does not exceed `c`.
pub proof fn lemma_composite_has_small_prime_factor(c: int) -> (q: int)
    requires
        c >= 2,
        !is_prime(c),
    ensures
        q == least_divisor_from(c, 2),
        is_prime(q),
        q * q <= c,
        divides(q, c),
{
    let q = least_divisor_from(c, 2);
    lemma_least_divisor_from(c, 2);
    let d = choose|d: int| 2 <= d < c && #[trigger] divides(d, c);
    assert(q <= d);
    assert forall|e: int| 2 <= e < q implies !#[trigger] divides(e, q) by {
        if divides(e, q) {
            lemma_divides_transitive(e, q, c);
        }
    }
    lemma_cofactor(c, q);
    let f = c / q;
    assert(divides(f, c));
    assert(f >= q);
    assert(q * q <= c) by (nonlinear_arith)
        requires
            q * f == c,
            f >= q,
            q >= 2,
    ;
    q
}

/// For `n` from 2 on, trial division up to the square root decides
/// primality.
pub proof fn lemma_trial_division_decides(n: int)
    requires
        n >= 2,
    ensures
        survives_trial_division(n) <==> is_prime(n),
{
    if is_prime(n) {
        assert forall|d: int| 2 <= d && d * d <= n implies !#[trigger] divides(d, n) by {
            assert(d < n) by (nonlinear_arith)
                requires
                    2 <= d,
                    d * d <= n,
            ;
        }
    }
    if survives_trial_division(n) {
        assert forall|d: int| 2 <= d < n implies !#[trigger] divides(d, n) by {
            if divides(d, n) {
                lemma_cofactor(n, d);
                let e = n / d;
                if d * d <= n {
                    assert(divides(d, n));
                } else {
                    assert(divides(e, n));
                }
            }
        }
    }
}

/// What the sequence of primes of a range holds, and in which order.
pub proof fn lemma_primes_between(lo: int, hi: int)
    requires
        0 <= lo,
        hi <= 0x1_0000_0000,
    ensures
        strictly_increasing(primes_between(lo, hi)),
        primes_between(lo, hi).len() <= if hi >= lo {
            hi - lo
        } else {
            0
        },
        forall|v: u32| #[trigger]
            primes_between(lo, hi).contains(v) <==> (lo <= v < hi && is_prime(v as int)),
    decreases hi - lo,
{
    let now = primes_between(lo, hi);
    if hi <= lo {
        assert forall|v: u32| #[trigger] now.contains(v) <==> (lo <= v < hi && is_prime(v as int)) by {}
    } else {
        let before = primes_between(lo, hi - 1);
        lemma_primes_between(lo, hi - 1);
        let top = (hi - 1) as u32;
        assert forall|i: int| 0 <= i < before.len() implies before[i] < top by {
            assert(before.contains(before[i]));
        }
        assert forall|v: u32| #[trigger] now.contains(v) <==> (lo <= v < hi && is_prime(v as int)) by {
            if is_prime(hi - 1) {
                assert(now == before.push(top));
                if now.contains(v) {
                    let i = choose|i: int| 0 <= i < now.len() && now[i] == v;
                    if i < before.len() {
                        assert(before[i] == v);
                        assert(before.contains(v));
                    }
                }
                if lo <= v < hi && is_prime(v as int) {
                    if v == top {
                        assert(now[before.len() as int] == v);
                    } else {
                        assert(before.contains(v));
                        let i = choose|i: int| 0 <= i < before.len() && before[i] == v;
                        assert(now[i] == v);
                    }
                }
            } else {
                assert(now == before);
            }
        }
    }
}

/// The primes of adjoining ranges, one after the other, are the primes of
/// the whole range.
pub proof fn lemma_primes_between_split(lo: int, mid: int, hi: int)
    requires
        lo <= mid <= hi,
    ensures
        primes_between(lo, mid) + primes_between(mid, hi) == primes_between(lo, hi),
    decreases hi - mid,
{
    if hi == mid {
        assert(primes_between(mid, hi) == Seq::<u32>::empty());
        assert(primes_between(lo, mid) + Seq::<u32>::empty() == primes_between(lo, mid));
    } else {
        lemma_primes_between_split(lo, mid, hi - 1);
        let left = primes_between(lo, mid);
        let right = primes_between(mid, hi - 1);
        if is_prime(hi - 1) {
            assert(left + right.push((hi - 1) as u32) == (left + right).push((hi - 1) as u32));
        }
    }
}

/// A range without a prime has an empty sequence of primes.
pub proof fn lemma_primes_between_empty(lo: int, hi: int)
    requires
        forall|v: int| lo <= v < hi ==> !is_prime(v),
    ensures
        primes_between(lo, hi) == Seq::<u32>::empty(),
    decreases hi - lo,
{
    if hi > lo {
        lemma_primes_between_empty(lo, hi - 1);
    }
}

/// Below 2 there is no prime.
pub proof fn lemma_no_primes_below_two(lo: int, hi: int)
    requires
        hi <= 2,
    ensures
        primes_between(lo, hi) == Seq::<u32>::empty(),
    decreases hi - lo,
{
    if hi > lo {
        lemma_no_primes_below_two(lo, hi - 1);
    }
}

/// Decides primality by trial division: `n` is prime when no integer from 2
/// up to its square root divides it.
pub fn is_prime_by_trial_division(n: u32) -> (prime: bool)
    ensures
        prime == is_prime(n as int),
        n >= 2 ==> prime == survives_trial_division(n as int),
{
    if n < 2 {
        return false;
    }
    proof {
        lemma_trial_division_decides(n as int);
    }
    let mut d: u32 = 2;
    while d <= n / d
        invariant
            2 <= d <= n,
            survives_trial_division(n as int) <==> is_prime(n as int),
            forall|e: int| 2 <= e < d ==> !#[trigger] divides(e, n as int),
        decreases n - d,
    {
        if n % d == 0 {
            assert(divides(d as int, n as int));
            assert(d < n) by (nonlinear_arith)
                requires
                    2 <= d <= n / d,
                    n >= 2,
            ;
            return false;
        }
        assert(n / d < n) by (nonlinear_arith)
            requires
                d >= 2,
                n >= 2,
        ;
        d += 1;
    }
    proof {
        lemma_square_exceeds(n as int, d as int);
        assert forall|e: int| 2 <= e && e * e <= n implies !#[trigger] divides(e, n as int) by {
            if e >= d {
                lemma_square_monotonic(d as int, e);
            }
        }
    }
    true
}

/// Every prime below `bound`, in increasing order.
pub fn primes_below(bound: u32) -> (primes: Vec<u32>)
    ensures
        primes@ == primes_between(0, bound as int),
        strictly_increasing(primes@),
        forall|n: u32| #[trigger] primes@.contains(n) <==> (n < bound && is_prime(n as int)),
        forall|n: u32|
            2 <= n < bound ==> (#[trigger] primes@.contains(n) <==> survives_trial_division(
                n as int,
            )),
{
    let mut primes: Vec<u32> = Vec::new();
    proof {
        lemma_no_primes_below_two(0, 2);
        if bound < 2 {
            lemma_no_primes_below_two(0, bound as int);
        }
    }
    let mut n: u32 = 2;
    while n < bound
        invariant
            2 <= n,
            n <= bound || bound < 2,
            primes@ == primes_between(0, if bound < 2 {
                bound as int
            } else {
                n as int
            }),
        decreases bound - n,
    {
        if is_prime_by_trial_division(n) {
            primes.push(n);
        }
        n += 1;
    }
    proof {
        lemma_primes_between(0, bound as int);
        assert forall|n: u32| 2 <= n < bound implies (#[trigger] primes@.contains(n)
            <==> survives_trial_division(n as int)) by {
            lemma_trial_division_decides(n as int);
        }
    }
    primes
}

/// The base prime set: every prime below 2^16, in increasing order.
pub fn base_primes() -> (primes: Vec<u32>)
    ensures
        primes@ == primes_between(0, BASE_PRIME_BOUND as int),
        strictly_increasing(primes@),
        forall|n: u32|
            2 <= n < BASE_PRIME_BOUND ==> (#[trigger] primes@.contains(n)
                <==> survives_trial_division(n as int)),
        forall|n: u32| #[trigger]
            primes@.contains(n) <==> (n < BASE_PRIME_BOUND && is_prime(n as int)),
{
    primes_below(BASE_PRIME_BOUND)
}

/// Lays the primes out as whole records of four entries: the primes in their
/// order, then as many zero entries as bring the length to a multiple of
/// four. A zero entry is padding and never a divisor.
pub fn pad_to_vec4(primes: &[u32]) -> (records: Vec<u32>)
    ensures
        records@ == padded(primes@),
        records@.len() % 4 == 0,
        primes@.len() <= records@.len() < primes@.len() + 4,
{
    let mut records: Vec<u32> = Vec::new();
    let mut i: usize = 0;
    while i < primes.len()
        invariant
            i <= primes@.len(),
            records@ == primes@.take(i as int),
        decreases primes@.len() - i,
    {
        records.push(primes[i]);
        assert(primes@.take(i + 1) == primes@.take(i as int).push(primes@[i as int]));
        i += 1;
    }
    assert(primes@.take(i as int) == primes@);
    let ghost len = primes@.len();
    while records.len() % 4 != 0
        invariant
            len == primes@.len(),
            len <= records@.len() <= len + padding_len(len),
            records@ == primes@ + Seq::new((records@.len() - len) as nat, |i: int| 0u32),
        decreases len + padding_len(len) - records@.len(),
    {
        records.push(0);
        assert(records@ == primes@ + Seq::new((records@.len() - len) as nat, |i: int| 0u32));
    }
    assert(records@.len() - len == padding_len(len));
    records
}

} // verus!
