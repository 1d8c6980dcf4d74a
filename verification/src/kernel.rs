use vstd::prelude::*;
use crate::bitset::{
    bit_is_set, decoded_above, flagged, lemma_bit_after_set, lemma_zero_word_is_clear,
    segment_in_range, survives,
};
use crate::plan::Plan;
use crate::primes::{
    divides, is_prime, lemma_composite_has_small_prime_factor, lemma_primes_between, padded,
    primes_between,
};

verus! {

/// The entry `p` of the base prime set proves `c` composite: it is not
/// padding, lies within the trial bound of `c`, and divides `c` evenly.
pub open spec fn strikes(p: int, c: int) -> bool {
    p != 0 && p * p <= c && c % p == 0
}

/// Some entry of the base prime set proves `c` composite.
pub open spec fn struck(c: int, base: Seq<u32>) -> bool {
    exists|i: int| 0 <= i < base.len() && strikes(#[trigger] base[i] as int, c)
}

/// What one kernel invocation must leave in the bitset: over the first
/// `width` positions, a bit is set exactly when a base prime strikes its
/// candidate. Every bit is written on every invocation, so nothing of an
/// earlier segment shows through.
pub open spec fn kernel_output(offset: int, base: Seq<u32>, words: Seq<u32>, width: int) -> bool {
    forall|k: int| 0 <= k < width ==> (#[trigger] flagged(words, k) <==> struck(offset + k, base))
}

/// The base prime set serves every candidate below `bound * bound`: it holds
/// each prime below `bound`, and nothing that would strike a prime. Zero
/// entries are padding; entries that are composite or beyond the bound do no
/// harm.
pub open spec fn is_base_prime_set(base: Seq<u32>, bound: int) -> bool {
    &&& forall|i: int| 0 <= i < base.len() ==> (#[trigger] base[i]) != 1
    &&& forall|p: u32| 2 <= p < bound && is_prime(p as int) ==> #[trigger] base.contains(p)
}

/// The least candidate that a decoded segment can hold: past the floor, and
/// not before the segment.
pub open spec fn first_kept(offset: int, floor: int) -> int {
    if offset > floor {
        offset
    } else {
        floor + 1
    }
}

/// With a base prime set that reaches the candidate's trial bound, a
/// candidate is struck exactly when it is composite.
pub proof fn lemma_struck_iff_composite(c: int, base: Seq<u32>, bound: int)
    requires
        is_base_prime_set(base, bound),
        0 <= c < bound * bound,
        0 <= bound <= 0x1_0000_0000,
    ensures
        struck(c, base) <==> (c >= 2 && !is_prime(c)),
{
    if struck(c, base) {
        let i = choose|i: int| 0 <= i < base.len() && strikes(#[trigger] base[i] as int, c);
        let p = base[i] as int;
        assert(p >= 2);
        assert(p < c && c >= 2) by (nonlinear_arith)
            requires
                p >= 2,
                p * p <= c,
        ;
        assert(divides(p, c));
    }
    if c >= 2 && !is_prime(c) {
        let q = lemma_composite_has_small_prime_factor(c);
        assert(q < bound) by (nonlinear_arith)
            requires
                q * q <= c,
                c < bound * bound,
                q >= 0,
                bound >= 0,
        ;
        assert(base.contains(q as u32));
        let i = choose|i: int| 0 <= i < base.len() && base[i] == q as u32;
        assert(strikes(base[i] as int, c));
    }
}

/// The primes below a bound, padded to whole records, are a base prime set
/// for that bound.
pub proof fn lemma_padded_primes_are_base_set(bound: int)
    requires
        0 <= bound <= 0x1_0000_0000,
    ensures
        is_base_prime_set(padded(primes_between(0, bound)), bound),
{
    let primes = primes_between(0, bound);
    let base = padded(primes);
    lemma_primes_between(0, bound);
    assert forall|i: int| 0 <= i < base.len() implies (#[trigger] base[i]) != 1 by {
        if i < primes.len() {
            assert(primes.contains(primes[i]));
        }
    }
    assert forall|p: u32| 2 <= p < bound && is_prime(p as int) implies #[trigger] base.contains(
        p,
    ) by {
        assert(primes.contains(p));
        let i = choose|i: int| 0 <= i < primes.len() && primes[i] == p;
        assert(base[i] == p);
    }
}

/// Decoding what a correct kernel left gives exactly the primes of the
/// segment that lie above the floor.
pub proof fn lemma_decoded_kernel_output(
    offset: int,
    base: Seq<u32>,
    words: Seq<u32>,
    floor: int,
    width: nat,
    bound: int,
)
    requires
        segment_in_range(offset, width as int, words.len() as int),
        kernel_output(offset, base, words, width as int),
        is_base_prime_set(base, bound),
        0 <= bound <= 0x1_0000_0000,
        offset + width <= bound * bound,
        floor >= 1,
    ensures
        decoded_above(offset, words, floor, width) == primes_between(
            first_kept(offset, floor),
            offset + width,
        ),
    decreases width,
{
    let lo = first_kept(offset, floor);
    if width == 0 {
        assert(primes_between(lo, offset + width) == Seq::<u32>::empty());
    } else {
        lemma_decoded_kernel_output(offset, base, words, floor, (width - 1) as nat, bound);
        let c = offset + width - 1;
        lemma_struck_iff_composite(c, base, bound);
        assert(flagged(words, width - 1) <==> struck(c, base));
        assert(survives(offset, words, floor, width - 1) <==> (is_prime(c) && c > floor));
        if c <= floor {
            assert(primes_between(lo, offset + width) == Seq::<u32>::empty());
            assert(primes_between(lo, offset + width - 1) == Seq::<u32>::empty());
        }
    }
}

/// Whether some base prime strikes the candidate `c`.
pub fn is_struck(c: u64, base: &[u32]) -> (hit: bool)
    ensures
        hit == struck(c as int, base@),
{
    let mut i: usize = 0;
    while i < base.len()
        invariant
            i <= base@.len(),
            forall|n: int| 0 <= n < i ==> !strikes(#[trigger] base@[n] as int, c as int),
        decreases base@.len() - i,
    {
        let p: u64 = base[i] as u64;
        assert(p * p <= 0xffff_ffff * 0xffff_ffff) by (nonlinear_arith)
            requires
                p <= 0xffff_ffff,
        ;
        if p != 0 && p * p <= c && c % p == 0 {
            assert(strikes(base@[i as int] as int, c as int));
            return true;
        }
        i += 1;
    }
    false
}

/// The word that flags the struck candidates among the 32 from `first` on.
pub fn reference_word(first: u64, base: &[u32]) -> (word: u32)
    requires
        first + 32 <= u64::MAX,
    ensures
        forall|j: u32| j < 32 ==> (#[trigger] bit_is_set(word, j) <==> struck(first + j, base@)),
{
    let mut word: u32 = 0;
    let mut j: u32 = 0;
    proof {
        assert forall|i: u32| i < 32 implies !#[trigger] bit_is_set(word, i) by {
            lemma_zero_word_is_clear(i);
        }
    }
    while j < 32
        invariant
            j <= 32,
            first + 32 <= u64::MAX,
            forall|i: u32|
                i < 32 ==> (#[trigger] bit_is_set(word, i) <==> (i < j && struck(
                    first + i,
                    base@,
                ))),
        decreases 32 - j,
    {
        if is_struck(first + j as u64, base) {
            let ghost before = word;
            word = word | (1u32 << j);
            proof {
                assert forall|i: u32| i < 32 implies (#[trigger] bit_is_set(word, i) <==> (i < j
                    + 1 && struck(first + i, base@))) by {
                    lemma_bit_after_set(before, j, i);
                }
            }
        }
        j += 1;
    }
    word
}

/// A sequential stand-in for the compute kernel, with the kernel's dispatch
/// shape: each lane of each group writes the `words_per_lane` words that are
/// its share. Every word of the bitset is overwritten, whatever it held.
pub fn run_reference_kernel(bitset: &mut Vec<u32>, plan: &Plan, offset: u32, base: &[u32])
    requires
        plan.wf(),
        old(bitset)@.len() == plan.bitset_words,
    ensures
        final(bitset)@.len() == plan.bitset_words,
        kernel_output(offset as int, base@, final(bitset)@, 32 * plan.bitset_words),
{
    let per_lane: u64 = plan.words_per_lane as u64;
    let total: u64 = plan.bitset_words as u64;
    let ghost lanes: int = plan.group_width * plan.dispatch_groups;
    assert(total == per_lane * lanes && lanes <= total) by (nonlinear_arith)
        requires
            total == plan.words_per_lane * plan.group_width * plan.dispatch_groups,
            per_lane == plan.words_per_lane,
            per_lane >= 1,
            lanes == plan.group_width * plan.dispatch_groups,
    ;
    let mut lane: u64 = 0;
    let mut w: u64 = 0;
    while w < total
        invariant
            per_lane >= 1,
            total == per_lane * lanes,
            lanes <= total,
            total == plan.bitset_words,
            bitset@.len() == total,
            w == lane * per_lane,
            w <= total,
            forall|k: int|
                0 <= k < 32 * w ==> (#[trigger] flagged(bitset@, k) <==> struck(
                    offset + k,
                    base@,
                )),
        decreases total - w,
    {
        assert(lane < lanes && w + per_lane <= total) by (nonlinear_arith)
            requires
                w == lane * per_lane,
                w < total,
                total == per_lane * lanes,
                per_lane >= 1,
        ;
        let mut i: u64 = 0;
        while i < per_lane
            invariant
                i <= per_lane,
                bitset@.len() == total,
                total == plan.bitset_words,
                w + per_lane - i <= total,
                w == lane * per_lane + i,
                forall|k: int|
                    0 <= k < 32 * w ==> (#[trigger] flagged(bitset@, k) <==> struck(
                        offset + k,
                        base@,
                    )),
            decreases per_lane - i,
        {
            let first: u64 = offset as u64 + 32 * w;
            let word = reference_word(first, base);
            let ghost before = bitset@;
            bitset.set(w as usize, word);
            proof {
                assert forall|k: int| 0 <= k < 32 * (w + 1) implies (#[trigger] flagged(
                    bitset@,
                    k,
                ) <==> struck(offset + k, base@)) by {
                    if k / 32 == w as int {
                        assert(bit_is_set(word, (k % 32) as u32) <==> struck(
                            first + (k % 32) as u32,
                            base@,
                        ));
                    } else {
                        assert(bitset@[k / 32] == before[k / 32]);
                        assert(flagged(before, k) <==> struck(offset + k, base@));
                    }
                }
            }
            w += 1;
            i += 1;
        }
        assert((lane + 1) * per_lane == lane * per_lane + per_lane) by (nonlinear_arith);
        lane += 1;
    }
}

} // verus!
