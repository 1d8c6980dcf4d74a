use vstd::prelude::*;
use crate::error::SieveError;

verus! {

/// Bit `j` of a word; a set bit flags a composite.
pub open spec fn bit_is_set(word: u32, j: u32) -> bool {
    (word >> j) & 1u32 == 1u32
}

/// Whether the bitset flags position `k`, counted from the segment's start:
/// bit `k % 32` of word `k / 32`.
pub open spec fn flagged(words: Seq<u32>, k: int) -> bool {
    bit_is_set(words[k / 32], (k % 32) as u32)
}

/// Position `k` of a segment that starts at `offset` names a candidate that
/// is kept: its bit is clear and its value exceeds `floor`.
pub open spec fn survives(offset: int, words: Seq<u32>, floor: int, k: int) -> bool {
    !flagged(words, k) && offset + k > floor
}

/// The kept candidates among the first `width` positions, in the order of
/// their positions.
pub open spec fn decoded_above(offset: int, words: Seq<u32>, floor: int, width: nat) -> Seq<u32>
    decreases width,
{
    if width == 0 {
        Seq::empty()
    } else {
        let before = decoded_above(offset, words, floor, (width - 1) as nat);
        if survives(offset, words, floor, width - 1) {
            before.push((offset + width - 1) as u32)
        } else {
            before
        }
    }
}

/// What decoding one segment yields: every unflagged candidate above 1.
pub open spec fn decoded(offset: int, words: Seq<u32>, width: nat) -> Seq<u32> {
    decoded_above(offset, words, 1, width)
}

/// Each element is smaller than the next.
pub open spec fn strictly_increasing(s: Seq<u32>) -> bool {
    forall|i: int, j: int| 0 <= i < j < s.len() ==> s[i] < s[j]
}

/// A segment of `width` candidates from `offset` lies in the 32-bit candidate
/// space and within the bitset.
pub open spec fn segment_in_range(offset: int, width: int, word_count: int) -> bool {
    &&& 0 <= offset
    &&& 0 <= width <= 32 * word_count
    &&& offset + width <= 0x1_0000_0000
}

/// Position `k` is among the listed ones.
pub open spec fn listed(composites: Seq<u32>, k: int) -> bool {
    exists|i: int| 0 <= i < composites.len() && composites[i] == k
}

/// The bitset flags exactly the listed positions.
pub open spec fn encodes(words: Seq<u32>, composites: Seq<u32>) -> bool {
    forall|k: int| 0 <= k < 32 * words.len() ==> (flagged(words, k) <==> listed(composites, k))
}

/// What the decoded sequence holds, and in which order: exactly the kept
/// candidates of the range, each once, increasing.
pub proof fn lemma_decoded_above(offset: int, words: Seq<u32>, floor: int, width: nat)
    requires
        segment_in_range(offset, width as int, words.len() as int),
    ensures
        strictly_increasing(decoded_above(offset, words, floor, width)),
        decoded_above(offset, words, floor, width).len() <= width,
        forall|v: u32| #[trigger]
            decoded_above(offset, words, floor, width).contains(v) <==> (offset <= v < offset
                + width && survives(offset, words, floor, v - offset)),
    decreases width,
{
    let now = decoded_above(offset, words, floor, width);
    if width == 0 {
        assert forall|v: u32| #[trigger] now.contains(v) <==> (offset <= v < offset + width
            && survives(offset, words, floor, v - offset)) by {}
    } else {
        let before = decoded_above(offset, words, floor, (width - 1) as nat);
        lemma_decoded_above(offset, words, floor, (width - 1) as nat);
        let top = (offset + width - 1) as u32;
        assert forall|i: int| 0 <= i < before.len() implies before[i] < top by {
            assert(before.contains(before[i]));
        }
        assert forall|v: u32| #[trigger] now.contains(v) <==> (offset <= v < offset + width
            && survives(offset, words, floor, v - offset)) by {
            if survives(offset, words, floor, width - 1) {
                assert(now == before.push(top));
                if now.contains(v) {
                    let i = choose|i: int| 0 <= i < now.len() && now[i] == v;
                    if i < before.len() {
                        assert(before[i] == v);
                        assert(before.contains(v));
                    }
                }
                if offset <= v < offset + width && survives(offset, words, floor, v - offset) {
                    if v == top {
                        assert(now[before.len() as int] == v);
                    } else {
                        assert(before.contains(v));
                        let i = choose|i: int| 0 <= i < before.len() && before[i] == v;
                        assert(now[i] == v);
                    }
                }
            } else {
                assert(now == before);
            }
        }
    }
}

/// Decoding an encoded set of composite positions gives back the complement:
/// the candidates of the range whose position is not listed, without 0 and 1,
/// in increasing order.
pub proof fn lemma_decode_encoded(offset: int, words: Seq<u32>, composites: Seq<u32>, width: nat)
    requires
        segment_in_range(offset, width as int, words.len() as int),
        encodes(words, composites),
    ensures
        strictly_increasing(decoded(offset, words, width)),
        forall|v: u32| #[trigger]
            decoded(offset, words, width).contains(v) <==> (offset <= v < offset + width && v > 1
                && !listed(composites, v - offset)),
{
    lemma_decoded_above(offset, words, 1, width);
    assert forall|v: u32| #[trigger]
        decoded(offset, words, width).contains(v) <==> (offset <= v < offset + width && v > 1
            && !listed(composites, v - offset)) by {
        if offset <= v < offset + width {
            let k = v - offset;
            assert(flagged(words, k) <==> listed(composites, k));
        }
    }
}

/// A strictly increasing sequence holds no value twice.
pub proof fn lemma_increasing_no_duplicates(s: Seq<u32>)
    requires
        strictly_increasing(s),
    ensures
        s.no_duplicates(),
{
    assert forall|i: int, j: int| 0 <= i < s.len() && 0 <= j < s.len() && i != j implies s[i]
        != s[j] by {
        if i < j {
            assert(s[i] < s[j]);
        } else {
            assert(s[j] < s[i]);
        }
    }
}

pub proof fn lemma_bit_after_set(word: u32, j: u32, i: u32)
    requires
        j < 32,
        i < 32,
    ensures
        bit_is_set(word | (1u32 << j), i) <==> (i == j || bit_is_set(word, i)),
{
    assert(((word | (1u32 << j)) >> i) & 1u32 == 1u32 <==> (i == j || (word >> i) & 1u32 == 1u32))
        by (bit_vector)
        requires
            j < 32,
            i < 32,
    ;
}

pub proof fn lemma_zero_word_is_clear(i: u32)
    requires
        i < 32,
    ensures
        !bit_is_set(0u32, i),
{
    assert((0u32 >> i) & 1u32 != 1u32) by (bit_vector)
        requires
            i < 32,
    ;
}

/// A bitset of `word_count` words with no candidate flagged.
pub fn clear_bitset(word_count: usize) -> (words: Vec<u32>)
    ensures
        words@.len() == word_count,
        forall|w: int| 0 <= w < word_count ==> words@[w] == 0,
        forall|k: int| 0 <= k < 32 * word_count ==> !flagged(words@, k),
{
    let mut words: Vec<u32> = Vec::new();
    let mut w: usize = 0;
    while w < word_count
        invariant
            w <= word_count,
            words@.len() == w,
            forall|i: int| 0 <= i < w ==> words@[i] == 0,
        decreases word_count - w,
    {
        words.push(0);
        w += 1;
    }
    proof {
        assert forall|k: int| 0 <= k < 32 * word_count implies !flagged(words@, k) by {
            lemma_zero_word_is_clear((k % 32) as u32);
        }
    }
    words
}

/// Whether position `k` is flagged as composite.
pub fn is_flagged(words: &[u32], k: usize) -> (set: bool)
    requires
        k < 32 * words@.len(),
    ensures
        set == flagged(words@, k as int),
{
    let word: u32 = words[k / 32];
    let j: u32 = (k % 32) as u32;
    (word >> j) & 1 == 1
}

/// Flags position `k` as composite and leaves every other position as it
/// was.
pub fn flag_composite(words: &mut Vec<u32>, k: usize)
    requires
        k < 32 * old(words)@.len(),
    ensures
        final(words)@.len() == old(words)@.len(),
        forall|i: int|
            #![trigger flagged(final(words)@, i)]
            0 <= i < 32 * old(words)@.len() ==> (flagged(final(words)@, i) <==> (i == k || flagged(
                old(words)@,
                i,
            ))),
{
    let w: usize = k / 32;
    let j: u32 = (k % 32) as u32;
    let word: u32 = words[w];
    let ghost before = words@;
    words.set(w, word | (1u32 << j));
    proof {
        assert forall|i: int| 0 <= i < 32 * before.len() implies (#[trigger] flagged(words@, i)
            <==> (i == k || flagged(before, i))) by {
            if i / 32 == w as int {
                lemma_bit_after_set(word, j, (i % 32) as u32);
                assert(i == k <==> (i % 32) as u32 == j);
            } else {
                assert(words@[i / 32] == before[i / 32]);
            }
        }
    }
}

/// Builds the bitset of `word_count` words that flags exactly the listed
/// positions, counted from the segment's start.
///
/// Fails when a position lies outside the bitset.
pub fn encode_composites(word_count: usize, composites: &[u32]) -> (encoded: Result<
    Vec<u32>,
    SieveError,
>)
    requires
        32 * word_count <= usize::MAX,
    ensures
        encoded is Ok <==> forall|i: int|
            0 <= i < composites@.len() ==> composites@[i] < 32 * word_count,
        encoded matches Ok(words) ==> words@.len() == word_count && encodes(words@, composites@),
        encoded matches Err(e) ==> e == SieveError::Configuration,
{
    let mut words = clear_bitset(word_count);
    let mut n: usize = 0;
    while n < composites.len()
        invariant
            n <= composites@.len(),
            words@.len() == word_count,
            32 * word_count <= usize::MAX,
            forall|i: int| 0 <= i < n ==> composites@[i] < 32 * word_count,
            forall|k: int|
                0 <= k < 32 * word_count ==> (flagged(words@, k) <==> listed(
                    composites@.take(n as int),
                    k,
                )),
        decreases composites@.len() - n,
    {
        let position: u32 = composites[n];
        if position as usize / 32 >= word_count {
            return Err(SieveError::Configuration);
        }
        let ghost before = words@;
        flag_composite(&mut words, position as usize);
        proof {
            let shorter = composites@.take(n as int);
            let longer = composites@.take(n + 1);
            assert(longer == shorter.push(position));
            assert forall|k: int| 0 <= k < 32 * word_count implies (flagged(words@, k)
                <==> listed(longer, k)) by {
                assert(flagged(words@, k) <==> (k == position || flagged(before, k)));
                assert(flagged(before, k) <==> listed(shorter, k));
                if listed(longer, k) {
                    let i = choose|i: int| 0 <= i < longer.len() && longer[i] == k;
                    if i < n {
                        assert(shorter[i] == k);
                    }
                }
                if listed(shorter, k) {
                    let i = choose|i: int| 0 <= i < shorter.len() && shorter[i] == k;
                    assert(longer[i] == k);
                }
                if k == position {
                    assert(longer[n as int] == position);
                }
            }
        }
        n += 1;
    }
    proof {
        assert(composites@.take(n as int) == composites@);
    }
    Ok(words)
}

/// Appends to `out` every candidate of the segment whose bit is clear and
/// whose value exceeds `floor`, in increasing order. Bit `j` of word `w`
/// stands for the candidate `offset + 32 * w + j`; positions from `width` on
/// belong to no candidate and are not read.
pub fn decode_above(out: &mut Vec<u32>, offset: u32, width: u32, words: &[u32], floor: u32)
    requires
        segment_in_range(offset as int, width as int, words@.len() as int),
    ensures
        final(out)@ == old(out)@ + decoded_above(
            offset as int,
            words@,
            floor as int,
            width as nat,
        ),
{
    let mut k: u32 = 0;
    while k < width
        invariant
            k <= width,
            segment_in_range(offset as int, width as int, words@.len() as int),
            out@ == old(out)@ + decoded_above(offset as int, words@, floor as int, k as nat),
        decreases width - k,
    {
        let word: u32 = words[(k / 32) as usize];
        let candidate: u32 = offset + k;
        if (word >> (k % 32)) & 1 != 1 && candidate > floor {
            out.push(candidate);
        }
        k += 1;
    }
}

/// Expands one segment's bitset into its candidates: those whose bit is clear
/// and whose value exceeds 1, in increasing order.
///
/// Fails when the segment leaves the 32-bit candidate space or is wider than
/// the bitset.
pub fn decode_segment(offset: u32, width: u32, words: &[u32]) -> (candidates: Result<
    Vec<u32>,
    SieveError,
>)
    ensures
        candidates is Ok <==> segment_in_range(offset as int, width as int, words@.len() as int),
        candidates matches Ok(found) ==> found@ == decoded(offset as int, words@, width as nat),
        candidates matches Err(e) ==> e == SieveError::Configuration,
{
    if offset as u64 + width as u64 > 0x1_0000_0000 || (width as u64 + 31) / 32
        > words.len() as u64 {
        return Err(SieveError::Configuration);
    }
    let mut found: Vec<u32> = Vec::new();
    decode_above(&mut found, offset, width, words, 1);
    Ok(found)
}

} // verus!
