use vstd::prelude::*;
use crate::error::SieveError;
use crate::primes::{pad_to_vec4, padded};

verus! {

/// The two orders in which a target may lay the bytes of a word in memory.
#[derive(Clone, Copy, Debug, PartialEq, Eq, Structural)]
pub enum ByteOrder {
    Little,
    Big,
}

/// Byte `k` of a word, counted from the least significant.
pub open spec fn byte_of(word: u32, k: int) -> u8 {
    if k == 0 {
        (word % 0x100) as u8
    } else if k == 1 {
        (word / 0x100 % 0x100) as u8
    } else if k == 2 {
        (word / 0x1_0000 % 0x100) as u8
    } else {
        (word / 0x100_0000 % 0x100) as u8
    }
}

/// The significance of the byte that stands at place `k` of a word in
/// memory.
pub open spec fn significance(order: ByteOrder, k: int) -> int {
    match order {
        ByteOrder::Little => k,
        ByteOrder::Big => 3 - k,
    }
}

/// The bytes of the words, four for each word, in the given order.
pub open spec fn layout(words: Seq<u32>, order: ByteOrder) -> Seq<u8> {
    Seq::new(4 * words.len(), |i: int| byte_of(words[i / 4], significance(order, i % 4)))
}

/// `bytes` is what the words look like in the memory of the target, whose
/// byte order is one of the two.
pub open spec fn is_image(bytes: Seq<u8>, words: Seq<u32>) -> bool {
    bytes == layout(words, ByteOrder::Little) || bytes == layout(words, ByteOrder::Big)
}

/// `bytemuck::cast_slice` from `u32` to `u8`, copied into a vector. The
/// cast reinterprets the words' memory as bytes and cannot fail in this
/// direction: a byte has no alignment to miss and every length is whole. The
/// contract says that the bytes are the words in the target's byte order,
/// little or big; which of the two is not stated.
#[verifier::external_body]
fn cast_words_to_bytes(words: &[u32]) -> (bytes: Vec<u8>)
    ensures
        is_image(bytes@, words@),
{
    bytemuck::cast_slice::<u32, u8>(words).to_vec()
}

/// `bytemuck::pod_collect_to_vec` from `u8` to `u32`. It copies the bytes
/// into a fresh vector of words, so no alignment is asked of the input. For
/// a length that is a multiple of four it makes a quarter as many words,
/// whose memory is the input; the contract says so for the target's byte
/// order, little or big, without stating which.
#[verifier::external_body]
fn collect_bytes_to_words(bytes: &[u8]) -> (words: Vec<u32>)
    requires
        bytes@.len() % 4 == 0,
    ensures
        is_image(bytes@, words@),
{
    bytemuck::pod_collect_to_vec::<u8, u32>(bytes)
}

/// The bytes that carry the words across to the accelerator.
pub fn serialize_words(words: &[u32]) -> (bytes: Vec<u8>)
    ensures
        is_image(bytes@, words@),
        bytes@.len() == 4 * words@.len(),
{
    cast_words_to_bytes(words)
}

/// The bytes of one scalar input of the kernel: the segment's base offset,
/// or the words each lane covers.
pub fn serialize_scalar(value: u32) -> (bytes: Vec<u8>)
    ensures
        is_image(bytes@, seq![value]),
        bytes@.len() == 4,
{
    let mut words: Vec<u32> = Vec::new();
    words.push(value);
    assert(words@ == seq![value]);
    cast_words_to_bytes(words.as_slice())
}

/// The base prime set as the kernel reads it: records of four entries, the
/// primes first and zero entries to fill the last record.
pub fn serialize_base_primes(primes: &[u32]) -> (bytes: Vec<u8>)
    ensures
        is_image(bytes@, padded(primes@)),
        bytes@.len() % 16 == 0,
        4 * primes@.len() <= bytes@.len() < 4 * primes@.len() + 16,
{
    let records = pad_to_vec4(primes);
    cast_words_to_bytes(records.as_slice())
}

/// Reads the words of a bitset of `word_count` words out of the bytes that
/// came back from the accelerator.
///
/// Fails when the bytes are not exactly four for each word.
pub fn read_bitset(bytes: &[u8], word_count: u32) -> (read: Result<Vec<u32>, SieveError>)
    ensures
        read is Ok <==> bytes@.len() == 4 * word_count,
        read matches Ok(words) ==> words@.len() == word_count && is_image(bytes@, words@),
        read matches Err(e) ==> e == SieveError::TransferFailure,
{
    if bytes.len() as u64 != 4 * (word_count as u64) {
        return Err(SieveError::TransferFailure);
    }
    Ok(collect_bytes_to_words(bytes))
}

} // verus!
