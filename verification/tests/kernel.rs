use primesieve_gpu::bitset::{clear_bitset, decode_segment, is_flagged};
use primesieve_gpu::kernel::{is_struck, reference_word, run_reference_kernel};
use primesieve_gpu::plan::plan_partition;
use primesieve_gpu::primes::{base_primes, pad_to_vec4, primes_below};

fn is_composite(c: u64) -> bool {
    let mut d = 2u64;
    while d * d <= c {
        if c % d == 0 {
            return true;
        }
        d += 1;
    }
    false
}

#[test]
fn a_base_prime_strikes_its_multiples_from_its_square_on() {
    let base = [2u32, 3, 5, 7];
    assert!(!is_struck(0, &base));
    assert!(!is_struck(1, &base));
    assert!(!is_struck(2, &base));
    assert!(!is_struck(3, &base));
    assert!(is_struck(4, &base));
    assert!(!is_struck(5, &base));
    assert!(is_struck(6, &base));
    assert!(!is_struck(7, &base));
    assert!(is_struck(9, &base));
    assert!(is_struck(49, &base));
    assert!(is_struck(91, &base));
    assert!(!is_struck(97, &base));
    // 11 * 11 has no divisor among the four
    assert!(!is_struck(121, &base));
}

#[test]
fn padding_entries_strike_nothing() {
    assert!(!is_struck(0, &[0, 0, 0, 0]));
    assert!(!is_struck(12, &[0, 0, 0, 0]));
    assert!(!is_struck(12, &[]));
    assert!(is_struck(12, &[0, 0, 3, 0]));
    assert!(!is_struck(7, &[7, 0, 0, 0]));
}

#[test]
fn entries_need_not_be_sorted_or_small() {
    assert!(is_struck(35, &[7, 5]));
    assert!(is_struck(35, &[65521, 5]));
    assert!(!is_struck(35, &[65521, 11]));
    assert!(is_struck(u32::MAX as u64, &[u32::MAX, 3]));
    assert!(!is_struck(u32::MAX as u64, &[u32::MAX]));
    assert!(is_struck(u32::MAX as u64 * u32::MAX as u64, &[u32::MAX]));
}

#[test]
fn reference_word_flags_the_composites_of_the_first_word() {
    let word = reference_word(0, &[2, 3, 5, 7]);
    let mut expected = 0u32;
    for c in 0..32u64 {
        if c >= 2 && is_composite(c) {
            expected |= 1 << c;
        }
    }
    assert_eq!(word, expected);
    assert_eq!(word, 0x5f75_d750);
}

#[test]
fn reference_word_away_from_zero() {
    // 96 .. 128: the primes are 97, 101, 103, 107, 109, 113, 127
    let word = reference_word(96, &[2, 3, 5, 7, 11]);
    let mut expected = u32::MAX;
    for p in [97u32, 101, 103, 107, 109, 113, 127] {
        expected &= !(1 << (p - 96));
    }
    assert_eq!(word, expected);
}

#[test]
fn reference_kernel_marks_the_composites_below_one_hundred() {
    let plan = plan_partition(100, 4, 65535).unwrap();
    let mut bitset = clear_bitset(plan.bitset_words as usize);
    run_reference_kernel(&mut bitset, &plan, 0, &[2, 3, 5, 7]);
    assert_eq!(bitset.len(), 4);
    for c in 0..100usize {
        assert_eq!(is_flagged(&bitset, c), c >= 2 && is_composite(c as u64), "candidate {}", c);
    }
    assert_eq!(decode_segment(0, 100, &bitset).unwrap(), primes_below(100));
}

#[test]
fn reference_kernel_overwrites_what_the_bitset_held() {
    let plan = plan_partition(256, 2, 2).unwrap();
    assert_eq!(plan.words_per_lane, 2);
    assert_eq!(plan.bitset_words, 8);
    let base = pad_to_vec4(&primes_below(32));

    let mut fresh = clear_bitset(8);
    run_reference_kernel(&mut fresh, &plan, 256, &base);

    let mut stale = vec![u32::MAX; 8];
    run_reference_kernel(&mut stale, &plan, 256, &base);
    assert_eq!(stale, fresh);

    let mut reused = clear_bitset(8);
    run_reference_kernel(&mut reused, &plan, 0, &base);
    let first = reused.clone();
    run_reference_kernel(&mut reused, &plan, 256, &base);
    assert_eq!(reused, fresh);
    assert_ne!(first, fresh);

    assert_eq!(
        decode_segment(256, 256, &reused).unwrap(),
        primes_below(512).into_iter().filter(|p| *p >= 256).collect::<Vec<u32>>()
    );
    assert_eq!(decode_segment(0, 256, &first).unwrap(), primes_below(256));
}

#[test]
fn two_segments_with_disjoint_patterns_do_not_mix() {
    // With the single base prime 3 the first segment flags 9, 12, 15, ...,
    // the second one 33, 36, 39, ...: bit 1 is set in the second only, bit 9
    // in the first only.
    let plan = plan_partition(32, 1, 1).unwrap();
    let mut bitset = clear_bitset(1);
    run_reference_kernel(&mut bitset, &plan, 0, &[3]);
    let first = bitset[0];
    run_reference_kernel(&mut bitset, &plan, 32, &[3]);
    let second = bitset[0];
    assert_eq!(first, 0x4924_9200);
    assert_eq!(first & (1 << 9), 1 << 9);
    assert_eq!(second & (1 << 9), 0);
    assert_eq!(second & (1 << 1), 1 << 1);
    let mut expected = 0u32;
    for c in 32..64u32 {
        if c % 3 == 0 {
            expected |= 1 << (c - 32);
        }
    }
    assert_eq!(second, expected);
}

#[test]
fn reference_kernel_with_the_full_base_set() {
    let plan = plan_partition(4096, 16, 4).unwrap();
    let base = pad_to_vec4(&base_primes());
    let mut bitset = clear_bitset(plan.bitset_words as usize);
    let offset = 4_294_963_200u32; // 2^32 - 4096
    run_reference_kernel(&mut bitset, &plan, offset, &base);
    let found = decode_segment(offset, 4096, &bitset).unwrap();
    assert_eq!(*found.last().unwrap(), 4_294_967_291);
    for &p in found.iter() {
        assert!(!is_composite(p as u64));
    }
    let mut count = 0;
    for c in offset as u64..(1u64 << 32) {
        if !is_composite(c) {
            count += 1;
        }
    }
    assert_eq!(found.len(), count);
}
