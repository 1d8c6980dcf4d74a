use primesieve_gpu::bitset::{
    clear_bitset, decode_above, decode_segment, encode_composites, flag_composite, is_flagged,
};
use primesieve_gpu::error::SieveError;

fn composite_mask_of_first_word() -> u32 {
    let mut word = 0u32;
    for c in [4u32, 6, 8, 9, 10, 12, 14, 15, 16, 18, 20, 21, 22, 24, 25, 26, 27, 28, 30] {
        word |= 1 << c;
    }
    word
}

#[test]
fn decoding_a_zero_word_leaves_out_zero_and_one() {
    let found = decode_segment(0, 32, &[0]).unwrap();
    let expected: Vec<u32> = (2..32).collect();
    assert_eq!(found, expected);
    for p in [2u32, 3, 5, 7, 11, 13, 17, 19, 23, 29, 31] {
        assert!(found.contains(&p));
    }
    assert!(!found.contains(&0));
    assert!(!found.contains(&1));
}

#[test]
fn decoding_a_zero_word_of_a_wider_segment() {
    let found = decode_segment(0, 64, &[0, 0xffff_ffff]).unwrap();
    let expected: Vec<u32> = (2..32).collect();
    assert_eq!(found, expected);
}

#[test]
fn decoding_the_first_word_with_its_composites_flagged() {
    let found = decode_segment(0, 32, &[composite_mask_of_first_word()]).unwrap();
    assert_eq!(found, vec![2, 3, 5, 7, 11, 13, 17, 19, 23, 29, 31]);
}

#[test]
fn zero_is_left_out_whether_flagged_or_not() {
    let flagged = decode_segment(0, 32, &[1]).unwrap();
    let clear = decode_segment(0, 32, &[0]).unwrap();
    assert_eq!(flagged, clear);
    assert!(!flagged.contains(&0));
    let both = decode_segment(0, 32, &[3]).unwrap();
    assert_eq!(both, clear);
}

#[test]
fn decoding_maps_bits_to_candidates_from_the_offset() {
    assert_eq!(decode_segment(64, 32, &[0]).unwrap(), (64..96).collect::<Vec<u32>>());
    assert_eq!(decode_segment(64, 32, &[0xffff_fffe]).unwrap(), vec![64]);
    assert_eq!(decode_segment(64, 32, &[0x7fff_ffff]).unwrap(), vec![95]);
    assert_eq!(
        decode_segment(1000, 64, &[0xffff_ffff, 0xffff_fffd]).unwrap(),
        vec![1033]
    );
    assert_eq!(decode_segment(1, 32, &[0]).unwrap(), (2..33).collect::<Vec<u32>>());
}

#[test]
fn decoding_reads_no_bit_from_the_width_on() {
    assert_eq!(decode_segment(0, 10, &[0]).unwrap(), (2..10).collect::<Vec<u32>>());
    assert_eq!(decode_segment(0, 100, &[0, 0, 0, 0]).unwrap(), (2..100).collect::<Vec<u32>>());
    assert_eq!(decode_segment(0, 0, &[0]).unwrap(), Vec::<u32>::new());
    assert_eq!(decode_segment(5, 0, &[]).unwrap(), Vec::<u32>::new());
}

#[test]
fn decoding_reaches_the_last_candidate() {
    let found = decode_segment(u32::MAX - 31, 32, &[0x3fff_ffff]).unwrap();
    assert_eq!(found, vec![u32::MAX - 1, u32::MAX]);
}

#[test]
fn decoding_rejects_a_segment_outside_the_range() {
    assert_eq!(decode_segment(u32::MAX - 30, 32, &[0]), Err(SieveError::Configuration));
    assert_eq!(decode_segment(u32::MAX, 2, &[0]), Err(SieveError::Configuration));
    assert_eq!(decode_segment(u32::MAX, 1, &[0]).unwrap(), vec![u32::MAX]);
}

#[test]
fn decoding_rejects_a_segment_wider_than_the_bitset() {
    assert_eq!(decode_segment(0, 33, &[0]), Err(SieveError::Configuration));
    assert_eq!(decode_segment(0, 1, &[]), Err(SieveError::Configuration));
    assert_eq!(decode_segment(0, 65, &[0, 0]), Err(SieveError::Configuration));
    assert!(decode_segment(0, 64, &[0, 0]).is_ok());
}

#[test]
fn decode_above_appends_what_lies_above_the_floor() {
    let mut out = vec![2u32, 3, 5, 7];
    decode_above(&mut out, 0, 32, &[composite_mask_of_first_word()], 7);
    assert_eq!(out, vec![2, 3, 5, 7, 11, 13, 17, 19, 23, 29, 31]);
    let mut out = vec![9u32];
    decode_above(&mut out, 32, 32, &[0], 40);
    assert_eq!(out, vec![9, 41, 42, 43, 44, 45, 46, 47, 48, 49, 50, 51, 52, 53, 54, 55, 56, 57, 58, 59, 60, 61, 62, 63]);
    let mut out = Vec::new();
    decode_above(&mut out, 0, 8, &[0], 0);
    assert_eq!(out, vec![1, 2, 3, 4, 5, 6, 7]);
}

#[test]
fn encoding_then_decoding_gives_the_complement() {
    let composites = [4u32, 6, 8, 9, 10, 12, 14, 15, 16, 18, 20, 21, 22, 24, 25, 26, 27, 28, 30];
    let words = encode_composites(1, &composites).unwrap();
    assert_eq!(words, vec![composite_mask_of_first_word()]);
    assert_eq!(
        decode_segment(0, 32, &words).unwrap(),
        vec![2, 3, 5, 7, 11, 13, 17, 19, 23, 29, 31]
    );
}

#[test]
fn round_trip_at_an_offset_and_over_several_words() {
    let composites = [0u32, 1, 31, 32, 33, 70, 95, 40, 40, 1];
    let words = encode_composites(3, &composites).unwrap();
    assert_eq!(words, vec![0x8000_0003, 0x0000_0103, 0x8000_0040]);
    let found = decode_segment(1000, 96, &words).unwrap();
    let expected: Vec<u32> =
        (0..96u32).filter(|k| !composites.contains(k)).map(|k| 1000 + k).collect();
    assert_eq!(found, expected);
    let at_zero = decode_segment(0, 96, &words).unwrap();
    let expected: Vec<u32> = (2..96u32).filter(|k| !composites.contains(k)).collect();
    assert_eq!(at_zero, expected);
}

#[test]
fn round_trip_of_every_pattern_of_eight_positions() {
    for pattern in 0u32..256 {
        let composites: Vec<u32> = (0..8).filter(|k| pattern & (1 << k) != 0).collect();
        let words = encode_composites(1, &composites).unwrap();
        assert_eq!(words, vec![pattern]);
        let found = decode_segment(0, 8, &words).unwrap();
        let expected: Vec<u32> = (2..8).filter(|k| pattern & (1 << k) == 0).collect();
        assert_eq!(found, expected);
    }
}

#[test]
fn encoding_rejects_a_position_outside_the_bitset() {
    assert_eq!(encode_composites(1, &[32]), Err(SieveError::Configuration));
    assert_eq!(encode_composites(0, &[0]), Err(SieveError::Configuration));
    assert_eq!(encode_composites(2, &[3, 64, 5]), Err(SieveError::Configuration));
    assert_eq!(encode_composites(2, &[63]).unwrap(), vec![0, 0x8000_0000]);
    assert_eq!(encode_composites(0, &[]).unwrap(), Vec::<u32>::new());
}

#[test]
fn flags_are_set_one_at_a_time() {
    let mut words = clear_bitset(2);
    assert_eq!(words, vec![0, 0]);
    for k in 0..64 {
        assert!(!is_flagged(&words, k));
    }
    flag_composite(&mut words, 0);
    flag_composite(&mut words, 33);
    flag_composite(&mut words, 63);
    flag_composite(&mut words, 33);
    assert_eq!(words, vec![1, 0x8000_0002]);
    for k in 0..64 {
        assert_eq!(is_flagged(&words, k), k == 0 || k == 33 || k == 63);
    }
}

#[test]
fn decoded_candidates_increase_strictly() {
    let words = [0x1234_5678u32, 0x9abc_def0, 0x0f0f_0f0f, 0];
    let found = decode_segment(0, 128, &words).unwrap();
    for pair in found.windows(2) {
        assert!(pair[0] < pair[1]);
    }
    let clear: u32 = words.iter().map(|w| w.count_zeros()).sum();
    // candidates 0 and 1 are flagged neither in 0x12345678 nor kept
    assert_eq!(found.len() as u32, clear - 2);
}
