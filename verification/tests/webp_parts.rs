use placard::webp::bitwriter::BitWriter;
use placard::webp::huffman::{
    canonical_codes, code_lengths_from_histogram, reverse_bits, HuffmanTable, MAX_CODE_LENGTH,
};
use placard::webp::lz77::{decode_prefix_value, encode_prefix_value, find_tokens, Token};

fn kraft_sum(lengths: &[u8]) -> f64 {
    lengths
        .iter()
        .filter(|&&l| l > 0)
        .map(|&l| 2f64.powi(-(l as i32)))
        .sum()
}

fn kraft_ok(lengths: &[u8]) -> bool {
    kraft_sum(lengths) <= 1.0 + 1e-9
}

#[test]
fn packs_bits_lsb_first_within_a_byte() {
    let mut w = BitWriter::new();
    w.write_bits(0b1, 1);
    w.write_bits(0b0, 1);
    w.write_bits(0b1, 1);
    assert_eq!(w.finish(), vec![0b0000_0101]);
}

#[test]
fn splits_a_value_across_a_byte_boundary() {
    let mut w = BitWriter::new();
    w.write_bits(0b1111_1111, 8);
    w.write_bits(0b101, 3);
    assert_eq!(w.finish(), vec![0xFF, 0b0000_0101]);
}

#[test]
fn matches_a_hand_computed_multi_field_sequence() {
    let mut w = BitWriter::new();
    w.write_bits(0x2F, 8);
    w.write_bits(3, 14);
    w.write_bits(1, 14);
    w.write_bits(0, 1);
    w.write_bits(0, 3);
    let bytes = w.finish();

    let mut acc: u64 = 0;
    let mut nbits = 0u32;
    for (value, n) in [(0x2Fu32, 8u32), (3, 14), (1, 14), (0, 1), (0, 3)] {
        acc |= (value as u64) << nbits;
        nbits += n;
    }
    let mut expected = Vec::new();
    while nbits > 0 {
        expected.push((acc & 0xFF) as u8);
        acc >>= 8;
        nbits = nbits.saturating_sub(8);
    }
    assert_eq!(bytes, expected);
}

#[test]
fn empty_writer_produces_no_bytes() {
    let w = BitWriter::new();
    assert_eq!(w.finish(), Vec::<u8>::new());
}

#[test]
fn writing_zero_bits_is_a_no_op() {
    let mut w = BitWriter::new();
    w.write_bits(5, 3);
    w.write_bits(0, 0);
    assert_eq!(w.finish(), vec![0b101]);
}

#[test]
fn a_full_32_bit_value_is_written_whole() {
    let mut w = BitWriter::new();
    w.write_bits(1, 1);
    w.write_bits(0xDEADBEEF, 32);
    assert_eq!(w.finish(), vec![0xDF, 0x7D, 0x5B, 0xBD, 0x01]);
}

#[test]
fn single_used_symbol_gets_a_one_bit_code() {
    let mut hist = vec![0u32; 8];
    hist[3] = 100;
    let lengths = code_lengths_from_histogram(&hist, MAX_CODE_LENGTH);
    assert_eq!(lengths[3], 1);
    assert!(lengths.iter().enumerate().all(|(i, &l)| i == 3 || l == 0));
}

#[test]
fn two_used_symbols_each_get_a_one_bit_code() {
    let mut hist = vec![0u32; 5];
    hist[0] = 10;
    hist[4] = 1;
    let lengths = code_lengths_from_histogram(&hist, MAX_CODE_LENGTH);
    assert_eq!(lengths[0], 1);
    assert_eq!(lengths[4], 1);
    assert!(kraft_ok(&lengths));
}

#[test]
fn textbook_five_symbol_histogram_matches_known_optimal_lengths() {
    let hist = vec![1u32, 1, 2, 3, 5];
    let lengths = code_lengths_from_histogram(&hist, MAX_CODE_LENGTH);
    let mut sorted = lengths.clone();
    sorted.sort();
    assert_eq!(sorted, vec![1, 2, 3, 4, 4]);
    assert!((kraft_sum(&lengths) - 1.0).abs() < 1e-9);
}

#[test]
fn skewed_histogram_is_length_limited_to_fifteen_bits() {
    let mut counts = vec![1u64, 1];
    while counts.len() < 40 {
        let n = counts.len();
        counts.push(counts[n - 1] + counts[n - 2]);
    }
    let hist: Vec<u32> = counts
        .iter()
        .map(|&c| c.min(u32::MAX as u64) as u32)
        .collect();
    let lengths = code_lengths_from_histogram(&hist, MAX_CODE_LENGTH);
    assert!(lengths.iter().all(|&l| l as u32 <= MAX_CODE_LENGTH));
    assert!(kraft_ok(&lengths));
}

#[test]
fn length_limiting_keeps_the_code_complete_and_the_symbols_used() {
    let mut counts = vec![1u64, 1];
    while counts.len() < 30 {
        let n = counts.len();
        counts.push(counts[n - 1] + counts[n - 2]);
    }
    let hist: Vec<u32> = counts.iter().map(|&c| c as u32).collect();
    let lengths = code_lengths_from_histogram(&hist, 7);
    assert!(lengths.iter().all(|&l| (1..=7).contains(&l)));
    assert!((kraft_sum(&lengths) - 1.0).abs() < 1e-9);
}

#[test]
fn an_empty_histogram_still_codes_symbol_zero() {
    let hist = vec![0u32; 6];
    let lengths = code_lengths_from_histogram(&hist, MAX_CODE_LENGTH);
    assert_eq!(lengths, vec![1, 0, 0, 0, 0, 0]);
}

#[test]
fn canonical_codes_increase_with_symbol_index_at_equal_length() {
    let hist = vec![5u32, 5, 5, 5];
    let lengths = code_lengths_from_histogram(&hist, MAX_CODE_LENGTH);
    assert!(lengths.iter().all(|&l| l == 2));
    let codes = canonical_codes(&lengths);
    let mut sorted_codes = codes.clone();
    sorted_codes.sort();
    assert_eq!(codes, sorted_codes, "codes should increase with symbol index");
    assert_eq!(codes, vec![0, 1, 2, 3]);
}

#[test]
fn canonical_codes_of_mixed_lengths() {
    let lengths = vec![2u8, 1, 3, 3, 0];
    assert_eq!(canonical_codes(&lengths), vec![0b10, 0b0, 0b110, 0b111, 0]);
}

#[test]
fn reverse_bits_round_trips() {
    assert_eq!(reverse_bits(0b101, 3), 0b101);
    assert_eq!(reverse_bits(0b100, 3), 0b001);
    assert_eq!(reverse_bits(0b1100, 4), 0b0011);
}

#[test]
fn reversing_twice_gives_the_value_back() {
    for n in 0..=16u8 {
        for v in [0u16, 1, 2, 0x55, 0x1234, 0xFFFF] {
            let masked = if n == 16 { v } else { v & ((1u16 << n) - 1) };
            assert_eq!(reverse_bits(reverse_bits(masked, n), n), masked);
        }
    }
}

#[test]
fn a_single_symbol_table_writes_no_bits() {
    let mut hist = vec![0u32; 4];
    hist[2] = 9;
    let table = HuffmanTable::from_histogram(&hist);
    let mut w = BitWriter::new();
    table.write_symbol(&mut w, 2);
    table.write_symbol(&mut w, 2);
    assert_eq!(w.finish(), Vec::<u8>::new());
}

#[test]
fn a_symbol_is_written_with_its_code_first_bit_first() {
    let hist = vec![1u32, 1, 2, 3, 5];
    let table = HuffmanTable::from_histogram(&hist);
    assert_eq!(table.len_of(4), 1);
    let mut w = BitWriter::new();
    table.write_symbol(&mut w, 0);
    assert_eq!(table.len_of(0), 4);
    let bytes = w.finish();
    assert_eq!(bytes, vec![0b0111]);
}

fn decode(tokens: &[Token]) -> Vec<u32> {
    let mut out = Vec::new();
    for t in tokens {
        match *t {
            Token::Literal(v) => out.push(v),
            Token::Match { length, distance } => {
                for _ in 0..length {
                    let src = out.len() - distance as usize;
                    out.push(out[src]);
                }
            }
        }
    }
    out
}

#[test]
fn long_flat_run_becomes_a_single_match() {
    let mut pixels = vec![0xFFFFFFFFu32; 1000];
    pixels.extend(vec![0x00000000u32; 1]);
    let tokens = find_tokens(&pixels);
    assert!(tokens.len() <= 3);
    let total: usize = tokens
        .iter()
        .map(|t| match t {
            Token::Literal(_) => 1,
            Token::Match { length, .. } => *length as usize,
        })
        .sum();
    assert_eq!(total, pixels.len());
}

#[test]
fn tokens_reconstruct_the_original_pixels() {
    let pixels = vec![1u32, 2, 3, 1, 2, 3, 1, 2, 3, 9, 9, 9, 9, 9, 4];
    let tokens = find_tokens(&pixels);
    assert_eq!(decode(&tokens), pixels);
}

#[test]
fn no_repetition_is_all_literals() {
    let pixels: Vec<u32> = (0..50).collect();
    let tokens = find_tokens(&pixels);
    assert_eq!(tokens.len(), pixels.len());
    assert!(tokens.iter().all(|t| matches!(t, Token::Literal(_))));
}

#[test]
fn prefix_value_round_trips_across_the_full_length_range() {
    for value in 1..=4096u32 {
        let (prefix, extra_bits, extra_value) = encode_prefix_value(value);
        assert!(extra_value < (1 << extra_bits));
        assert_eq!(decode_prefix_value(prefix, extra_value), value);
    }
}

#[test]
fn prefix_value_round_trips_across_the_full_distance_range() {
    let mut values: Vec<u32> = (1..=10_000).collect();
    values.extend((0..40).map(|_| 1_048_576u32));
    values.push(786_433);
    values.push(1_048_576);
    for value in values {
        let (prefix, extra_bits, extra_value) = encode_prefix_value(value);
        assert!(prefix < 40, "prefix {prefix} out of distance-alphabet range for value {value}");
        assert!(extra_value < (1 << extra_bits));
        assert_eq!(decode_prefix_value(prefix, extra_value), value);
    }
}

#[test]
fn code_39_matches_the_documented_range() {
    let (prefix, extra_bits, _) = encode_prefix_value(786_433);
    assert_eq!(prefix, 39);
    assert_eq!(extra_bits, 18);
    let (prefix, _, _) = encode_prefix_value(1_048_576);
    assert_eq!(prefix, 39);
}

#[test]
fn small_values_use_the_first_four_codes_directly() {
    for v in 1..=4u32 {
        assert_eq!(encode_prefix_value(v), (v - 1, 0, 0));
    }
    assert_eq!(encode_prefix_value(5), (4, 1, 0));
    assert_eq!(encode_prefix_value(6), (4, 1, 1));
}

#[test]
fn overlapping_matches_decode_to_a_run() {
    let pixels = vec![7u32; 20];
    let tokens = find_tokens(&pixels);
    assert_eq!(tokens[0], Token::Literal(7));
    assert_eq!(decode(&tokens), pixels);
}

#[test]
fn reversing_more_than_sixteen_bits_keeps_the_low_sixteen() {
    assert_eq!(reverse_bits(0b1, 17), 0);
    assert_eq!(reverse_bits(0b11, 17), 0x8000);
    assert_eq!(reverse_bits(0xFFFF, 16), 0xFFFF);
    assert_eq!(reverse_bits(0b1, 0), 0);
}

#[test]
fn oversubscribed_lengths_still_get_canonical_codes() {
    // Three 1-bit codes do not form a prefix code; the codes still count
    // up from the first code of their length.
    assert_eq!(canonical_codes(&vec![1, 1, 1]), vec![0, 1, 2]);
    assert_eq!(canonical_codes(&vec![2, 1, 0, 1, 1]), vec![6, 0, 0, 1, 2]);
}

#[test]
fn prefix_values_decode_at_the_top_of_the_range() {
    assert_eq!(decode_prefix_value(63, 0), 0xC000_0001);
    assert_eq!(decode_prefix_value(62, (1 << 30) - 1), 0xC000_0000);
    // An extra value wider than its bits is added as it is.
    assert_eq!(decode_prefix_value(4, 5), 4 + 5 + 1);
    assert_eq!(decode_prefix_value(3, 9), 4);
}

#[test]
fn canonical_codes_form_a_prefix_code() {
    let lengths: Vec<u8> = vec![3, 2, 0, 4, 1, 4];
    let codes = canonical_codes(&lengths);
    for s in 0..lengths.len() {
        for t in 0..lengths.len() {
            if s != t && lengths[s] > 0 && lengths[s] <= lengths[t] {
                let shift = lengths[t] - lengths[s];
                assert_ne!(codes[t] >> shift, codes[s], "{s} prefixes {t}");
            }
        }
    }
}

fn written_bits(table: &HuffmanTable, symbol: usize) -> Vec<bool> {
    let mut w = BitWriter::new();
    table.write_symbol(&mut w, symbol);
    let n = table.len_of(symbol) as usize;
    let bytes = w.finish();
    (0..n).map(|i| (bytes[i / 8] >> (i % 8)) & 1 == 1).collect()
}

#[test]
fn written_symbols_never_begin_one_another() {
    let histogram = vec![40, 1, 1, 3, 0, 9, 2, 17, 0, 5];
    let table = HuffmanTable::from_histogram(&histogram);
    let used: Vec<usize> = (0..histogram.len()).filter(|&s| histogram[s] > 0).collect();
    let codes: Vec<Vec<bool>> = used.iter().map(|&s| written_bits(&table, s)).collect();
    for (i, a) in codes.iter().enumerate() {
        assert!(!a.is_empty());
        for (j, b) in codes.iter().enumerate() {
            if i != j {
                assert!(!(a.len() <= b.len() && b[..a.len()] == a[..]), "{i} begins {j}");
            }
        }
    }
}

#[test]
fn flat_run_is_one_literal_then_one_copy() {
    let pixels = vec![7u32; 10];
    assert_eq!(
        find_tokens(&pixels),
        vec![Token::Literal(7), Token::Match { length: 9, distance: 1 }]
    );
}

#[test]
fn the_longest_of_the_earlier_matches_is_taken() {
    let pixels = vec![1u32, 2, 3, 9, 1, 2, 8, 1, 2, 3, 4];
    assert_eq!(
        find_tokens(&pixels),
        vec![
            Token::Literal(1),
            Token::Literal(2),
            Token::Literal(3),
            Token::Literal(9),
            Token::Literal(1),
            Token::Literal(2),
            Token::Literal(8),
            Token::Match { length: 3, distance: 7 },
            Token::Literal(4),
        ]
    );
}

#[test]
fn huffman_lengths_follow_the_lightest_merges() {
    let lengths = code_lengths_from_histogram(&vec![5, 1, 1, 3, 0, 2], MAX_CODE_LENGTH);
    assert_eq!(lengths, vec![1, 4, 4, 2, 0, 3]);
}

#[test]
fn lengths_over_the_limit_are_traded_and_dealt_longest_first() {
    let lengths = code_lengths_from_histogram(&vec![1, 1, 2, 4, 8], 3);
    assert_eq!(lengths, vec![3, 3, 3, 3, 1]);
}

#[test]
fn a_lone_symbol_gets_one_bit_even_under_a_zero_limit() {
    assert_eq!(code_lengths_from_histogram(&vec![0, 4, 0], 0), vec![0, 1, 0]);
    assert_eq!(code_lengths_from_histogram(&vec![0, 0], 0), vec![1, 0]);
}
