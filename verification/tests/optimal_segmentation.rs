//! The segmentation, cost and version-selection cases of the optimal text
//! segmentation.

use qr_core::{char_cost, min_mode, min_seal, Cell, ECCLevel, Mode, OptimalSegment, QrError};

// ---------------------------------------------------------------------------
// helpers
// ---------------------------------------------------------------------------

fn segment(input: &str, ecc: ECCLevel) -> OptimalSegment {
    OptimalSegment::create_segmentation(input, ecc)
        .unwrap_or_else(|e| panic!("expected {input:?} to be encodable, got {e:?}"))
}

/// Every character of `input` must belong to exactly one segment, the segments
/// must be in reading order, and each character must be representable in the
/// mode its segment claims.
fn assert_partitions(input: &str, seg: &OptimalSegment) {
    let chars: Vec<char> = input.chars().collect();
    let mut cursor = 0;

    for s in &seg.mode_hint {
        assert!(s.end >= s.start, "empty or inverted segment {s:?} in {input:?}");
        assert_eq!(s.start, cursor, "segment {s:?} does not start where the previous one ended in {input:?}");
        for &c in &chars[s.start..=s.end] {
            assert!(
                char_cost(c, s.mode).is_some(),
                "{c:?} is not representable in {:?} but was placed in {s:?}",
                s.mode
            );
        }
        cursor = s.end + 1;
    }

    assert_eq!(cursor, chars.len(), "segments do not cover all of {input:?}");
}

fn modes(seg: &OptimalSegment) -> Vec<Mode> {
    seg.mode_hint.iter().map(|s| s.mode).collect()
}

fn bounds(seg: &OptimalSegment) -> Vec<(usize, usize)> {
    seg.mode_hint.iter().map(|s| (s.start, s.end)).collect()
}

/// A kanji-mode character (Shift-JIS double byte), 3 bytes in UTF-8.
const KANJI_CHAR: char = 'こ';

// ---------------------------------------------------------------------------
// char_cost
// ---------------------------------------------------------------------------

#[test]
fn numeric_accepts_digits_only() {
    for c in '0'..='9' {
        assert_eq!(char_cost(c, Mode::Numeric), Some(20), "digit {c:?}");
    }

    let rejected = ['A', 'a', ' ', '$', KANJI_CHAR, '\u{0}', '\u{7f}'];
    for c in rejected {
        assert_eq!(char_cost(c, Mode::Numeric), None, "non-digit {c:?}");
    }
}

#[test]
fn alphanumeric_accepts_the_45_char_charset() {
    let charset: Vec<char> = "0123456789ABCDEFGHIJKLMNOPQRSTUVWXYZ $%*+-./:".chars().collect();
    assert_eq!(charset.len(), 45, "the QR alphanumeric charset has 45 entries");

    for &c in &charset {
        assert_eq!(char_cost(c, Mode::Alphanumeric), Some(33), "charset member {c:?}");
    }

    let mut rejected = 0;
    for c in (0u8..128).map(char::from) {
        if !charset.contains(&c) {
            assert_eq!(char_cost(c, Mode::Alphanumeric), None, "non-member {c:?}");
            rejected += 1;
        }
    }
    assert_eq!(char_cost(KANJI_CHAR, Mode::Alphanumeric), None);
}

#[test]
fn byte_cost_scales_with_utf8_length() {
    let cases = [('a', 1, 48), ('0', 1, 48), ('é', 2, 96), (KANJI_CHAR, 3, 144), ('🦀', 4, 192)];
    for (c, bytes, cost) in cases {
        assert_eq!(char_cost(c, Mode::Byte), Some(cost), "{c:?}");
    }
}

#[test]
fn kanji_accepts_only_shift_jis_double_bytes() {
    for c in [KANJI_CHAR, '世'] {
        assert_eq!(char_cost(c, Mode::Kanji), Some(78), "{c:?}");
    }

    let rejected = ['a', 'A', '0', ' ', '🦀'];
    for c in rejected {
        assert_eq!(char_cost(c, Mode::Kanji), None, "non-kanji {c:?}");
    }
}

#[test]
fn every_char_is_representable_in_byte_mode() {
    let cases = ['a', '0', 'A', ' ', KANJI_CHAR, '🦀', '\u{0}', '\u{10ffff}'];
    for c in cases {
        assert!(char_cost(c, Mode::Byte).is_some(), "byte mode rejected {c:?}");
    }
}

// ---------------------------------------------------------------------------
// min_seal / min_mode
// ---------------------------------------------------------------------------

fn column(costs: [u32; 4]) -> [Cell; 4] {
    [
        Cell::new(Mode::Numeric, costs[0], Mode::Numeric),
        Cell::new(Mode::Alphanumeric, costs[1], Mode::Alphanumeric),
        Cell::new(Mode::Byte, costs[2], Mode::Byte),
        Cell::new(Mode::Kanji, costs[3], Mode::Kanji),
    ]
}

#[test]
fn min_seal_picks_the_cheapest_mode() {
    let costs = [120, 60, 300, 240];
    let sealed = min_seal(&column(costs));
    assert_eq!(sealed.mode, Mode::Alphanumeric);
    assert_eq!(sealed.cost, 60);
}

#[test]
fn min_seal_rounds_up_to_a_whole_bit() {
    let sealed = min_seal(&column([61, 200, 200, 200]));
    assert_eq!(sealed.cost, 66, "61 sixths should seal to 11 bits");

    let sealed = min_seal(&column([60, 200, 200, 200]));
    assert_eq!(sealed.cost, 60, "10 whole bits should not be padded");
}

#[test]
fn min_mode_returns_the_index_of_the_cheapest_cell() {
    for (costs, expected) in [
        ([10, 20, 30, 40], 0),
        ([40, 30, 20, 10], 3),
        ([u32::MAX, u32::MAX, 5, u32::MAX], 2),
    ] {
        assert_eq!(min_mode(&column(costs)), expected);
    }
}

// ---------------------------------------------------------------------------
// single-mode segmentation
// ---------------------------------------------------------------------------

#[test]
fn pure_numeric_is_one_numeric_segment() {
    let input = "12345678";
    let seg = segment(input, ECCLevel::L);
    assert_eq!(modes(&seg), vec![Mode::Numeric]);
    assert_eq!(bounds(&seg), vec![(0, 7)]);
    assert_partitions(input, &seg);
}

#[test]
fn pure_alphanumeric_is_one_alphanumeric_segment() {
    let input = "HELLO WORLD";
    let seg = segment(input, ECCLevel::L);
    assert_eq!(modes(&seg), vec![Mode::Alphanumeric]);
    assert_eq!(bounds(&seg), vec![(0, 10)]);
    assert_partitions(input, &seg);
}

#[test]
fn lowercase_falls_back_to_byte() {
    let input = "hello";
    let seg = segment(input, ECCLevel::L);
    assert_eq!(modes(&seg), vec![Mode::Byte]);
    assert_eq!(bounds(&seg), vec![(0, 4)]);
}

#[test]
fn pure_kanji_is_one_kanji_segment() {
    let input = "こんにちは世界";
    let seg = segment(input, ECCLevel::L);
    assert_eq!(modes(&seg), vec![Mode::Kanji]);
    assert_eq!(bounds(&seg), vec![(0, 6)]);
    assert_partitions(input, &seg);
}

#[test]
fn non_bmp_chars_use_byte_mode() {
    let input = "🦀🦀";
    let seg = segment(input, ECCLevel::L);
    assert_eq!(modes(&seg), vec![Mode::Byte]);
    assert_partitions(input, &seg);
}

#[test]
fn single_character_inputs() {
    for (input, expected) in [
        ("1", Mode::Numeric),
        ("A", Mode::Alphanumeric),
        ("a", Mode::Byte),
        ("🦀", Mode::Byte),
    ] {
        let seg = segment(input, ECCLevel::L);
        assert_eq!(modes(&seg), vec![expected], "input {input:?}");
        assert_eq!(bounds(&seg), vec![(0, 0)], "input {input:?}");
    }
}

// ---------------------------------------------------------------------------
// mixed-mode segmentation
// ---------------------------------------------------------------------------

#[test]
fn mixed_input_splits_on_exact_boundaries() {
    let input = "AAAAAAAAAAAAAA12345678aaaaaaaaaaaa";
    let seg = segment(input, ECCLevel::L);
    assert_eq!(modes(&seg), vec![Mode::Alphanumeric, Mode::Numeric, Mode::Byte]);
    assert_eq!(bounds(&seg), vec![(0, 13), (14, 21), (22, 33)]);
    assert_partitions(input, &seg);
}

#[test]
fn segments_are_returned_in_reading_order() {
    let input = "AAAAAAAAAAAAAA12345678aaaaaaaaaaaa";
    let seg = segment(input, ECCLevel::L);
    let starts: Vec<usize> = seg.mode_hint.iter().map(|s| s.start).collect();
    let mut sorted = starts.clone();
    sorted.sort();
    assert_eq!(starts, sorted, "segments must not come back reversed");
    assert_eq!(seg.mode_hint[0].start, 0, "first segment must start at char 0");
}

#[test]
fn four_way_mixed_input_partitions_cleanly() {
    let input = "abc123こんにちは456ABCDEF";
    let seg = segment(input, ECCLevel::L);
    assert_partitions(input, &seg);
    assert!(seg.mode_hint.len() > 1, "expected several segments, got {:?}", modes(&seg));
}

#[test]
fn short_digit_run_stays_inside_an_alphanumeric_segment() {
    let input = "ABCDEFGHIJ12ABCDEFGHIJ";
    let seg = segment(input, ECCLevel::L);
    assert_eq!(modes(&seg), vec![Mode::Alphanumeric], "a 2-digit run should not be split out");
    assert_partitions(input, &seg);
}

#[test]
fn long_digit_run_is_split_out_of_an_alphanumeric_segment() {
    let input = "ABCDEFGHIJ1234567890123456789012345678901234567890ABCDEFGHIJ";
    let seg = segment(input, ECCLevel::L);
    assert_eq!(modes(&seg), vec![Mode::Alphanumeric, Mode::Numeric, Mode::Alphanumeric]);
    assert_eq!(bounds(&seg), vec![(0, 9), (10, 49), (50, 59)]);
    assert_partitions(input, &seg);
}

#[test]
fn many_alternating_runs_still_partition() {
    let input = "1234567890abcdefghij1234567890ABCDEFGHIJ1234567890こんにちは世界1234567890";
    let seg = segment(input, ECCLevel::L);
    assert_partitions(input, &seg);
}

#[test]
fn partitions_hold_across_every_ecc_level() {
    let input = "abc123こんにちは456ABCDEF hello WORLD 9876543210";
    for ecc in [ECCLevel::L, ECCLevel::M, ECCLevel::Q, ECCLevel::H] {
        let seg = segment(input, ecc);
        assert_partitions(input, &seg);
    }
}

// ---------------------------------------------------------------------------
// version selection
// ---------------------------------------------------------------------------

#[test]
fn smallest_fitting_version_is_chosen() {
    for input in ["1", "HELLO WORLD"] {
        let seg = segment(input, ECCLevel::L);
        assert_eq!(seg.version, 1, "input {input:?}");
    }
}

#[test]
fn a_higher_ecc_level_needs_a_higher_version() {
    let low = segment(&"1".repeat(500), ECCLevel::L).version;
    let high = segment(&"1".repeat(500), ECCLevel::H).version;
    assert!(high > low, "H ({high}) should need a larger symbol than L ({low})");
}

#[test]
fn version_grows_monotonically_with_input_length() {
    let mut previous = 0;
    for len in [1, 50, 200, 500, 1000, 2000, 4000, 7089] {
        let version = segment(&"1".repeat(len), ECCLevel::L).version;
        assert!(version >= previous, "{len} digits picked v{version} after v{previous}");
        assert!((1..=40).contains(&version), "v{version} is out of range");
        previous = version;
    }
}

#[test]
fn versions_are_found_in_every_version_block() {
    let small = segment(&"1".repeat(10), ECCLevel::L).version;
    let medium = segment(&"1".repeat(600), ECCLevel::L).version;
    let large = segment(&"1".repeat(3400), ECCLevel::L).version;

    assert!((1..=9).contains(&small), "expected block 1, got v{small}");
    assert!((10..=26).contains(&medium), "expected block 2, got v{medium}");
    assert!((27..=40).contains(&large), "expected block 3, got v{large}");
}

// ---------------------------------------------------------------------------
// capacity limits (ISO/IEC 18004 table 7, 40-L)
// ---------------------------------------------------------------------------

/// Asserts the documented 40-L character capacity for a mode: `n` fits, `n + 1` does not.
fn assert_capacity_boundary(label: &str, max: usize, build: impl Fn(usize) -> String) {
    let fits = build(max);
    let seg = segment(&fits, ECCLevel::L);
    assert_eq!(seg.version, 40, "{label}: {max} chars should fill version 40");

    let over = build(max + 1);
    let result = OptimalSegment::create_segmentation(&over, ECCLevel::L);
    assert!(result.is_err(), "{label}: {} chars should not fit", max + 1);
}

#[test]
fn numeric_capacity_boundary() {
    assert_capacity_boundary("numeric", 7089, |n| "1".repeat(n));
}

#[test]
fn alphanumeric_capacity_boundary() {
    assert_capacity_boundary("alphanumeric", 4296, |n| "A".repeat(n));
}

#[test]
fn byte_capacity_boundary() {
    assert_capacity_boundary("byte", 2953, |n| "a".repeat(n));
}

#[test]
fn kanji_capacity_boundary() {
    assert_capacity_boundary("kanji", 1817, |n| std::iter::repeat_n(KANJI_CHAR, n).collect());
}

#[test]
fn over_capacity_reports_input_too_long() {
    let err = OptimalSegment::create_segmentation(&"1".repeat(20000), ECCLevel::L).unwrap_err();
    assert!(matches!(err, QrError::InputTooLong), "got {err:?}");
}

#[test]
fn high_ecc_capacity_is_lower_than_low_ecc() {
    let result = OptimalSegment::create_segmentation(&"1".repeat(7089), ECCLevel::H);
    assert!(result.is_err());
}

// ---------------------------------------------------------------------------
// edge cases
// ---------------------------------------------------------------------------

#[test]
fn empty_input_does_not_panic() {
    let seg = segment("", ECCLevel::L);
    assert!(seg.mode_hint.is_empty(), "empty input should produce no segments, got {:?}", modes(&seg));
}

#[test]
fn backtracking_never_underflows_on_short_inputs() {
    for len in 1..8 {
        for (_label, input) in [("digits", "1".repeat(len)), ("bytes", "a".repeat(len))] {
            let seg = segment(&input, ECCLevel::L);
            assert_partitions(&input, &seg);
        }
    }
}

#[test]
fn mode_switch_on_the_second_character_is_handled() {
    for input in ["1a", "a1", "A1", "1A", "aA", "1こ", "こ1"] {
        let seg = segment(input, ECCLevel::L);
        assert_partitions(input, &seg);
    }
}

#[test]
fn whitespace_and_punctuation_are_placed_correctly() {
    let input = "HELLO $%*+-./: WORLD";
    let seg = segment(input, ECCLevel::L);
    assert_eq!(modes(&seg), vec![Mode::Alphanumeric], "all of these are in the alphanumeric charset");

    let input = "hello, world!";
    let seg = segment(input, ECCLevel::L);
    assert_eq!(modes(&seg), vec![Mode::Byte], "comma and bang are byte-only");
}
