//! Cases for the versions, error-correction levels, lookup tables and the
//! properties of the segmentation that hold of every input.

use qr_core::lookups::{alphanumeric_value, kanji_value, kanji_value_from_shift_jis, version_data_bits};
use qr_core::optimal_segmentation::{execute_dp, first_column, MAX_INPUT_CHARS};
use qr_core::{char_cost, Cell, ECCLevel, Mode, OptimalSegment, QrError, Version};

fn segment(input: &str, ecc: ECCLevel) -> OptimalSegment {
    OptimalSegment::create_segmentation(input, ecc)
        .unwrap_or_else(|e| panic!("expected {input:?} to be encodable, got {e:?}"))
}

fn rank(level: ECCLevel) -> u8 {
    level.level_code()
}

#[test]
fn version_new_accepts_exactly_one_to_forty() {
    for v in 1..=40u8 {
        let version = Version::new(v).expect("in range");
        assert_eq!(version.get(), v);
        assert_eq!(version.index(), (v - 1) as usize);
    }
    assert_eq!(Version::MIN, 1);
    assert_eq!(Version::MAX, 40);
}

#[test]
fn version_new_rejects_out_of_range_with_the_value() {
    for v in [0u8, 41, 200, 255] {
        match Version::new(v) {
            Err(QrError::InvalidVersion(x)) => assert_eq!(x, v as usize),
            other => panic!("version {v} gave {other:?}"),
        }
    }
}

#[test]
fn raise_saturates_at_h() {
    let cases = [
        (ECCLevel::L, 0, 0),
        (ECCLevel::L, 1, 1),
        (ECCLevel::L, 2, 2),
        (ECCLevel::L, 3, 3),
        (ECCLevel::L, 4, 3),
        (ECCLevel::M, 2, 3),
        (ECCLevel::Q, 1, 3),
        (ECCLevel::Q, 255, 3),
        (ECCLevel::H, 0, 3),
        (ECCLevel::M, 1, 2),
    ];
    for (start, offset, expected) in cases {
        let mut level = start;
        level.raise(offset);
        assert_eq!(rank(level), expected, "{start:?} raised by {offset}");
    }
}

#[test]
fn mode_codes_follow_the_table_order() {
    assert_eq!(Mode::Numeric.mode_code(), 0);
    assert_eq!(Mode::Alphanumeric.mode_code(), 1);
    assert_eq!(Mode::Byte.mode_code(), 2);
    assert_eq!(Mode::Kanji.mode_code(), 3);
}

#[test]
fn alphanumeric_values_follow_the_charset_order() {
    let charset = "0123456789ABCDEFGHIJKLMNOPQRSTUVWXYZ $%*+-./:";
    for (i, c) in charset.chars().enumerate() {
        assert_eq!(alphanumeric_value(c), Some(i as u8), "{c:?}");
    }
    for c in ['a', 'z', ',', '!', '\u{0}', 'こ'] {
        assert_eq!(alphanumeric_value(c), None, "{c:?}");
    }
}

#[test]
fn data_bits_of_the_corner_versions() {
    assert_eq!(version_data_bits(1, ECCLevel::L), Some(152));
    assert_eq!(version_data_bits(1, ECCLevel::H), Some(72));
    assert_eq!(version_data_bits(9, ECCLevel::L), Some(1856));
    assert_eq!(version_data_bits(26, ECCLevel::L), Some(10960));
    assert_eq!(version_data_bits(40, ECCLevel::L), Some(23648));
    assert_eq!(version_data_bits(40, ECCLevel::H), Some(10208));
    assert_eq!(version_data_bits(0, ECCLevel::L), None);
    assert_eq!(version_data_bits(41, ECCLevel::M), None);
}

#[test]
fn data_bits_shrink_as_the_level_rises() {
    for v in 1..=40usize {
        let bits: Vec<usize> = [ECCLevel::L, ECCLevel::M, ECCLevel::Q, ECCLevel::H]
            .iter()
            .map(|&l| version_data_bits(v, l).unwrap())
            .collect();
        assert!(bits.windows(2).all(|w| w[0] > w[1]), "version {v}: {bits:?}");
    }
}

#[test]
fn kanji_values_come_from_the_shift_jis_code() {
    // こ is 0x82B1 in Shift JIS: (0x82B1 - 0x8140) = 0x0171 -> 0x01 * 0xC0 + 0x71
    assert_eq!(kanji_value('こ'), Some(305));
    // 世 is 0x90A2: 0x0F62 -> 0x0F * 0xC0 + 0x62
    assert_eq!(kanji_value('世'), Some(0x0F * 0xC0 + 0x62));
    for c in ['a', 'A', '0', ' ', '🦀', 'é'] {
        assert_eq!(kanji_value(c), None, "{c:?}");
    }
}

#[test]
fn kanji_value_from_codes() {
    assert_eq!(kanji_value_from_shift_jis(&vec![0x81, 0x40], false), Some(0));
    assert_eq!(kanji_value_from_shift_jis(&vec![0x82, 0xB1], false), Some(305));
    assert_eq!(kanji_value_from_shift_jis(&vec![0x9F, 0xFC], false), Some(0x1E * 0xC0 + 0xBC));
    assert_eq!(kanji_value_from_shift_jis(&vec![0xE0, 0x40], false), Some(0x1F * 0xC0));
    assert_eq!(kanji_value_from_shift_jis(&vec![0xEB, 0xBF], false), Some(0x1FFF));
    assert_eq!(kanji_value_from_shift_jis(&vec![0x82, 0xB1], true), None);
    assert_eq!(kanji_value_from_shift_jis(&vec![0x41], false), None);
    assert_eq!(kanji_value_from_shift_jis(&vec![0xA0, 0x40], false), None);
    assert_eq!(kanji_value_from_shift_jis(&vec![0xEC, 0x40], false), None);
}

#[test]
fn first_column_is_unreached() {
    let column = first_column();
    let expected = [Mode::Numeric, Mode::Alphanumeric, Mode::Byte, Mode::Kanji];
    for j in 0..4 {
        assert_eq!(column[j].mode, expected[j]);
        assert_eq!(column[j].switched_from, expected[j]);
        assert_eq!(column[j].cost, u32::MAX);
    }
}

#[test]
fn cell_new_keeps_its_fields() {
    let cell = Cell::new(Mode::Kanji, 78, Mode::Byte);
    assert_eq!(cell.mode, Mode::Kanji);
    assert_eq!(cell.cost, 78);
    assert_eq!(cell.switched_from, Mode::Byte);
}

#[test]
fn char_cost_of_each_mode_on_one_char() {
    assert_eq!(char_cost('7', Mode::Numeric), Some(20));
    assert_eq!(char_cost('7', Mode::Alphanumeric), Some(33));
    assert_eq!(char_cost('7', Mode::Byte), Some(48));
    assert_eq!(char_cost('7', Mode::Kanji), None);
    assert_eq!(char_cost('\u{7ff}', Mode::Byte), Some(96));
    assert_eq!(char_cost('\u{800}', Mode::Byte), Some(144));
    assert_eq!(char_cost('\u{ffff}', Mode::Byte), Some(144));
    assert_eq!(char_cost('\u{10000}', Mode::Byte), Some(192));
}

#[test]
fn each_version_block_starts_at_its_first_version() {
    for (block, first) in [(0usize, 1u8), (1, 10), (2, 27)] {
        let seg = execute_dp("1", block, ECCLevel::L).expect("one digit fits everywhere");
        assert_eq!(seg.version, first);
        assert_eq!(seg.mode_hint.len(), 1);
        assert_eq!(seg.mode_hint[0].mode, Mode::Numeric);
    }
}

#[test]
fn a_block_too_small_reports_nothing() {
    // 1000 digits need about 3350 bits, more than version 9-L holds
    assert!(execute_dp(&"1".repeat(1000), 0, ECCLevel::L).is_none());
    assert!(execute_dp(&"1".repeat(1000), 1, ECCLevel::L).is_some());
}

#[test]
fn inputs_longer_than_the_largest_capacity_never_fit() {
    assert_eq!(MAX_INPUT_CHARS, 7089);
    for build in [|n: usize| "1".repeat(n), |n: usize| "A".repeat(n), |n: usize| "a".repeat(n)] {
        let result = OptimalSegment::create_segmentation(&build(MAX_INPUT_CHARS + 1), ECCLevel::L);
        assert!(matches!(result, Err(QrError::InputTooLong)));
    }
}

#[test]
fn a_prefix_never_needs_a_larger_version() {
    let input = "ABCDEFGHIJ1234567890123456789012345678901234567890ABCDEFGHIJこんにちは".repeat(12);
    let chars: Vec<char> = input.chars().collect();
    let full = segment(&input, ECCLevel::Q).version;
    for cut in [0, 1, 7, 60, 200, 500, chars.len()] {
        let prefix: String = chars[..cut].iter().collect();
        let version = segment(&prefix, ECCLevel::Q).version;
        assert!(version <= full, "prefix of {cut} chars took v{version} over v{full}");
    }
}

#[test]
fn raising_the_level_never_lowers_the_version() {
    let input = "abc123こんにちは456ABCDEF hello WORLD 9876543210".repeat(8);
    let mut previous = 0;
    for level in [ECCLevel::L, ECCLevel::M, ECCLevel::Q, ECCLevel::H] {
        let version = segment(&input, level).version;
        assert!(version >= previous, "{level:?} took v{version} after v{previous}");
        previous = version;
    }
}

#[test]
fn neighbouring_segments_differ_in_mode() {
    for input in [
        "1234567890abcdefghij1234567890ABCDEFGHIJ1234567890こんにちは世界1234567890",
        "abc123こんにちは456ABCDEF hello WORLD 9876543210",
        "a1A1a1A1",
    ] {
        let seg = segment(input, ECCLevel::M);
        for pair in seg.mode_hint.windows(2) {
            assert_ne!(pair[0].mode, pair[1].mode, "{input:?}");
        }
    }
}

#[test]
fn the_chosen_split_takes_no_more_bits_than_one_byte_segment() {
    // counts the bits of a split: header (4 + count width) + ceil(sixths / 6)
    fn bits(input: &str, segs: &[(Mode, usize, usize)]) -> usize {
        let chars: Vec<char> = input.chars().collect();
        let count_width = |m: Mode| match m {
            Mode::Numeric => 10,
            Mode::Alphanumeric => 9,
            Mode::Byte => 8,
            Mode::Kanji => 8,
        };
        segs.iter()
            .map(|&(m, s, e)| {
                let sixths: u32 = chars[s..=e].iter().map(|&c| char_cost(c, m).unwrap()).sum();
                4 + count_width(m) + (sixths as usize + 5) / 6
            })
            .sum()
    }
    let input = "AAAAAAAAAAAAAA12345678aaaaaaaaaaaa";
    let seg = segment(input, ECCLevel::L);
    let chosen: Vec<(Mode, usize, usize)> = seg.mode_hint.iter().map(|s| (s.mode, s.start, s.end)).collect();
    let all_bytes = vec![(Mode::Byte, 0, input.len() - 1)];
    assert!(bits(input, &chosen) <= bits(input, &all_bytes));
    assert_eq!(bits(input, &chosen), 4 + 9 + 77 + 4 + 10 + 27 + 4 + 8 + 96);
}

#[test]
fn version_new_and_get_round_trip() {
    for v in 1..=40u8 {
        let x = Version::new(v).unwrap();
        assert_eq!(x.get(), v);
        assert_eq!(Version::new(x.get()), Ok(x));
    }
}

#[test]
fn execute_dp_reports_nothing_for_inputs_no_version_holds() {
    let long = "1".repeat(20000);
    for block in 0..3usize {
        assert!(execute_dp(&long, block, ECCLevel::L).is_none(), "block {block}");
    }
    let just_over = "1".repeat(MAX_INPUT_CHARS + 1);
    assert!(execute_dp(&just_over, 2, ECCLevel::L).is_none());
    let exactly = "1".repeat(MAX_INPUT_CHARS);
    assert_eq!(execute_dp(&exactly, 2, ECCLevel::L).map(|s| s.version), Some(40));
}
