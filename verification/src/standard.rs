//! What the QR Code standard (ISO/IEC 18004) fixes, stated apart from the
//! tables and definitions the library computes with: which characters each
//! mode takes and at what cost, the alphanumeric values, the kanji values of
//! Shift JIS codes, the data capacity of every version and level, the width of
//! the character count indicators, and the version chosen for an input.
use vstd::prelude::*;

use crate::encoding::{ECCLevel, Mode};
use crate::lookups::{alphanumeric_value_of, data_bits, kanji_value_from, kanji_value_of};
use crate::segmentation_laws::lemma_least_fitting_version;
use crate::segmentation_model::{
    block_first, block_last, block_version, ceil6, char_cost_of, chosen_version, dp_bits,
    first_fitting_block, fits, header_bits,
};

verus! {

/// The 45 characters of alphanumeric mode, each at the position of its value.
pub open spec fn alphanumeric_charset() -> Seq<char> {
    seq!['0', '1', '2', '3', '4', '5', '6', '7', '8', '9', 'A', 'B', 'C', 'D', 'E', 'F', 'G', 'H', 'I', 'J', 'K', 'L', 'M', 'N', 'O', 'P', 'Q', 'R', 'S', 'T', 'U', 'V', 'W', 'X', 'Y', 'Z', ' ', '$', '%', '*', '+', '-', '.', '/', ':']
}

/// Data codewords of versions 1..=40 at `level` (ISO/IEC 18004, table 7),
/// the entry of version `v` at position `v - 1`.
pub open spec fn standard_data_codewords(level: ECCLevel) -> Seq<int> {
    match level {
        ECCLevel::L => seq![
            19, 34, 55, 80, 108, 136, 156, 194, 232, 274,
            324, 370, 428, 461, 523, 589, 647, 721, 795, 861,
            932, 1006, 1094, 1174, 1276, 1370, 1468, 1531, 1631, 1735,
            1843, 1955, 2071, 2191, 2306, 2434, 2566, 2702, 2812, 2956,
        ],
        ECCLevel::M => seq![
            16, 28, 44, 64, 86, 108, 124, 154, 182, 216,
            254, 290, 334, 365, 415, 453, 507, 563, 627, 669,
            714, 782, 860, 914, 1000, 1062, 1128, 1193, 1267, 1373,
            1455, 1541, 1631, 1725, 1812, 1914, 1992, 2102, 2216, 2334,
        ],
        ECCLevel::Q => seq![
            13, 22, 34, 48, 62, 76, 88, 110, 132, 154,
            180, 206, 244, 261, 295, 325, 367, 397, 445, 485,
            512, 568, 614, 664, 718, 754, 808, 871, 911, 985,
            1033, 1115, 1171, 1231, 1286, 1354, 1426, 1502, 1582, 1666,
        ],
        ECCLevel::H => seq![
            9, 16, 26, 36, 46, 60, 66, 86, 100, 122,
            140, 158, 180, 197, 223, 253, 283, 313, 341, 385,
            406, 442, 464, 514, 538, 596, 628, 661, 701, 745,
            793, 845, 901, 961, 986, 1054, 1096, 1142, 1222, 1276,
        ],
    }
}

/// Width in bits of the character count indicator of mode `m` in version
/// `version` (ISO/IEC 18004, table 3).
pub open spec fn standard_count_width(version: int, m: Mode) -> int {
    let group = if version <= 9 {
        0
    } else if version <= 26 {
        1
    } else {
        2
    };
    match m {
        Mode::Numeric => seq![10int, 12, 14][group],
        Mode::Alphanumeric => seq![9int, 11, 13][group],
        Mode::Byte => seq![8int, 16, 16][group],
        Mode::Kanji => seq![8int, 10, 12][group],
    }
}

/// The version block (0: 1..=9, 1: 10..=26, 2: 27..=40) that holds `version`.
pub open spec fn version_block_of(version: int) -> int {
    if version <= 9 {
        0
    } else if version <= 26 {
        1
    } else {
        2
    }
}

/// Numeric mode takes exactly the ASCII digits, at 20 sixths (10/3 bits) each.
pub proof fn law_numeric_mode_takes_exactly_the_digits(c: char)
    ensures
        char_cost_of(c, Mode::Numeric) == if '0' <= c <= '9' {
            Some(20u32)
        } else {
            None
        },
{
    reveal(char_cost_of);
}

/// Alphanumeric mode takes exactly the 45 characters of its set, at 33
/// sixths (11/2 bits) each.
pub proof fn law_alphanumeric_mode_takes_exactly_its_set(c: char)
    ensures
        char_cost_of(c, Mode::Alphanumeric) == if alphanumeric_charset().contains(c) {
            Some(33u32)
        } else {
            None
        },
{
    reveal(char_cost_of);
    law_alphanumeric_values(c);
    if alphanumeric_charset().contains(c) {
        let i = choose|i: int| 0 <= i < alphanumeric_charset().len() && alphanumeric_charset()[i] == c;
        assert(alphanumeric_value_of(c) == Some(i as u8));
    }
}

/// Byte mode takes every character, at 48 sixths (8 bits) per byte of its
/// UTF-8 encoding.
pub proof fn law_byte_mode_costs_its_utf8_bytes(c: char)
    ensures
        char_cost_of(c, Mode::Byte) == Some(
            if c <= '\u{7f}' {
                48u32
            } else if c <= '\u{7ff}' {
                96u32
            } else if c <= '\u{ffff}' {
                144u32
            } else {
                192u32
            },
        ),
{
    reveal(char_cost_of);
}

/// Kanji mode takes exactly the characters that have a kanji value, at 78
/// sixths (13 bits) each.
pub proof fn law_kanji_mode_takes_the_characters_with_a_kanji_value(c: char)
    ensures
        char_cost_of(c, Mode::Kanji) == if kanji_value_of(c) is Some {
            Some(78u32)
        } else {
            None
        },
{
    reveal(char_cost_of);
}

/// The alphanumeric value of a character is its position in the 45-character
/// set; a character outside the set has none.
pub proof fn law_alphanumeric_values(c: char)
    ensures
        alphanumeric_value_of(c) matches Some(v) ==> v < 45 && alphanumeric_charset()[v as int] == c,
        forall|i: int|
            0 <= i < 45 && #[trigger] alphanumeric_charset()[i] == c ==> alphanumeric_value_of(c)
                == Some(i as u8),
{
    let set = alphanumeric_charset();
    assert(set.len() == 45);
    assert forall|i: int| 0 <= i < 45 && #[trigger] set[i] == c implies alphanumeric_value_of(c)
        == Some(i as u8) by {
        assert(set[i] == c);
    }
}

/// The kanji value of a two-byte Shift JIS code: codes in 0x8140..=0x9FFC
/// lose 0x8140 and codes in 0xE040..=0xEBBF lose 0xC140, and the value is
/// (high byte of the rest) * 0xC0 + (low byte of the rest); other codes, and
/// characters without a code, have none.
pub proof fn law_kanji_values(b0: u8, b1: u8, unmappable: bool)
    ensures
        ({
            let code = b0 * 256 + b1;
            kanji_value_from(seq![b0, b1], unmappable) == if unmappable {
                None
            } else if 0x8140 <= code <= 0x9FFC {
                Some((((code - 0x8140) / 256) * 0xC0 + (code - 0x8140) % 256) as u16)
            } else if 0xE040 <= code <= 0xEBBF {
                Some((((code - 0xC140) / 256) * 0xC0 + (code - 0xC140) % 256) as u16)
            } else {
                None
            }
        }),
{
    let bytes = seq![b0, b1];
    assert(bytes[0] == b0 && bytes[1] == b1);
}

/// Only a two-byte code has a kanji value, and every kanji value fits in 13 bits.
pub proof fn law_kanji_values_are_13_bit(bytes: Seq<u8>, unmappable: bool)
    ensures
        bytes.len() != 2 ==> kanji_value_from(bytes, unmappable) is None,
        kanji_value_from(bytes, unmappable) matches Some(v) ==> v < 0x2000,
{
}

/// The data bits of every version and level are eight times the data
/// codewords of ISO/IEC 18004, table 7.
pub proof fn law_data_bits_follow_the_standard(version: int, level: ECCLevel)
    requires
        1 <= version <= 40,
    ensures
        data_bits(version, level) == 8 * standard_data_codewords(level)[version - 1],
{
}

/// The version blocks cover versions 1..=40 without gap or overlap, and the
/// header of a segment in each version is the 4-bit mode indicator and the
/// count indicator of the standard's width.
pub proof fn law_count_indicator_widths(version: int, m: Mode)
    requires
        1 <= version <= 40,
    ensures
        block_first(version_block_of(version)) <= version <= block_last(version_block_of(version)),
        header_bits(version_block_of(version), m) == 4 + standard_count_width(version, m),
{
}

/// The version chosen for an input is the least version of 1..=40 whose data
/// bits hold the cheapest coding of the input with that version's count
/// indicators; where no version holds it, none is chosen.
pub proof fn law_chosen_version_is_the_least_that_holds(cs: Seq<char>, level: ECCLevel)
    ensures
        chosen_version(cs, level) matches Some(v) ==> {
            &&& 1 <= v <= 40
            &&& dp_bits(cs, version_block_of(v)) <= data_bits(v, level)
            &&& forall|w: int|
                1 <= w < v ==> data_bits(w, level) < #[trigger] dp_bits(cs, version_block_of(w))
        },
        chosen_version(cs, level) is None ==> forall|w: int|
            1 <= w <= 40 ==> data_bits(w, level) < #[trigger] dp_bits(cs, version_block_of(w)),
{
    assert forall|b: int| 0 <= b < 3 implies {
        &&& (#[trigger] block_version(cs, b, level)) is None ==> forall|w: int|
            block_first(b) <= w <= block_last(b) ==> !#[trigger] fits(w, level, dp_bits(cs, b))
        &&& block_version(cs, b, level) matches Some(v) ==> {
            &&& block_first(b) <= v <= block_last(b)
            &&& fits(v, level, dp_bits(cs, b))
            &&& forall|w: int|
                block_first(b) <= w < v ==> !#[trigger] fits(w, level, dp_bits(cs, b))
        }
    } by {
        lemma_least_fitting_version(block_first(b), block_last(b), level, dp_bits(cs, b));
    }
    let b = first_fitting_block(cs, level);
    if b < 3 {
        let v = block_version(cs, b, level)->0;
        assert forall|w: int| 1 <= w < v implies data_bits(w, level) < #[trigger] dp_bits(
            cs,
            version_block_of(w),
        ) by {
            let bw = version_block_of(w);
            assert(!fits(w, level, dp_bits(cs, bw)));
        }
    } else {
        assert forall|w: int| 1 <= w <= 40 implies data_bits(w, level) < #[trigger] dp_bits(
            cs,
            version_block_of(w),
        ) by {
            let bw = version_block_of(w);
            assert(!fits(w, level, dp_bits(cs, bw)));
        }
    }
}

/// Whole bits of `x` sixths of a bit: the least whole number of bits that
/// holds them.
pub proof fn law_ceil6_is_the_least_whole_bit_count(x: int)
    ensures
        6 * ceil6(x) >= x,
        6 * (ceil6(x) - 1) < x,
{
}

} // verus!
