//! The tables of QR Code: the alphanumeric character set, the kanji values
//! of Shift JIS codes, and the data capacity of every version and level.
use vstd::prelude::*;

use crate::encoding::ECCLevel;

verus! {

/// Data codewords of each version at levels L, M, Q and H
/// (ISO/IEC 18004, table 7), for versions 1..=40.
pub open spec fn codewords_row(version: int) -> (int, int, int, int) {
    if version == 1 {
        (19, 16, 13, 9)
    } else if version == 2 {
        (34, 28, 22, 16)
    } else if version == 3 {
        (55, 44, 34, 26)
    } else if version == 4 {
        (80, 64, 48, 36)
    } else if version == 5 {
        (108, 86, 62, 46)
    } else if version == 6 {
        (136, 108, 76, 60)
    } else if version == 7 {
        (156, 124, 88, 66)
    } else if version == 8 {
        (194, 154, 110, 86)
    } else if version == 9 {
        (232, 182, 132, 100)
    } else if version == 10 {
        (274, 216, 154, 122)
    } else if version == 11 {
        (324, 254, 180, 140)
    } else if version == 12 {
        (370, 290, 206, 158)
    } else if version == 13 {
        (428, 334, 244, 180)
    } else if version == 14 {
        (461, 365, 261, 197)
    } else if version == 15 {
        (523, 415, 295, 223)
    } else if version == 16 {
        (589, 453, 325, 253)
    } else if version == 17 {
        (647, 507, 367, 283)
    } else if version == 18 {
        (721, 563, 397, 313)
    } else if version == 19 {
        (795, 627, 445, 341)
    } else if version == 20 {
        (861, 669, 485, 385)
    } else if version == 21 {
        (932, 714, 512, 406)
    } else if version == 22 {
        (1006, 782, 568, 442)
    } else if version == 23 {
        (1094, 860, 614, 464)
    } else if version == 24 {
        (1174, 914, 664, 514)
    } else if version == 25 {
        (1276, 1000, 718, 538)
    } else if version == 26 {
        (1370, 1062, 754, 596)
    } else if version == 27 {
        (1468, 1128, 808, 628)
    } else if version == 28 {
        (1531, 1193, 871, 661)
    } else if version == 29 {
        (1631, 1267, 911, 701)
    } else if version == 30 {
        (1735, 1373, 985, 745)
    } else if version == 31 {
        (1843, 1455, 1033, 793)
    } else if version == 32 {
        (1955, 1541, 1115, 845)
    } else if version == 33 {
        (2071, 1631, 1171, 901)
    } else if version == 34 {
        (2191, 1725, 1231, 961)
    } else if version == 35 {
        (2306, 1812, 1286, 986)
    } else if version == 36 {
        (2434, 1914, 1354, 1054)
    } else if version == 37 {
        (2566, 1992, 1426, 1096)
    } else if version == 38 {
        (2702, 2102, 1502, 1142)
    } else if version == 39 {
        (2812, 2216, 1582, 1222)
    } else if version == 40 {
        (2956, 2334, 1666, 1276)
    } else {
        (0, 0, 0, 0)
    }
}

/// Data codewords that version `version` holds at error-correction level `level`.
pub open spec fn data_codewords(version: int, level: ECCLevel) -> int {
    let row = codewords_row(version);
    match level {
        ECCLevel::L => row.0,
        ECCLevel::M => row.1,
        ECCLevel::Q => row.2,
        ECCLevel::H => row.3,
    }
}

/// Data bits that version `version` holds at error-correction level `level`.
pub open spec fn data_bits(version: int, level: ECCLevel) -> int {
    8 * data_codewords(version, level)
}

fn codewords_row_of(version: usize) -> (r: (u16, u16, u16, u16))
    requires
        1 <= version <= 40,
    ensures
        (r.0 as int, r.1 as int, r.2 as int, r.3 as int) == codewords_row(version as int),
{
    match version {
        1 => (19, 16, 13, 9),
        2 => (34, 28, 22, 16),
        3 => (55, 44, 34, 26),
        4 => (80, 64, 48, 36),
        5 => (108, 86, 62, 46),
        6 => (136, 108, 76, 60),
        7 => (156, 124, 88, 66),
        8 => (194, 154, 110, 86),
        9 => (232, 182, 132, 100),
        10 => (274, 216, 154, 122),
        11 => (324, 254, 180, 140),
        12 => (370, 290, 206, 158),
        13 => (428, 334, 244, 180),
        14 => (461, 365, 261, 197),
        15 => (523, 415, 295, 223),
        16 => (589, 453, 325, 253),
        17 => (647, 507, 367, 283),
        18 => (721, 563, 397, 313),
        19 => (795, 627, 445, 341),
        20 => (861, 669, 485, 385),
        21 => (932, 714, 512, 406),
        22 => (1006, 782, 568, 442),
        23 => (1094, 860, 614, 464),
        24 => (1174, 914, 664, 514),
        25 => (1276, 1000, 718, 538),
        26 => (1370, 1062, 754, 596),
        27 => (1468, 1128, 808, 628),
        28 => (1531, 1193, 871, 661),
        29 => (1631, 1267, 911, 701),
        30 => (1735, 1373, 985, 745),
        31 => (1843, 1455, 1033, 793),
        32 => (1955, 1541, 1115, 845),
        33 => (2071, 1631, 1171, 901),
        34 => (2191, 1725, 1231, 961),
        35 => (2306, 1812, 1286, 986),
        36 => (2434, 1914, 1354, 1054),
        37 => (2566, 1992, 1426, 1096),
        38 => (2702, 2102, 1502, 1142),
        39 => (2812, 2216, 1582, 1222),
        40 => (2956, 2334, 1666, 1276),
        _ => (0, 0, 0, 0),
    }
}

/// Data bits of version `version` at `ecc_level`, or `None` for a version outside 1..=40.
pub fn version_data_bits(version: usize, ecc_level: ECCLevel) -> (r: Option<usize>)
    ensures
        match r {
            Some(bits) => 1 <= version <= 40 && bits as int == data_bits(version as int, ecc_level),
            None => !(1 <= version <= 40),
        },
{
    if version < 1 || version > 40 {
        return None;
    }
    let row = codewords_row_of(version);
    let codewords = match ecc_level {
        ECCLevel::L => row.0,
        ECCLevel::M => row.1,
        ECCLevel::Q => row.2,
        ECCLevel::H => row.3,
    };
    Some(8 * codewords as usize)
}

/// Value of `c` in the 45-character alphanumeric set of QR mode 2:
/// digits 0..=9, `A`..=`Z` as 10..=35, then space `$` `%` `*` `+` `-` `.` `/` `:`
/// as 36..=44; `None` for any other character.
pub open spec fn alphanumeric_value_of(c: char) -> Option<u8> {
    let v = c as u32;
    if 48 <= v <= 57 {
        Some((v - 48) as u8)
    } else if 65 <= v <= 90 {
        Some((v - 55) as u8)
    } else if c == ' ' {
        Some(36)
    } else if c == '$' {
        Some(37)
    } else if c == '%' {
        Some(38)
    } else if c == '*' {
        Some(39)
    } else if c == '+' {
        Some(40)
    } else if c == '-' {
        Some(41)
    } else if c == '.' {
        Some(42)
    } else if c == '/' {
        Some(43)
    } else if c == ':' {
        Some(44)
    } else {
        None
    }
}

/// Value of `c` in the alphanumeric set, or `None` if it is not in the set.
pub fn alphanumeric_value(c: char) -> (r: Option<u8>)
    ensures
        r == alphanumeric_value_of(c),
{
    let v = c as u32;
    if 48 <= v && v <= 57 {
        Some((v - 48) as u8)
    } else if 65 <= v && v <= 90 {
        Some((v - 55) as u8)
    } else if c == ' ' {
        Some(36)
    } else if c == '$' {
        Some(37)
    } else if c == '%' {
        Some(38)
    } else if c == '*' {
        Some(39)
    } else if c == '+' {
        Some(40)
    } else if c == '-' {
        Some(41)
    } else if c == '.' {
        Some(42)
    } else if c == '/' {
        Some(43)
    } else if c == ':' {
        Some(44)
    } else {
        None
    }
}

/// The bytes that `encoding_rs::SHIFT_JIS` encodes the one-character string
/// `c` into, and whether `c` had no Shift JIS code (the flag that
/// `Encoding::encode` returns; the bytes are then a numeric character
/// reference). The mapping is the WHATWG Shift_JIS encoder's table.
pub uninterp spec fn shift_jis_encoding(c: char) -> (Seq<u8>, bool);

/// Calls `encoding_rs::Encoding::encode` with `SHIFT_JIS` on the
/// one-character string `c`, and returns the bytes written and the
/// unmappable-character flag. The contract claims only that these are a
/// function of `c` (named `shift_jis_encoding`); it leaves unsaid which
/// characters have which codes, a table of thousands of entries.
#[verifier::external_body]
fn encode_shift_jis(c: char) -> (r: (Vec<u8>, bool))
    ensures
        (r.0@, r.1) == shift_jis_encoding(c),
{
    let mut buf = [0u8; 4];
    let (bytes, _, had_errors) = encoding_rs::SHIFT_JIS.encode(c.encode_utf8(&mut buf));
    (bytes.into_owned(), had_errors)
}

/// The 13-bit kanji-mode value of a Shift JIS double-byte code: codes in
/// 0x8140..=0x9FFC lose 0x8140, codes in 0xE040..=0xEBBF lose 0xC140, and
/// the result is (high byte) * 0xC0 + (low byte). Other codes have none.
pub open spec fn kanji_code_value(code: int) -> Option<u16> {
    if 0x8140 <= code <= 0x9FFC {
        let d = code - 0x8140;
        Some(((d / 256) * 0xC0 + d % 256) as u16)
    } else if 0xE040 <= code <= 0xEBBF {
        let d = code - 0xC140;
        Some(((d / 256) * 0xC0 + d % 256) as u16)
    } else {
        None
    }
}

/// Kanji-mode value of a character whose Shift JIS encoding is `bytes`
/// (`unmappable` when it has none): defined for a double-byte code in one
/// of the two kanji ranges.
pub open spec fn kanji_value_from(bytes: Seq<u8>, unmappable: bool) -> Option<u16> {
    if unmappable || bytes.len() != 2 {
        None
    } else {
        kanji_code_value(bytes[0] * 256 + bytes[1])
    }
}

/// Kanji-mode value of `c`: defined when `c` has a double-byte Shift JIS
/// code in one of the two kanji ranges.
pub open spec fn kanji_value_of(c: char) -> Option<u16> {
    let (bytes, unmappable) = shift_jis_encoding(c);
    kanji_value_from(bytes, unmappable)
}

/// Kanji-mode value of the character whose Shift JIS encoding is `bytes`
/// (`unmappable` when it has none).
pub fn kanji_value_from_shift_jis(bytes: &Vec<u8>, unmappable: bool) -> (r: Option<u16>)
    ensures
        r == kanji_value_from(bytes@, unmappable),
{
    if unmappable || bytes.len() != 2 {
        return None;
    }
    let code: u32 = bytes[0] as u32 * 256 + bytes[1] as u32;
    if 0x8140 <= code && code <= 0x9FFC {
        let d = code - 0x8140;
        Some(((d / 256) * 0xC0 + d % 256) as u16)
    } else if 0xE040 <= code && code <= 0xEBBF {
        let d = code - 0xC140;
        Some(((d / 256) * 0xC0 + d % 256) as u16)
    } else {
        None
    }
}

/// Kanji-mode value of `c`, or `None` if `c` cannot be coded in kanji mode.
pub fn kanji_value(c: char) -> (r: Option<u16>)
    ensures
        r == kanji_value_of(c),
{
    let (bytes, unmappable) = encode_shift_jis(c);
    kanji_value_from_shift_jis(&bytes, unmappable)
}

} // verus!
