//! The mathematical model of optimal text segmentation: what a character
//! costs in each mode, the dynamic program over prefixes of the input, the
//! segments read back from it, and what a segmentation costs in bits.
//!
//! Costs are counted in sixths of a bit, the unit in which every mode's
//! per-character cost is whole (numeric 10/3 bits, alphanumeric 11/2, byte 8,
//! kanji 13).
use vstd::prelude::*;

use crate::encoding::{mode_of, ECCLevel, Mode};
use crate::lookups::{alphanumeric_value_of, data_bits, kanji_value_of};
use crate::optimal_segmentation::{Cell, Segment};

verus! {

/// Width, in bits, of the character count indicator of mode `m` in version
/// block `block` (0: versions 1..=9, 1: 10..=26, 2: 27..=40).
pub open spec fn cci_bits(block: int, m: Mode) -> int {
    let j = m.code();
    if block == 0 {
        seq![10int, 9, 8, 8][j]
    } else if block == 1 {
        seq![12int, 11, 16, 10][j]
    } else {
        seq![14int, 13, 16, 12][j]
    }
}

/// First version of version block `block`.
pub open spec fn block_first(block: int) -> int {
    if block == 0 {
        1
    } else if block == 1 {
        10
    } else {
        27
    }
}

/// Last version of version block `block`.
pub open spec fn block_last(block: int) -> int {
    if block == 0 {
        9
    } else if block == 1 {
        26
    } else {
        40
    }
}

/// Bits of a segment header in mode `m`: the 4-bit mode indicator and the
/// character count indicator.
pub open spec fn header_bits(block: int, m: Mode) -> int {
    4 + cci_bits(block, m)
}

/// A segment header in sixths of a bit.
pub open spec fn header_sixths(block: int, m: Mode) -> int {
    6 * header_bits(block, m)
}

/// Number of bytes of the UTF-8 encoding of `c`.
pub open spec fn utf8_len(c: char) -> int {
    let v = c as u32;
    if v < 0x80 {
        1
    } else if v < 0x800 {
        2
    } else if v < 0x10000 {
        3
    } else {
        4
    }
}

/// Cost of coding `c` in mode `m`, in sixths of a bit, or `None` when `m`
/// cannot represent `c`: numeric takes the digits at 20 (10/3 bits),
/// alphanumeric its 45 characters at 33 (11/2 bits), byte every character at
/// 48 (8 bits) per UTF-8 byte, kanji the Shift JIS double bytes at 78 (13 bits).
pub open spec fn char_cost_of(c: char, m: Mode) -> Option<u32> {
    match m {
        Mode::Numeric => if 48 <= (c as u32) <= 57 {
            Some(20u32)
        } else {
            None
        },
        Mode::Alphanumeric => if alphanumeric_value_of(c) is Some {
            Some(33u32)
        } else {
            None
        },
        Mode::Byte => Some((48 * utf8_len(c)) as u32),
        Mode::Kanji => if kanji_value_of(c) is Some {
            Some(78u32)
        } else {
            None
        },
    }
}

/// Whether mode `m` can represent `c`.
pub open spec fn representable(c: char, m: Mode) -> bool {
    char_cost_of(c, m) is Some
}

/// Cost of `c` in mode `m`, in sixths of a bit (0 where `m` cannot represent `c`).
pub open spec fn char_sixths(c: char, m: Mode) -> int {
    match char_cost_of(c, m) {
        Some(x) => x as int,
        None => 0,
    }
}

/// Whole bits needed for `x` sixths of a bit.
pub open spec fn ceil6(x: int) -> int {
    (x + 5) / 6
}

/// Least of the first four entries of `k`.
pub open spec fn min4(k: Seq<int>) -> int {
    let a = if k[0] <= k[1] {
        k[0]
    } else {
        k[1]
    };
    let b = if k[2] <= k[3] {
        k[2]
    } else {
        k[3]
    };
    if a <= b {
        a
    } else {
        b
    }
}

/// `r` is the first index among the four entries of `k` that holds their least value.
pub open spec fn is_first_min(k: Seq<int>, r: int) -> bool {
    &&& 0 <= r < 4
    &&& forall|i: int| 0 <= i < 4 ==> k[r] <= #[trigger] k[i]
    &&& forall|i: int| 0 <= i < r ==> k[r] < #[trigger] k[i]
}

/// The first index among the four entries of `k` that holds their least value.
pub open spec fn first_min_index(k: Seq<int>) -> int {
    if k[0] <= k[1] && k[0] <= k[2] && k[0] <= k[3] {
        0
    } else if k[1] <= k[2] && k[1] <= k[3] {
        1
    } else if k[2] <= k[3] {
        2
    } else {
        3
    }
}

/// The costs of the four cells of a column.
pub open spec fn costs_of(column: Seq<Cell>) -> Seq<int> {
    Seq::new(4, |j: int| column[j].cost as int)
}

/// The cost marking a cell that no segmentation reaches.
pub open spec fn unreachable_cost() -> int {
    u32::MAX as int
}

/// The cost of closing the cheapest segment of a column: its cost rounded up
/// to a whole bit.
pub open spec fn sealed_cost(prev: Seq<int>) -> int {
    6 * ceil6(min4(prev))
}

/// Whole bits of each of the four costs of a column.
pub open spec fn bit_costs(prev: Seq<int>) -> Seq<int> {
    Seq::new(4, |j: int| ceil6(prev[j]))
}

/// Cost of closing the cheapest segment of the previous column and opening
/// one in mode `j`.
pub open spec fn switch_cost(prev: Seq<int>, block: int, j: int) -> int {
    sealed_cost(prev) + header_sixths(block, mode_of(j))
}

/// Whether the cell in mode `j` after a column with costs `prev` is reached
/// by opening a new segment (rather than by extending the one in mode `j`).
pub open spec fn switches(prev: Seq<int>, c: char, block: int, j: int) -> bool {
    representable(c, mode_of(j)) && switch_cost(prev, block, j) < prev[j]
}

/// Cost of the cell in mode `j` that codes `c` after a column with costs `prev`.
pub open spec fn step_cost(prev: Seq<int>, c: char, block: int, j: int) -> int {
    match char_cost_of(c, mode_of(j)) {
        None => unreachable_cost(),
        Some(x) => if switch_cost(prev, block, j) < prev[j] {
            switch_cost(prev, block, j) + x
        } else {
            prev[j] + x
        },
    }
}

/// `dp_costs(cs, block, i)[j]`: the least cost, in sixths of a bit, of coding
/// `cs[0..i)` so that the last segment is in mode `j` and still open (its
/// characters not yet rounded up to a whole bit); `unreachable_cost()` when
/// `cs[i - 1]` cannot be coded in mode `j`.
pub open spec fn dp_costs(cs: Seq<char>, block: int, i: nat) -> Seq<int>
    decreases i,
{
    if i == 0 {
        Seq::new(4, |j: int| header_sixths(block, mode_of(j)))
    } else {
        let prev = dp_costs(cs, block, (i - 1) as nat);
        Seq::new(4, |j: int| step_cost(prev, cs[i - 1], block, j))
    }
}

/// The mode of the cell that the cell in mode `j` of column `i` was reached from.
pub open spec fn dp_from(cs: Seq<char>, block: int, i: nat, j: int) -> Mode {
    if i == 0 {
        mode_of(j)
    } else {
        let prev = dp_costs(cs, block, (i - 1) as nat);
        if switches(prev, cs[i - 1], block, j) {
            mode_of(first_min_index(bit_costs(prev)))
        } else {
            mode_of(j)
        }
    }
}

/// Column `i` of the dynamic program, as cells.
pub open spec fn dp_cells(cs: Seq<char>, block: int, i: nat) -> Seq<Cell> {
    Seq::new(
        4,
        |j: int|
            Cell {
                mode: mode_of(j),
                cost: dp_costs(cs, block, i)[j] as u32,
                switched_from: dp_from(cs, block, i, j),
            },
    )
}

/// The whole table of the dynamic program: one column per prefix of `cs`.
pub open spec fn dp_table(cs: Seq<char>, block: int) -> Seq<Seq<Cell>> {
    Seq::new(cs.len() + 1, |i: int| dp_cells(cs, block, i as nat))
}

/// The cells of a table of columns.
pub open spec fn table_view(t: Seq<[Cell; 4]>) -> Seq<Seq<Cell>> {
    Seq::new(t.len(), |i: int| t[i]@)
}

/// Least header of a segment in version block `block`, in sixths of a bit.
pub open spec fn min_header_sixths(block: int) -> int {
    if block == 0 {
        72
    } else if block == 1 {
        84
    } else {
        96
    }
}

/// The mode in which the cheapest coding of all of `cs` ends.
pub open spec fn best_final_mode(cs: Seq<char>, block: int) -> int {
    first_min_index(dp_costs(cs, block, cs.len()))
}

/// Bits of the cheapest coding of `cs` in version block `block`.
pub open spec fn dp_bits(cs: Seq<char>, block: int) -> int {
    ceil6(min4(dp_costs(cs, block, cs.len())))
}

/// `segs` with its last segment one character longer.
pub open spec fn extend_last(segs: Seq<Segment>) -> Seq<Segment> {
    let last = segs.last();
    segs.update(segs.len() - 1, Segment { mode: last.mode, start: last.start, end: (last.end + 1) as usize })
}

/// `segs` with its last segment ending at `end`.
pub open spec fn with_last_end(segs: Seq<Segment>, end: int) -> Seq<Segment> {
    let last = segs.last();
    segs.update(segs.len() - 1, Segment { mode: last.mode, start: last.start, end: end as usize })
}

/// The segments of `cs[0..i)` read back from `table` by following the links
/// of the cells from the cell `j` of column `i`: a cell whose mode differs
/// from the mode it was reached from opens a segment on its character, in its
/// mode; the link leads on to the cell of the mode it was reached from. The
/// first segment takes the mode of the cell of column 0 that the links end on.
pub open spec fn trace(table: Seq<Seq<Cell>>, i: nat, j: int) -> Seq<Segment>
    decreases i,
{
    if i == 0 {
        seq![]
    } else if i == 1 {
        seq![Segment { mode: table[0][j].mode, start: 0, end: 0 }]
    } else {
        let cell = table[i as int][j];
        if cell.switched_from != cell.mode {
            trace(table, (i - 1) as nat, cell.switched_from.code()).push(
                Segment { mode: cell.mode, start: (i - 1) as usize, end: (i - 1) as usize },
            )
        } else {
            extend_last(trace(table, (i - 1) as nat, j))
        }
    }
}

/// The segmentation that the dynamic program chooses for `cs`.
pub open spec fn traced_segments(cs: Seq<char>, block: int) -> Seq<Segment> {
    trace(dp_table(cs, block), cs.len(), best_final_mode(cs, block))
}

/// `segs` splits `cs[0..n)` into non-empty runs in reading order, each
/// character representable in the mode of its run.
pub open spec fn is_partition(cs: Seq<char>, segs: Seq<Segment>, n: int) -> bool {
    &&& 0 <= n <= cs.len()
    &&& (n == 0 <==> segs.len() == 0)
    &&& segs.len() > 0 ==> segs[0].start == 0 && segs.last().end == n - 1
    &&& forall|k: int| 0 <= k < segs.len() ==> #[trigger] segs[k].start <= segs[k].end
    &&& forall|k: int|
        #![trigger segs[k], segs[k + 1]]
        0 <= k < segs.len() - 1 ==> segs[k + 1].start == segs[k].end + 1
    &&& forall|k: int, p: int|
        0 <= k < segs.len() && segs[k].start <= p <= segs[k].end ==> representable(
            #[trigger] cs[p],
            #[trigger] segs[k].mode,
        )
}

/// Neighbouring segments of `segs` are in different modes.
pub open spec fn modes_alternate(segs: Seq<Segment>) -> bool {
    forall|k: int|
        #![trigger segs[k], segs[k + 1]]
        0 <= k < segs.len() - 1 ==> segs[k].mode != segs[k + 1].mode
}

/// Sixths of a bit of the characters `cs[lo..hi)` in mode `m`.
pub open spec fn char_sum(cs: Seq<char>, m: Mode, lo: int, hi: int) -> int
    decreases hi - lo,
{
    if hi <= lo {
        0
    } else {
        char_sum(cs, m, lo, hi - 1) + char_sixths(cs[hi - 1], m)
    }
}

/// Bits of the segment `s` of `cs`: its header and its characters, rounded up
/// to a whole bit.
pub open spec fn segment_bits(cs: Seq<char>, block: int, s: Segment) -> int {
    header_bits(block, s.mode) + ceil6(char_sum(cs, s.mode, s.start as int, s.end + 1))
}

/// Bits of the data stream that codes `cs` as the segments `segs`.
pub open spec fn encoded_bits(cs: Seq<char>, block: int, segs: Seq<Segment>) -> int
    decreases segs.len(),
{
    if segs.len() == 0 {
        0
    } else {
        encoded_bits(cs, block, segs.drop_last()) + segment_bits(cs, block, segs.last())
    }
}

/// Sixths of a bit of `segs` with the last segment still open: the earlier
/// segments in whole bits, the last one's characters not yet rounded.
pub open spec fn open_cost(cs: Seq<char>, block: int, segs: Seq<Segment>) -> int {
    if segs.len() == 0 {
        0
    } else {
        let last = segs.last();
        6 * encoded_bits(cs, block, segs.drop_last()) + header_sixths(block, last.mode) + char_sum(
            cs,
            last.mode,
            last.start as int,
            last.end + 1,
        )
    }
}

/// Version `version` at level `level` holds `bits` data bits.
pub open spec fn fits(version: int, level: ECCLevel, bits: int) -> bool {
    bits <= data_bits(version, level)
}

/// The least version in `lo..=hi` that holds `bits` data bits at `level`.
pub open spec fn least_fitting_version(lo: int, hi: int, level: ECCLevel, bits: int) -> Option<int>
    decreases hi - lo + 1,
{
    if lo > hi {
        None
    } else if fits(lo, level, bits) {
        Some(lo)
    } else {
        least_fitting_version(lo + 1, hi, level, bits)
    }
}

/// The least version of block `block` that holds the cheapest coding of `cs`
/// for that block.
pub open spec fn block_version(cs: Seq<char>, block: int, level: ECCLevel) -> Option<int> {
    least_fitting_version(block_first(block), block_last(block), level, dp_bits(cs, block))
}

/// The first version block in which `cs` fits at `level`, or 3 if none.
pub open spec fn first_fitting_block(cs: Seq<char>, level: ECCLevel) -> int {
    if block_version(cs, 0, level) is Some {
        0
    } else if block_version(cs, 1, level) is Some {
        1
    } else if block_version(cs, 2, level) is Some {
        2
    } else {
        3
    }
}

/// The version chosen for `cs` at `level`, or `None` if no version holds it.
pub open spec fn chosen_version(cs: Seq<char>, level: ECCLevel) -> Option<int> {
    let b = first_fitting_block(cs, level);
    if b < 3 {
        block_version(cs, b, level)
    } else {
        None
    }
}

} // verus!
