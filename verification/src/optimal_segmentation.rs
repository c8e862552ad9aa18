//! Optimal text segmentation: a dynamic program over the characters of the
//! input that finds, for a version block, the split into mode segments with
//! the fewest bits, then the smallest version of the block that holds them.
use std::collections::VecDeque;

use vstd::prelude::*;
use vstd::string::StrSliceExecFns;

use crate::encoding::{mode_of, ECCLevel, Mode};
use crate::errors::QrError;
use crate::lookups;
use crate::segmentation_laws::{
    lemma_first_min, lemma_sealed_cost, lemma_data_bits_bounded, lemma_dp_bounds,
    lemma_dp_table_view, lemma_dp_from_first_column, lemma_trace_last,
    lemma_with_last_end_push, lemma_with_last_end_extend, lemma_dp_cell, lemma_dp_first_cells,
    lemma_traced_segments_are_optimal, lemma_long_input_never_fits,
};
use crate::segmentation_model::{
    cci_bits, block_first, block_last, char_cost_of, ceil6, min4, is_first_min,
    first_min_index, costs_of, sealed_cost, bit_costs, dp_costs, dp_cells, table_view, dp_bits,
    with_last_end, trace, traced_segments, is_partition, modes_alternate, encoded_bits,
    least_fitting_version, block_version, first_fitting_block, chosen_version,
};

verus! {

broadcast use vstd::string::group_string_axioms;

/// Bits of the mode indicator that opens every segment.
pub const MODE_INDICATOR: u8 = 4;

/// Length of input up to which the costs of the dynamic program are proved
/// to fit in `u32` (the program is only run on inputs that some version can
/// hold, at most `MAX_INPUT_CHARS` long). A character adds at
/// most 317 sixths of a bit to the cheapest cost of a column (a 192-sixth
/// character, a 120-sixth header and 5 sixths of padding), so up to this
/// length every cost it computes stays below `u32::MAX`
/// (120 + 317 * 13_500_000 < 2^32).
pub const MAX_DP_CHARS: usize = 13_500_000;

/// Longest input that any version holds: 7089 digits fill version 40 at level L.
pub const MAX_INPUT_CHARS: usize = 7089;

/// Width of the character count indicator for mode code `j` in version block
/// `version_block`.
fn mode_cci(version_block: usize, j: usize) -> (r: u32)
    requires
        version_block < 3,
        j < 4,
    ensures
        r as int == cci_bits(version_block as int, mode_of(j as int)),
{
    let row: [u32; 4] = if version_block == 0 {
        [10, 9, 8, 8]
    } else if version_block == 1 {
        [12, 11, 16, 10]
    } else {
        [14, 13, 16, 12]
    };
    row[j]
}

/// First and last version of version block `version_block`.
fn version_block_range(version_block: usize) -> (r: (u8, u8))
    requires
        version_block < 3,
    ensures
        r.0 as int == block_first(version_block as int),
        r.1 as int == block_last(version_block as int),
{
    if version_block == 0 {
        (1, 9)
    } else if version_block == 1 {
        (10, 26)
    } else {
        (27, 40)
    }
}

/// One cell of the dynamic program: the cheapest way found so far to reach a
/// character with a segment in `mode` still open, and the mode it came from.
#[derive(Debug, Clone, Copy)]
pub struct Cell {
    pub mode: Mode,
    pub cost: u32,
    pub switched_from: Mode,
}

impl Cell {
    pub fn new(mode: Mode, cost: u32, switched_from: Mode) -> (r: Cell)
        ensures
            r == (Cell { mode, cost, switched_from }),
    {
        Cell { mode, cost, switched_from }
    }
}

/// A run of the input coded in one mode: characters `start..=end`.
#[derive(Debug, Clone, Copy)]
pub struct Segment {
    pub mode: Mode,
    pub start: usize,
    pub end: usize,
}

/// The segmentation chosen for an input, with the version that holds it at
/// the requested error-correction level.
#[derive(Debug)]
pub struct OptimalSegment {
    pub mode_hint: Vec<Segment>,
    pub version: u8,
    pub ecc_level: ECCLevel,
}

impl OptimalSegment {
    fn new(version: u8, ecc_level: ECCLevel) -> (r: OptimalSegment)
        ensures
            r.mode_hint@.len() == 0,
            r.version == version,
            r.ecc_level == ecc_level,
    {
        OptimalSegment { mode_hint: Vec::new(), version, ecc_level }
    }

    /// Splits `input` into mode segments with the fewest bits and picks the
    /// smallest version that holds them at `ecc_level`, trying the version
    /// blocks 1..=9, 10..=26 and 27..=40 in turn (their count indicators
    /// differ, so each block has its own best split). The segments returned
    /// split the input in reading order, every character legal in its mode,
    /// and no other split takes fewer bits with the count indicators of the
    /// chosen version; inputs that no version holds are refused with
    /// `InputTooLong`.
    pub fn create_segmentation(input: &str, ecc_level: ECCLevel) -> (r: Result<
        OptimalSegment,
        QrError,
    >)
        ensures
            match r {
                Ok(seg) => {
                    let cs = input@;
                    let b = first_fitting_block(cs, ecc_level);
                    &&& b < 3
                    &&& chosen_version(cs, ecc_level) == Some(seg.version as int)
                    &&& seg.ecc_level == ecc_level
                    &&& seg.mode_hint@ == traced_segments(cs, b)
                    &&& is_partition(cs, seg.mode_hint@, cs.len() as int)
                    &&& modes_alternate(seg.mode_hint@)
                    &&& cs.len() > 0 ==> encoded_bits(cs, b, seg.mode_hint@) == dp_bits(cs, b)
                    &&& forall|segs: Seq<Segment>|
                        is_partition(cs, segs, cs.len() as int) ==> encoded_bits(
                            cs,
                            b,
                            seg.mode_hint@,
                        ) <= #[trigger] encoded_bits(cs, b, segs)
                },
                Err(e) => e == QrError::InputTooLong && chosen_version(input@, ecc_level) is None,
            },
    {
        let optimal_segment = match execute_dp(input, 0, ecc_level) {
            Some(ots) => Some(ots),
            None => match execute_dp(input, 1, ecc_level) {
                Some(ots) => Some(ots),
                None => execute_dp(input, 2, ecc_level),
            },
        };
        match optimal_segment {
            Some(ots) => {
                Ok(ots)
            },
            None => Err(QrError::InputTooLong),
        }
    }
}

/// The column every column of the table starts from: each mode unreached.
pub fn first_column() -> (r: [Cell; 4])
    ensures
        forall|j: int|
            0 <= j < 4 ==> #[trigger] r[j] == (Cell {
                mode: mode_of(j),
                cost: u32::MAX,
                switched_from: mode_of(j),
            }),
{
    [
        Cell { mode: Mode::Numeric, cost: u32::MAX, switched_from: Mode::Numeric },
        Cell { mode: Mode::Alphanumeric, cost: u32::MAX, switched_from: Mode::Alphanumeric },
        Cell { mode: Mode::Byte, cost: u32::MAX, switched_from: Mode::Byte },
        Cell { mode: Mode::Kanji, cost: u32::MAX, switched_from: Mode::Kanji },
    ]
}

/// The characters of `input`, in order.
fn chars_of(input: &str) -> (r: Vec<char>)
    ensures
        r@ == input@,
{
    let mut chars: Vec<char> = Vec::new();
    for c in it: input.chars()
        invariant
            chars@ == it.seq().take(it.index() as int),
    {
        chars.push(c);
    }
    chars
}

/// Runs the dynamic program on `input` for version block `version_block` and
/// picks the least version of the block that holds the result, if any.
pub fn execute_dp(input: &str, version_block: usize, ecc_level: ECCLevel) -> (r: Option<
    OptimalSegment,
>)
    requires
        version_block < 3,
    ensures
        match r {
            Some(seg) => {
                let cs = input@;
                let b = version_block as int;
                &&& block_version(cs, b, ecc_level) == Some(seg.version as int)
                &&& seg.ecc_level == ecc_level
                &&& seg.mode_hint@ == traced_segments(cs, b)
                &&& is_partition(cs, seg.mode_hint@, cs.len() as int)
                &&& modes_alternate(seg.mode_hint@)
                &&& cs.len() > 0 ==> encoded_bits(cs, b, seg.mode_hint@) == dp_bits(cs, b)
                &&& forall|segs: Seq<Segment>|
                    is_partition(cs, segs, cs.len() as int) ==> encoded_bits(
                        cs,
                        b,
                        seg.mode_hint@,
                    ) <= #[trigger] encoded_bits(cs, b, segs)
            },
            None => block_version(input@, version_block as int, ecc_level) is None,
        },
{
    let ghost cs = input@;
    let ghost b = version_block as int;
    // no version holds more characters than this, so there is nothing to search
    if input.unicode_len() > MAX_INPUT_CHARS {
        proof {
            lemma_long_input_never_fits(cs, ecc_level);
        }
        return None;
    }
    let version = first_version(version_block);
    let dp_column = first_column();
    let chars = chars_of(input);
    let input_size = chars.len();

    let mut first = dp_column;
    for j in 0..4
        invariant
            version_block < 3,
            b == version_block as int,
            forall|k: int|
                0 <= k < j ==> #[trigger] first[k] == dp_cells(cs, b, 0)[k],
            forall|k: int| j <= k < 4 ==> #[trigger] first[k] == dp_column[k],
            forall|k: int|
                0 <= k < 4 ==> #[trigger] dp_column[k] == (Cell {
                    mode: mode_of(k),
                    cost: u32::MAX,
                    switched_from: mode_of(k),
                }),
    {
        let cost = (MODE_INDICATOR as u32 + mode_cci(version_block, j)) * 6;
        first[j] = Cell::new(first[j].mode, cost, first[j].switched_from);
        proof {
            lemma_dp_first_cells(cs, b, j as int);
        }
    }
    let mut dp_table: Vec<[Cell; 4]> = Vec::new();
    dp_table.push(first);

    // iterate over the characters, one column each
    let mut i: usize = 1;
    while i <= input_size
        invariant
            version_block < 3,
            cs == input@,
            b == version_block as int,
            chars@ == cs,
            input_size == cs.len(),
            input_size <= MAX_DP_CHARS,
            1 <= i <= input_size + 1,
            dp_table@.len() == i,
            forall|k: int, j: int|
                0 <= k < i && 0 <= j < 4 ==> #[trigger] dp_table@[k][j] == dp_cells(
                    cs,
                    b,
                    k as nat,
                )[j],
            forall|k: int|
                0 <= k < 4 ==> #[trigger] dp_column[k] == (Cell {
                    mode: mode_of(k),
                    cost: u32::MAX,
                    switched_from: mode_of(k),
                }),
        decreases input_size + 1 - i,
    {
        let prev = dp_table[i - 1];
        proof {
            lemma_dp_bounds(cs, b, (i - 1) as nat);
            assert(costs_of(prev@) =~= dp_costs(cs, b, (i - 1) as nat));
        }
        // the cheapest way to close a segment after the previous character
        let min_seal = min_seal(&prev);
        let mut column = dp_column;
        for j in 0..4
            invariant
                version_block < 3,
                b == version_block as int,
                1 <= i <= cs.len(),
                chars@ == cs,
                forall|k: int|
                    0 <= k < 4 ==> #[trigger] prev[k] == dp_cells(cs, b, (i - 1) as nat)[k],
                costs_of(prev@) == dp_costs(cs, b, (i - 1) as nat),
                min_seal.cost as int == sealed_cost(dp_costs(cs, b, (i - 1) as nat)),
                min_seal.mode == mode_of(first_min_index(bit_costs(dp_costs(cs, b, (i - 1) as nat)))),
                min4(dp_costs(cs, b, (i - 1) as nat)) <= 120 + 317 * (i - 1),
                i <= MAX_DP_CHARS,
                forall|k: int|
                    0 <= k < j ==> #[trigger] column[k] == dp_cells(cs, b, i as nat)[k],
                forall|k: int| j <= k < 4 ==> #[trigger] column[k] == dp_column[k],
                forall|k: int|
                    0 <= k < 4 ==> #[trigger] dp_column[k] == (Cell {
                        mode: mode_of(k),
                        cost: u32::MAX,
                        switched_from: mode_of(k),
                    }),
        {
            proof {
                lemma_dp_cell(cs, b, i as nat, j as int);
            }
            let char_cost = char_cost(chars[i - 1], column[j].mode);
            match char_cost {
                None => {},
                Some(char_cost) => {
                    let seal_cost = min_seal.cost + (MODE_INDICATOR as u32 + mode_cci(
                        version_block,
                        j,
                    )) * 6;
                    let extend_cost = prev[j].cost;
                    if seal_cost < extend_cost {
                        // switching modes is cheaper
                        column[j] = Cell::new(column[j].mode, seal_cost + char_cost, min_seal.mode);
                    } else {
                        // extending the open segment is cheaper
                        column[j] = Cell::new(column[j].mode, extend_cost + char_cost, prev[j].mode);
                    }
                },
            }
        }
        dp_table.push(column);
        i = i + 1;
    }

    let last = dp_table[input_size];
    proof {
        lemma_dp_bounds(cs, b, input_size as nat);
        assert(costs_of(last@) =~= dp_costs(cs, b, input_size as nat));
    }
    let min_index = min_mode(&last);
    let min_cost = div_ceil6(last[min_index].cost);

    let mut optimal_segmentation = OptimalSegment::new(version, ecc_level);

    // find the least version of the block that holds `min_cost` bits
    let (min_ver, max_ver) = version_block_range(version_block);
    let ghost bits = ceil6(min4(dp_costs(cs, b, input_size as nat)));
    let mut lowest_ver: Option<u8> = None;
    let mut v = min_ver;
    while lowest_ver.is_none() && v <= max_ver
        invariant
            version_block < 3,
            min_ver as int == block_first(b),
            max_ver as int == block_last(b),
            min_ver <= v <= max_ver + 1,
            min_cost as int == bits,
            optimal_segmentation.ecc_level == ecc_level,
            lowest_ver is None ==> least_fitting_version(min_ver as int, max_ver as int, ecc_level, bits)
                == least_fitting_version(v as int, max_ver as int, ecc_level, bits),
            lowest_ver matches Some(w) ==> least_fitting_version(
                min_ver as int,
                max_ver as int,
                ecc_level,
                bits,
            ) == Some(w as int),
        decreases max_ver + 1 - v,
    {
        proof {
            lemma_data_bits_bounded(v as int, ecc_level);
        }
        if min_cost <= lookups::version_data_bits(v as usize, optimal_segmentation.ecc_level).unwrap() as u32 {
            lowest_ver = Some(v);
        }
        v = v + 1;
    }

    if lowest_ver.is_none() {
        return None;
    }
    optimal_segmentation.version = lowest_ver.unwrap();
    proof {
        lemma_dp_table_view(cs, b, dp_table@);
        lemma_dp_from_first_column(cs, b);
    }
    optimal_segmentation.mode_hint = construct_optimal_segment(&dp_table, input_size, min_index);
    proof {
        lemma_traced_segments_are_optimal(cs, b);
    }

    return Some(optimal_segmentation);
}

/// Reads the segments back from the table, from the cell `min_index` of
/// column `input_size` to the first character. The table needs a column for
/// each of `0..=input_size`, and no cell of column 1 may be reached from
/// another mode (no segment can close before the first character).
fn construct_optimal_segment(dp_table: &Vec<[Cell; 4]>, input_size: usize, min_index: usize) -> (r:
    Vec<Segment>)
    requires
        dp_table@.len() > input_size,
        min_index < 4,
        input_size >= 1 ==> forall|j: int|
            0 <= j < 4 ==> (#[trigger] dp_table@[1][j]).switched_from == dp_table@[1][j].mode,
    ensures
        r@ == trace(table_view(dp_table@), input_size as nat, min_index as int),
{
    // nothing to trace back through, and the final push below would underflow
    if input_size == 0 {
        return Vec::new();
    }
    let ghost tbl = table_view(dp_table@);
    let ghost full = trace(tbl, input_size as nat, min_index as int);

    let mut opt_seg: VecDeque<Segment> = VecDeque::with_capacity(input_size);
    let mut current_index = min_index;
    let mut start_cursor = input_size;
    // `end_cursor` is one past the last character of the segment being traced.
    let mut end_cursor = input_size;
    proof {
        lemma_trace_last(tbl, input_size as nat, min_index as int);
    }
    while start_cursor > 0
        invariant
            dp_table@.len() > input_size,
            tbl == table_view(dp_table@),
            forall|j: int|
                0 <= j < 4 ==> (#[trigger] dp_table@[1][j]).switched_from == dp_table@[1][j].mode,
            full == trace(tbl, input_size as nat, min_index as int),
            start_cursor <= end_cursor <= input_size,
            1 <= end_cursor,
            current_index < 4,
            start_cursor >= 1 ==> full == with_last_end(
                trace(tbl, start_cursor as nat, current_index as int),
                end_cursor - 1,
            ) + opt_seg@,
            start_cursor == 0 ==> full == seq![
                Segment {
                    mode: dp_table@[0][current_index as int].mode,
                    start: 0,
                    end: (end_cursor - 1) as usize,
                },
            ] + opt_seg@,
        decreases start_cursor,
    {
        let cell = dp_table[start_cursor][current_index];
        proof {
            assert(tbl[start_cursor as int][current_index as int] == cell);
        }
        // a cell that came from a different mode is where this segment begins
        if cell.switched_from != cell.mode {
            let ghost old_deque = opt_seg@;
            opt_seg.push_front(
                Segment { mode: cell.mode, start: start_cursor - 1, end: end_cursor - 1 },
            );
            proof {
                lemma_trace_last(tbl, (start_cursor - 1) as nat, cell.switched_from.code());
                lemma_with_last_end_push(
                    trace(tbl, (start_cursor - 1) as nat, cell.switched_from.code()),
                    Segment {
                        mode: cell.mode,
                        start: (start_cursor - 1) as usize,
                        end: (start_cursor - 1) as usize,
                    },
                    end_cursor - 1,
                );
            }
            // the previous segment ends on the character before this one
            end_cursor = start_cursor - 1;
            current_index = cell.switched_from.mode_code() as usize;
        } else {
            proof {
                if start_cursor >= 2 {
                    lemma_trace_last(tbl, (start_cursor - 1) as nat, current_index as int);
                    lemma_with_last_end_extend(
                        trace(tbl, (start_cursor - 1) as nat, current_index as int),
                        end_cursor - 1,
                    );
                }
            }
        }
        start_cursor -= 1;
    }
    opt_seg.push_front(Segment { mode: dp_table[0][current_index].mode, start: 0, end: end_cursor - 1 });

    // backtracking collected the segments last to first
    let mut result: Vec<Segment> = Vec::new();
    let mut k: usize = 0;
    while k < opt_seg.len()
        invariant
            k <= opt_seg@.len(),
            result@ == opt_seg@.take(k as int),
        decreases opt_seg@.len() - k,
    {
        result.push(opt_seg[k]);
        k += 1;
    }
    proof {
        assert(result@ =~= opt_seg@);
    }
    result
}

/// `x` sixths of a bit rounded up to whole bits.
fn div_ceil6(x: u32) -> (r: u32)
    ensures
        r as int == ceil6(x as int),
{
    x / 6 + if x % 6 == 0 {
        0
    } else {
        1
    }
}

/// Index of the cheapest cell of `column` (the first one, on a tie).
pub fn min_mode(column: &[Cell; 4]) -> (r: usize)
    ensures
        is_first_min(costs_of(column@), r as int),
        r as int == first_min_index(costs_of(column@)),
{
    let mut best: usize = 0;
    let mut j: usize = 1;
    while j < 4
        invariant
            1 <= j <= 4,
            best < j,
            forall|i: int| 0 <= i < j ==> column[best as int].cost <= #[trigger] column[i].cost,
            forall|i: int| 0 <= i < best ==> column[best as int].cost < #[trigger] column[i].cost,
        decreases 4 - j,
    {
        if column[j].cost < column[best].cost {
            best = j;
        }
        j += 1;
    }
    proof {
        lemma_first_min(costs_of(column@), best as int);
    }
    best
}

/// Cost of encoding `c` in `mode`, in sixths of a bit (the unit the whole DP works in).
/// Returns `None` when the character is not representable in that mode.
pub fn char_cost(c: char, mode: Mode) -> (r: Option<u32>)
    ensures
        r == char_cost_of(c, mode),
{
    reveal(char_cost_of);
    match mode {
        Mode::Numeric => if '0' <= c && c <= '9' {
            Some(20)
        } else {
            None
        },
        Mode::Alphanumeric => match lookups::alphanumeric_value(c) {
            Some(_) => Some(33),
            None => None,
        },
        Mode::Byte => Some(utf8_len(c) * 48),
        Mode::Kanji => match lookups::kanji_value(c) {
            Some(_) => Some(78),
            None => None,
        },
    }
}

/// Number of bytes of the UTF-8 encoding of `c`.
fn utf8_len(c: char) -> (r: u32)
    ensures
        r as int == crate::segmentation_model::utf8_len(c),
        1 <= r <= 4,
{
    let v = c as u32;
    if v < 0x80 {
        1
    } else if v < 0x800 {
        2
    } else if v < 0x10000 {
        3
    } else {
        4
    }
}

/// Closes the cheapest segment of `column`: the cell whose cost needs the
/// fewest whole bits (the first one, on a tie), with its cost padded to a
/// whole bit.
pub fn min_seal(column: &[Cell; 4]) -> (r: Cell)
    requires
        sealed_cost(costs_of(column@)) <= u32::MAX,
    ensures
        ({
            let k = first_min_index(bit_costs(costs_of(column@)));
            &&& is_first_min(bit_costs(costs_of(column@)), k)
            &&& r.mode == column[k].mode
            &&& r.switched_from == column[k].switched_from
            &&& r.cost as int == 6 * ceil6(column[k].cost as int)
            &&& r.cost as int == sealed_cost(costs_of(column@))
        }),
{
    let mut best: usize = 0;
    let mut best_key = div_ceil6(column[0].cost);
    let mut j: usize = 1;
    while j < 4
        invariant
            1 <= j <= 4,
            best < j,
            best_key as int == ceil6(column[best as int].cost as int),
            forall|i: int|
                0 <= i < j ==> best_key <= #[trigger] ceil6(column[i].cost as int),
            forall|i: int|
                0 <= i < best ==> best_key < #[trigger] ceil6(column[i].cost as int),
        decreases 4 - j,
    {
        let key = div_ceil6(column[j].cost);
        if key < best_key {
            best = j;
            best_key = key;
        }
        j += 1;
    }
    proof {
        let keys = bit_costs(costs_of(column@));
        assert(forall|i: int| 0 <= i < 4 ==> keys[i] == ceil6(column[i].cost as int));
        lemma_first_min(keys, best as int);
        lemma_sealed_cost(costs_of(column@), best as int);
    }
    let min_cell = column[best];
    Cell { mode: min_cell.mode, cost: best_key * 6, switched_from: min_cell.switched_from }
}

/// First version of version block `version_block`.
fn first_version(version_block: usize) -> (r: u8)
    requires
        version_block < 3,
    ensures
        r as int == block_first(version_block as int),
{
    version_block_range(version_block).0
}

} // verus!
