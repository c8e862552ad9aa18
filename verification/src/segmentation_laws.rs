//! What holds of the dynamic program and of the segments read back from it:
//! its costs stay in range, the segments split the input in reading order
//! with every character legal in its mode, and no other split of the input
//! takes fewer bits.
use vstd::prelude::*;

use crate::encoding::{mode_of, ECCLevel, Mode};
use crate::lookups::data_bits;
use crate::optimal_segmentation::{Cell, Segment, MAX_DP_CHARS, MAX_INPUT_CHARS};
use crate::segmentation_model::{
    block_first, block_last, header_bits, header_sixths, char_cost_of, representable,
    char_sixths, ceil6, min4, is_first_min, first_min_index, unreachable_cost, sealed_cost,
    bit_costs, switch_cost, switches, step_cost, dp_costs, dp_from, dp_cells, dp_table,
    table_view, min_header_sixths, best_final_mode, dp_bits, extend_last, with_last_end, trace,
    traced_segments, is_partition, modes_alternate, char_sum, encoded_bits, open_cost, fits,
    least_fitting_version, block_version, first_fitting_block, chosen_version,
};

verus! {

/// The index that `first_min_index` picks is the first that holds the least value.
pub proof fn lemma_first_min(k: Seq<int>, r: int)
    requires
        k.len() >= 4,
        is_first_min(k, r),
    ensures
        r == first_min_index(k),
        is_first_min(k, first_min_index(k)),
        k[r] == min4(k),
{
    assert(k[r] <= k[0] && k[r] <= k[1] && k[r] <= k[2] && k[r] <= k[3]);
    if r > 0 {
        assert(k[r] < k[0]);
    }
    if r > 1 {
        assert(k[r] < k[1]);
    }
    if r > 2 {
        assert(k[r] < k[2]);
    }
}

/// `first_min_index` picks the first index that holds the least value.
pub proof fn lemma_first_min_index(k: Seq<int>)
    requires
        k.len() >= 4,
    ensures
        is_first_min(k, first_min_index(k)),
        k[first_min_index(k)] == min4(k),
{
    let r = first_min_index(k);
    assert forall|i: int| 0 <= i < 4 implies k[r] <= #[trigger] k[i] by {
        assert(i == 0 || i == 1 || i == 2 || i == 3);
    }
    assert forall|i: int| 0 <= i < r implies k[r] < #[trigger] k[i] by {
        assert(i == 0 || i == 1 || i == 2);
    }
}

/// Rounding up to whole bits keeps the order of costs.
pub proof fn lemma_ceil6_monotone(x: int, y: int)
    requires
        x <= y,
    ensures
        ceil6(x) <= ceil6(y),
{
}

/// Adding whole bits to a cost adds them to its rounded value.
pub proof fn lemma_ceil6_shift(x: int, m: int)
    ensures
        ceil6(x + 6 * m) == ceil6(x) + m,
{
}

/// The cell with the fewest whole bits closes at the cost of the cheapest cell.
pub proof fn lemma_sealed_cost(costs: Seq<int>, k: int)
    requires
        costs.len() >= 4,
        is_first_min(bit_costs(costs), k),
    ensures
        sealed_cost(costs) == 6 * ceil6(costs[k]),
        min4(costs) <= costs[k],
{
    let keys = bit_costs(costs);
    lemma_first_min_index(costs);
    let m = first_min_index(costs);
    assert(keys[m] == ceil6(costs[m]));
    assert(keys[k] <= keys[m]);
    assert(keys[k] == ceil6(costs[k]));
    lemma_ceil6_monotone(costs[m], costs[k]);
    assert(costs[m] <= costs[k]);
}

/// Every version holds at most 23648 data bits (40-L); versions 1..=9 at
/// most 1856 and versions 1..=26 at most 10960.
pub proof fn lemma_data_bits_bounded(version: int, level: ECCLevel)
    requires
        1 <= version <= 40,
    ensures
        0 < data_bits(version, level) <= 23648,
        version <= 9 ==> data_bits(version, level) <= 1856,
        version <= 26 ==> data_bits(version, level) <= 10960,
{
}

/// A character costs 20 to 192 sixths of a bit in any mode that takes it,
/// and byte mode takes every character.
pub proof fn lemma_char_cost_range(c: char, m: Mode)
    ensures
        representable(c, Mode::Byte),
        representable(c, m) ==> 20 <= char_sixths(c, m) <= 192,
{
    reveal(char_cost_of);
}

/// Headers cost between `min_header_sixths(block)` and 120 sixths of a bit.
proof fn lemma_header_range(block: int, j: int)
    requires
        0 <= block < 3,
        0 <= j < 4,
    ensures
        min_header_sixths(block) <= header_sixths(block, mode_of(j)) <= 120,
{
}

/// The costs of the dynamic program grow by 20 to 317 sixths of a bit per
/// character: each reachable cell of column `i` lies between
/// `min_header_sixths(block) + 20 * i` and `120 + 317 * i`, and the byte
/// cell is always reachable.
pub proof fn lemma_dp_bounds(cs: Seq<char>, block: int, i: nat)
    requires
        0 <= block < 3,
        i <= cs.len(),
        i <= MAX_DP_CHARS,
    ensures
        dp_costs(cs, block, i).len() == 4,
        forall|j: int|
            0 <= j < 4 ==> #[trigger] dp_costs(cs, block, i)[j] == unreachable_cost() || (
            min_header_sixths(block) + 20 * i <= dp_costs(cs, block, i)[j] <= 120 + 317 * i),
        dp_costs(cs, block, i)[2] <= 120 + 317 * i,
        min_header_sixths(block) + 20 * i <= min4(dp_costs(cs, block, i)) <= 120 + 317 * i,
        sealed_cost(dp_costs(cs, block, i)) <= min4(dp_costs(cs, block, i)) + 5,
        sealed_cost(dp_costs(cs, block, i)) >= min4(dp_costs(cs, block, i)),
    decreases i,
{
    let cur = dp_costs(cs, block, i);
    if i == 0 {
        assert forall|j: int| 0 <= j < 4 implies #[trigger] cur[j] == unreachable_cost() || (
        min_header_sixths(block) + 20 * i <= cur[j] <= 120 + 317 * i) by {
            lemma_header_range(block, j);
        }
        lemma_header_range(block, 2);
    } else {
        lemma_dp_bounds(cs, block, (i - 1) as nat);
        let prev = dp_costs(cs, block, (i - 1) as nat);
        let c = cs[i - 1];
        assert forall|j: int| 0 <= j < 4 implies #[trigger] cur[j] == unreachable_cost() || (
        min_header_sixths(block) + 20 * i <= cur[j] <= 120 + 317 * i) by {
            lemma_header_range(block, j);
            lemma_char_cost_range(c, mode_of(j));
            assert(cur[j] == step_cost(prev, c, block, j));
            assert(min4(prev) <= prev[j]) by {
                assert(j == 0 || j == 1 || j == 2 || j == 3);
            }
        }
        lemma_header_range(block, 2);
        lemma_char_cost_range(c, Mode::Byte);
        assert(cur[2] == step_cost(prev, c, block, 2));
    }
    assert(min4(cur) == cur[0] || min4(cur) == cur[1] || min4(cur) == cur[2] || min4(cur)
        == cur[3]);
    assert(min4(cur) <= cur[2]);
}

/// No column of the dynamic program costs less than
/// `min_header_sixths(block) + 20 * i`, whatever the length of the input.
pub proof fn lemma_dp_lower(cs: Seq<char>, block: int, i: nat)
    requires
        0 <= block < 3,
        i <= cs.len(),
    ensures
        dp_costs(cs, block, i).len() == 4,
        forall|j: int|
            0 <= j < 4 ==> #[trigger] dp_costs(cs, block, i)[j] >= if min_header_sixths(block)
                + 20 * i <= unreachable_cost() {
                min_header_sixths(block) + 20 * i
            } else {
                unreachable_cost()
            },
    decreases i,
{
    let lo = if min_header_sixths(block) + 20 * i <= unreachable_cost() {
        min_header_sixths(block) + 20 * i
    } else {
        unreachable_cost()
    };
    let cur = dp_costs(cs, block, i);
    if i == 0 {
        assert forall|j: int| 0 <= j < 4 implies #[trigger] cur[j] >= lo by {
            lemma_header_range(block, j);
        }
    } else {
        lemma_dp_lower(cs, block, (i - 1) as nat);
        let prev = dp_costs(cs, block, (i - 1) as nat);
        let c = cs[i - 1];
        assert(min4(prev) == prev[0] || min4(prev) == prev[1] || min4(prev) == prev[2] || min4(
            prev,
        ) == prev[3]);
        assert forall|j: int| 0 <= j < 4 implies #[trigger] cur[j] >= lo by {
            lemma_header_range(block, j);
            lemma_char_cost_range(c, mode_of(j));
            assert(cur[j] == step_cost(prev, c, block, j));
            assert(min4(prev) <= prev[j]) by {
                assert(j == 0 || j == 1 || j == 2 || j == 3);
            }
        }
    }
}

/// The table of the dynamic program as the executable code holds it.
pub proof fn lemma_dp_table_view(cs: Seq<char>, block: int, t: Seq<[Cell; 4]>)
    requires
        t.len() == cs.len() + 1,
        forall|k: int, j: int|
            0 <= k < t.len() && 0 <= j < 4 ==> #[trigger] t[k][j] == dp_cells(cs, block, k as nat)[j],
    ensures
        table_view(t) == dp_table(cs, block),
{
    assert forall|k: int| 0 <= k < t.len() implies #[trigger] table_view(t)[k] == dp_table(
        cs,
        block,
    )[k] by {
        assert(t[k]@ =~= dp_cells(cs, block, k as nat));
    }
    assert(table_view(t) =~= dp_table(cs, block));
}

/// Every cell of the first character's column extends the segment it opens:
/// no switch happens there.
pub proof fn lemma_dp_from_first_column(cs: Seq<char>, block: int)
    requires
        0 <= block < 3,
    ensures
        cs.len() >= 1 ==> forall|j: int| 0 <= j < 4 ==> #[trigger] dp_from(cs, block, 1, j) == mode_of(j),
{
    if cs.len() >= 1 {
        lemma_dp_bounds(cs, block, 0);
        assert forall|j: int| 0 <= j < 4 implies #[trigger] dp_from(cs, block, 1, j) == mode_of(j) by {
            let prev = dp_costs(cs, block, 0);
            assert(prev[j] == header_sixths(block, mode_of(j)));
            assert(min4(prev) >= 0);
        }
    }
}

/// The segments read back from column `i` end on character `i - 1`, in the
/// mode of the cell they were read from.
pub proof fn lemma_trace_last(table: Seq<Seq<Cell>>, i: nat, j: int)
    requires
        1 <= i <= usize::MAX,
    ensures
        trace(table, i, j).len() >= 1,
        trace(table, i, j).last().end == i - 1,
        with_last_end(trace(table, i, j), i - 1) == trace(table, i, j),
    decreases i,
{
    let t = trace(table, i, j);
    if i >= 2 {
        let cell = table[i as int][j];
        if cell.switched_from != cell.mode {
            lemma_trace_last(table, (i - 1) as nat, cell.switched_from.code());
        } else {
            lemma_trace_last(table, (i - 1) as nat, j);
        }
    }
    assert(with_last_end(t, i - 1) =~= t);
}

/// Moving the end of the last segment after pushing a segment.
pub proof fn lemma_with_last_end_push(segs: Seq<Segment>, s: Segment, end: int)
    ensures
        with_last_end(segs.push(s), end) == segs.push(
            Segment { mode: s.mode, start: s.start, end: end as usize },
        ),
{
    assert(with_last_end(segs.push(s), end) =~= segs.push(
        Segment { mode: s.mode, start: s.start, end: end as usize },
    ));
}

/// Moving the end of the last segment undoes extending it.
pub proof fn lemma_with_last_end_extend(segs: Seq<Segment>, end: int)
    requires
        segs.len() >= 1,
    ensures
        with_last_end(extend_last(segs), end) == with_last_end(segs, end),
{
    assert(with_last_end(extend_last(segs), end) =~= with_last_end(segs, end));
}

/// One cell of column `i` of the dynamic program, and the bound that keeps
/// its computation within `u32`.
pub proof fn lemma_dp_cell(cs: Seq<char>, block: int, i: nat, j: int)
    requires
        0 <= block < 3,
        1 <= i <= cs.len(),
        i <= MAX_DP_CHARS,
        0 <= j < 4,
    ensures
        ({
            let prev = dp_costs(cs, block, (i - 1) as nat);
            let cell = dp_cells(cs, block, i)[j];
            &&& cell.mode == mode_of(j)
            &&& switch_cost(prev, block, j) + 192 <= u32::MAX
            &&& match char_cost_of(cs[i - 1], mode_of(j)) {
                None => cell.cost == u32::MAX && cell.switched_from == mode_of(j),
                Some(x) => if switch_cost(prev, block, j) < prev[j] {
                    &&& cell.cost == switch_cost(prev, block, j) + x
                    &&& cell.switched_from == mode_of(first_min_index(bit_costs(prev)))
                } else {
                    &&& cell.cost == prev[j] + x
                    &&& cell.switched_from == mode_of(j)
                },
            }
        }),
{
    let prev = dp_costs(cs, block, (i - 1) as nat);
    lemma_dp_bounds(cs, block, (i - 1) as nat);
    lemma_dp_bounds(cs, block, i);
    lemma_header_range(block, j);
    lemma_char_cost_range(cs[i - 1], mode_of(j));
    let cur = dp_costs(cs, block, i);
    assert(cur[j] == step_cost(prev, cs[i - 1], block, j));
}

/// The first column of the dynamic program: each mode opened by its header.
pub proof fn lemma_dp_first_cells(cs: Seq<char>, block: int, j: int)
    requires
        0 <= block < 3,
        0 <= j < 4,
    ensures
        dp_cells(cs, block, 0)[j] == (Cell {
            mode: mode_of(j),
            cost: header_sixths(block, mode_of(j)) as u32,
            switched_from: mode_of(j),
        }),
{
    lemma_header_range(block, j);
}

/// Rounding the open cost of a segmentation up to whole bits gives its bits.
pub proof fn lemma_open_cost_bits(cs: Seq<char>, block: int, segs: Seq<Segment>)
    requires
        segs.len() > 0,
    ensures
        ceil6(open_cost(cs, block, segs)) == encoded_bits(cs, block, segs),
{
    let last = segs.last();
    let sum = char_sum(cs, last.mode, last.start as int, last.end + 1);
    lemma_ceil6_shift(sum, encoded_bits(cs, block, segs.drop_last()) + header_bits(block, last.mode));
    assert(open_cost(cs, block, segs) == sum + 6 * (encoded_bits(cs, block, segs.drop_last())
        + header_bits(block, last.mode)));
}

/// A partition of `cs[0..n)` followed by the one-character segment `s` on
/// `cs[n]` is a partition of `cs[0..n + 1)`.
pub proof fn lemma_partition_push(cs: Seq<char>, segs: Seq<Segment>, n: int, s: Segment)
    requires
        is_partition(cs, segs, n),
        n >= 1,
        n < cs.len(),
        s.start == n,
        s.end == n,
        representable(cs[n], s.mode),
    ensures
        is_partition(cs, segs.push(s), n + 1),
{
    let t = segs.push(s);
    assert forall|k: int| 0 <= k < t.len() implies #[trigger] t[k].start <= t[k].end by {
        if k < segs.len() {
            assert(t[k] == segs[k]);
        }
    }
    assert forall|k: int| #![trigger t[k], t[k + 1]] 0 <= k < t.len() - 1 implies t[k + 1].start == t[k].end + 1 by {
        if k + 1 < segs.len() {
            assert(t[k] == segs[k]);
            assert(t[k + 1] == segs[k + 1]);
        } else {
            assert(t[k] == segs.last());
        }
    }
    assert forall|k: int, p: int|
        0 <= k < t.len() && t[k].start <= p <= t[k].end implies representable(
        #[trigger] cs[p],
        #[trigger] t[k].mode,
    ) by {
        if k < segs.len() {
            assert(t[k] == segs[k]);
        }
    }
}

/// A partition of `cs[0..n)` with its last segment one character longer is a
/// partition of `cs[0..n + 1)`.
pub proof fn lemma_partition_extend(cs: Seq<char>, segs: Seq<Segment>, n: int)
    requires
        is_partition(cs, segs, n),
        n >= 1,
        n < cs.len(),
        n < usize::MAX,
        representable(cs[n], segs.last().mode),
    ensures
        is_partition(cs, extend_last(segs), n + 1),
        extend_last(segs).drop_last() == segs.drop_last(),
        extend_last(segs).last().start == segs.last().start,
        extend_last(segs).last().mode == segs.last().mode,
        extend_last(segs).last().end == n,
{
    let t = extend_last(segs);
    let l = segs.len() - 1;
    assert forall|k: int| 0 <= k < t.len() implies #[trigger] t[k].start <= t[k].end by {
        if k < l {
            assert(t[k] == segs[k]);
        } else {
            assert(segs[k].start <= segs[k].end);
        }
    }
    assert forall|k: int| #![trigger t[k], t[k + 1]] 0 <= k < t.len() - 1 implies t[k + 1].start == t[k].end + 1 by {
        assert(t[k] == segs[k]);
        assert(segs[k + 1].start == segs[k].end + 1);
    }
    assert forall|k: int, p: int|
        0 <= k < t.len() && t[k].start <= p <= t[k].end implies representable(
        #[trigger] cs[p],
        #[trigger] t[k].mode,
    ) by {
        if k < l {
            assert(t[k] == segs[k]);
        } else if p < n {
            assert(segs[k].start <= p <= segs[k].end);
        }
    }
    assert(t.drop_last() =~= segs.drop_last());
}

/// Dropping the last character of a partition of `cs[0..n)` whose last
/// segment is longer than one character leaves a partition of `cs[0..n - 1)`.
pub proof fn lemma_partition_shrink(cs: Seq<char>, segs: Seq<Segment>, n: int)
    requires
        is_partition(cs, segs, n),
        n >= 1,
        segs.last().start < segs.last().end,
    ensures
        is_partition(cs, with_last_end(segs, n - 2), n - 1),
        with_last_end(segs, n - 2).drop_last() == segs.drop_last(),
        with_last_end(segs, n - 2).last().start == segs.last().start,
        with_last_end(segs, n - 2).last().mode == segs.last().mode,
{
    let t = with_last_end(segs, n - 2);
    let l = segs.len() - 1;
    assert(segs[l].start <= segs[l].end);
    assert forall|k: int| 0 <= k < t.len() implies #[trigger] t[k].start <= t[k].end by {
        if k < l {
            assert(t[k] == segs[k]);
        }
    }
    assert forall|k: int| #![trigger t[k], t[k + 1]] 0 <= k < t.len() - 1 implies t[k + 1].start == t[k].end + 1 by {
        assert(t[k] == segs[k]);
        assert(segs[k + 1].start == segs[k].end + 1);
    }
    assert forall|k: int, p: int|
        0 <= k < t.len() && t[k].start <= p <= t[k].end implies representable(
        #[trigger] cs[p],
        #[trigger] t[k].mode,
    ) by {
        if k < l {
            assert(t[k] == segs[k]);
        } else {
            assert(segs[k].start <= p <= segs[k].end);
        }
    }
    assert(t.drop_last() =~= segs.drop_last());
}

/// Dropping a one-character last segment of a partition of `cs[0..n)`
/// leaves a partition of `cs[0..n - 1)`.
pub proof fn lemma_partition_drop(cs: Seq<char>, segs: Seq<Segment>, n: int)
    requires
        is_partition(cs, segs, n),
        segs.len() >= 2,
        segs.last().start == segs.last().end,
    ensures
        is_partition(cs, segs.drop_last(), n - 1),
{
    let t = segs.drop_last();
    let l = segs.len() - 1;
    assert(segs[l - 1 + 1].start == segs[l - 1].end + 1);
    assert(segs[l].start <= segs[l].end);
    assert(t.last() == segs[l - 1]);
    assert forall|k: int| 0 <= k < t.len() implies #[trigger] t[k].start <= t[k].end by {
        assert(t[k] == segs[k]);
    }
    assert forall|k: int| #![trigger t[k], t[k + 1]] 0 <= k < t.len() - 1 implies t[k + 1].start == t[k].end + 1 by {
        assert(t[k] == segs[k]);
        assert(t[k + 1] == segs[k + 1]);
        assert(segs[k + 1].start == segs[k].end + 1);
    }
    assert forall|k: int, p: int|
        0 <= k < t.len() && t[k].start <= p <= t[k].end implies representable(
        #[trigger] cs[p],
        #[trigger] t[k].mode,
    ) by {
        assert(t[k] == segs[k]);
        assert(segs[k].start <= p <= segs[k].end);
    }
    assert(segs[0].start <= segs[0].end);
}

/// The four mode codes name four different modes.
pub proof fn lemma_mode_of_injective(j: int, k: int)
    requires
        0 <= j < 4,
        0 <= k < 4,
        j != k,
    ensures
        mode_of(j) != mode_of(k),
        mode_of(j).code() == j,
{
}

/// The facts about the column `i` of the dynamic program that reading the
/// segments back rests on.
proof fn lemma_trace_step_facts(cs: Seq<char>, block: int, i: nat, j: int)
    requires
        0 <= block < 3,
        1 <= i <= cs.len(),
        cs.len() <= MAX_DP_CHARS,
        0 <= j < 4,
        dp_costs(cs, block, i)[j] != unreachable_cost(),
    ensures
        ({
            let prev = dp_costs(cs, block, (i - 1) as nat);
            let c = cs[i - 1];
            let m = mode_of(j);
            let cost = dp_costs(cs, block, i)[j];
            let x = char_sixths(c, m);
            &&& representable(c, m)
            &&& char_sum(cs, m, i - 1, i as int) == x
            &&& dp_table(cs, block)[i as int][j].switched_from == dp_from(cs, block, i, j)
            &&& (i == 1 ==> !switches(prev, c, block, j))
            &&& (switches(prev, c, block, j) ==> {
                let k = first_min_index(bit_costs(prev));
                &&& 0 <= k < 4
                &&& k != j
                &&& dp_from(cs, block, i, j) == mode_of(k)
                &&& mode_of(k).code() == k
                &&& mode_of(k) != m
                &&& prev[k] != unreachable_cost()
                &&& cost == 6 * ceil6(prev[k]) + header_sixths(block, m) + x
            })
            &&& (!switches(prev, c, block, j) ==> {
                &&& dp_from(cs, block, i, j) == m
                &&& prev[j] != unreachable_cost()
                &&& cost == prev[j] + x
            })
        }),
{
    let tbl = dp_table(cs, block);
    let prev = dp_costs(cs, block, (i - 1) as nat);
    let c = cs[i - 1];
    let m = mode_of(j);
    lemma_dp_cell(cs, block, i, j);
    lemma_dp_bounds(cs, block, i);
    lemma_dp_bounds(cs, block, (i - 1) as nat);
    lemma_header_range(block, j);
    let cost = dp_costs(cs, block, i)[j];
    assert(tbl[i as int][j] == dp_cells(cs, block, i)[j]);
    assert(dp_cells(cs, block, i)[j].cost == cost as u32);
    assert(representable(c, m));
    let x = char_sixths(c, m);
    assert(char_sum(cs, m, i - 1, i as int) == x) by {
        assert(char_sum(cs, m, i - 1, i - 1) == 0);
    }
    if i == 1 {
        assert(prev[j] == header_sixths(block, m));
        assert(switch_cost(prev, block, j) >= prev[j]);
    }
    if switches(prev, c, block, j) {
        let k = first_min_index(bit_costs(prev));
        lemma_first_min_index(bit_costs(prev));
        lemma_sealed_cost(prev, k);
        assert(k != j) by {
            if k == j {
                assert(6 * ceil6(prev[j]) >= prev[j]);
            }
        }
        lemma_mode_of_injective(k, j);
        assert(prev[k] != unreachable_cost()) by {
            assert(6 * ceil6(prev[k]) >= prev[k]);
        }
    }
}

/// The segments read back from the reachable cell in mode `j` of column `i`
/// split `cs[0..i)` in reading order, each character legal in its mode,
/// neighbouring segments in different modes, ending in mode `j`; and their
/// cost with the last segment still open is the cost of that cell.
pub proof fn lemma_trace_cost(cs: Seq<char>, block: int, i: nat, j: int)
    requires
        0 <= block < 3,
        1 <= i <= cs.len(),
        cs.len() <= MAX_DP_CHARS,
        0 <= j < 4,
        dp_costs(cs, block, i)[j] != unreachable_cost(),
    ensures
        ({
            let t = trace(dp_table(cs, block), i, j);
            &&& is_partition(cs, t, i as int)
            &&& modes_alternate(t)
            &&& t.last().mode == mode_of(j)
            &&& open_cost(cs, block, t) == dp_costs(cs, block, i)[j]
        }),
    decreases i,
{
    let tbl = dp_table(cs, block);
    let t = trace(tbl, i, j);
    let prev = dp_costs(cs, block, (i - 1) as nat);
    let c = cs[i - 1];
    let m = mode_of(j);
    let cost = dp_costs(cs, block, i)[j];
    lemma_trace_step_facts(cs, block, i, j);
    lemma_trace_last(tbl, i, j);
    let x = char_sixths(c, m);
    if i == 1 {
        assert(t == seq![Segment { mode: m, start: 0, end: 0 }]);
        assert(t.drop_last() =~= Seq::<Segment>::empty());
        assert(is_partition(cs, t, i as int)) by {
            assert forall|k: int, p: int|
                0 <= k < t.len() && t[k].start <= p <= t[k].end implies representable(
                #[trigger] cs[p],
                #[trigger] t[k].mode,
            ) by {
                assert(k == 0 && p == 0);
            }
        }
    } else if switches(prev, c, block, j) {
        let k = first_min_index(bit_costs(prev));
        lemma_trace_cost(cs, block, (i - 1) as nat, k);
        let t0 = trace(tbl, (i - 1) as nat, k);
        assert(t == t0.push(Segment { mode: m, start: (i - 1) as usize, end: (i - 1) as usize }));
        lemma_push_segment(cs, block, t0, i - 1, m);
    } else {
        lemma_trace_cost(cs, block, (i - 1) as nat, j);
        let t0 = trace(tbl, (i - 1) as nat, j);
        assert(t == extend_last(t0));
        lemma_extend_segment(cs, block, t0, i - 1);
    }
}

/// Opening a one-character segment in a new mode after a split of `cs[0..n)`.
pub proof fn lemma_push_segment(cs: Seq<char>, block: int, t0: Seq<Segment>, n: int, m: Mode)
    requires
        is_partition(cs, t0, n),
        modes_alternate(t0),
        1 <= n < cs.len(),
        n <= usize::MAX,
        t0.last().mode != m,
        representable(cs[n], m),
    ensures
        ({
            let t = t0.push(Segment { mode: m, start: n as usize, end: n as usize });
            &&& is_partition(cs, t, n + 1)
            &&& modes_alternate(t)
            &&& t.last().mode == m
            &&& open_cost(cs, block, t) == 6 * ceil6(open_cost(cs, block, t0)) + header_sixths(
                block,
                m,
            ) + char_sixths(cs[n], m)
        }),
{
    let s = Segment { mode: m, start: n as usize, end: n as usize };
    let t = t0.push(s);
    lemma_partition_push(cs, t0, n, s);
    lemma_open_cost_bits(cs, block, t0);
    assert(t.drop_last() =~= t0);
    assert(char_sum(cs, m, n, n + 1) == char_sixths(cs[n], m)) by {
        assert(char_sum(cs, m, n, n) == 0);
    }
    assert forall|q: int| #![trigger t[q], t[q + 1]] 0 <= q < t.len() - 1 implies t[q].mode != t[q + 1].mode by {
        if q + 1 < t0.len() {
            assert(t[q] == t0[q]);
            assert(t[q + 1] == t0[q + 1]);
        } else {
            assert(t[q] == t0.last());
        }
    }
}

/// Extending the last segment of a split of `cs[0..n)` by `cs[n]`.
pub proof fn lemma_extend_segment(cs: Seq<char>, block: int, t0: Seq<Segment>, n: int)
    requires
        is_partition(cs, t0, n),
        modes_alternate(t0),
        1 <= n < cs.len(),
        n < usize::MAX,
        representable(cs[n], t0.last().mode),
    ensures
        ({
            let t = extend_last(t0);
            &&& is_partition(cs, t, n + 1)
            &&& modes_alternate(t)
            &&& t.last().mode == t0.last().mode
            &&& open_cost(cs, block, t) == open_cost(cs, block, t0) + char_sixths(
                cs[n],
                t0.last().mode,
            )
        }),
{
    let t = extend_last(t0);
    lemma_partition_extend(cs, t0, n);
    let l0 = t0.last();
    assert(l0.end == n - 1);
    assert(char_sum(cs, l0.mode, l0.start as int, n + 1) == char_sum(
        cs,
        l0.mode,
        l0.start as int,
        n,
    ) + char_sixths(cs[n], l0.mode));
    assert forall|q: int| #![trigger t[q], t[q + 1]] 0 <= q < t.len() - 1 implies t[q].mode != t[q + 1].mode by {
        assert(t[q] == t0[q]);
        assert(t[q + 1].mode == t0[q + 1].mode);
    }
}

/// No split of `cs[0..i)` whose last segment is in some mode costs less,
/// with that segment still open, than the cell of that mode in column `i`.
pub proof fn lemma_dp_lower_bound(cs: Seq<char>, block: int, i: nat, segs: Seq<Segment>)
    requires
        0 <= block < 3,
        1 <= i <= cs.len(),
        is_partition(cs, segs, i as int),
    ensures
        dp_costs(cs, block, i)[segs.last().mode.code()] <= open_cost(cs, block, segs),
    decreases i,
{
    let last = segs.last();
    let m = last.mode;
    let j = m.code();
    let prev = dp_costs(cs, block, (i - 1) as nat);
    let c = cs[i - 1];
    let l = segs.len() - 1;
    assert(mode_of(j) == m);
    assert(last.start <= last.end);
    assert(representable(c, m)) by {
        assert(segs[l].start <= i - 1 <= segs[l].end);
    }
    let x = char_sixths(c, m);
    let cur = dp_costs(cs, block, i);
    assert(cur[j] == step_cost(prev, c, block, j));
    assert(cur[j] <= prev[j] + x);
    assert(char_sum(cs, m, last.start as int, i as int) == char_sum(cs, m, last.start as int, i - 1)
        + x);
    if last.start < last.end {
        lemma_partition_shrink(cs, segs, i as int);
        let s2 = with_last_end(segs, i - 2);
        lemma_dp_lower_bound(cs, block, (i - 1) as nat, s2);
        assert(open_cost(cs, block, segs) == open_cost(cs, block, s2) + x);
    } else if segs.len() == 1 {
        assert(i == 1);
        assert(segs.drop_last() =~= Seq::<Segment>::empty());
        assert(char_sum(cs, m, 0, 0) == 0);
        assert(open_cost(cs, block, segs) == header_sixths(block, m) + x);
    } else {
        lemma_partition_drop(cs, segs, i as int);
        let s2 = segs.drop_last();
        let k = s2.last().mode.code();
        lemma_dp_lower_bound(cs, block, (i - 1) as nat, s2);
        lemma_open_cost_bits(cs, block, s2);
        assert(min4(prev) <= prev[k]) by {
            assert(k == 0 || k == 1 || k == 2 || k == 3);
        }
        lemma_ceil6_monotone(min4(prev), prev[k]);
        lemma_ceil6_monotone(prev[k], open_cost(cs, block, s2));
        assert(open_cost(cs, block, segs) == 6 * encoded_bits(cs, block, s2) + header_sixths(
            block,
            m,
        ) + x);
        assert(cur[j] <= switch_cost(prev, block, j) + x);
    }
}

/// No split of all of `cs` takes fewer bits than the dynamic program counts.
pub proof fn lemma_dp_bits_least(cs: Seq<char>, block: int, segs: Seq<Segment>)
    requires
        0 <= block < 3,
        cs.len() >= 1,
        is_partition(cs, segs, cs.len() as int),
    ensures
        dp_bits(cs, block) <= encoded_bits(cs, block, segs),
{
    let n = cs.len();
    let costs = dp_costs(cs, block, n);
    lemma_dp_lower(cs, block, n);
    lemma_dp_lower_bound(cs, block, n, segs);
    let k = segs.last().mode.code();
    assert(min4(costs) <= costs[k]) by {
        assert(k == 0 || k == 1 || k == 2 || k == 3);
    }
    lemma_ceil6_monotone(min4(costs), costs[k]);
    lemma_ceil6_monotone(costs[k], open_cost(cs, block, segs));
    lemma_open_cost_bits(cs, block, segs);
}

/// The segmentation chosen for `cs` in version block `block` splits `cs` in
/// reading order, every character legal in the mode of its segment, with
/// neighbouring segments in different modes; it takes exactly the bits that
/// the dynamic program counts; and no other split of `cs` takes fewer bits.
pub proof fn lemma_traced_segments_are_optimal(cs: Seq<char>, block: int)
    requires
        0 <= block < 3,
        cs.len() <= MAX_DP_CHARS,
    ensures
        is_partition(cs, traced_segments(cs, block), cs.len() as int),
        modes_alternate(traced_segments(cs, block)),
        cs.len() > 0 ==> encoded_bits(cs, block, traced_segments(cs, block)) == dp_bits(cs, block),
        forall|segs: Seq<Segment>|
            is_partition(cs, segs, cs.len() as int) ==> encoded_bits(
                cs,
                block,
                traced_segments(cs, block),
            ) <= #[trigger] encoded_bits(cs, block, segs),
{
    let n = cs.len();
    let t = traced_segments(cs, block);
    if n == 0 {
        assert(t == Seq::<Segment>::empty());
        assert forall|segs: Seq<Segment>| is_partition(cs, segs, n as int) implies encoded_bits(
            cs,
            block,
            t,
        ) <= #[trigger] encoded_bits(cs, block, segs) by {
            assert(segs.len() == 0);
        }
    } else {
        let costs = dp_costs(cs, block, n);
        let best = best_final_mode(cs, block);
        lemma_dp_bounds(cs, block, n);
        lemma_first_min_index(costs);
        assert(costs[best] <= costs[2]);
        lemma_trace_cost(cs, block, n, best);
        lemma_open_cost_bits(cs, block, t);
        assert forall|segs: Seq<Segment>| is_partition(cs, segs, n as int) implies encoded_bits(
            cs,
            block,
            t,
        ) <= #[trigger] encoded_bits(cs, block, segs) by {
            lemma_dp_bits_least(cs, block, segs);
        }
    }
}

/// Where no version of `lo..=hi` holds `bits`, none is chosen; the chosen one
/// is the least that holds them.
pub proof fn lemma_least_fitting_version(lo: int, hi: int, level: ECCLevel, bits: int)
    ensures
        least_fitting_version(lo, hi, level, bits) is None <==> forall|v: int|
            lo <= v <= hi ==> !#[trigger] fits(v, level, bits),
        least_fitting_version(lo, hi, level, bits) matches Some(v) ==> {
            &&& lo <= v <= hi
            &&& fits(v, level, bits)
            &&& forall|w: int| lo <= w < v ==> !#[trigger] fits(w, level, bits)
        },
    decreases hi - lo + 1,
{
    if lo <= hi {
        lemma_least_fitting_version(lo + 1, hi, level, bits);
    }
}

/// An input of more than 7089 characters fits in no version: even all in
/// numeric mode it needs more than the 23648 data bits of version 40-L.
pub proof fn lemma_long_input_never_fits(cs: Seq<char>, level: ECCLevel)
    requires
        cs.len() > MAX_INPUT_CHARS,
    ensures
        first_fitting_block(cs, level) == 3,
        chosen_version(cs, level) is None,
{
    let n = cs.len();
    assert forall|b: int| 0 <= b < 3 implies #[trigger] block_version(cs, b, level) is None by {
        lemma_dp_lower(cs, b, n);
        let costs = dp_costs(cs, b, n);
        let lo = if min_header_sixths(b) + 20 * n <= unreachable_cost() {
            min_header_sixths(b) + 20 * n
        } else {
            unreachable_cost()
        };
        assert(min4(costs) >= lo) by {
            assert(costs[0] >= lo && costs[1] >= lo && costs[2] >= lo && costs[3] >= lo);
        }
        lemma_ceil6_monotone(lo, min4(costs));
        assert(b == 2 ==> ceil6(lo) > 23648);
        assert(ceil6(lo) > 10960);
        assert forall|v: int| block_first(b) <= v <= block_last(b) implies !#[trigger] fits(
            v,
            level,
            dp_bits(cs, b),
        ) by {
            lemma_data_bits_bounded(v, level);
        }
        lemma_least_fitting_version(block_first(b), block_last(b), level, dp_bits(cs, b));
    }
    assert(block_version(cs, 0, level) is None);
    assert(block_version(cs, 1, level) is None);
    assert(block_version(cs, 2, level) is None);
}

/// A higher error-correction level never leaves a version more data bits.
pub proof fn lemma_data_bits_level_order(version: int, l1: ECCLevel, l2: ECCLevel)
    requires
        1 <= version <= 40,
        l1.rank() <= l2.rank(),
    ensures
        data_bits(version, l2) <= data_bits(version, l1),
{
}

/// Where every version of `lo..=hi` that holds `bits2` at `l2` also holds
/// `bits1` at `l1`, the least version for the first is no larger.
pub proof fn lemma_least_fitting_order(
    lo: int,
    hi: int,
    l1: ECCLevel,
    bits1: int,
    l2: ECCLevel,
    bits2: int,
)
    requires
        forall|v: int| lo <= v <= hi && #[trigger] fits(v, l2, bits2) ==> fits(v, l1, bits1),
    ensures
        least_fitting_version(lo, hi, l2, bits2) matches Some(v2) ==> (least_fitting_version(
            lo,
            hi,
            l1,
            bits1,
        ) matches Some(v1) && v1 <= v2),
{
    lemma_least_fitting_version(lo, hi, l1, bits1);
    lemma_least_fitting_version(lo, hi, l2, bits2);
    if let Some(v2) = least_fitting_version(lo, hi, l2, bits2) {
        assert(fits(v2, l1, bits1));
    }
}

/// Where, in every block, a version that holds `cs2` at `l2` also holds
/// `cs1` at `l1`, the version chosen for `cs1` is no larger than the one
/// chosen for `cs2`, and exists whenever that one does.
pub proof fn lemma_chosen_version_order(cs1: Seq<char>, l1: ECCLevel, cs2: Seq<char>, l2: ECCLevel)
    requires
        forall|b: int, v: int|
            0 <= b < 3 && block_first(b) <= v <= block_last(b) && #[trigger] fits(
                v,
                l2,
                dp_bits(cs2, b),
            ) ==> fits(v, l1, dp_bits(cs1, b)),
    ensures
        chosen_version(cs2, l2) matches Some(v2) ==> (chosen_version(cs1, l1) matches Some(v1)
            && v1 <= v2),
{
    assert forall|b: int| 0 <= b < 3 implies (#[trigger] block_version(cs2, b, l2) matches Some(
        v2,
    ) ==> (block_version(cs1, b, l1) matches Some(v1) && v1 <= v2)) by {
        lemma_least_fitting_order(
            block_first(b),
            block_last(b),
            l1,
            dp_bits(cs1, b),
            l2,
            dp_bits(cs2, b),
        );
    }
    let b1 = first_fitting_block(cs1, l1);
    let b2 = first_fitting_block(cs2, l2);
    if b2 < 3 {
        assert(b1 <= b2);
        lemma_least_fitting_version(block_first(b1), block_last(b1), l1, dp_bits(cs1, b1));
        lemma_least_fitting_version(block_first(b2), block_last(b2), l2, dp_bits(cs2, b2));
    }
}

/// Raising the error-correction level never lowers the version chosen for
/// an input, and never makes an input that did not fit fit.
pub proof fn law_higher_ecc_level_never_lowers_the_version(
    cs: Seq<char>,
    l1: ECCLevel,
    l2: ECCLevel,
)
    requires
        l1.rank() <= l2.rank(),
    ensures
        chosen_version(cs, l2) matches Some(v2) ==> (chosen_version(cs, l1) matches Some(v1) && v1
            <= v2),
{
    assert forall|b: int, v: int|
        0 <= b < 3 && block_first(b) <= v <= block_last(b) && #[trigger] fits(
            v,
            l2,
            dp_bits(cs, b),
        ) implies fits(v, l1, dp_bits(cs, b)) by {
        lemma_data_bits_level_order(v, l1, l2);
    }
    lemma_chosen_version_order(cs, l1, cs, l2);
}

/// The dynamic program on a prefix of the input is the start of the one on
/// the whole input.
pub proof fn lemma_dp_costs_prefix(cs1: Seq<char>, cs2: Seq<char>, block: int, i: nat)
    requires
        cs1.len() <= cs2.len(),
        cs1 == cs2.subrange(0, cs1.len() as int),
        i <= cs1.len(),
    ensures
        dp_costs(cs1, block, i) == dp_costs(cs2, block, i),
    decreases i,
{
    if i > 0 {
        lemma_dp_costs_prefix(cs1, cs2, block, (i - 1) as nat);
        assert(cs1[i - 1] == cs2[i - 1]);
        assert(dp_costs(cs1, block, i) =~= dp_costs(cs2, block, i));
    }
}

/// The cheapest cost of the dynamic program never falls from one column to
/// the next.
pub proof fn lemma_dp_min_grows(cs: Seq<char>, block: int, i: nat, k: nat)
    requires
        0 <= block < 3,
        i <= k <= cs.len(),
        cs.len() <= MAX_DP_CHARS,
    ensures
        min4(dp_costs(cs, block, i)) <= min4(dp_costs(cs, block, k)),
    decreases k - i,
{
    if i < k {
        lemma_dp_min_grows(cs, block, i, (k - 1) as nat);
        lemma_dp_bounds(cs, block, k);
        lemma_dp_bounds(cs, block, (k - 1) as nat);
        let prev = dp_costs(cs, block, (k - 1) as nat);
        let cur = dp_costs(cs, block, k);
        assert forall|j: int| 0 <= j < 4 implies min4(prev) <= #[trigger] cur[j] by {
            lemma_header_range(block, j);
            lemma_char_cost_range(cs[k - 1], mode_of(j));
            assert(cur[j] == step_cost(prev, cs[k - 1], block, j));
            assert(min4(prev) <= prev[j]) by {
                assert(j == 0 || j == 1 || j == 2 || j == 3);
            }
        }
        assert(min4(cur) == cur[0] || min4(cur) == cur[1] || min4(cur) == cur[2] || min4(cur)
            == cur[3]);
    }
}

/// A prefix of an input that fits also fits, in a version no larger: adding
/// characters never selects a smaller symbol.
pub proof fn law_longer_input_never_selects_a_smaller_version(
    cs1: Seq<char>,
    cs2: Seq<char>,
    level: ECCLevel,
)
    requires
        cs1.len() <= cs2.len(),
        cs1 == cs2.subrange(0, cs1.len() as int),
    ensures
        chosen_version(cs2, level) matches Some(v2) ==> (chosen_version(cs1, level) matches Some(
            v1,
        ) && v1 <= v2),
{
    if cs2.len() > MAX_INPUT_CHARS {
        lemma_long_input_never_fits(cs2, level);
    } else {
        assert forall|b: int, v: int|
            0 <= b < 3 && block_first(b) <= v <= block_last(b) && #[trigger] fits(
                v,
                level,
                dp_bits(cs2, b),
            ) implies fits(v, level, dp_bits(cs1, b)) by {
            lemma_dp_costs_prefix(cs1, cs2, b, cs1.len());
            lemma_dp_min_grows(cs2, b, cs1.len(), cs2.len());
            lemma_ceil6_monotone(
                min4(dp_costs(cs2, b, cs1.len())),
                min4(dp_costs(cs2, b, cs2.len())),
            );
        }
        lemma_chosen_version_order(cs1, level, cs2, level);
    }
}

} // verus!
