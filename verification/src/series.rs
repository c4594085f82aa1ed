//! Series of blocks: neighbours of one name with no room between them. A
//! series is shortened as a whole when the bar is too narrow.
use crate::i3bar_protocol::{name_view, same_name, ComputedBlock};
use vstd::prelude::*;

verus! {

/// A run of blocks, `start` to `end` without `end`.
#[derive(Clone, Copy, Debug, PartialEq, Eq, Structural)]
pub struct Series {
    pub start: usize,
    pub end: usize,
    /// What the series saves when it is shortened.
    pub delta: i128,
    pub switched_to_short: bool,
    /// Whether its last block asks for a mark behind the series.
    pub separator: bool,
    /// The room that its last block asks for behind the series.
    pub separator_block_width: u8,
}

/// Block `i` carries on the series of the block before it: that block keeps
/// no room behind it and has the same name.
pub open spec fn joined(blocks: Seq<ComputedBlock>, i: int) -> bool {
    &&& 0 < i < blocks.len()
    &&& blocks[i - 1].block.separator_block_width == 0
    &&& name_view(blocks[i - 1].block.name) == name_view(blocks[i].block.name)
}

/// Where the series of block `i` starts.
pub open spec fn series_start(blocks: Seq<ComputedBlock>, i: int) -> int
    decreases i,
{
    if joined(blocks, i) {
        series_start(blocks, i - 1)
    } else {
        i
    }
}

/// What the blocks `lo` to `hi` save together when they are shortened.
pub open spec fn sum_shrink(blocks: Seq<ComputedBlock>, lo: int, hi: int) -> int
    decreases hi - lo,
{
    if hi <= lo {
        0
    } else {
        sum_shrink(blocks, lo, hi - 1) + blocks[hi - 1].shrink()
    }
}

/// The width of the blocks `lo` to `hi` when all show their full text.
pub open spec fn sum_full(blocks: Seq<ComputedBlock>, lo: int, hi: int) -> int
    decreases hi - lo,
{
    if hi <= lo {
        0
    } else {
        sum_full(blocks, lo, hi - 1) + blocks[hi - 1].full.width
    }
}

/// The series made of the blocks `start` to `end`, not shortened.
pub open spec fn series_at(blocks: Seq<ComputedBlock>, start: int, end: int) -> Series {
    Series {
        start: start as usize,
        end: end as usize,
        delta: sum_shrink(blocks, start, end) as i128,
        switched_to_short: false,
        separator: blocks[end - 1].block.separator,
        separator_block_width: blocks[end - 1].block.separator_block_width,
    }
}

/// The series of block `i` starts at or before `i`, at a block that carries
/// on no other, and every block from there to `i` carries on.
pub proof fn lemma_series_start(blocks: Seq<ComputedBlock>, i: int)
    requires
        0 <= i,
    ensures
        0 <= series_start(blocks, i) <= i,
        !joined(blocks, series_start(blocks, i)),
        forall|j: int| series_start(blocks, i) < j <= i ==> joined(blocks, j),
    decreases i,
{
    if joined(blocks, i) {
        lemma_series_start(blocks, i - 1);
    }
}

/// The series of the first `end` blocks, in their order.
pub open spec fn group_upto(blocks: Seq<ComputedBlock>, end: int) -> Seq<Series>
    decreases end,
{
    if end <= 0 {
        Seq::empty()
    } else {
        let start = series_start(blocks, end - 1);
        proof {
            lemma_series_start(blocks, end - 1);
        }
        group_upto(blocks, start).push(series_at(blocks, start, end))
    }
}

/// The series of `blocks`: the longest runs of joined blocks, in order.
pub open spec fn group_spec(blocks: Seq<ComputedBlock>) -> Seq<Series> {
    group_upto(blocks, blocks.len() as int)
}

/// A run of joined blocks that starts a series is that series.
proof fn lemma_series_start_of_run(blocks: Seq<ComputedBlock>, start: int, i: int)
    requires
        0 <= start <= i,
        !joined(blocks, start),
        forall|j: int| start < j <= i ==> joined(blocks, j),
    ensures
        series_start(blocks, i) == start,
    decreases i - start,
{
    if i > start {
        lemma_series_start_of_run(blocks, start, i - 1);
    }
}

/// What blocks save is bounded by their number.
pub proof fn lemma_sum_shrink_bounds(blocks: Seq<ComputedBlock>, lo: int, hi: int)
    requires
        lo <= hi,
    ensures
        0 <= sum_shrink(blocks, lo, hi) <= (hi - lo) * 0xffff_ffff,
    decreases hi - lo,
{
    if hi > lo {
        lemma_sum_shrink_bounds(blocks, lo, hi - 1);
    }
}

/// Groups the blocks into series. A block starts a new series where the
/// block before it keeps room behind it or has another name.
pub fn group_series(blocks: &Vec<ComputedBlock>) -> (series: Vec<Series>)
    ensures
        series@ == group_spec(blocks@),
{
    let mut series: Vec<Series> = Vec::new();
    let mut s_start: usize = 0;
    while s_start < blocks.len()
        invariant
            s_start <= blocks@.len(),
            series@ == group_upto(blocks@, s_start as int),
            !joined(blocks@, s_start as int),
        decreases blocks@.len() - s_start,
    {
        let mut s_end: usize = s_start + 1;
        let mut delta: i128 = blocks[s_start].saving() as i128;
        assert(sum_shrink(blocks@, s_start as int, s_start as int) == 0);
        while s_end < blocks.len() && blocks[s_end - 1].block.separator_block_width == 0
            && same_name(&blocks[s_end].block.name, &blocks[s_start].block.name)
            invariant
                s_start < s_end <= blocks@.len(),
                forall|j: int| s_start < j < s_end ==> joined(blocks@, j),
                forall|j: int|
                    s_start <= j < s_end ==> name_view(blocks@[j].block.name) == name_view(
                        blocks@[s_start as int].block.name,
                    ),
                delta == sum_shrink(blocks@, s_start as int, s_end as int),
                0 <= delta <= (s_end - s_start) * 0xffff_ffff,
            decreases blocks@.len() - s_end,
        {
            delta = delta + blocks[s_end].saving() as i128;
            s_end += 1;
        }
        let last = &blocks[s_end - 1].block;
        series.push(
            Series {
                start: s_start,
                end: s_end,
                delta,
                switched_to_short: false,
                separator: last.separator,
                separator_block_width: last.separator_block_width,
            },
        );
        proof {
            lemma_series_start_of_run(blocks@, s_start as int, s_end - 1);
        }
        s_start = s_end;
    }
    series
}

/// `g` splits the first `end` blocks into runs that follow one another
/// without a hole, none of them empty.
pub open spec fn splits(g: Seq<Series>, end: int) -> bool {
    &&& g.len() == 0 <==> end == 0
    &&& g.len() > 0 ==> g[0].start == 0 && g.last().end == end
    &&& forall|k: int| 0 <= k < g.len() ==> 0 <= (#[trigger] g[k]).start < g[k].end <= end
    &&& forall|i: int, j: int|
        0 <= i && j == i + 1 && j < g.len() ==> (#[trigger] g[i]).end == (#[trigger] g[j]).start
}

/// `g` splits the first `end` blocks into series: each is the longest run of
/// joined blocks from its start.
pub open spec fn is_grouping(blocks: Seq<ComputedBlock>, g: Seq<Series>, end: int) -> bool {
    &&& splits(g, end)
    &&& forall|k: int|
        0 <= k < g.len() ==> {
            &&& !joined(blocks, (#[trigger] g[k]).start as int)
            &&& forall|j: int| g[k].start < j < g[k].end ==> joined(blocks, j)
            &&& g[k] == series_at(blocks, g[k].start as int, g[k].end as int)
        }
}

/// The series of a prefix that ends where a series ends split that prefix.
pub proof fn lemma_group_upto(blocks: Seq<ComputedBlock>, end: int)
    requires
        0 <= end <= blocks.len(),
        end <= usize::MAX,
    ensures
        is_grouping(blocks, group_upto(blocks, end), end),
    decreases end,
{
    if end > 0 {
        let start = series_start(blocks, end - 1);
        lemma_series_start(blocks, end - 1);
        lemma_group_upto(blocks, start);
        lemma_sum_shrink_bounds(blocks, start, end);
        let prev = group_upto(blocks, start);
        let g = group_upto(blocks, end);
        assert(g == prev.push(series_at(blocks, start, end)));
        assert forall|k: int, j: int| 0 <= k && j == k + 1 && j < g.len() implies (
        #[trigger] g[k]).end == (#[trigger] g[j]).start by {
            if k < prev.len() - 1 {
                assert(g[k] == prev[k]);
                assert(g[j] == prev[j]);
            } else {
                assert(g[k] == prev.last());
            }
        }
        assert forall|k: int| 0 <= k < g.len() implies {
            &&& 0 <= (#[trigger] g[k]).start < g[k].end <= end
            &&& !joined(blocks, g[k].start as int)
            &&& forall|j: int| g[k].start < j < g[k].end ==> joined(blocks, j)
            &&& g[k] == series_at(blocks, g[k].start as int, g[k].end as int)
        } by {
            if k < prev.len() {
                assert(g[k] == prev[k]);
            }
        }
        if prev.len() > 0 {
            assert(g[0] == prev[0]);
        }
    }
}

/// The series of `blocks` split them: every block is in one series, and the
/// series come in the order of the blocks.
pub proof fn lemma_group_spec(blocks: Seq<ComputedBlock>)
    requires
        blocks.len() <= usize::MAX,
    ensures
        is_grouping(blocks, group_spec(blocks), blocks.len() as int),
{
    lemma_group_upto(blocks, blocks.len() as int);
}

/// The blocks `i` and `j` stand in one series of `g`.
pub open spec fn in_one_series(g: Seq<Series>, i: int, j: int) -> bool {
    exists|k: int|
        0 <= k < g.len() && (#[trigger] g[k]).start <= i < g[k].end && g[k].start <= j < g[k].end
}

/// Every block of a prefix that was split into runs is in one of them.
pub proof fn lemma_covered(g: Seq<Series>, end: int, i: int) -> (k: int)
    requires
        splits(g, end),
        0 <= i < end,
    ensures
        0 <= k < g.len(),
        g[k].start <= i < g[k].end,
    decreases g.len(),
{
    let last = g.len() - 1;
    if g[last].start <= i {
        last
    } else {
        let h = g.drop_last();
        assert(g[last - 1].end == g[last].start);
        assert forall|k: int| 0 <= k < h.len() implies 0 <= (#[trigger] h[k]).start < h[k].end
            <= g[last].start by {
            assert(h[k] == g[k]);
            if k < h.len() - 1 {
                assert(g[k].end == g[k + 1].start);
                assert(g[k + 1].start < g[k + 1].end);
            }
            lemma_ends_rise(g, k, last - 1);
        }
        assert forall|k: int, j: int| 0 <= k && j == k + 1 && j < h.len() implies (
        #[trigger] h[k]).end == (#[trigger] h[j]).start by {
            assert(h[k] == g[k]);
            assert(h[j] == g[j]);
        }
        assert(h[0] == g[0]);
        assert(h.last() == g[last - 1]);
        assert(splits(h, g[last].start as int));
        lemma_covered(h, g[last].start as int, i)
    }
}

/// Later series end later.
pub proof fn lemma_ends_rise(g: Seq<Series>, a: int, b: int)
    requires
        0 <= a <= b < g.len(),
        forall|k: int| 0 <= k < g.len() ==> (#[trigger] g[k]).start < g[k].end,
        forall|i: int, j: int|
            0 <= i && j == i + 1 && j < g.len() ==> (#[trigger] g[i]).end == (#[trigger] g[j]).start,
    ensures
        g[a].end <= g[b].end,
        a < b ==> g[a].end <= g[b].start,
    decreases b - a,
{
    if a < b {
        lemma_ends_rise(g, a, b - 1);
        assert(g[b - 1].end == g[b].start);
        assert(g[b].start < g[b].end);
    }
}

/// Two neighbours stand in one series exactly where the first keeps no room
/// behind it and both have the same name. Where the first keeps room, they
/// stand in two series even with one name.
pub proof fn lemma_neighbours(blocks: Seq<ComputedBlock>, i: int)
    requires
        0 <= i,
        i + 1 < blocks.len(),
        blocks.len() <= usize::MAX,
    ensures
        in_one_series(group_spec(blocks), i, i + 1) <==> (blocks[i].block.separator_block_width
            == 0 && name_view(blocks[i].block.name) == name_view(blocks[i + 1].block.name)),
{
    let g = group_spec(blocks);
    lemma_group_spec(blocks);
    if joined(blocks, i + 1) {
        let k = lemma_covered(g, blocks.len() as int, i + 1);
        assert(g[k].start != i + 1);
        assert(g[k].start <= i < g[k].end && g[k].start <= i + 1 < g[k].end);
    }
    if in_one_series(g, i, i + 1) {
        let k = choose|k: int|
            0 <= k < g.len() && (#[trigger] g[k]).start <= i < g[k].end && g[k].start <= i + 1
                < g[k].end;
        assert(joined(blocks, i + 1));
    }
}

/// Series `j` is shortened before series `k`: it saves more, or as much and
/// stands further left.
pub open spec fn precedes(g: Seq<Series>, j: int, k: int) -> bool {
    g[j].delta > g[k].delta || (g[j].delta == g[k].delta && j < k)
}

/// What the series among the first `n` save that can be shortened and are
/// shortened before series `k`.
pub open spec fn saved_before(g: Seq<Series>, k: int, n: int) -> int
    decreases n,
{
    if n <= 0 {
        0
    } else {
        saved_before(g, k, n - 1) + if g[n - 1].delta > 0 && precedes(g, n - 1, k) {
            g[n - 1].delta as int
        } else {
            0
        }
    }
}

/// Whether series `k` is shortened when the blocks are `excess` too wide: it
/// can save something, and what is shortened before it does not save enough.
pub open spec fn is_shortened(g: Seq<Series>, k: int, excess: int) -> bool {
    g[k].delta > 0 && saved_before(g, k, g.len() as int) < excess
}

/// The series after shortening for an excess of `excess`.
pub open spec fn shorten_spec(g: Seq<Series>, excess: int) -> Seq<Series> {
    Seq::new(
        g.len(),
        |k: int|
            Series {
                start: g[k].start,
                end: g[k].end,
                delta: g[k].delta,
                switched_to_short: is_shortened(g, k, excess),
                separator: g[k].separator,
                separator_block_width: g[k].separator_block_width,
            },
    )
}

/// What the shortened series among the first `n` save.
pub open spec fn saved_switched(g: Seq<Series>, n: int) -> int
    decreases n,
{
    if n <= 0 {
        0
    } else {
        saved_switched(g, n - 1) + if g[n - 1].switched_to_short && g[n - 1].delta > 0 {
            g[n - 1].delta as int
        } else {
            0
        }
    }
}

/// How many of the first `n` series can still be shortened.
pub open spec fn open_count(g: Seq<Series>, n: int) -> nat
    decreases n,
{
    if n <= 0 {
        0
    } else {
        open_count(g, n - 1) + if g[n - 1].delta > 0 && !g[n - 1].switched_to_short {
            1nat
        } else {
            0nat
        }
    }
}

/// `now` is `then` with some series shortened.
pub open spec fn same_but_switched(then: Seq<Series>, now: Seq<Series>) -> bool {
    &&& now.len() == then.len()
    &&& forall|k: int|
        0 <= k < now.len() ==> {
            &&& (#[trigger] now[k]).start == then[k].start
            &&& now[k].end == then[k].end
            &&& now[k].delta == then[k].delta
            &&& now[k].separator == then[k].separator
            &&& now[k].separator_block_width == then[k].separator_block_width
        }
}

/// Shortening one more series adds what it saves, and leaves one fewer to
/// shorten.
proof fn lemma_switch_one(g: Seq<Series>, h: Seq<Series>, b: int, n: int)
    requires
        0 <= n <= g.len(),
        0 <= b < g.len(),
        same_but_switched(g, h),
        g[b].delta > 0,
        !g[b].switched_to_short,
        h[b].switched_to_short,
        forall|k: int| 0 <= k < g.len() && k != b ==> h[k].switched_to_short == g[k].switched_to_short,
    ensures
        saved_switched(h, n) == saved_switched(g, n) + if b < n { g[b].delta as int } else { 0 },
        open_count(h, n) + if b < n { 1nat } else { 0nat } == open_count(g, n),
    decreases n,
{
    if n > 0 {
        lemma_switch_one(g, h, b, n - 1);
        assert(h[n - 1].delta == g[n - 1].delta);
    }
}

/// Where every shortened series is one that is shortened before `k`, they
/// save no more than all of those; where they are the same, as much.
proof fn lemma_saved_switched_le(g0: Seq<Series>, g: Seq<Series>, k: int, n: int)
    requires
        0 <= n <= g.len(),
        same_but_switched(g0, g),
        forall|j: int|
            0 <= j < g.len() && g[j].delta > 0 && (#[trigger] g[j]).switched_to_short ==> precedes(
                g0,
                j,
                k,
            ),
    ensures
        saved_switched(g, n) <= saved_before(g0, k, n),
        (forall|j: int|
            0 <= j < g.len() && g0[j].delta > 0 && precedes(g0, j, k) ==> (
            #[trigger] g[j]).switched_to_short) ==> saved_switched(g, n) == saved_before(g0, k, n),
    decreases n,
{
    if n > 0 {
        lemma_saved_switched_le(g0, g, k, n - 1);
        assert(g[n - 1].delta == g0[n - 1].delta);
    }
}

/// What the state of a shortening in progress has to say of each series:
/// the shortened ones are those that the rule shortens first, and none of
/// them without need.
pub open spec fn shortening(g0: Seq<Series>, g: Seq<Series>, excess: int) -> bool {
    &&& same_but_switched(g0, g)
    &&& forall|k: int|
        0 <= k < g.len() && (#[trigger] g[k]).switched_to_short ==> is_shortened(g0, k, excess)
    &&& forall|j: int, k: int|
        0 <= j < g.len() && 0 <= k < g.len() && g0[j].delta > 0 && (
        #[trigger] g[k]).switched_to_short && precedes(g0, j, k) ==> (
        #[trigger] g[j]).switched_to_short
}

/// Finds the series that is shortened next: of those that can be shortened
/// and are not, the one that saves most, the leftmost of several.
fn next_to_shorten(series: &Vec<Series>) -> (r: Option<usize>)
    ensures
        match r {
            Some(b) => {
                &&& b < series@.len()
                &&& series@[b as int].delta > 0
                &&& !series@[b as int].switched_to_short
                &&& forall|i: int|
                    0 <= i < series@.len() && i != b && (#[trigger] series@[i]).delta > 0
                        && !series@[i].switched_to_short ==> precedes(series@, b as int, i)
            },
            None => forall|i: int|
                0 <= i < series@.len() ==> !((#[trigger] series@[i]).delta > 0
                    && !series@[i].switched_to_short),
        },
{
    let mut best: Option<usize> = None;
    let mut j: usize = 0;
    while j < series.len()
        invariant
            j <= series@.len(),
            match best {
                Some(b) => {
                    &&& b < j
                    &&& series@[b as int].delta > 0
                    &&& !series@[b as int].switched_to_short
                    &&& forall|i: int|
                        0 <= i < j && i != b && (#[trigger] series@[i]).delta > 0
                            && !series@[i].switched_to_short ==> precedes(series@, b as int, i)
                },
                None => forall|i: int|
                    0 <= i < j ==> !((#[trigger] series@[i]).delta > 0
                        && !series@[i].switched_to_short),
            },
        decreases series@.len() - j,
    {
        let s = &series[j];
        if s.delta > 0 && !s.switched_to_short {
            let better = match best {
                Some(b) => s.delta > series[b].delta,
                None => true,
            };
            if better {
                best = Some(j);
            }
        }
        j += 1;
    }
    best
}

/// Shortens series until the blocks are no longer `excess` too wide or no
/// series is left that saves anything. The series that saves most goes
/// first, the leftmost of several that save the same.
pub fn shorten(series: &mut Vec<Series>, excess: i128)
    requires
        forall|k: int| 0 <= k < old(series)@.len() ==> !(#[trigger] old(series)@[k]).switched_to_short,
    ensures
        final(series)@ == shorten_spec(old(series)@, excess as int),
{
    let ghost g0 = series@;
    let mut left: i128 = excess;
    proof {
        lemma_no_switch_saves_nothing(g0, g0.len() as int);
    }
    while left > 0
        invariant
            shortening(g0, series@, excess as int),
            left == excess - saved_switched(series@, series@.len() as int),
            g0 == old(series)@,
        ensures
            left <= 0 || forall|i: int|
                0 <= i < series@.len() ==> !((#[trigger] series@[i]).delta > 0
                    && !series@[i].switched_to_short),
        decreases open_count(series@, series@.len() as int),
    {
        let ghost g = series@;
        match next_to_shorten(series) {
            None => {
                break ;
            },
            Some(b) => {
                let s = series[b];
                series.set(
                    b,
                    Series {
                        start: s.start,
                        end: s.end,
                        delta: s.delta,
                        switched_to_short: true,
                        separator: s.separator,
                        separator_block_width: s.separator_block_width,
                    },
                );
                left = left - s.delta;
                proof {
                    let h = series@;
                    let n = g.len() as int;
                    assert(same_but_switched(g, h));
                    lemma_switch_one(g, h, b as int, n);
                    // The series shortened so far are those that go before `b`.
                    assert forall|j: int|
                        0 <= j < n && g[j].delta > 0 && (#[trigger] g[j]).switched_to_short implies precedes(
                        g0,
                        j,
                        b as int,
                    ) by {
                        if !precedes(g0, j, b as int) {
                            assert(precedes(g0, b as int, j));
                            assert(g[b as int].switched_to_short);
                        }
                    }
                    assert forall|j: int|
                        0 <= j < n && g0[j].delta > 0 && precedes(g0, j, b as int) implies (
                    #[trigger] g[j]).switched_to_short by {
                        if !g[j].switched_to_short {
                            assert(precedes(g, b as int, j));
                        }
                    }
                    lemma_saved_switched_le(g0, g, b as int, n);
                    assert(is_shortened(g0, b as int, excess as int));
                    assert forall|j: int, k: int|
                        0 <= j < n && 0 <= k < n && g0[j].delta > 0 && (
                        #[trigger] h[k]).switched_to_short && precedes(g0, j, k) implies (
                    #[trigger] h[j]).switched_to_short by {
                        if k == b {
                            assert(g[j].switched_to_short || j == b);
                        } else {
                            assert(g[k].switched_to_short);
                            assert(g[j].switched_to_short);
                        }
                    }
                    assert forall|k: int|
                        0 <= k < n && (#[trigger] h[k]).switched_to_short implies is_shortened(
                        g0,
                        k,
                        excess as int,
                    ) by {
                        if k != b {
                            assert(g[k].switched_to_short);
                        }
                    }
                }
            },
        }
    }
    proof {
        let g = series@;
        let n = g.len() as int;
        assert forall|k: int|
            0 <= k < n && g0[k].delta > 0 && !(#[trigger] g[k]).switched_to_short implies saved_before(
            g0,
            k,
            n,
        ) >= excess by {
            if left <= 0 {
                assert forall|j: int|
                    0 <= j < n && g[j].delta > 0 && (#[trigger] g[j]).switched_to_short implies precedes(
                    g0,
                    j,
                    k,
                ) by {
                    if !precedes(g0, j, k) {
                        assert(precedes(g0, k, j));
                        assert(g[k].switched_to_short);
                    }
                }
                lemma_saved_switched_le(g0, g, k, n);
            }
        }
        assert(series@ =~= shorten_spec(g0, excess as int));
    }
}

/// What is shortened before a series saves nothing or more.
pub proof fn lemma_saved_before_bounds(g: Seq<Series>, k: int, n: int)
    ensures
        0 <= saved_before(g, k, n),
    decreases n,
{
    if n > 0 {
        lemma_saved_before_bounds(g, k, n - 1);
    }
}

/// Where the blocks are not too wide, no series is shortened.
pub proof fn lemma_no_excess(g: Seq<Series>, excess: int)
    requires
        excess <= 0,
    ensures
        forall|k: int| 0 <= k < g.len() ==> !is_shortened(g, k, excess),
        (forall|k: int| 0 <= k < g.len() ==> !(#[trigger] g[k]).switched_to_short) ==> shorten_spec(
            g,
            excess,
        ) == g,
{
    assert forall|k: int| 0 <= k < g.len() implies !is_shortened(g, k, excess) by {
        lemma_saved_before_bounds(g, k, g.len() as int);
    }
    if forall|k: int| 0 <= k < g.len() ==> !(#[trigger] g[k]).switched_to_short {
        assert(shorten_spec(g, excess) =~= g);
    }
}

proof fn lemma_no_switch_saves_nothing(g: Seq<Series>, n: int)
    requires
        0 <= n <= g.len(),
        forall|k: int| 0 <= k < g.len() ==> !(#[trigger] g[k]).switched_to_short,
    ensures
        saved_switched(g, n) == 0,
    decreases n,
{
    if n > 0 {
        lemma_no_switch_saves_nothing(g, n - 1);
    }
}

/// Of two series, one is shortened before the other, and the order has no
/// circle.
pub proof fn lemma_precedes_is_an_order(g: Seq<Series>, i: int, j: int, k: int)
    ensures
        i != j ==> (precedes(g, i, j) || precedes(g, j, i)),
        !(precedes(g, i, j) && precedes(g, j, i)),
        precedes(g, i, j) && precedes(g, j, k) ==> precedes(g, i, k),
{
}

/// A series that goes first has less shortened before it.
proof fn lemma_saved_before_rises(g: Seq<Series>, j: int, k: int, n: int)
    requires
        precedes(g, j, k),
    ensures
        saved_before(g, j, n) <= saved_before(g, k, n),
    decreases n,
{
    if n > 0 {
        lemma_saved_before_rises(g, j, k, n - 1);
    }
}

/// Series are shortened in the order of what they save, the greatest saving
/// first and the leftmost of equal savings first: where a series is
/// shortened, so is every series that saves more, and every series to its
/// left that saves as much. A series that saves nothing is never shortened,
/// and none is unless the blocks are too wide.
pub proof fn lemma_shortened_in_order(g: Seq<Series>, j: int, k: int, excess: int)
    requires
        0 <= j < g.len(),
        0 <= k < g.len(),
        is_shortened(g, k, excess),
    ensures
        g[k].delta > 0,
        excess > 0,
        g[j].delta > 0 && precedes(g, j, k) ==> is_shortened(g, j, excess),
{
    lemma_saved_before_bounds(g, k, g.len() as int);
    if precedes(g, j, k) {
        lemma_saved_before_rises(g, j, k, g.len() as int);
    }
}

/// Whether series `i` could be shortened and is not.
pub open spec fn left_long(g: Seq<Series>, i: int, excess: int) -> bool {
    g[i].delta > 0 && !is_shortened(g, i, excess)
}

/// Of the series that could be shortened and are not, one goes before all
/// others.
proof fn lemma_first_left_long(g: Seq<Series>, excess: int, n: int) -> (m: int)
    requires
        0 <= n <= g.len(),
        exists|i: int| 0 <= i < n && left_long(g, i, excess),
    ensures
        0 <= m < n,
        left_long(g, m, excess),
        forall|i: int| 0 <= i < n && i != m && left_long(g, i, excess) ==> precedes(g, m, i),
    decreases n,
{
    let last = n - 1;
    if exists|i: int| 0 <= i < last && left_long(g, i, excess) {
        let m0 = lemma_first_left_long(g, excess, last);
        if left_long(g, last, excess) && precedes(g, last, m0) {
            assert forall|i: int| 0 <= i < n && i != last && left_long(g, i, excess) implies precedes(
                g,
                last,
                i,
            ) by {
                lemma_precedes_is_an_order(g, last, m0, i);
            }
            last
        } else {
            m0
        }
    } else {
        let w = choose|i: int| 0 <= i < n && left_long(g, i, excess);
        assert(w == last);
        last
    }
}

/// What goes before a series is shortened where that series is the first
/// left long; so those save no more than all that are shortened.
proof fn lemma_saved_before_le_switched(g: Seq<Series>, h: Seq<Series>, m: int, n: int)
    requires
        0 <= n <= g.len(),
        same_but_switched(g, h),
        forall|j: int|
            0 <= j < g.len() && g[j].delta > 0 && precedes(g, j, m) ==> (
            #[trigger] h[j]).switched_to_short,
    ensures
        saved_before(g, m, n) <= saved_switched(h, n),
    decreases n,
{
    if n > 0 {
        lemma_saved_before_le_switched(g, h, m, n - 1);
        assert(h[n - 1].delta == g[n - 1].delta);
    }
}

/// Shortening goes on until the blocks fit or nothing is left to shorten:
/// either every series that saves anything is shortened, or those that are
/// save at least the excess.
pub proof fn lemma_shortening_stops(g: Seq<Series>, excess: int)
    ensures
        (forall|k: int| 0 <= k < g.len() && g[k].delta > 0 ==> is_shortened(g, k, excess))
            || saved_switched(shorten_spec(g, excess), g.len() as int) >= excess,
{
    let n = g.len() as int;
    let h = shorten_spec(g, excess);
    if exists|i: int| 0 <= i < n && left_long(g, i, excess) {
        let m = lemma_first_left_long(g, excess, n);
        assert forall|j: int| 0 <= j < n && g[j].delta > 0 && precedes(g, j, m) implies (
        #[trigger] h[j]).switched_to_short by {
            if !is_shortened(g, j, excess) {
                assert(left_long(g, j, excess));
                lemma_precedes_is_an_order(g, j, m, j);
            }
        }
        lemma_saved_before_le_switched(g, h, m, n);
    } else {
        assert forall|k: int| 0 <= k < g.len() && g[k].delta > 0 implies is_shortened(
            g,
            k,
            excess,
        ) by {
            if !is_shortened(g, k, excess) {
                assert(left_long(g, k, excess));
            }
        }
    }
}

} // verus!
