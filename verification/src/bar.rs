//! The bar: where its tags, its layout name and its blocks stand, how they
//! are drawn, and what a click means.
use crate::button_manager::{in_order, is_first_hit, Button, ButtonManager};
use crate::color::{Color, ColorPair};
use crate::config::{Config, Position};
use crate::i3bar_protocol::{clone_name, ComputedBlock};
use crate::series::{
    group_series, group_spec, is_grouping, is_shortened, lemma_group_spec, lemma_no_excess,
    lemma_sum_shrink_bounds, saved_before, series_at, shorten, shorten_spec, splits, sum_full,
    Series,
};
use crate::text::{padded_width, Align, Attributes, ComputedText, RenderOptions};
use crate::wm_info_provider::Tag;
use vstd::prelude::*;

verus! {

/// What a click on a block reports: the block's name and instance.
pub type BlockId = (Option<String>, Option<String>);

/// One thing to draw in the blocks' area.
#[derive(Clone, Copy, Debug, PartialEq, Eq, Structural)]
pub enum DrawOp {
    /// The text of block `index`, its short one if `short`, `width` wide.
    Block { index: usize, short: bool, width: u32, options: RenderOptions },
    /// The mark between two series: a vertical line in the middle of the
    /// room between them, over the middle four fifths of the bar's height.
    /// `x_halves` is its place in half pixels, `top_tenths` and
    /// `bottom_tenths` are its ends in tenths of a pixel.
    Separator { x_halves: i128, top_tenths: u64, bottom_tenths: u64, line_width: u32, color: Color },
}

/// The width of block `i` as series `s` shows it.
pub open spec fn member_width(blocks: Seq<ComputedBlock>, s: Series, i: int) -> int {
    blocks[i].active_width(s.switched_to_short)
}

/// The width of the blocks `lo` to `hi` as series `s` shows them.
pub open spec fn run_width(blocks: Seq<ComputedBlock>, s: Series, lo: int, hi: int) -> int
    decreases hi - lo,
{
    if hi <= lo {
        0
    } else {
        run_width(blocks, s, lo, hi - 1) + member_width(blocks, s, hi - 1)
    }
}

/// How many of the blocks `lo` to `hi` are shown by series `s`: those whose
/// width is not 0.
pub open spec fn alive(blocks: Seq<ComputedBlock>, s: Series, lo: int, hi: int) -> int
    decreases hi - lo,
{
    if hi <= lo {
        0
    } else {
        alive(blocks, s, lo, hi - 1) + if member_width(blocks, s, hi - 1) > 0 {
            1int
        } else {
            0int
        }
    }
}

/// The room kept free behind series `k`: what its last block asks for, if
/// that block is shown and another series follows.
pub open spec fn gap_after(blocks: Seq<ComputedBlock>, g: Seq<Series>, k: int) -> int {
    if k + 1 < g.len() && member_width(blocks, g[k], g[k].end - 1) > 0 {
        g[k].separator_block_width as int
    } else {
        0
    }
}

/// The width of all that is laid out from series `k` on.
pub open spec fn width_from(blocks: Seq<ComputedBlock>, g: Seq<Series>, k: int) -> int
    decreases g.len() - k,
{
    if k >= g.len() {
        0
    } else {
        run_width(blocks, g[k], g[k].start as int, g[k].end as int) + gap_after(blocks, g, k)
            + width_from(blocks, g, k + 1)
    }
}

/// The room between the series when none is shortened or dropped: what each
/// but the last asks for.
pub open spec fn gaps_upto(g: Seq<Series>, k: int) -> int
    decreases k,
{
    if k <= 0 {
        0
    } else {
        gaps_upto(g, k - 1) + g[k - 1].separator_block_width
    }
}

/// The width of the blocks when all show their full text, with the room
/// between the series.
pub open spec fn full_mode_width(blocks: Seq<ComputedBlock>, g: Seq<Series>) -> int {
    sum_full(blocks, 0, blocks.len() as int) + gaps_upto(g, g.len() - 1)
}

/// The series of `blocks` as they are shown in a bar `full_width` wide whose
/// blocks' area starts at `offset_left`: shortened as far as the width asks.
pub open spec fn layout_series(blocks: Seq<ComputedBlock>, offset_left: int, full_width: int) -> Seq<
    Series,
> {
    let g = group_spec(blocks);
    shorten_spec(g, offset_left + full_mode_width(blocks, g) - full_width)
}

/// How block `i` of series `s` is drawn with its left edge at `x`. The first
/// block shown of a series has round corners on the left, the last on the
/// right.
pub open spec fn block_op(
    config: Config,
    blocks: Seq<ComputedBlock>,
    s: Series,
    i: int,
    x: int,
    full_height: u32,
) -> DrawOp {
    DrawOp::Block {
        index: i as usize,
        short: s.switched_to_short && blocks[i].short is Some,
        width: member_width(blocks, s, i) as u32,
        options: RenderOptions {
            x_offset: x as i128,
            bar_height: full_height,
            fg_color: match blocks[i].block.color {
                Some(c) => c,
                None => config.color,
            },
            bg_color: blocks[i].block.background,
            r_left: if alive(blocks, s, s.start as int, i) == 0 {
                config.blocks_r
            } else {
                0
            },
            r_right: if alive(blocks, s, i + 1, s.end as int) == 0 {
                config.blocks_r
            } else {
                0
            },
            overlap: config.blocks_overlap,
        },
    }
}

/// What is drawn for the blocks of series `s` before block `hi`, where the
/// series starts at `x0`. A block whose width is 0 is left out.
pub open spec fn members_ops(
    config: Config,
    blocks: Seq<ComputedBlock>,
    s: Series,
    x0: int,
    full_height: u32,
    hi: int,
) -> Seq<DrawOp>
    decreases hi - s.start,
{
    if hi <= s.start {
        Seq::empty()
    } else {
        let before = members_ops(config, blocks, s, x0, full_height, hi - 1);
        if member_width(blocks, s, hi - 1) > 0 {
            before.push(
                block_op(
                    config,
                    blocks,
                    s,
                    hi - 1,
                    x0 + run_width(blocks, s, s.start as int, hi - 1),
                    full_height,
                ),
            )
        } else {
            before
        }
    }
}

/// Whether a mark is drawn behind series `k`: there is room for it, the
/// last block of the series asks for it, and the bar draws marks.
pub open spec fn has_mark(config: Config, blocks: Seq<ComputedBlock>, g: Seq<Series>, k: int) -> bool {
    gap_after(blocks, g, k) > 0 && g[k].separator && config.separator_width > 0
}

/// The mark in the middle of the room `gap` wide that starts at `x`.
pub open spec fn mark_op(config: Config, x: int, gap: int, full_height: u32) -> DrawOp {
    DrawOp::Separator {
        x_halves: (2 * x + gap) as i128,
        top_tenths: full_height as u64,
        bottom_tenths: (9 * full_height) as u64,
        line_width: config.separator_width,
        color: config.separator,
    }
}

/// Where series `k` starts in a bar `full_width` wide: all from it on ends
/// at the right edge of the bar.
pub open spec fn series_x(blocks: Seq<ComputedBlock>, g: Seq<Series>, k: int, full_width: u32) -> int {
    full_width - width_from(blocks, g, k)
}

/// What is drawn for series `k`: its blocks from left to right, then the
/// mark behind it if there is one.
pub open spec fn series_ops(
    config: Config,
    blocks: Seq<ComputedBlock>,
    g: Seq<Series>,
    k: int,
    full_width: u32,
    full_height: u32,
) -> Seq<DrawOp> {
    let s = g[k];
    let x0 = series_x(blocks, g, k, full_width);
    let members = members_ops(config, blocks, s, x0, full_height, s.end as int);
    if has_mark(config, blocks, g, k) {
        members.push(
            mark_op(
                config,
                x0 + run_width(blocks, s, s.start as int, s.end as int),
                gap_after(blocks, g, k),
                full_height,
            ),
        )
    } else {
        members
    }
}

/// What is drawn for the first `k` series.
pub open spec fn ops_upto(
    config: Config,
    blocks: Seq<ComputedBlock>,
    g: Seq<Series>,
    k: int,
    full_width: u32,
    full_height: u32,
) -> Seq<DrawOp>
    decreases k,
{
    if k <= 0 {
        Seq::empty()
    } else {
        ops_upto(config, blocks, g, k - 1, full_width, full_height) + series_ops(
            config,
            blocks,
            g,
            k - 1,
            full_width,
            full_height,
        )
    }
}

/// What is drawn for `blocks` in a bar `full_width` wide and `full_height`
/// high, whose blocks' area starts at `offset_left`.
pub open spec fn render_spec(
    config: Config,
    blocks: Seq<ComputedBlock>,
    offset_left: int,
    full_width: u32,
    full_height: u32,
) -> Seq<DrawOp> {
    let g = layout_series(blocks, offset_left, full_width as int);
    ops_upto(config, blocks, g, g.len() as int, full_width, full_height)
}

/// The buttons of what is drawn: one for each block, where it is drawn, in
/// the same order.
pub open spec fn buttons_of(ops: Seq<DrawOp>, blocks: Seq<ComputedBlock>) -> Seq<Button<BlockId>>
    decreases ops.len(),
{
    if ops.len() == 0 {
        Seq::empty()
    } else {
        let before = buttons_of(ops.drop_last(), blocks);
        match ops.last() {
            DrawOp::Block { index, short, width, options } => before.push(
                Button {
                    x: options.x_offset,
                    width,
                    elem: (blocks[index as int].block.name, blocks[index as int].block.instance),
                },
            ),
            DrawOp::Separator { .. } => before,
        }
    }
}

/// What every drawn block is: one of `blocks`, as wide as its text, and not
/// empty.
pub open spec fn shows_a_block(op: DrawOp, blocks: Seq<ComputedBlock>) -> bool {
    match op {
        DrawOp::Block { index, short, width, options } => {
            &&& index < blocks.len()
            &&& width > 0
            &&& width == blocks[index as int].active_width(short)
        },
        DrawOp::Separator { .. } => true,
    }
}

proof fn lemma_run_width_bounds(blocks: Seq<ComputedBlock>, s: Series, lo: int, hi: int)
    requires
        lo <= hi,
    ensures
        0 <= run_width(blocks, s, lo, hi) <= (hi - lo) * 0xffff_ffff,
        0 <= alive(blocks, s, lo, hi) <= hi - lo,
        alive(blocks, s, lo, hi) == 0 <==> run_width(blocks, s, lo, hi) == 0,
    decreases hi - lo,
{
    if hi > lo {
        lemma_run_width_bounds(blocks, s, lo, hi - 1);
    }
}

proof fn lemma_alive_split(blocks: Seq<ComputedBlock>, s: Series, lo: int, mid: int, hi: int)
    requires
        lo <= mid <= hi,
    ensures
        alive(blocks, s, lo, hi) == alive(blocks, s, lo, mid) + alive(blocks, s, mid, hi),
    decreases hi - mid,
{
    if hi > mid {
        lemma_alive_split(blocks, s, lo, mid, hi - 1);
    }
}

/// More than any bar is wide.
pub open spec fn far() -> int {
    0x1_0000_0000_0000_0000_0000_0000_0000
}

proof fn lemma_width_from_exact_bounds(blocks: Seq<ComputedBlock>, g: Seq<Series>, n: int, k: int)
    requires
        splits(g, n),
        0 <= k <= g.len(),
    ensures
        0 <= width_from(blocks, g, k),
        k < g.len() ==> width_from(blocks, g, k) <= (n - g[k].start) * 0xffff_ffff + (g.len() - k)
            * 255,
        k == g.len() ==> width_from(blocks, g, k) == 0,
    decreases g.len() - k,
{
    if k < g.len() {
        lemma_width_from_exact_bounds(blocks, g, n, k + 1);
        lemma_run_width_bounds(blocks, g[k], g[k].start as int, g[k].end as int);
        if k + 1 < g.len() {
            assert(g[k].end == g[k + 1].start);
        } else {
            assert(g[k] == g.last());
        }
    }
}

proof fn lemma_width_from_bounds(blocks: Seq<ComputedBlock>, g: Seq<Series>, n: int, k: int)
    requires
        splits(g, n),
        0 <= k <= g.len(),
        n <= usize::MAX,
        g.len() <= usize::MAX,
    ensures
        0 <= width_from(blocks, g, k) <= far(),
        k < g.len() ==> width_from(blocks, g, k) == run_width(
            blocks,
            g[k],
            g[k].start as int,
            g[k].end as int,
        ) + gap_after(blocks, g, k) + width_from(blocks, g, k + 1),
        k < g.len() ==> 0 <= run_width(blocks, g[k], g[k].start as int, g[k].end as int) <= far(),
{
    lemma_width_from_exact_bounds(blocks, g, n, k);
    if k < g.len() {
        lemma_run_width_bounds(blocks, g[k], g[k].start as int, g[k].end as int);
        assert(g[k].end - g[k].start <= n);
        assert(run_width(blocks, g[k], g[k].start as int, g[k].end as int) <= n * 0xffff_ffff);
    }
}

/// The series as they are shown split the blocks as the series do that were
/// found, and none of those is shortened.
proof fn lemma_layout_series_splits(blocks: Seq<ComputedBlock>, offset_left: int, full_width: int)
    requires
        blocks.len() <= usize::MAX,
    ensures
        splits(group_spec(blocks), blocks.len() as int),
        splits(layout_series(blocks, offset_left, full_width), blocks.len() as int),
        forall|k: int|
            0 <= k < group_spec(blocks).len() ==> !(#[trigger] group_spec(blocks)[k]).switched_to_short,
{
    lemma_group_spec(blocks);
    let g = group_spec(blocks);
    let h = layout_series(blocks, offset_left, full_width);
    assert(h.len() == g.len());
    assert forall|k: int| 0 <= k < h.len() implies (#[trigger] h[k]).start == g[k].start && h[k].end
        == g[k].end by {}
    if h.len() > 0 {
        assert(h.last().end == g.last().end);
    }
}

/// All series together save no more than each block could at most.
proof fn lemma_saved_before_capped(blocks: Seq<ComputedBlock>, g: Seq<Series>, k: int, m: int)
    requires
        is_grouping(blocks, g, blocks.len() as int),
        0 <= m <= g.len(),
    ensures
        0 <= saved_before(g, k, m),
        m > 0 ==> saved_before(g, k, m) <= g[m - 1].end * 0xffff_ffff,
        m == 0 ==> saved_before(g, k, m) == 0,
    decreases m,
{
    if m > 0 {
        lemma_saved_before_capped(blocks, g, k, m - 1);
        lemma_sum_shrink_bounds(blocks, g[m - 1].start as int, g[m - 1].end as int);
        assert(g[m - 1] == series_at(blocks, g[m - 1].start as int, g[m - 1].end as int));
        if m > 1 {
            assert(g[m - 2].end == g[m - 1].start);
        }
    }
}

/// An excess greater than all that the blocks can save shortens the same
/// series as any other such excess: all that save anything.
proof fn lemma_great_excess(blocks: Seq<ComputedBlock>, g: Seq<Series>, a: int, b: int)
    requires
        blocks.len() <= usize::MAX,
        g == group_spec(blocks),
        a == b || (a > usize::MAX * 0xffff_ffff && b > usize::MAX * 0xffff_ffff),
    ensures
        shorten_spec(g, a) == shorten_spec(g, b),
{
    lemma_group_spec(blocks);
    assert forall|k: int| 0 <= k < g.len() implies is_shortened(g, k, a) == is_shortened(g, k, b) by {
        lemma_saved_before_capped(blocks, g, k, g.len() as int);
        assert(g[g.len() - 1].end <= usize::MAX);
    }
    assert(shorten_spec(g, a) =~= shorten_spec(g, b));
}

/// The width of the blocks when none is shortened, with the room between
/// the series.
fn full_width_of(blocks: &Vec<ComputedBlock>, series: &Vec<Series>) -> (total: i128)
    ensures
        total == full_mode_width(blocks@, series@),
        0 <= total <= blocks@.len() * 0xffff_ffff + series@.len() * 255,
{
    let mut total: i128 = 0;
    let mut i: usize = 0;
    while i < blocks.len()
        invariant
            i <= blocks@.len(),
            total == sum_full(blocks@, 0, i as int),
            0 <= total <= i * 0xffff_ffff,
        decreases blocks@.len() - i,
    {
        total = total + blocks[i].full.width as i128;
        i += 1;
    }
    let mut k: usize = 0;
    assert(series.len() <= usize::MAX);
    let ghost widths = total;
    while series.len() - k > 1
        invariant
            k <= series@.len() <= usize::MAX,
            blocks@.len() <= usize::MAX,
            total == widths + gaps_upto(series@, k as int),
            0 <= widths <= blocks@.len() * 0xffff_ffff,
            0 <= gaps_upto(series@, k as int) <= k * 255,
            series@.len() == 0 || k < series@.len(),
        decreases series@.len() - k,
    {
        total = total + series[k].separator_block_width as i128;
        k += 1;
    }
    total
}

/// The width of a series as it is shown, and how many of its blocks are.
fn measure_series(blocks: &Vec<ComputedBlock>, s: &Series) -> (r: (i128, usize))
    requires
        s.start <= s.end <= blocks@.len(),
    ensures
        r.0 == run_width(blocks@, *s, s.start as int, s.end as int),
        r.1 == alive(blocks@, *s, s.start as int, s.end as int),
{
    let mut width: i128 = 0;
    let mut shown: usize = 0;
    let mut i: usize = s.start;
    while i < s.end
        invariant
            s.start <= i <= s.end <= blocks@.len(),
            width == run_width(blocks@, *s, s.start as int, i as int),
            shown == alive(blocks@, *s, s.start as int, i as int),
            0 <= width <= (i - s.start) * 0xffff_ffff,
            shown <= i - s.start,
        decreases s.end - i,
    {
        let w = blocks[i].width_as(s.switched_to_short);
        width = width + w as i128;
        if w > 0 {
            shown += 1;
        }
        i += 1;
    }
    (width, shown)
}

/// The room kept free behind series `k`.
fn gap_of(blocks: &Vec<ComputedBlock>, series: &Vec<Series>, k: usize) -> (gap: u8)
    requires
        splits(series@, blocks@.len() as int),
        k < series@.len(),
    ensures
        gap == gap_after(blocks@, series@, k as int),
{
    let s = &series[k];
    if series.len() - k > 1 && blocks[s.end - 1].width_as(s.switched_to_short) > 0 {
        s.separator_block_width
    } else {
        0
    }
}

/// The width of all that is laid out.
fn laid_out_width(blocks: &Vec<ComputedBlock>, series: &Vec<Series>) -> (total: i128)
    requires
        splits(series@, blocks@.len() as int),
    ensures
        total == width_from(blocks@, series@, 0),
{
    let mut total: i128 = 0;
    let mut k: usize = series.len();
    proof {
        assert(blocks.len() <= usize::MAX);
        lemma_width_from_bounds(blocks@, series@, blocks@.len() as int, k as int);
    }
    while k > 0
        invariant
            splits(series@, blocks@.len() as int),
            k <= series@.len() <= usize::MAX,
            blocks@.len() <= usize::MAX,
            total == width_from(blocks@, series@, k as int),
            0 <= total <= far(),
        decreases k,
    {
        k -= 1;
        proof {
            lemma_width_from_bounds(blocks@, series@, blocks@.len() as int, k as int);
        }
        let (width, _) = measure_series(blocks, &series[k]);
        let gap = gap_of(blocks, series, k);
        total = total + width + gap as i128;
    }
    total
}

/// Places the blocks of `series` so that the last ends at the right edge of
/// the bar, and says what is drawn where and which stretch of the bar
/// belongs to which block.
fn place(
    config: &Config,
    blocks: &Vec<ComputedBlock>,
    series: &Vec<Series>,
    buttons: &mut ButtonManager<BlockId>,
    full_width: u32,
    full_height: u32,
) -> (ops: Vec<DrawOp>)
    requires
        splits(series@, blocks@.len() as int),
    ensures
        ops@ == ops_upto(*config, blocks@, series@, series@.len() as int, full_width, full_height),
        final(buttons).buttons@ == buttons_of(ops@, blocks@),
        in_order(final(buttons).buttons@),
        forall|j: int| 0 <= j < ops@.len() ==> shows_a_block(#[trigger] ops@[j], blocks@),
{
    let ghost n = blocks@.len() as int;
    let ghost g = series@;
    assert(blocks.len() <= usize::MAX && series.len() <= usize::MAX);
    let total = laid_out_width(blocks, series);
    proof {
        lemma_width_from_bounds(blocks@, g, n, 0);
    }
    let mut x: i128 = full_width as i128 - total;
    let mut ops: Vec<DrawOp> = Vec::new();
    buttons.clear();
    assert(buttons.buttons@ =~= buttons_of(ops@, blocks@));
    let mut k: usize = 0;
    while k < series.len()
        invariant
            g == series@,
            n == blocks@.len(),
            n <= usize::MAX,
            g.len() <= usize::MAX,
            splits(g, n),
            k <= g.len(),
            x == series_x(blocks@, g, k as int, full_width),
            ops@ == ops_upto(*config, blocks@, g, k as int, full_width, full_height),
            buttons.buttons@ == buttons_of(ops@, blocks@),
            in_order(buttons.buttons@),
            forall|j: int|
                0 <= j < buttons.buttons@.len() ==> (#[trigger] buttons.buttons@[j]).x
                    + buttons.buttons@[j].width <= x,
            forall|j: int| 0 <= j < ops@.len() ==> shows_a_block(#[trigger] ops@[j], blocks@),
        decreases g.len() - k,
    {
        let s = series[k];
        let (_, shown) = measure_series(blocks, &s);
        let ghost x0 = x as int;
        let ghost done = ops@;
        let mut seen: usize = 0;
        let mut i: usize = s.start;
        proof {
            lemma_width_from_bounds(blocks@, g, n, k as int);
            lemma_width_from_bounds(blocks@, g, n, k + 1);
            lemma_run_width_bounds(blocks@, s, s.start as int, s.end as int);
            assert(ops@ =~= done + members_ops(*config, blocks@, s, x0, full_height, i as int));
        }
        while i < s.end
            invariant
                n == blocks@.len(),
                s.start <= i <= s.end <= n,
                x0 == series_x(blocks@, g, k as int, full_width),
                -far() <= x0 <= 0x1_0000_0000,
                x == x0 + run_width(blocks@, s, s.start as int, i as int),
                0 <= run_width(blocks@, s, s.start as int, i as int) <= (i - s.start) * 0xffff_ffff,
                seen == alive(blocks@, s, s.start as int, i as int),
                shown == alive(blocks@, s, s.start as int, s.end as int),
                seen <= i - s.start,
                ops@ == done + members_ops(*config, blocks@, s, x0, full_height, i as int),
                buttons.buttons@ == buttons_of(ops@, blocks@),
                in_order(buttons.buttons@),
                forall|j: int|
                    0 <= j < buttons.buttons@.len() ==> (#[trigger] buttons.buttons@[j]).x
                        + buttons.buttons@[j].width <= x,
                forall|j: int| 0 <= j < ops@.len() ==> shows_a_block(#[trigger] ops@[j], blocks@),
            decreases s.end - i,
        {
            let computed = &blocks[i];
            let w = computed.width_as(s.switched_to_short);
            if w > 0 {
                proof {
                    lemma_alive_split(blocks@, s, s.start as int, i as int, i + 1);
                    lemma_alive_split(blocks@, s, s.start as int, i + 1, s.end as int);
                    lemma_run_width_bounds(blocks@, s, i + 1, s.end as int);
                    assert(alive(blocks@, s, i as int, i as int) == 0);
                }
                let op = DrawOp::Block {
                    index: i,
                    short: s.switched_to_short && computed.short.is_some(),
                    width: w,
                    options: RenderOptions {
                        x_offset: x,
                        bar_height: full_height,
                        fg_color: match computed.block.color {
                            Some(c) => c,
                            None => config.color,
                        },
                        bg_color: computed.block.background,
                        r_left: if seen == 0 {
                            config.blocks_r
                        } else {
                            0
                        },
                        r_right: if seen + 1 == shown {
                            config.blocks_r
                        } else {
                            0
                        },
                        overlap: config.blocks_overlap,
                    },
                };
                assert(op == block_op(*config, blocks@, s, i as int, x as int, full_height));
                let ghost old_ops = ops@;
                let ghost old_buttons = buttons.buttons@;
                ops.push(op);
                buttons.push(
                    x,
                    w,
                    (clone_name(&computed.block.name), clone_name(&computed.block.instance)),
                );
                proof {
                    assert(ops@.drop_last() =~= old_ops);
                    assert(ops@ =~= done + members_ops(
                        *config,
                        blocks@,
                        s,
                        x0,
                        full_height,
                        i + 1,
                    ));
                    assert(buttons.buttons@ == buttons_of(ops@, blocks@));
                    assert forall|a: int, b: int|
                        0 <= a < b < buttons.buttons@.len() implies (#[trigger] buttons.buttons@[a]).x
                        + buttons.buttons@[a].width <= (#[trigger] buttons.buttons@[b]).x by {
                        assert(buttons.buttons@[a] == old_buttons[a]);
                        if b < old_buttons.len() {
                            assert(buttons.buttons@[b] == old_buttons[b]);
                        }
                    }
                    assert forall|j: int| 0 <= j < buttons.buttons@.len() implies (
                    #[trigger] buttons.buttons@[j]).width > 0 by {
                        if j < old_buttons.len() {
                            assert(buttons.buttons@[j] == old_buttons[j]);
                        }
                    }
                    assert forall|j: int| 0 <= j < buttons.buttons@.len() implies (
                    #[trigger] buttons.buttons@[j]).x + buttons.buttons@[j].width <= x + w by {
                        if j < old_buttons.len() {
                            assert(buttons.buttons@[j] == old_buttons[j]);
                        }
                    }
                    assert forall|j: int| 0 <= j < ops@.len() implies shows_a_block(
                        #[trigger] ops@[j],
                        blocks@,
                    ) by {
                        if j < old_ops.len() {
                            assert(ops@[j] == old_ops[j]);
                        }
                    }
                }
                x = x + w as i128;
                seen += 1;
            }
            i += 1;
        }
        let gap = gap_of(blocks, series, k);
        if gap > 0 {
            if s.separator && config.separator_width > 0 {
                let ghost old_ops = ops@;
                ops.push(
                    DrawOp::Separator {
                        x_halves: 2 * x + gap as i128,
                        top_tenths: full_height as u64,
                        bottom_tenths: 9 * (full_height as u64),
                        line_width: config.separator_width,
                        color: config.separator,
                    },
                );
                proof {
                    assert(ops@.drop_last() =~= old_ops);
                    assert forall|j: int| 0 <= j < ops@.len() implies shows_a_block(
                        #[trigger] ops@[j],
                        blocks@,
                    ) by {
                        if j < old_ops.len() {
                            assert(ops@[j] == old_ops[j]);
                        }
                    }
                }
            }
            x = x + gap as i128;
        }
        proof {
            assert(ops@ =~= done + series_ops(
                *config,
                blocks@,
                g,
                k as int,
                full_width,
                full_height,
            ));
        }
        k += 1;
    }
    ops
}

/// Lays out the blocks in a bar `full_width` wide and `full_height` high
/// whose blocks' area starts at `offset_left`. Series are shortened while
/// the blocks are too wide for their area. Returns what is drawn, from left
/// to right; `buttons` is rebuilt with one button for each block drawn.
/// What is still too wide hangs over on the left.
pub fn render_blocks(
    config: &Config,
    blocks: &Vec<ComputedBlock>,
    buttons: &mut ButtonManager<BlockId>,
    offset_left: i128,
    full_width: u32,
    full_height: u32,
) -> (ops: Vec<DrawOp>)
    ensures
        ops@ == render_spec(*config, blocks@, offset_left as int, full_width, full_height),
        final(buttons).buttons@ == buttons_of(ops@, blocks@),
        in_order(final(buttons).buttons@),
        forall|j: int| 0 <= j < ops@.len() ==> shows_a_block(#[trigger] ops@[j], blocks@),
{
    let mut series = group_series(blocks);
    let ghost g0 = series@;
    proof {
        assert(blocks.len() <= usize::MAX);
        lemma_layout_series_splits(blocks@, offset_left as int, full_width as int);
    }
    let blocks_width = full_width_of(blocks, &series);
    assert(blocks_width <= 0x1_0000_0000_0000_0000 * 0xffff_ffff + 0x1_0000_0000_0000_0000 * 255) by {
        assert(blocks.len() <= 0xffff_ffff_ffff_ffff && series.len() <= 0xffff_ffff_ffff_ffff);
    }
    let ghost true_excess = offset_left + blocks_width - full_width;
    // An offset so far out that the excess is beyond what an `i128` holds
    // stands for the nearest that one holds: the outcome is the same.
    let excess: i128 = if offset_left > i128::MAX - blocks_width {
        i128::MAX
    } else if offset_left + blocks_width < i128::MIN + full_width as i128 {
        i128::MIN
    } else {
        offset_left + blocks_width - full_width as i128
    };
    // Progressively switch to short mode
    if excess > 0 {
        shorten(&mut series, excess);
        proof {
            lemma_great_excess(blocks@, g0, excess as int, true_excess);
        }
    } else {
        proof {
            lemma_no_excess(g0, true_excess);
        }
    }
    place(config, blocks, &series, buttons, full_width, full_height)
}

/// Whether `op` draws a block of `g` that is shown, the way a block is
/// drawn: block `i` of series `k`, behind the blocks of its series that
/// stand before it.
pub open spec fn draws_member(
    op: DrawOp,
    config: Config,
    blocks: Seq<ComputedBlock>,
    g: Seq<Series>,
    k: int,
    i: int,
    full_width: u32,
    full_height: u32,
) -> bool {
    &&& 0 <= k < g.len()
    &&& g[k].start <= i < g[k].end
    &&& member_width(blocks, g[k], i) > 0
    &&& op == block_op(
        config,
        blocks,
        g[k],
        i,
        series_x(blocks, g, k, full_width) + run_width(blocks, g[k], g[k].start as int, i),
        full_height,
    )
}

/// Whether `op` is one of those drawn for the series `g`: a block that is
/// shown, or the mark behind a series that has one.
pub open spec fn is_drawn_for(
    op: DrawOp,
    config: Config,
    blocks: Seq<ComputedBlock>,
    g: Seq<Series>,
    full_width: u32,
    full_height: u32,
) -> bool {
    ||| exists|k: int, i: int| #[trigger]
        draws_member(op, config, blocks, g, k, i, full_width, full_height)
    ||| exists|k: int|
        0 <= k < g.len() && #[trigger] has_mark(config, blocks, g, k) && op is Separator
}

proof fn lemma_members_are_shown(
    config: Config,
    blocks: Seq<ComputedBlock>,
    g: Seq<Series>,
    k: int,
    full_width: u32,
    full_height: u32,
    hi: int,
)
    requires
        0 <= k < g.len(),
        hi <= g[k].end,
    ensures
        forall|j: int|
            #![trigger members_ops(
                config,
                blocks,
                g[k],
                series_x(blocks, g, k, full_width),
                full_height,
                hi,
            )[j]]
            0 <= j < members_ops(
                config,
                blocks,
                g[k],
                series_x(blocks, g, k, full_width),
                full_height,
                hi,
            ).len() ==> is_drawn_for(
                members_ops(
                    config,
                    blocks,
                    g[k],
                    series_x(blocks, g, k, full_width),
                    full_height,
                    hi,
                )[j],
                config,
                blocks,
                g,
                full_width,
                full_height,
            ),
    decreases hi - g[k].start,
{
    let s = g[k];
    let x0 = series_x(blocks, g, k, full_width);
    let ops = members_ops(config, blocks, s, x0, full_height, hi);
    if hi > s.start {
        lemma_members_are_shown(config, blocks, g, k, full_width, full_height, hi - 1);
        let before = members_ops(config, blocks, s, x0, full_height, hi - 1);
        assert forall|j: int| 0 <= j < ops.len() implies is_drawn_for(
            #[trigger] ops[j],
            config,
            blocks,
            g,
            full_width,
            full_height,
        ) by {
            if j < before.len() {
                assert(ops[j] == before[j]);
            } else {
                assert(draws_member(ops[j], config, blocks, g, k, hi - 1, full_width, full_height));
            }
        }
    }
}

/// All that is drawn for the blocks is a block that is shown or a mark
/// behind a series that has room for one. So a block whose text has no
/// width where its series shows it is not drawn, has no button, and keeps
/// no room behind it.
pub proof fn lemma_only_shown_blocks_are_drawn(
    config: Config,
    blocks: Seq<ComputedBlock>,
    g: Seq<Series>,
    k: int,
    full_width: u32,
    full_height: u32,
)
    requires
        0 <= k <= g.len(),
    ensures
        forall|j: int|
            #![trigger ops_upto(config, blocks, g, k, full_width, full_height)[j]]
            0 <= j < ops_upto(config, blocks, g, k, full_width, full_height).len() ==> is_drawn_for(
                ops_upto(config, blocks, g, k, full_width, full_height)[j],
                config,
                blocks,
                g,
                full_width,
                full_height,
            ),
        forall|a: int|
            0 <= a < g.len() && member_width(blocks, g[a], g[a].end - 1) == 0 ==> #[trigger] gap_after(
                blocks,
                g,
                a,
            ) == 0 && !has_mark(config, blocks, g, a),
    decreases k,
{
    if k > 0 {
        lemma_only_shown_blocks_are_drawn(config, blocks, g, k - 1, full_width, full_height);
        lemma_members_are_shown(config, blocks, g, k - 1, full_width, full_height, g[k - 1].end as int);
        let before = ops_upto(config, blocks, g, k - 1, full_width, full_height);
        let these = series_ops(config, blocks, g, k - 1, full_width, full_height);
        let ops = ops_upto(config, blocks, g, k, full_width, full_height);
        let members = members_ops(
            config,
            blocks,
            g[k - 1],
            series_x(blocks, g, k - 1, full_width),
            full_height,
            g[k - 1].end as int,
        );
        assert forall|j: int| 0 <= j < ops.len() implies is_drawn_for(
            #[trigger] ops[j],
            config,
            blocks,
            g,
            full_width,
            full_height,
        ) by {
            if j < before.len() {
                assert(ops[j] == before[j]);
            } else {
                let t = j - before.len();
                assert(ops[j] == these[t]);
                if t < members.len() {
                    assert(these[t] == members[t]);
                } else {
                    assert(has_mark(config, blocks, g, k - 1));
                }
            }
        }
    }
}

/// A tag's label with the colors of its state.
pub type TagLabel = (ColorPair, ComputedText);

/// The state of one bar.
pub struct Bar {
    pub hidden: bool,
    pub mapped: bool,
    /// Whether a frame was asked for and has not been drawn yet.
    pub frame_pending: bool,
    pub width: u32,
    pub height: u32,
    /// The scale of the output in 120ths, where it is fractional.
    pub scale120: Option<u32>,
    /// The whole scale of the output.
    pub scale: u32,
    pub blocks_btns: ButtonManager<BlockId>,
    pub tags: Vec<Tag>,
    pub layout_name: Option<String>,
    pub tags_btns: ButtonManager<String>,
    /// The labels of the tags that are shown; empty until a frame was drawn
    /// with the tags as they are.
    pub tags_computed: Vec<TagLabel>,
    pub layout_name_computed: Option<ComputedText>,
}

/// The padding on both sides of the layout's name.
pub const LAYOUT_NAME_PADDING: u32 = 25;

/// How the label of a tag is laid out.
pub open spec fn tag_attributes(config: Config) -> Attributes {
    Attributes {
        padding_left: config.tags_padding,
        padding_right: config.tags_padding,
        min_width: None,
        align: Align::Left,
        markup: false,
    }
}

/// How the layout's name is laid out.
pub open spec fn layout_name_attributes() -> Attributes {
    Attributes {
        padding_left: LAYOUT_NAME_PADDING,
        padding_right: LAYOUT_NAME_PADDING,
        min_width: None,
        align: Align::Left,
        markup: false,
    }
}

/// The label of a tag named `label`, whose glyphs are `text_width` wide.
pub fn compute_tag_label(label: &str, text_width: u32, config: &Config) -> (r: ComputedText)
    ensures
        r.text@ == label@,
        r.attr == tag_attributes(*config),
        r.width == padded_width(text_width, tag_attributes(*config)),
{
    ComputedText::new(
        label.to_owned(),
        text_width,
        Attributes {
            padding_left: config.tags_padding,
            padding_right: config.tags_padding,
            min_width: None,
            align: Align::Left,
            markup: false,
        },
    )
}

/// The colors of a tag, or `None` for a tag that is not shown. An urgent tag
/// has the urgent colors whatever else it is; then come focus and activity.
/// A tag that is none of these is shown unless inactive tags are hidden.
pub open spec fn tag_colors(tag: Tag, config: Config) -> Option<ColorPair> {
    if tag.is_urgent {
        Some(ColorPair { bg: config.tag_urgent_bg, fg: config.tag_urgent_fg })
    } else if tag.is_focused {
        Some(ColorPair { bg: config.tag_focused_bg, fg: config.tag_focused_fg })
    } else if tag.is_active {
        Some(ColorPair { bg: config.tag_bg, fg: config.tag_fg })
    } else if !config.hide_inactive_tags {
        Some(ColorPair { bg: config.tag_inactive_bg, fg: config.tag_inactive_fg })
    } else {
        None
    }
}

/// The colors of a tag.
pub fn colors_of_tag(tag: &Tag, config: &Config) -> (r: Option<ColorPair>)
    ensures
        r == tag_colors(*tag, *config),
{
    if tag.is_urgent {
        Some(ColorPair { bg: config.tag_urgent_bg, fg: config.tag_urgent_fg })
    } else if tag.is_focused {
        Some(ColorPair { bg: config.tag_focused_bg, fg: config.tag_focused_fg })
    } else if tag.is_active {
        Some(ColorPair { bg: config.tag_bg, fg: config.tag_fg })
    } else if !config.hide_inactive_tags {
        Some(ColorPair { bg: config.tag_inactive_bg, fg: config.tag_inactive_fg })
    } else {
        None
    }
}

/// The width of the first `n` labels.
pub open spec fn labels_width(labels: Seq<TagLabel>, n: int) -> int
    decreases n,
{
    if n <= 0 {
        0
    } else {
        labels_width(labels, n - 1) + labels[n - 1].1.width
    }
}

/// Whether `label` is the label of `tag` in the colors `colors`.
pub open spec fn is_label_of(label: TagLabel, tag: Tag, colors: ColorPair, config: Config) -> bool {
    &&& label.0 == colors
    &&& label.1.text@ == tag.name@
    &&& label.1.attr == tag_attributes(config)
    &&& label.1.width == padded_width(tag.text_width, tag_attributes(config))
}

/// `labels` and `buttons` are those of the first `n` tags: one label and one
/// button for each tag that is shown, in the order of the tags, each button
/// where its label stands, the labels side by side from the left edge.
pub open spec fn labels_of_tags(
    labels: Seq<TagLabel>,
    buttons: Seq<Button<String>>,
    tags: Seq<Tag>,
    config: Config,
    n: int,
) -> bool
    decreases n,
{
    if n <= 0 {
        labels.len() == 0 && buttons.len() == 0
    } else {
        match tag_colors(tags[n - 1], config) {
            Some(colors) => {
                &&& labels.len() > 0
                &&& buttons.len() == labels.len()
                &&& is_label_of(labels.last(), tags[n - 1], colors, config)
                &&& buttons.last().x == labels_width(labels, labels.len() - 1)
                &&& buttons.last().width == labels.last().1.width
                &&& buttons.last().elem@ == tags[n - 1].name@
                &&& labels_of_tags(labels.drop_last(), buttons.drop_last(), tags, config, n - 1)
            },
            None => labels_of_tags(labels, buttons, tags, config, n - 1),
        }
    }
}

/// How label `i` is drawn: behind the labels before it, with round corners
/// towards a neighbour of other colors and at both ends of the row.
pub open spec fn tag_options(labels: Seq<TagLabel>, i: int, config: Config, height: u32) -> RenderOptions {
    RenderOptions {
        x_offset: labels_width(labels, i) as i128,
        bar_height: height,
        fg_color: labels[i].0.fg,
        bg_color: Some(labels[i].0.bg),
        r_left: if i == 0 || labels[i - 1].0 != labels[i].0 {
            config.tags_r
        } else {
            0
        },
        r_right: if i + 1 == labels.len() || labels[i + 1].0 != labels[i].0 {
            config.tags_r
        } else {
            0
        },
        overlap: 0,
    }
}

/// How the layout's name is drawn with its left edge at `x`.
pub open spec fn layout_name_options(x: int, config: Config, height: u32) -> RenderOptions {
    RenderOptions {
        x_offset: x as i128,
        bar_height: height,
        fg_color: config.tag_inactive_fg,
        bg_color: None,
        r_left: 0,
        r_right: 0,
        overlap: 0,
    }
}

/// A length in pixels of the buffer, for a scale given in 120ths: rounded to
/// the nearest, halves up.
pub open spec fn scaled(len: u32, scale120: u32) -> int {
    (len * scale120 + 60) / 120
}

/// What a frame consists of.
pub struct Frame {
    /// The size of the buffer in its own pixels.
    pub pix_width: u64,
    pub pix_height: u64,
    /// The scale from the bar's pixels to the buffer's, in 120ths.
    pub scale120: u64,
    /// How each label of `tags_computed` is drawn.
    pub tags: Vec<RenderOptions>,
    /// How the layout's name is drawn, if it is.
    pub layout_name: Option<RenderOptions>,
    /// What is drawn for the blocks.
    pub blocks: Vec<DrawOp>,
}

/// What a click hit.
pub enum ClickTarget<'a> {
    Tag(&'a String),
    Block(&'a BlockId),
    Nothing,
}

/// What the surface of a bar that is shown is set to.
#[derive(Clone, Copy, Debug, PartialEq, Eq, Structural)]
pub struct LayerSetup {
    pub height: u32,
    pub position: Position,
    pub margin_top: i32,
    pub margin_right: i32,
    pub margin_bottom: i32,
    pub margin_left: i32,
    /// The room that other windows leave to the bar: its height and the
    /// margin on the side away from the screen edge.
    pub exclusive_zone: i64,
}

/// The width of some labels depends on those labels alone.
proof fn lemma_labels_width_prefix(a: Seq<TagLabel>, b: Seq<TagLabel>, n: int)
    requires
        0 <= n <= a.len(),
        n <= b.len(),
        forall|i: int| 0 <= i < n ==> a[i] == b[i],
    ensures
        labels_width(a, n) == labels_width(b, n),
        0 <= labels_width(a, n) <= n * 0xffff_ffff,
    decreases n,
{
    if n > 0 {
        lemma_labels_width_prefix(a, b, n - 1);
    }
}

/// Computes the labels and the buttons of the tags that are shown.
fn compute_tags(
    tags: &Vec<Tag>,
    config: &Config,
    labels: &mut Vec<TagLabel>,
    buttons: &mut ButtonManager<String>,
)
    requires
        old(labels)@.len() == 0,
    ensures
        labels_of_tags(final(labels)@, final(buttons).buttons@, tags@, *config, tags@.len() as int),
{
    let mut offset_left: i128 = 0;
    buttons.clear();
    let mut i: usize = 0;
    while i < tags.len()
        invariant
            i <= tags@.len(),
            labels_of_tags(labels@, buttons.buttons@, tags@, *config, i as int),
            buttons.buttons@.len() == labels@.len(),
            labels@.len() <= i,
            offset_left == labels_width(labels@, labels@.len() as int),
            0 <= offset_left <= labels@.len() * 0xffff_ffff,
        decreases tags@.len() - i,
    {
        let tag = &tags[i];
        match colors_of_tag(tag, config) {
            Some(colors) => {
                let comp = compute_tag_label(tag.name.as_str(), tag.text_width, config);
                let ghost before = labels@;
                let ghost buttons_before = buttons.buttons@;
                let width = comp.width;
                buttons.push(offset_left, width, tag.name.clone());
                labels.push((colors, comp));
                proof {
                    assert(labels@.drop_last() =~= before);
                    assert(buttons.buttons@.drop_last() =~= buttons_before);
                    lemma_labels_width_prefix(before, labels@, before.len() as int);
                }
                offset_left = offset_left + width as i128;
            },
            None => {},
        }
        i += 1;
    }
}

/// Says how each label is drawn, and how wide all are together.
fn place_tags(labels: &Vec<TagLabel>, config: &Config, height: u32) -> (r: (Vec<RenderOptions>, i128))
    ensures
        r.0@.len() == labels@.len(),
        forall|i: int|
            0 <= i < labels@.len() ==> #[trigger] r.0@[i] == tag_options(labels@, i, *config, height),
        r.1 == labels_width(labels@, labels@.len() as int),
        0 <= r.1 <= labels@.len() * 0xffff_ffff,
{
    let mut ops: Vec<RenderOptions> = Vec::new();
    let mut offset_left: i128 = 0;
    let mut i: usize = 0;
    while i < labels.len()
        invariant
            i <= labels@.len(),
            ops@.len() == i,
            forall|j: int| 0 <= j < i ==> #[trigger] ops@[j] == tag_options(labels@, j, *config, height),
            offset_left == labels_width(labels@, i as int),
            0 <= offset_left <= i * 0xffff_ffff,
        decreases labels@.len() - i,
    {
        let label = &labels[i];
        let r_left = if i == 0 || labels[i - 1].0 != label.0 {
            config.tags_r
        } else {
            0
        };
        let r_right = if labels.len() - i == 1 || labels[i + 1].0 != label.0 {
            config.tags_r
        } else {
            0
        };
        ops.push(
            RenderOptions {
                x_offset: offset_left,
                bar_height: height,
                fg_color: label.0.fg,
                bg_color: Some(label.0.bg),
                r_left,
                r_right,
                overlap: 0,
            },
        );
        offset_left = offset_left + label.1.width as i128;
        i += 1;
    }
    (ops, offset_left)
}

/// The size of the buffer of a bar, and its scale in 120ths: what the
/// fractional scale gives, rounded; without one, the whole scale.
pub open spec fn frame_size(bar: Bar) -> (int, int, int) {
    match bar.scale120 {
        Some(s) => (scaled(bar.width, s), scaled(bar.height, s), s as int),
        None => (bar.width * bar.scale, bar.height * bar.scale, bar.scale * 120),
    }
}

/// Whether the layout's name is drawn.
pub open spec fn layout_name_shown(bar: Bar, config: Config) -> bool {
    config.show_layout_name && bar.layout_name is Some
}

/// Where the blocks' area starts: behind the tags and the layout's name.
pub open spec fn blocks_offset(bar: Bar, config: Config) -> int {
    labels_width(bar.tags_computed@, bar.tags_computed@.len() as int) + if layout_name_shown(
        bar,
        config,
    ) && bar.layout_name_computed is Some {
        bar.layout_name_computed.unwrap().width as int
    } else {
        0
    }
}

/// What the surface of a bar is set to under `config`.
pub open spec fn layer_setup(config: Config) -> LayerSetup {
    LayerSetup {
        height: config.height,
        position: config.position,
        margin_top: config.margin_top,
        margin_right: config.margin_right,
        margin_bottom: config.margin_bottom,
        margin_left: config.margin_left,
        exclusive_zone: (config.height + if config.position == Position::Top {
            config.margin_bottom
        } else {
            config.margin_top
        }) as i64,
    }
}

impl Bar {
    /// A bar `width` by `height` that is not shown yet.
    pub fn new(width: u32, height: u32, scale: u32) -> (bar: Bar)
        ensures
            !bar.hidden && !bar.mapped && !bar.frame_pending,
            bar.width == width && bar.height == height && bar.scale == scale,
            bar.scale120 is None,
            bar.tags@.len() == 0 && bar.tags_computed@.len() == 0,
            bar.tags_btns.buttons@.len() == 0 && bar.blocks_btns.buttons@.len() == 0,
            bar.layout_name is None && bar.layout_name_computed is None,
    {
        Bar {
            hidden: false,
            mapped: false,
            frame_pending: false,
            width,
            height,
            scale120: None,
            scale,
            blocks_btns: ButtonManager::new(),
            tags: Vec::new(),
            layout_name: None,
            tags_btns: ButtonManager::new(),
            tags_computed: Vec::new(),
            layout_name_computed: None,
        }
    }

    /// What `set_tags` and the like leave as it is.
    pub open spec fn same_surface(self, other: Bar) -> bool {
        &&& self.hidden == other.hidden
        &&& self.mapped == other.mapped
        &&& self.frame_pending == other.frame_pending
        &&& self.width == other.width
        &&& self.height == other.height
        &&& self.scale120 == other.scale120
        &&& self.scale == other.scale
    }

    /// Replaces the tags. Their labels and buttons are forgotten: the next
    /// frame computes them anew.
    pub fn set_tags(&mut self, tags: Vec<Tag>)
        ensures
            final(self).tags == tags,
            final(self).tags_btns.buttons@.len() == 0,
            final(self).tags_computed@.len() == 0,
            final(self).same_surface(*old(self)),
            final(self).layout_name == old(self).layout_name,
            final(self).layout_name_computed == old(self).layout_name_computed,
            final(self).blocks_btns == old(self).blocks_btns,
    {
        self.tags = tags;
        self.tags_btns.clear();
        self.tags_computed.clear();
    }

    /// Replaces the layout's name. Its label is forgotten: the next frame
    /// computes it anew.
    pub fn set_layout_name(&mut self, layout_name: Option<String>)
        ensures
            final(self).layout_name == layout_name,
            final(self).layout_name_computed is None,
            final(self).same_surface(*old(self)),
            final(self).tags == old(self).tags,
            final(self).tags_computed == old(self).tags_computed,
            final(self).tags_btns == old(self).tags_btns,
            final(self).blocks_btns == old(self).blocks_btns,
    {
        self.layout_name = layout_name;
        self.layout_name_computed = None;
    }

    /// Lays out a frame. The labels of the tags and of the layout's name are
    /// computed if they are not there; `layout_name_width` is the width of
    /// the glyphs of the layout's name. The tags stand at the left edge, the
    /// layout's name behind them, and the blocks end at the right edge. The
    /// bar must be on screen.
    pub fn frame(&mut self, config: &Config, blocks: &Vec<ComputedBlock>, layout_name_width: u32) -> (frame:
        Frame)
        requires
            old(self).mapped,
        ensures
            final(self).same_surface(*old(self)),
            final(self).tags == old(self).tags,
            final(self).layout_name == old(self).layout_name,
            (frame.pix_width as int, frame.pix_height as int, frame.scale120 as int) == frame_size(
                *old(self),
            ),
            old(self).tags_computed@.len() == 0 ==> labels_of_tags(
                final(self).tags_computed@,
                final(self).tags_btns.buttons@,
                old(self).tags@,
                *config,
                old(self).tags@.len() as int,
            ),
            old(self).tags_computed@.len() != 0 ==> {
                &&& final(self).tags_computed == old(self).tags_computed
                &&& final(self).tags_btns == old(self).tags_btns
            },
            frame.tags@.len() == final(self).tags_computed@.len(),
            forall|i: int|
                0 <= i < frame.tags@.len() ==> #[trigger] frame.tags@[i] == tag_options(
                    final(self).tags_computed@,
                    i,
                    *config,
                    old(self).height,
                ),
            !layout_name_shown(*old(self), *config) ==> {
                &&& frame.layout_name is None
                &&& final(self).layout_name_computed == old(self).layout_name_computed
            },
            layout_name_shown(*old(self), *config) ==> {
                &&& frame.layout_name == Some(
                    layout_name_options(
                        labels_width(
                            final(self).tags_computed@,
                            final(self).tags_computed@.len() as int,
                        ),
                        *config,
                        old(self).height,
                    ),
                )
                &&& final(self).layout_name_computed is Some
                &&& old(self).layout_name_computed is Some ==> final(self).layout_name_computed
                    == old(self).layout_name_computed
                &&& old(self).layout_name_computed is None ==> {
                    let text = final(self).layout_name_computed.unwrap();
                    &&& text.text == old(self).layout_name.unwrap()
                    &&& text.attr == layout_name_attributes()
                    &&& text.width == padded_width(layout_name_width, layout_name_attributes())
                }
            },
            frame.blocks@ == render_spec(
                *config,
                blocks@,
                blocks_offset(*final(self), *config),
                old(self).width,
                old(self).height,
            ),
            final(self).blocks_btns.buttons@ == buttons_of(frame.blocks@, blocks@),
            in_order(final(self).blocks_btns.buttons@),
            forall|j: int|
                0 <= j < frame.blocks@.len() ==> shows_a_block(#[trigger] frame.blocks@[j], blocks@),
    {
        let (pix_width, pix_height, scale120): (u64, u64, u64) = match self.scale120 {
            Some(scale120) => {
                assert(self.width * scale120 <= 0xffff_ffff * 0xffff_ffff) by (nonlinear_arith)
                    requires
                        self.width <= 0xffff_ffff,
                        scale120 <= 0xffff_ffff,
                ;
                assert(self.height * scale120 <= 0xffff_ffff * 0xffff_ffff) by (nonlinear_arith)
                    requires
                        self.height <= 0xffff_ffff,
                        scale120 <= 0xffff_ffff,
                ;
                (
                    // rounding halfway away from zero
                    (self.width as u64 * scale120 as u64 + 60) / 120,
                    (self.height as u64 * scale120 as u64 + 60) / 120,
                    scale120 as u64,
                )
            },
            None => {
                assert(self.width * self.scale <= 0xffff_ffff * 0xffff_ffff) by (nonlinear_arith)
                    requires
                        self.width <= 0xffff_ffff,
                        self.scale <= 0xffff_ffff,
                ;
                assert(self.height * self.scale <= 0xffff_ffff * 0xffff_ffff) by (nonlinear_arith)
                    requires
                        self.height <= 0xffff_ffff,
                        self.scale <= 0xffff_ffff,
                ;
                (
                    self.width as u64 * self.scale as u64,
                    self.height as u64 * self.scale as u64,
                    self.scale as u64 * 120,
                )
            },
        };

        // Compute the labels of the tags
        if self.tags_computed.len() == 0 {
            compute_tags(&self.tags, config, &mut self.tags_computed, &mut self.tags_btns);
        }
        // Place the tags
        let (tags, tags_width) = place_tags(&self.tags_computed, config, self.height);
        assert(self.tags_computed.len() <= usize::MAX);
        let mut offset_left: i128 = tags_width;

        // Place the layout's name
        let mut layout_name: Option<RenderOptions> = None;
        if config.show_layout_name {
            if let Some(name) = &self.layout_name {
                if self.layout_name_computed.is_none() {
                    self.layout_name_computed = Some(
                        ComputedText::new(
                            name.clone(),
                            layout_name_width,
                            Attributes {
                                padding_left: LAYOUT_NAME_PADDING,
                                padding_right: LAYOUT_NAME_PADDING,
                                min_width: None,
                                align: Align::Left,
                                markup: false,
                            },
                        ),
                    );
                }
                let width = match &self.layout_name_computed {
                    Some(text) => text.width,
                    None => 0,
                };
                layout_name = Some(
                    RenderOptions {
                        x_offset: offset_left,
                        bar_height: self.height,
                        fg_color: config.tag_inactive_fg,
                        bg_color: None,
                        r_left: 0,
                        r_right: 0,
                        overlap: 0,
                    },
                );
                offset_left = offset_left + width as i128;
            }
        }
        // Place the blocks
        let blocks_ops = render_blocks(
            config,
            blocks,
            &mut self.blocks_btns,
            offset_left,
            self.width,
            self.height,
        );
        Frame { pix_width, pix_height, scale120, tags, layout_name, blocks: blocks_ops }
    }

    /// Says what a click at `x` hit: a tag, if one of the tags' buttons
    /// covers `x`; else a block, if one of the blocks' buttons does.
    pub fn click(&self, x: i128) -> (r: ClickTarget<'_>)
        ensures
            match r {
                ClickTarget::Tag(tag) => exists|i: int|
                    is_first_hit(self.tags_btns.buttons@, x as int, i) && *tag
                        == self.tags_btns.buttons@[i].elem,
                ClickTarget::Block(id) => {
                    &&& forall|i: int|
                        0 <= i < self.tags_btns.buttons@.len() ==> !(
                        #[trigger] self.tags_btns.buttons@[i]).covers(x as int)
                    &&& exists|i: int|
                        is_first_hit(self.blocks_btns.buttons@, x as int, i) && *id
                            == self.blocks_btns.buttons@[i].elem
                },
                ClickTarget::Nothing => {
                    &&& forall|i: int|
                        0 <= i < self.tags_btns.buttons@.len() ==> !(
                        #[trigger] self.tags_btns.buttons@[i]).covers(x as int)
                    &&& forall|i: int|
                        0 <= i < self.blocks_btns.buttons@.len() ==> !(
                        #[trigger] self.blocks_btns.buttons@[i]).covers(x as int)
                },
            },
    {
        match self.tags_btns.click(x) {
            Some(tag) => ClickTarget::Tag(tag),
            None => match self.blocks_btns.click(x) {
                Some(id) => ClickTarget::Block(id),
                None => ClickTarget::Nothing,
            },
        }
    }

    /// Says whether a frame is to be asked for: the bar is on screen and
    /// none is pending. If so, one is pending from now on.
    pub fn request_frame(&mut self) -> (ask: bool)
        ensures
            ask == (old(self).mapped && !old(self).hidden && !old(self).frame_pending),
            final(self).frame_pending == (old(self).frame_pending || ask),
            *final(self) == (Bar { frame_pending: final(self).frame_pending, ..*old(self) }),
    {
        if self.mapped && !self.hidden && !self.frame_pending {
            self.frame_pending = true;
            true
        } else {
            false
        }
    }

    /// Marks the bar as wanted on screen and says what its surface is set
    /// to. The bar must not be on screen yet.
    pub fn show(&mut self, config: &Config) -> (r: LayerSetup)
        requires
            !old(self).mapped,
        ensures
            *final(self) == (Bar { hidden: false, ..*old(self) }),
            r == layer_setup(*config),
    {
        self.hidden = false;
        let margin = match config.position {
            Position::Top => config.margin_bottom,
            Position::Bottom => config.margin_top,
        };
        LayerSetup {
            height: config.height,
            position: config.position,
            margin_top: config.margin_top,
            margin_right: config.margin_right,
            margin_bottom: config.margin_bottom,
            margin_left: config.margin_left,
            exclusive_zone: config.height as i64 + margin as i64,
        }
    }

    /// Takes the bar off the screen.
    pub fn hide_bar(&mut self)
        ensures
            *final(self) == (Bar { hidden: true, mapped: false, ..*old(self) }),
    {
        self.hidden = true;
        self.mapped = false;
    }
}

} // verus!
