use vstd::prelude::*;

use crate::graphics::{box_region, box_coords_fit, Alignment, Graphics};
use crate::inky::{lemma_painted_same_region, lemma_painted_union, on_screen, painted, Color, Panel};
use crate::line::{abs, line_region};
use crate::rect::{fits_i32, trunc_div, Rect};

verus! {

/// Which side of a chart a graph's scale is drawn on.
#[derive(Clone, Copy, Debug, PartialEq, Eq, Structural)]
pub enum Side {
    Left,
    Right,
}

/// Length of the tick marks on a chart's axes.
pub const TICK_WIDTH: i32 = 4;

/// The column of tick `i` of `n` spread evenly over the width of `rect`, the first on its left
/// edge and the last on its right edge.
pub open spec fn tick_x(rect: Rect, n: int, i: int) -> int {
    rect.x + trunc_div((rect.width - 1) * i, n - 1)
}

/// The tick mark `i` of `n` under the bottom edge of `rect`.
pub open spec fn tick_rect(rect: Rect, n: int, i: int) -> Rect {
    Rect { x: tick_x(rect, n, i) as i32, y: (rect.y + rect.height) as i32, width: 1, height: TICK_WIDTH }
}

/// The row the axis labels are drawn on.
pub open spec fn label_row(rect: Rect) -> int {
    rect.y + rect.height + TICK_WIDTH + 20
}

/// The pixels `render_axis` sets: the one-pixel frame of `rect`, and under its bottom edge a
/// tick and a centered label for each entry of `labels`.
pub open spec fn axis_region(graphics: Graphics, rect: Rect, labels: Seq<Seq<char>>, x: int, y: int) -> bool {
    ||| box_region(rect, 1, x, y)
    ||| exists|i: int| 0 <= i < labels.len() && #[trigger] axis_item(graphics, rect, labels, i, x, y)
}

/// The pixels of tick `i` and its label.
pub open spec fn axis_item(graphics: Graphics, rect: Rect, labels: Seq<Seq<char>>, i: int, x: int, y: int) -> bool {
    ||| tick_rect(rect, labels.len() as int, i).contains(x, y)
    ||| graphics.text_pixels("helvB12"@, labels[i], tick_x(rect, labels.len() as int, i), label_row(rect), Alignment::Center, x, y)
}

/// The labels' characters.
pub open spec fn label_chars(labels: Seq<String>) -> Seq<Seq<char>> {
    labels.map_values(|s: String| s@)
}

/// Whether `render_axis` can draw `labels` under `rect`: never just one label (the tick spacing
/// would divide by zero), and every coordinate and label drawable.
pub open spec fn axis_drawable(graphics: Graphics, rect: Rect, labels: Seq<Seq<char>>) -> bool {
    let n = labels.len() as int;
    &&& box_coords_fit(rect, 1)
    &&& n != 1
    &&& n <= i32::MAX
    &&& n >= 2 ==> {
        &&& fits_i32(rect.width - 1)
        &&& fits_i32((rect.width - 1) * (n - 1))
        &&& fits_i32(rect.x + rect.width - 1)
        &&& fits_i32(rect.y + rect.height + TICK_WIDTH + 20)
    }
    &&& forall|i: int|
        0 <= i < n ==> #[trigger] graphics.text_drawable(
            "helvB12"@,
            labels[i],
            tick_x(rect, n, i),
            label_row(rect),
            Alignment::Center,
        )
}

/// Draws a chart's frame and, under it, a tick and a centered label for each entry of
/// `labels`, spread evenly from the left edge to the right edge.
pub fn render_axis<P: Panel>(inky: &mut P, graphics: &Graphics, rect: &Rect, labels: &Vec<String>, color: Color)
    requires
        old(inky).wf(),
        axis_drawable(*graphics, *rect, label_chars(labels@)),
    ensures
        final(inky).wf(),
        painted(
            old(inky).pixels(),
            final(inky).pixels(),
            |x: int, y: int| axis_region(*graphics, *rect, label_chars(labels@), x, y),
            color,
        ),
{
    let ghost start = inky.pixels();
    let ghost ls = label_chars(labels@);
    graphics.draw_box(inky, rect, 1, color);
    let len = labels.len();
    let ghost n = len as int;
    let mut i: usize = 0;
    while i < len
        invariant
            inky.wf(),
            i <= len,
            len == labels.len(),
            n == len,
            ls == label_chars(labels@),
            ls.len() == n,
            axis_drawable(*graphics, *rect, ls),
            painted(
                start,
                inky.pixels(),
                |x: int, y: int|
                    box_region(*rect, 1, x, y) || exists|j: int| 0 <= j < i && #[trigger] axis_item(*graphics, *rect, ls, j, x, y),
                color,
            ),
        decreases len - i,
    {
        proof {
            crate::rect::lemma_scaled_fraction((rect.width - 1) as int, i as int, n - 1);
            assert(ls[i as int] == labels@[i as int]@);
            assert(graphics.text_drawable("helvB12"@, ls[i as int], tick_x(*rect, n, i as int), label_row(*rect), Alignment::Center));
        }
        let x = rect.x + (rect.width - 1) * i as i32 / (len - 1) as i32;
        assert(x == tick_x(*rect, n, i as int));
        let ghost p0 = inky.pixels();
        let tick = Rect { x, y: rect.y + rect.height, width: 1, height: TICK_WIDTH };
        assert(tick == tick_rect(*rect, n, i as int));
        graphics.draw_rect(inky, &tick, color);
        let ghost p1 = inky.pixels();
        graphics.draw_text(
            inky,
            x,
            rect.y + rect.height + TICK_WIDTH + 20,
            labels[i].as_str(),
            Alignment::Center,
            "helvB12",
            color,
        );
        proof {
            let done = |x: int, y: int| box_region(*rect, 1, x, y) || exists|j: int| 0 <= j < i && #[trigger] axis_item(*graphics, *rect, ls, j, x, y);
            let t = |x: int, y: int| tick.contains(x, y);
            let l = |px: int, py: int| graphics.text_pixels("helvB12"@, labels@[i as int]@, x as int, label_row(*rect), Alignment::Center, px, py);
            lemma_painted_union(start, p0, p1, done, t, color);
            let dt = |x: int, y: int| done(x, y) || t(x, y);
            lemma_painted_union(start, p1, inky.pixels(), dt, l, color);
            let next = |x: int, y: int| box_region(*rect, 1, x, y) || exists|j: int| 0 <= j < i + 1 && #[trigger] axis_item(*graphics, *rect, ls, j, x, y);
            assert forall|x: int, y: int| on_screen(x, y) implies (dt(x, y) || l(x, y)) <==> next(x, y) by {
                if next(x, y) && !box_region(*rect, 1, x, y) {
                    let j = choose|j: int| 0 <= j < i + 1 && #[trigger] axis_item(*graphics, *rect, ls, j, x, y);
                    if j < i {
                        assert(done(x, y));
                    }
                }
                if t(x, y) || l(x, y) {
                    assert(axis_item(*graphics, *rect, ls, i as int, x, y));
                }
            }
            lemma_painted_same_region(start, inky.pixels(), |x: int, y: int| dt(x, y) || l(x, y), next, color);
        }
        i += 1;
    }
}

/// Where a graph's scale goes beside `rect`: the column of its tick marks, the column its
/// labels are aligned to, and their alignment.
pub open spec fn scale_layout(rect: Rect, side: Side) -> (int, int, Alignment) {
    match side {
        Side::Left => (rect.x - TICK_WIDTH, rect.x - 10, Alignment::Right),
        Side::Right => (rect.x + rect.width, rect.x + rect.width + 10, Alignment::Left),
    }
}

/// The tick mark of a scale on row `y`.
pub open spec fn scale_tick(rect: Rect, side: Side, y: int) -> Rect {
    Rect { x: scale_layout(rect, side).0 as i32, y: y as i32, width: TICK_WIDTH, height: 1 }
}

/// The views of a scale's ticks: each a row and a label.
pub open spec fn ticks_view(ticks: Seq<(i32, String)>) -> Seq<(int, Seq<char>)> {
    ticks.map_values(|t: (i32, String)| (t.0 as int, t.1@))
}

/// The pixels of tick `i` of a scale and its label, drawn four rows under the tick.
pub open spec fn scale_item(graphics: Graphics, rect: Rect, side: Side, ticks: Seq<(int, Seq<char>)>, i: int, x: int, y: int) -> bool {
    let (_, label_x, alignment) = scale_layout(rect, side);
    ||| scale_tick(rect, side, ticks[i].0).contains(x, y)
    ||| graphics.text_pixels("helvB12"@, ticks[i].1, label_x, ticks[i].0 + 4, alignment, x, y)
}

/// The pixels `render_graph_scale` sets.
pub open spec fn scale_region(graphics: Graphics, rect: Rect, side: Side, ticks: Seq<(int, Seq<char>)>, x: int, y: int) -> bool {
    exists|i: int| 0 <= i < ticks.len() && #[trigger] scale_item(graphics, rect, side, ticks, i, x, y)
}

/// Whether `render_graph_scale` can draw `ticks` beside `rect`.
pub open spec fn scale_drawable(graphics: Graphics, rect: Rect, side: Side, ticks: Seq<(int, Seq<char>)>) -> bool {
    let (tick_column, label_x, alignment) = scale_layout(rect, side);
    &&& fits_i32(rect.x - 10)
    &&& fits_i32(rect.x + rect.width)
    &&& fits_i32(rect.x + rect.width + 10)
    &&& forall|i: int|
        0 <= i < ticks.len() ==> {
            &&& fits_i32(#[trigger] ticks[i].0 + 4)
            &&& fits_i32(tick_column + TICK_WIDTH - 1)
            &&& graphics.text_drawable("helvB12"@, ticks[i].1, label_x, ticks[i].0 + 4, alignment)
        }
}

/// Where a graph's scale goes beside `rect`: the column of its tick marks, the column its
/// labels are aligned to, and their alignment.
pub fn graph_scale_layout(rect: &Rect, side: Side) -> (r: (i32, i32, Alignment))
    requires
        fits_i32(rect.x - 10),
        fits_i32(rect.x + rect.width),
        fits_i32(rect.x + rect.width + 10),
    ensures
        (r.0 as int, r.1 as int, r.2) == scale_layout(*rect, side),
{
    match side {
        Side::Left => (rect.x - TICK_WIDTH, rect.x - 10, Alignment::Right),
        Side::Right => (rect.x + rect.width, rect.x + rect.width + 10, Alignment::Left),
    }
}

/// Draws a graph's scale beside `rect`: for each tick, a mark on its row and its label under
/// the mark, on the graph's side.
pub fn render_graph_scale<P: Panel>(
    inky: &mut P,
    graphics: &Graphics,
    rect: &Rect,
    side: Side,
    ticks: &Vec<(i32, String)>,
    color: Color,
)
    requires
        old(inky).wf(),
        scale_drawable(*graphics, *rect, side, ticks_view(ticks@)),
    ensures
        final(inky).wf(),
        painted(
            old(inky).pixels(),
            final(inky).pixels(),
            |x: int, y: int| scale_region(*graphics, *rect, side, ticks_view(ticks@), x, y),
            color,
        ),
{
    let ghost start = inky.pixels();
    let ghost tv = ticks_view(ticks@);
    let (tick_column, label_x, alignment) = graph_scale_layout(rect, side);
    proof {
        crate::inky::lemma_painted_nothing(start, color);
        lemma_painted_same_region(start, start, |x: int, y: int| false, |x: int, y: int| exists|j: int| 0 <= j < 0 && #[trigger] scale_item(*graphics, *rect, side, tv, j, x, y), color);
    }
    let mut i: usize = 0;
    while i < ticks.len()
        invariant
            inky.wf(),
            i <= ticks.len(),
            tv == ticks_view(ticks@),
            tv.len() == ticks.len(),
            scale_drawable(*graphics, *rect, side, tv),
            (tick_column as int, label_x as int, alignment) == scale_layout(*rect, side),
            painted(
                start,
                inky.pixels(),
                |x: int, y: int| exists|j: int| 0 <= j < i && #[trigger] scale_item(*graphics, *rect, side, tv, j, x, y),
                color,
            ),
        decreases ticks.len() - i,
    {
        let y = ticks[i].0;
        proof {
            assert(tv[i as int] == (y as int, ticks@[i as int].1@));
            assert(fits_i32(tv[i as int].0 + 4));
        }
        let tick = Rect { x: tick_column, y, width: TICK_WIDTH, height: 1 };
        assert(tick == scale_tick(*rect, side, tv[i as int].0));
        let ghost p0 = inky.pixels();
        graphics.draw_rect(inky, &tick, color);
        let ghost p1 = inky.pixels();
        graphics.draw_text(inky, label_x, y + 4, ticks[i].1.as_str(), alignment, "helvB12", color);
        proof {
            let done = |x: int, y: int| exists|j: int| 0 <= j < i && #[trigger] scale_item(*graphics, *rect, side, tv, j, x, y);
            let t = |x: int, y: int| tick.contains(x, y);
            let l = |px: int, py: int| graphics.text_pixels("helvB12"@, tv[i as int].1, label_x as int, y + 4, alignment, px, py);
            lemma_painted_union(start, p0, p1, done, t, color);
            let dt = |x: int, y: int| done(x, y) || t(x, y);
            lemma_painted_union(start, p1, inky.pixels(), dt, l, color);
            let next = |x: int, y: int| exists|j: int| 0 <= j < i + 1 && #[trigger] scale_item(*graphics, *rect, side, tv, j, x, y);
            assert forall|x: int, y: int| on_screen(x, y) implies (dt(x, y) || l(x, y)) <==> next(x, y) by {
                if next(x, y) {
                    let j = choose|j: int| 0 <= j < i + 1 && #[trigger] scale_item(*graphics, *rect, side, tv, j, x, y);
                    if j < i {
                        assert(done(x, y));
                    }
                }
                if t(x, y) || l(x, y) {
                    assert(scale_item(*graphics, *rect, side, tv, i as int, x, y));
                }
            }
            lemma_painted_same_region(start, inky.pixels(), |x: int, y: int| dt(x, y) || l(x, y), next, color);
        }
        i += 1;
    }
}

/// The pixels of segment `i` of a plotted series: the line from point `i` to point `i + 1`,
/// the points spread evenly over the width of `rect` at rows `ys`.
pub open spec fn series_segment(rect: Rect, ys: Seq<i32>, i: int, x: int, y: int) -> bool {
    let n = ys.len() as int;
    line_region(tick_x(rect, n, i), ys[i] as int, tick_x(rect, n, i + 1), ys[i + 1] as int, x, y)
}

/// The pixels `render_graph_line` sets: every segment of the series.
pub open spec fn series_region(rect: Rect, ys: Seq<i32>, x: int, y: int) -> bool {
    exists|i: int| 0 <= i < ys.len() - 1 && #[trigger] series_segment(rect, ys, i, x, y)
}

/// Whether `render_graph_line` can plot `ys` over `rect`: the columns and the segments'
/// spans fit the coordinate type.
pub open spec fn series_drawable(rect: Rect, ys: Seq<i32>) -> bool {
    let n = ys.len() as int;
    &&& n <= i32::MAX
    &&& n >= 2 ==> {
        &&& fits_i32(rect.width - 1)
        &&& fits_i32((rect.width - 1) * (n - 1))
        &&& fits_i32(rect.x + rect.width - 1)
        &&& forall|i: int|
            0 <= i < n - 1 ==> {
                &&& fits_i32(4 * abs(#[trigger] tick_x(rect, n, i + 1) - tick_x(rect, n, i)))
                &&& fits_i32(4 * abs(ys[i + 1] - ys[i]))
            }
    }
}

/// Plots a series over `rect`: its values' rows `ys`, spread evenly from the left edge to the
/// right edge, joined by straight lines.
pub fn render_graph_line<P: Panel>(inky: &mut P, graphics: &Graphics, rect: &Rect, ys: &Vec<i32>, color: Color)
    requires
        old(inky).wf(),
        series_drawable(*rect, ys@),
    ensures
        final(inky).wf(),
        painted(old(inky).pixels(), final(inky).pixels(), |x: int, y: int| series_region(*rect, ys@, x, y), color),
{
    let ghost start = inky.pixels();
    let len = ys.len();
    let ghost n = len as int;
    proof {
        crate::inky::lemma_painted_nothing(start, color);
        lemma_painted_same_region(start, start, |x: int, y: int| false, |x: int, y: int| exists|j: int| 0 <= j < 0 && #[trigger] series_segment(*rect, ys@, j, x, y), color);
    }
    if len < 2 {
        proof {
            lemma_painted_same_region(start, start, |x: int, y: int| exists|j: int| 0 <= j < 0 && #[trigger] series_segment(*rect, ys@, j, x, y), |x: int, y: int| series_region(*rect, ys@, x, y), color);
        }
        return;
    }
    let w = rect.width - 1;
    let mut i: usize = 0;
    while i + 1 < len
        invariant
            inky.wf(),
            len == ys.len(),
            n == len,
            2 <= n <= i32::MAX,
            i + 1 <= len,
            w == rect.width - 1,
            series_drawable(*rect, ys@),
            painted(start, inky.pixels(), |x: int, y: int| exists|j: int| 0 <= j < i && #[trigger] series_segment(*rect, ys@, j, x, y), color),
        decreases len - i,
    {
        proof {
            crate::rect::lemma_scaled_fraction(w as int, i as int, n - 1);
            crate::rect::lemma_scaled_fraction(w as int, i + 1, n - 1);
            assert(fits_i32(4 * abs(tick_x(*rect, n, i + 1) - tick_x(*rect, n, i as int))));
        }
        let x0 = rect.x + w * i as i32 / (len - 1) as i32;
        let x1 = rect.x + w * (i + 1) as i32 / (len - 1) as i32;
        assert(x0 == tick_x(*rect, n, i as int));
        assert(x1 == tick_x(*rect, n, i + 1));
        let ghost p0 = inky.pixels();
        graphics.draw_line(inky, x0, ys[i], x1, ys[i + 1], color);
        proof {
            let done = |x: int, y: int| exists|j: int| 0 <= j < i && #[trigger] series_segment(*rect, ys@, j, x, y);
            let seg = |x: int, y: int| line_region(x0 as int, ys@[i as int] as int, x1 as int, ys@[i + 1] as int, x, y);
            lemma_painted_union(start, p0, inky.pixels(), done, seg, color);
            let next = |x: int, y: int| exists|j: int| 0 <= j < i + 1 && #[trigger] series_segment(*rect, ys@, j, x, y);
            assert forall|x: int, y: int| on_screen(x, y) implies (done(x, y) || seg(x, y)) <==> next(x, y) by {
                if next(x, y) {
                    let j = choose|j: int| 0 <= j < i + 1 && #[trigger] series_segment(*rect, ys@, j, x, y);
                    if j < i {
                        assert(done(x, y));
                    }
                }
                if seg(x, y) {
                    assert(series_segment(*rect, ys@, i as int, x, y));
                }
            }
            lemma_painted_same_region(start, inky.pixels(), |x: int, y: int| done(x, y) || seg(x, y), next, color);
        }
        i += 1;
    }
    proof {
        lemma_painted_same_region(start, inky.pixels(), |x: int, y: int| exists|j: int| 0 <= j < i && #[trigger] series_segment(*rect, ys@, j, x, y), |x: int, y: int| series_region(*rect, ys@, x, y), color);
    }
}

} // verus!
