use vstd::prelude::*;

use crate::graphics::{box_coords_fit, box_region, box_sides, rect_coords_fit, Graphics};
use crate::inky::{lemma_painted_same_region, lemma_painted_union, on_screen, painted, Color, Panel};
use crate::rect::{fits_i32, Rect};

verus! {

/// How many of the four signal bars a Wi-Fi signal strength (in percent, absent when unknown)
/// lights: one per started quarter, none when the strength is unknown.
pub fn signal_bars(strength: Option<u8>) -> (bars: i32)
    ensures
        bars == (match strength {
            Some(s) => (s + 24) / 25,
            None => 0,
        }),
{
    match strength {
        Some(s) => ((s as u32 + 24) / 25) as i32,
        None => 0,
    }
}

/// Bar `i` of the four signal bars drawn in `area`: 4 pixels wide with a 1-pixel gap, the
/// `i`-th one `2 * (3 - i)` pixels shorter than the area, standing on its bottom edge.
pub open spec fn signal_bar(area: Rect, i: int) -> Rect {
    Rect {
        x: (area.x + 5 * i) as i32,
        y: (area.y + 2 * (3 - i)) as i32,
        width: 4,
        height: (area.height - 2 * (3 - i)) as i32,
    }
}

/// The pixels of bar `i`: filled when it is lit, outlined otherwise.
pub open spec fn signal_bar_pixels(area: Rect, bars: int, i: int, x: int, y: int) -> bool {
    if i < bars {
        signal_bar(area, i).contains(x, y)
    } else {
        box_region(signal_bar(area, i), 1, x, y)
    }
}

/// Whether the bars' coordinates stay in range.
pub open spec fn signal_bars_fit(area: Rect) -> bool {
    &&& fits_i32(area.x + 20)
    &&& fits_i32(area.width - 20)
    &&& fits_i32(area.y + 6)
    &&& fits_i32(area.height - 6)
    &&& forall|i: int| 0 <= i < 4 ==> rect_coords_fit(#[trigger] signal_bar(area, i)) && box_coords_fit(signal_bar(area, i), 1)
}

/// Whether `(x, y)` lies strictly inside bar `i`, off its one-pixel outline.
pub open spec fn inside_signal_bar(area: Rect, i: int, x: int, y: int) -> bool {
    let bar = signal_bar(area, i);
    bar.x < x < bar.x + bar.width - 1 && bar.y < y < bar.y + bar.height - 1
}

/// Bar `i` of the signal indicator is lit exactly when `i < bars`: every pixel of a lit bar is
/// drawn, while inside an unlit bar, off its outline, nothing is; so no bar is lit when `bars`
/// is zero and all four when it is four.
pub proof fn lemma_signal_bars_lit_below_count(area: Rect, bars: int, i: int, x: int, y: int)
    requires
        signal_bars_fit(area),
        0 <= i < 4,
    ensures
        i < bars && signal_bar(area, i).contains(x, y) ==> exists|j: int|
            0 <= j < 4 && #[trigger] signal_bar_pixels(area, bars, j, x, y),
        inside_signal_bar(area, i, x, y) ==> ((exists|j: int|
            0 <= j < 4 && #[trigger] signal_bar_pixels(area, bars, j, x, y)) <==> i < bars),
{
    if i < bars && signal_bar(area, i).contains(x, y) {
        assert(signal_bar_pixels(area, bars, i, x, y));
    }
    if inside_signal_bar(area, i, x, y) {
        if i < bars {
            assert(signal_bar_pixels(area, bars, i, x, y));
        }
        assert forall|j: int| 0 <= j < 4 implies !#[trigger] signal_bar_pixels(area, bars, j, x, y) || (i < bars && j
            == i) by {
            if j != i {
                assert(!signal_bar(area, j).contains(x, y));
            } else {
                let bar = signal_bar(area, i);
                assert forall|k: int| 0 <= k < 4 implies !#[trigger] box_sides(bar, 1)[k].contains(x, y) by {}
            }
        }
    }
}

/// Width of a signal bar.
pub const BAR_WIDTH: i32 = 4;

/// How much shorter each signal bar is than the next.
pub const BAR_HEIGHT: i32 = 2;

/// Gap between signal bars.
pub const BAR_SPACING: i32 = 1;

/// Outline width of an unlit signal bar.
pub const BAR_BORDER: i32 = 1;

/// Draws four signal-strength bars in `area`, the first `bars` of them filled and the others
/// outlined, in white.
pub fn draw_signal_bars<P: Panel>(inky: &mut P, graphics: &Graphics, area: Rect, bars: i32)
    requires
        old(inky).wf(),
        signal_bars_fit(area),
    ensures
        final(inky).wf(),
        painted(
            old(inky).pixels(),
            final(inky).pixels(),
            |x: int, y: int| exists|i: int| 0 <= i < 4 && #[trigger] signal_bar_pixels(area, bars as int, i, x, y),
            Color::White,
        ),
{
    let ghost start = inky.pixels();
    let mut bars_rect = area;
    let mut i: i32 = 0;
    while i < 4
        invariant
            inky.wf(),
            0 <= i <= 4,
            signal_bars_fit(area),
            bars_rect == (Rect { x: (area.x + 5 * i) as i32, width: (area.width - 5 * i) as i32, ..area }),
            painted(
                start,
                inky.pixels(),
                |x: int, y: int| exists|j: int| 0 <= j < i && #[trigger] signal_bar_pixels(area, bars as int, j, x, y),
                Color::White,
            ),
        decreases 4 - i,
    {
        let mut r = bars_rect.split_off_left(BAR_WIDTH);
        r.split_off_top(BAR_HEIGHT * (3 - i));
        assert(r == signal_bar(area, i as int));
        let ghost before = inky.pixels();
        if i < bars {
            graphics.draw_rect(inky, &r, Color::White);
        } else {
            graphics.draw_box(inky, &r, BAR_BORDER, Color::White);
        }
        proof {
            let done = |x: int, y: int| exists|j: int| 0 <= j < i && #[trigger] signal_bar_pixels(area, bars as int, j, x, y);
            let here = |x: int, y: int| signal_bar_pixels(area, bars as int, i as int, x, y);
            if i < bars {
                lemma_painted_same_region(before, inky.pixels(), |x: int, y: int| r.contains(x, y), here, Color::White);
            } else {
                lemma_painted_same_region(before, inky.pixels(), |x: int, y: int| box_region(r, 1, x, y), here, Color::White);
            }
            lemma_painted_union(start, before, inky.pixels(), done, here, Color::White);
            let next = |x: int, y: int| exists|j: int| 0 <= j < i + 1 && #[trigger] signal_bar_pixels(area, bars as int, j, x, y);
            assert forall|x: int, y: int| on_screen(x, y) implies (done(x, y) || here(x, y)) <==> next(x, y) by {
                if next(x, y) {
                    let j = choose|j: int| 0 <= j < i + 1 && #[trigger] signal_bar_pixels(area, bars as int, j, x, y);
                    if j < i {
                        assert(done(x, y));
                    }
                }
            }
            lemma_painted_same_region(start, inky.pixels(), |x: int, y: int| done(x, y) || here(x, y), next, Color::White);
        }
        bars_rect.split_off_left(BAR_SPACING);
        i += 1;
    }
}

/// The status bar's inner area: 5 pixels in from the left and right, 2 up from the bottom.
pub open spec fn status_inner(rect: Rect) -> Rect {
    rect.shrunk(5, 0, 5, 2)
}

/// Where the Wi-Fi name goes: the inner area without its last 24 columns.
pub open spec fn status_wifi_area(rect: Rect) -> Rect {
    status_inner(rect).split_right(24).0
}

/// Where the signal bars go: the inner area's last 24 columns, 3 down from the top, 5 in from
/// the left and 2 up from the bottom.
pub open spec fn status_bars_area(rect: Rect) -> Rect {
    status_inner(rect).split_right(24).1.shrunk(0, 3, 5, 2)
}

/// Whether laying out the status bar keeps every coordinate in range.
pub open spec fn status_layout_fits(rect: Rect) -> bool {
    let inner = status_inner(rect);
    let bars = inner.split_right(24).1;
    &&& rect_coords_fit(rect)
    &&& fits_i32(rect.x + 5)
    &&& fits_i32(rect.width - 5)
    &&& fits_i32(rect.width - 10)
    &&& fits_i32(rect.height - 2)
    &&& fits_i32(inner.width - 24)
    &&& fits_i32(inner.x + inner.width - 24)
    &&& fits_i32(bars.x + 5)
    &&& fits_i32(bars.y + 3)
    &&& fits_i32(bars.width - 5)
    &&& fits_i32(bars.height - 5)
}

/// Fills the status bar `rect` black and gives where its parts go: the inner area (for the
/// host name and the update time), the area for the Wi-Fi name and the area for the signal
/// bars.
pub fn render_status_frame<P: Panel>(inky: &mut P, graphics: &Graphics, rect: Rect) -> (areas: (Rect, Rect, Rect))
    requires
        old(inky).wf(),
        status_layout_fits(rect),
    ensures
        final(inky).wf(),
        areas == (status_inner(rect), status_wifi_area(rect), status_bars_area(rect)),
        painted(old(inky).pixels(), final(inky).pixels(), |x: int, y: int| rect.contains(x, y), Color::Black),
{
    graphics.draw_rect(inky, &rect, Color::Black);
    let inner = rect.shrink(5, 0, 5, 2);
    let mut wifi = inner;
    let bars = wifi.split_off_right(24).shrink(0, 3, 5, 2);
    (inner, wifi, bars)
}

} // verus!
