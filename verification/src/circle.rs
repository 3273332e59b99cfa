use vstd::prelude::*;

use crate::line::abs;
use crate::rect::{fits_i32, trunc_div, Rect};

verus! {

/// The state `(t1, cx, cy)` of the midpoint circle walk for `radius` after `k` steps: each step
/// moves `cy` one further from the axis and, when the accumulated error says so, `cx` one
/// nearer.
pub open spec fn circle_state(radius: int, k: nat) -> (int, int, int)
    decreases k,
{
    if k == 0 {
        (trunc_div(radius, 16), radius, 0)
    } else {
        let (t1, cx, cy) = circle_state(radius, (k - 1) as nat);
        let cy2 = cy + 1;
        let t1b = t1 + cy2;
        let t2 = t1b - cx;
        if t2 >= 0 {
            (t2, cx - 1, cy2)
        } else {
            (t1b, cx, cy2)
        }
    }
}

/// Whether the walk still draws at step `k`: it stops once `cx < cy`.
pub open spec fn circle_running(radius: int, k: nat) -> bool {
    circle_state(radius, k).1 >= circle_state(radius, k).2
}

/// The eight mirror images of the offset `(cx, cy)` around `(center_x, center_y)`.
pub open spec fn octant_points(center_x: int, center_y: int, cx: int, cy: int, x: int, y: int) -> bool {
    ||| abs(x - center_x) == cx && abs(y - center_y) == cy
    ||| abs(x - center_x) == cy && abs(y - center_y) == cx
}

/// The pixels of the circle of `radius` around `(center_x, center_y)`: the mirror images of
/// every offset the walk draws.
pub open spec fn circle_region(center_x: int, center_y: int, radius: int, x: int, y: int) -> bool {
    exists|k: nat|
        circle_running(radius, k) && octant_points(
            center_x,
            center_y,
            (#[trigger] circle_state(radius, k)).1,
            circle_state(radius, k).2,
            x,
            y,
        )
}

/// Along the walk `cy` counts the steps, `cx` never grows, and for a radius that is not
/// negative the error term stays in `0 ..= cx + 1` while the walk draws.
pub proof fn lemma_circle_state_facts(radius: int, k: nat)
    ensures
        circle_state(radius, k).2 == k,
        circle_state(radius, k).1 <= radius,
        circle_state(radius, k + 1).1 <= circle_state(radius, k).1,
        circle_state(radius, k + 1).1 >= circle_state(radius, k).1 - 1,
        radius >= 0 && circle_running(radius, k) ==> 0 <= circle_state(radius, k).0
            <= circle_state(radius, k).1 + 1,
    decreases k,
{
    if k > 0 {
        lemma_circle_state_facts(radius, (k - 1) as nat);
    }
}

/// Once the walk stops drawing it never draws again.
pub proof fn lemma_circle_running_prefix(radius: int, i: nat, j: nat)
    requires
        i <= j,
        circle_running(radius, j),
    ensures
        circle_running(radius, i),
    decreases j - i,
{
    if i < j {
        lemma_circle_state_facts(radius, (j - 1) as nat);
        lemma_circle_running_prefix(radius, i, (j - 1) as nat);
    }
}

/// The pixels of row `row` in the columns `from .. to`.
pub open spec fn span(row: int, from: int, to: int, x: int, y: int) -> bool {
    y == row && from <= x < to
}

/// The four rows a rounded rectangle fills at walk offset `(cx, cy)`: near the bottom and near
/// the top edge, each reaching `cx` or `cy` pixels past the inner corners.
pub open spec fn rounded_spans(rect: Rect, radius: int, cx: int, cy: int, x: int, y: int) -> bool {
    let left = rect.x + radius;
    let right = rect.x + rect.width - radius;
    let bottom = rect.y + rect.height - radius - 1;
    let top = rect.y + radius;
    ||| span(bottom + cy, left - cx, right + cx, x, y)
    ||| span(bottom + cx, left - cy, right + cy, x, y)
    ||| span(top - cy, left - cx, right + cx, x, y)
    ||| span(top - cx, left - cy, right + cy, x, y)
}

/// The three rectangles that fill a rounded rectangle between its corner arcs: a band along the
/// top, the full-width middle, and a one-pixel row along the bottom.
pub open spec fn rounded_rect_bands(rect: Rect, radius: int) -> Seq<Rect> {
    seq![
        Rect {
            x: (rect.x + radius) as i32,
            y: rect.y,
            width: (rect.width - radius * 2) as i32,
            height: radius as i32,
        },
        Rect {
            x: rect.x,
            y: (rect.y + radius) as i32,
            width: rect.width,
            height: (rect.height - 2 * radius) as i32,
        },
        Rect {
            x: (rect.x + radius) as i32,
            y: (rect.y + rect.height - radius) as i32,
            width: (rect.width - 2 * radius) as i32,
            height: 1,
        },
    ]
}

/// The pixels of the filled rectangle `rect` with corners rounded by `radius`.
pub open spec fn rounded_rect_region(rect: Rect, radius: int, x: int, y: int) -> bool {
    ||| exists|k: nat|
        circle_running(radius, k) && rounded_spans(
            rect,
            radius,
            (#[trigger] circle_state(radius, k)).1,
            circle_state(radius, k).2,
            x,
            y,
        )
    ||| exists|i: int| 0 <= i < 3 && #[trigger] rounded_rect_bands(rect, radius)[i].contains(x, y)
}

/// The eight points an outlined rounded rectangle sets at walk offset `(cx, cy)`: one on each
/// half of the four corner arcs.
pub open spec fn rounded_corner_points(rect: Rect, radius: int, cx: int, cy: int) -> Seq<(int, int)> {
    let left = rect.x + radius;
    let right = rect.x + rect.width - radius - 1;
    let top = rect.y + radius;
    let bottom = rect.y + rect.height - radius - 1;
    seq![
        (right + cx, bottom + cy),
        (right + cy, bottom + cx),
        (right + cx, top - cy),
        (right + cy, top - cx),
        (left - cx, bottom + cy),
        (left - cy, bottom + cx),
        (left - cx, top - cy),
        (left - cy, top - cx),
    ]
}

/// The four one-pixel lines of an outlined rounded rectangle between its corner arcs: top,
/// left, right and bottom.
pub open spec fn rounded_box_sides(rect: Rect, radius: int) -> Seq<Rect> {
    seq![
        Rect {
            x: (rect.x + radius) as i32,
            y: rect.y,
            width: (rect.width - radius * 2) as i32,
            height: 1,
        },
        Rect {
            x: rect.x,
            y: (rect.y + radius) as i32,
            width: 1,
            height: (rect.height - 2 * radius) as i32,
        },
        Rect {
            x: (rect.x + rect.width - 1) as i32,
            y: (rect.y + radius) as i32,
            width: 1,
            height: (rect.height - 2 * radius) as i32,
        },
        Rect {
            x: (rect.x + radius) as i32,
            y: (rect.y + rect.height - 1) as i32,
            width: (rect.width - 2 * radius) as i32,
            height: 1,
        },
    ]
}

/// The pixels of the outline of `rect` with corners rounded by `radius`.
pub open spec fn rounded_box_region(rect: Rect, radius: int, x: int, y: int) -> bool {
    ||| exists|k: nat, j: int|
        circle_running(radius, k) && 0 <= j < 8 && #[trigger] rounded_corner_points(
            rect,
            radius,
            circle_state(radius, k).1,
            circle_state(radius, k).2,
        )[j] == (x, y)
    ||| exists|i: int| 0 <= i < 4 && #[trigger] rounded_box_sides(rect, radius)[i].contains(x, y)
}

/// The circle is symmetric in its eight octants: mirrored across the column or the row of its
/// centre, or across the diagonal through it, each of its pixels stays one of its pixels.
pub proof fn lemma_circle_symmetric(center_x: int, center_y: int, radius: int, x: int, y: int)
    ensures
        circle_region(center_x, center_y, radius, x, y) == circle_region(center_x, center_y, radius, 2 * center_x - x, y),
        circle_region(center_x, center_y, radius, x, y) == circle_region(center_x, center_y, radius, x, 2 * center_y - y),
        circle_region(center_x, center_y, radius, x, y) == circle_region(
            center_x,
            center_y,
            radius,
            center_x + (y - center_y),
            center_y + (x - center_x),
        ),
{
    let mx = 2 * center_x - x;
    let my = 2 * center_y - y;
    let sx = center_x + (y - center_y);
    let sy = center_y + (x - center_x);
    assert(abs(mx - center_x) == abs(x - center_x));
    assert(abs(my - center_y) == abs(y - center_y));
    assert(abs(sx - center_x) == abs(y - center_y));
    assert(abs(sy - center_y) == abs(x - center_x));
    if circle_region(center_x, center_y, radius, x, y) {
        let k = choose|k: nat|
            circle_running(radius, k) && octant_points(
                center_x,
                center_y,
                (#[trigger] circle_state(radius, k)).1,
                circle_state(radius, k).2,
                x,
                y,
            );
        let (t, cx, cy) = circle_state(radius, k);
        assert(octant_points(center_x, center_y, cx, cy, mx, y));
        assert(octant_points(center_x, center_y, cx, cy, x, my));
        assert(octant_points(center_x, center_y, cx, cy, sx, sy));
    }
    if circle_region(center_x, center_y, radius, mx, y) {
        let k = choose|k: nat|
            circle_running(radius, k) && octant_points(
                center_x,
                center_y,
                (#[trigger] circle_state(radius, k)).1,
                circle_state(radius, k).2,
                mx,
                y,
            );
        let (t, cx, cy) = circle_state(radius, k);
        assert(octant_points(center_x, center_y, cx, cy, x, y));
    }
    if circle_region(center_x, center_y, radius, x, my) {
        let k = choose|k: nat|
            circle_running(radius, k) && octant_points(
                center_x,
                center_y,
                (#[trigger] circle_state(radius, k)).1,
                circle_state(radius, k).2,
                x,
                my,
            );
        let (t, cx, cy) = circle_state(radius, k);
        assert(octant_points(center_x, center_y, cx, cy, x, y));
    }
    if circle_region(center_x, center_y, radius, sx, sy) {
        let k = choose|k: nat|
            circle_running(radius, k) && octant_points(
                center_x,
                center_y,
                (#[trigger] circle_state(radius, k)).1,
                circle_state(radius, k).2,
                sx,
                sy,
            );
        let (t, cx, cy) = circle_state(radius, k);
        assert(octant_points(center_x, center_y, cx, cy, x, y));
    }
}

/// The walk draws at step 0; when it has stopped by step `d`, there is a first step `m` at which
/// it no longer draws.
proof fn lemma_circle_first_stop(radius: int, d: nat) -> (m: nat)
    requires
        radius >= 0,
        !circle_running(radius, d),
    ensures
        0 < m <= d,
        !circle_running(radius, m),
        circle_running(radius, (m - 1) as nat),
    decreases d,
{
    assert(circle_running(radius, 0));
    if circle_running(radius, (d - 1) as nat) {
        d
    } else {
        lemma_circle_first_stop(radius, (d - 1) as nat)
    }
}

/// The walk's x offset starts at the radius and drops by at most one a step, so by step `k` it
/// has passed through every value from its value there up to the radius.
proof fn lemma_circle_cx_passes(radius: int, k: nat, d: int) -> (j: nat)
    requires
        circle_state(radius, k).1 <= d <= radius,
    ensures
        j <= k,
        circle_state(radius, j).1 == d,
    decreases k,
{
    if k == 0 {
        0
    } else {
        lemma_circle_state_facts(radius, (k - 1) as nat);
        if d >= circle_state(radius, (k - 1) as nat).1 {
            lemma_circle_cx_passes(radius, (k - 1) as nat, d)
        } else {
            k
        }
    }
}

/// Every distance from 0 to the radius is one of the two offsets of some step the walk draws.
proof fn lemma_circle_offsets_cover(radius: int, d: int) -> (k: nat)
    requires
        0 <= d <= radius,
    ensures
        circle_running(radius, k),
        circle_state(radius, k).2 == d || circle_state(radius, k).1 == d,
{
    lemma_circle_state_facts(radius, d as nat);
    if circle_running(radius, d as nat) {
        d as nat
    } else {
        let m = lemma_circle_first_stop(radius, d as nat);
        lemma_circle_state_facts(radius, (m - 1) as nat);
        lemma_circle_state_facts(radius, m);
        let j = lemma_circle_cx_passes(radius, (m - 1) as nat, d);
        lemma_circle_running_prefix(radius, j, (m - 1) as nat);
        j
    }
}

/// The row that `y` maps to when `rect` is turned upside down.
pub open spec fn mirror_row(rect: Rect, y: int) -> int {
    2 * rect.y + rect.height - 1 - y
}

/// Whether the bands of a rounded rectangle keep their coordinates in range.
pub open spec fn rounded_bands_fit(rect: Rect, radius: int) -> bool {
    &&& fits_i32(radius)
    &&& fits_i32(rect.x + radius)
    &&& fits_i32(rect.y + radius)
    &&& fits_i32(rect.width - 2 * radius)
    &&& fits_i32(rect.height - 2 * radius)
    &&& fits_i32(rect.y + rect.height - radius)
}

/// A pixel of a filled rounded rectangle turned upside down is one of its pixels.
proof fn lemma_rounded_rect_mirror_into(rect: Rect, radius: int, x: int, y: int)
    requires
        radius >= 1,
        rounded_bands_fit(rect, radius),
        rounded_rect_region(rect, radius, x, y),
    ensures
        rounded_rect_region(rect, radius, x, mirror_row(rect, y)),
{
    let my = mirror_row(rect, y);
    let bands = rounded_rect_bands(rect, radius);
    if exists|k: nat|
        circle_running(radius, k) && rounded_spans(
            rect,
            radius,
            (#[trigger] circle_state(radius, k)).1,
            circle_state(radius, k).2,
            x,
            y,
        ) {
        let k = choose|k: nat|
            circle_running(radius, k) && rounded_spans(
                rect,
                radius,
                (#[trigger] circle_state(radius, k)).1,
                circle_state(radius, k).2,
                x,
                y,
            );
        assert(rounded_spans(rect, radius, circle_state(radius, k).1, circle_state(radius, k).2, x, my));
    } else {
        let i = choose|i: int| 0 <= i < 3 && #[trigger] rounded_rect_bands(rect, radius)[i].contains(x, y);
        if i == 0 {
            assert(bands[0].contains(x, y));
            let d = my - (rect.y + rect.height - radius - 1);
            let k = lemma_circle_offsets_cover(radius, d);
            lemma_circle_state_facts(radius, k);
            assert(rounded_spans(rect, radius, circle_state(radius, k).1, circle_state(radius, k).2, x, my));
        } else if i == 1 {
            assert(bands[1].contains(x, y));
            assert(bands[1].contains(x, my));
        } else {
            assert(bands[2].contains(x, y));
            assert(bands[0].contains(x, my));
        }
    }
}

/// A filled rounded rectangle with corners of radius at least 1 is the same upside down: a
/// pixel is set exactly when its mirror image across the rectangle's middle row is, so its
/// bottom corners are cut exactly like its top ones.
pub proof fn lemma_rounded_rect_symmetric(rect: Rect, radius: int, x: int, y: int)
    requires
        radius >= 1,
        rounded_bands_fit(rect, radius),
    ensures
        rounded_rect_region(rect, radius, x, y) == rounded_rect_region(rect, radius, x, mirror_row(rect, y)),
{
    assert(mirror_row(rect, mirror_row(rect, y)) == y);
    if rounded_rect_region(rect, radius, x, y) {
        lemma_rounded_rect_mirror_into(rect, radius, x, y);
    }
    if rounded_rect_region(rect, radius, x, mirror_row(rect, y)) {
        lemma_rounded_rect_mirror_into(rect, radius, x, mirror_row(rect, y));
    }
}

/// The column that `x` maps to when `rect` is turned left to right.
pub open spec fn mirror_column(rect: Rect, x: int) -> int {
    2 * rect.x + rect.width - 1 - x
}

/// A pixel of a filled rounded rectangle turned left to right is one of its pixels.
proof fn lemma_rounded_rect_mirror_across(rect: Rect, radius: int, x: int, y: int)
    requires
        rounded_bands_fit(rect, radius),
        rounded_rect_region(rect, radius, x, y),
    ensures
        rounded_rect_region(rect, radius, mirror_column(rect, x), y),
{
    let mx = mirror_column(rect, x);
    let bands = rounded_rect_bands(rect, radius);
    if exists|k: nat|
        circle_running(radius, k) && rounded_spans(
            rect,
            radius,
            (#[trigger] circle_state(radius, k)).1,
            circle_state(radius, k).2,
            x,
            y,
        ) {
        let k = choose|k: nat|
            circle_running(radius, k) && rounded_spans(
                rect,
                radius,
                (#[trigger] circle_state(radius, k)).1,
                circle_state(radius, k).2,
                x,
                y,
            );
        assert(rounded_spans(rect, radius, circle_state(radius, k).1, circle_state(radius, k).2, mx, y));
    } else {
        let i = choose|i: int| 0 <= i < 3 && #[trigger] rounded_rect_bands(rect, radius)[i].contains(x, y);
        assert(bands[i].contains(x, y));
        assert(bands[i].contains(mx, y));
    }
}

/// A filled rounded rectangle is the same turned left to right: a pixel is set exactly when its
/// mirror image across the rectangle's middle column is, so its right corners are cut exactly
/// like its left ones.
pub proof fn lemma_rounded_rect_symmetric_across(rect: Rect, radius: int, x: int, y: int)
    requires
        rounded_bands_fit(rect, radius),
    ensures
        rounded_rect_region(rect, radius, x, y) == rounded_rect_region(rect, radius, mirror_column(rect, x), y),
{
    assert(mirror_column(rect, mirror_column(rect, x)) == x);
    if rounded_rect_region(rect, radius, x, y) {
        lemma_rounded_rect_mirror_across(rect, radius, x, y);
    }
    if rounded_rect_region(rect, radius, mirror_column(rect, x), y) {
        lemma_rounded_rect_mirror_across(rect, radius, mirror_column(rect, x), y);
    }
}

/// Whether the sides of an outlined rounded rectangle keep their coordinates in range.
pub open spec fn rounded_sides_fit(rect: Rect, radius: int) -> bool {
    &&& fits_i32(rect.x + radius)
    &&& fits_i32(rect.y + radius)
    &&& fits_i32(rect.width - 2 * radius)
    &&& fits_i32(rect.height - 2 * radius)
    &&& fits_i32(rect.x + rect.width - 1)
    &&& fits_i32(rect.y + rect.height - 1)
}

/// A pixel of an outlined rounded rectangle turned upside down, or left to right, is one of its
/// pixels.
proof fn lemma_rounded_box_mirror(rect: Rect, radius: int, x: int, y: int)
    requires
        rounded_sides_fit(rect, radius),
        rounded_box_region(rect, radius, x, y),
    ensures
        rounded_box_region(rect, radius, x, mirror_row(rect, y)),
        rounded_box_region(rect, radius, mirror_column(rect, x), y),
{
    let mx = mirror_column(rect, x);
    let my = mirror_row(rect, y);
    let sides = rounded_box_sides(rect, radius);
    if exists|k: nat, j: int|
        circle_running(radius, k) && 0 <= j < 8 && #[trigger] rounded_corner_points(
            rect,
            radius,
            circle_state(radius, k).1,
            circle_state(radius, k).2,
        )[j] == (x, y) {
        let (k, j) = choose|k: nat, j: int|
            circle_running(radius, k) && 0 <= j < 8 && #[trigger] rounded_corner_points(
                rect,
                radius,
                circle_state(radius, k).1,
                circle_state(radius, k).2,
            )[j] == (x, y);
        let points = rounded_corner_points(rect, radius, circle_state(radius, k).1, circle_state(radius, k).2);
        assert(points[j] == (x, y));
        let jy = if j % 4 < 2 { j + 2 } else { j - 2 };
        let jx = if j < 4 { j + 4 } else { j - 4 };
        assert(points[jy] == (x, my));
        assert(points[jx] == (mx, y));
    } else {
        let i = choose|i: int| 0 <= i < 4 && #[trigger] rounded_box_sides(rect, radius)[i].contains(x, y);
        assert(sides[i].contains(x, y));
        let iy = if i == 0 { 3int } else if i == 3 { 0int } else { i };
        let ix = if i == 1 { 2int } else if i == 2 { 1int } else { i };
        assert(sides[iy].contains(x, my));
        assert(sides[ix].contains(mx, y));
    }
}

/// An outlined rounded rectangle is the same upside down and turned left to right: a pixel is
/// set exactly when its mirror image across the rectangle's middle row, or its middle column,
/// is, so all four corners are drawn alike.
pub proof fn lemma_rounded_box_symmetric(rect: Rect, radius: int, x: int, y: int)
    requires
        rounded_sides_fit(rect, radius),
    ensures
        rounded_box_region(rect, radius, x, y) == rounded_box_region(rect, radius, x, mirror_row(rect, y)),
        rounded_box_region(rect, radius, x, y) == rounded_box_region(rect, radius, mirror_column(rect, x), y),
{
    assert(mirror_row(rect, mirror_row(rect, y)) == y);
    assert(mirror_column(rect, mirror_column(rect, x)) == x);
    if rounded_box_region(rect, radius, x, y) {
        lemma_rounded_box_mirror(rect, radius, x, y);
    }
    if rounded_box_region(rect, radius, x, mirror_row(rect, y)) {
        lemma_rounded_box_mirror(rect, radius, x, mirror_row(rect, y));
    }
    if rounded_box_region(rect, radius, mirror_column(rect, x), y) {
        lemma_rounded_box_mirror(rect, radius, mirror_column(rect, x), y);
    }
}

} // verus!
