use vstd::prelude::*;
use vstd::string::StringSliceAdditionalSpecFns;
use vstd::utf8::{decode_utf8, encode_utf8};

use crate::circle::{
    circle_region, circle_running, circle_state, lemma_circle_running_prefix,
    lemma_circle_state_facts, octant_points, rounded_box_region, rounded_box_sides,
    rounded_corner_points, rounded_rect_bands, rounded_rect_region, rounded_spans, span,
};
use crate::font::{lookup, packed_bit, Bitmap, Font, Resources};
use crate::palette::{
    color_map, desaturated_palette, is_first_position, position, spec_color_map,
    spec_desaturated_palette, Image,
};
use crate::inky::{
    lemma_painted_nothing, lemma_painted_same_region, lemma_painted_union, on_screen, painted,
    painted_by, Color, Panel, Picture,
};
use crate::line::{
    abs, lemma_line_state_stays, lemma_line_walk_step, line_length, line_region, line_state,
    line_walk_inv,
};
use crate::rect::{fits_i32, trunc_div, Rect};
use crate::text::{
    break_fits, break_value, first_overflow, glyph_fits, glyph_origin, glyph_region, has_glyphs,
    last_space_end, lemma_encode_utf8_len, lemma_line_break_bound, lemma_multiline_stays,
    lemma_pen_step, line_break, line_chars, multiline_line_ok, multiline_ok, multiline_region, multiline_running,
    multiline_state, overflows_at, suffix_chars, pen, text_advance_y, text_fits, text_region,
    text_region_upto, text_width, width_fits,
};

verus! {

/// How a line of text sits relative to the x coordinate it is drawn at.
#[derive(Clone, Copy, Debug, PartialEq, Eq, Structural)]
pub enum Alignment {
    Left,
    Center,
    Right,
}

/// Draws shapes, text and bitmaps with a set of fonts and bitmaps.
pub struct Graphics {
    resources: Resources,
}

/// Whether drawing every pixel of `rect` keeps its coordinates in range.
pub open spec fn rect_coords_fit(rect: Rect) -> bool {
    rect.width > 0 && rect.height > 0 ==> fits_i32(rect.x + rect.width - 1) && fits_i32(
        rect.y + rect.height - 1,
    )
}

/// The pixels of `rect` on rows with an even `y` whose `x + y` is a multiple of four: a sparse
/// pattern that reads as a gray shade.
pub open spec fn dither_region(rect: Rect, x: int, y: int) -> bool {
    &&& rect.contains(x, y)
    &&& y % 2 == 0
    &&& (x + y) % 4 == 0
}

/// The four bands of width `border` along the edges of `rect`: top, left, right and bottom.
pub open spec fn box_sides(rect: Rect, border: i32) -> Seq<Rect> {
    seq![
        Rect { x: rect.x, y: rect.y, width: rect.width, height: border },
        Rect {
            x: rect.x,
            y: (rect.y + border) as i32,
            width: border,
            height: (rect.height - 2 * border) as i32,
        },
        Rect {
            x: (rect.x + rect.width - border) as i32,
            y: (rect.y + border) as i32,
            width: border,
            height: (rect.height - 2 * border) as i32,
        },
        Rect { x: rect.x, y: (rect.y + rect.height - border) as i32, width: rect.width, height: border },
    ]
}

/// Whether `(x, y)` lies on one of the four bands of `box_sides(rect, border)`.
pub open spec fn box_region(rect: Rect, border: i32, x: int, y: int) -> bool {
    exists|i: int| 0 <= i < 4 && #[trigger] box_sides(rect, border)[i].contains(x, y)
}

/// Whether the band coordinates of `box_sides(rect, border)` stay in range.
pub open spec fn box_coords_fit(rect: Rect, border: i32) -> bool {
    &&& fits_i32(rect.y + border)
    &&& fits_i32(2 * border)
    &&& fits_i32(rect.height - 2 * border)
    &&& fits_i32(rect.x + rect.width)
    &&& fits_i32(rect.x + rect.width - border)
    &&& fits_i32(rect.y + rect.height)
    &&& fits_i32(rect.y + rect.height - border)
    &&& forall|i: int| 0 <= i < 4 ==> rect_coords_fit(#[trigger] box_sides(rect, border)[i])
}

/// Whether the rows a rounded rectangle's corner walk fills keep their coordinates in range.
pub open spec fn rounded_arc_coords_fit(rect: Rect, radius: int) -> bool {
    radius >= 0 ==> {
        &&& fits_i32(rect.x - radius)
        &&& fits_i32(rect.x + radius)
        &&& fits_i32(rect.x + rect.width)
        &&& fits_i32(rect.x + rect.width + radius)
        &&& fits_i32(rect.x + rect.width - radius)
        &&& fits_i32(rect.y + rect.height)
        &&& fits_i32(rect.y + rect.height + radius)
        &&& fits_i32(rect.y + rect.height - radius - 1)
        &&& fits_i32(rect.y - radius)
        &&& fits_i32(rect.y + radius)
        &&& fits_i32(2 * radius + 2)
    }
}

/// Whether the three filling bands of a rounded rectangle keep their coordinates in range.
pub open spec fn rounded_bands_coords_fit(rect: Rect, radius: int) -> bool {
    &&& fits_i32(rect.x + radius)
    &&& fits_i32(2 * radius)
    &&& fits_i32(rect.width - 2 * radius)
    &&& fits_i32(rect.y + radius)
    &&& fits_i32(rect.height - 2 * radius)
    &&& fits_i32(rect.y + rect.height)
    &&& fits_i32(rect.y + rect.height - radius)
    &&& forall|i: int| 0 <= i < 3 ==> rect_coords_fit(#[trigger] rounded_rect_bands(rect, radius)[i])
}

/// Whether the four sides of an outlined rounded rectangle keep their coordinates in range.
pub open spec fn rounded_sides_coords_fit(rect: Rect, radius: int) -> bool {
    &&& fits_i32(rect.x + radius)
    &&& fits_i32(2 * radius)
    &&& fits_i32(rect.width - 2 * radius)
    &&& fits_i32(rect.y + radius)
    &&& fits_i32(rect.height - 2 * radius)
    &&& fits_i32(rect.x + rect.width)
    &&& fits_i32(rect.x + rect.width - 1)
    &&& fits_i32(rect.y + rect.height)
    &&& fits_i32(rect.y + rect.height - 1)
    &&& forall|i: int| 0 <= i < 4 ==> rect_coords_fit(#[trigger] rounded_box_sides(rect, radius)[i])
}

/// The x coordinate a line of text starts at when drawn at `x` with `alignment`.
pub open spec fn aligned_x(font: Font, s: Seq<char>, x: int, alignment: Alignment) -> int {
    match alignment {
        Alignment::Left => x,
        Alignment::Center => x - trunc_div(text_width(font, s), 2),
        Alignment::Right => x - text_width(font, s),
    }
}

/// The pixels of the glyph of `c` at `(ox, oy)` in the bitmap rows before `cy`, and in row
/// `cy` before column `cx`.
spec fn glyph_prefix(font: Font, c: char, ox: int, oy: int, cx: int, cy: int, x: int, y: int) -> bool {
    glyph_region(font, c, ox, oy, x, y) && (oy - y < cy || (oy - y == cy && x - ox < cx))
}

/// The pixels a named bitmap sets when placed at `(x, y)`: bit `dx + dy * height` of its bits
/// gives pixel `(x + dx, y + dy)`, for `dx` below its height and `dy` below its width (the two
/// sides are taken crosswise, which makes no difference for the square icons in use).
pub open spec fn bitmap_region(bitmap: Bitmap, x: int, y: int, px: int, py: int) -> bool {
    let dx = px - x;
    let dy = py - y;
    &&& 0 <= dy < bitmap.width
    &&& 0 <= dx < bitmap.height
    &&& packed_bit(bitmap.bits@, 0, dx + dy * bitmap.height)
}

/// Whether drawing `bitmap` at `(x, y)` stays inside its bits and keeps coordinates in range.
pub open spec fn bitmap_fits(bitmap: Bitmap, x: int, y: int) -> bool {
    bitmap.width > 0 && bitmap.height > 0 ==> {
        &&& bitmap.width * bitmap.height <= usize::MAX
        &&& (bitmap.width * bitmap.height - 1) / 8 < bitmap.bits@.len()
        &&& bitmap.height <= i32::MAX
        &&& bitmap.width <= i32::MAX
        &&& fits_i32(x + bitmap.height - 1)
        &&& fits_i32(y + bitmap.width - 1)
    }
}

/// The pixels of a bitmap in the rows before `dy`, and in row `dy` before column `dx`.
spec fn bitmap_prefix(bitmap: Bitmap, x: int, y: int, dx: int, dy: int, px: int, py: int) -> bool {
    bitmap_region(bitmap, x, y, px, py) && (py - y < dy || (py - y == dy && px - x < dx))
}

/// A pixel of a bitmap lies inside its bits.
proof fn lemma_bitmap_index(w: int, h: int, dx: int, dy: int)
    requires
        0 <= dx < h,
        0 <= dy < w,
    ensures
        0 <= dx + dy * h <= w * h - 1,
        (dx + dy * h) / 8 <= (w * h - 1) / 8,
{
    assert(0 <= dx + dy * h <= w * h - 1) by (nonlinear_arith)
        requires
            0 <= dx < h,
            0 <= dy < w,
    ;
    assert((dx + dy * h) / 8 <= (w * h - 1) / 8) by (nonlinear_arith)
        requires
            0 <= dx + dy * h <= w * h - 1,
    ;
}

/// Where an image goes in `rect` when its top-left corner is offset by `(x_off, y_off)` from
/// the rectangle's: the drawn area starts at the offset clamped to the rectangle's corner and
/// is as wide and tall as the smaller of the two; `(draw_x, draw_y, sub_x, sub_y, width,
/// height)`, with `(sub_x, sub_y)` the first image pixel drawn.
pub open spec fn image_placement(rect: Rect, x_off: int, y_off: int, image: Image) -> (int, int, int, int, int, int) {
    let draw_w = if rect.width <= image.width { rect.width as int } else { image.width as int };
    let draw_h = if rect.height <= image.height { rect.height as int } else { image.height as int };
    let draw_x = if rect.x >= rect.x + x_off { rect.x as int } else { rect.x + x_off };
    let draw_y = if rect.y >= rect.y + y_off { rect.y as int } else { rect.y + y_off };
    let sub_x = if rect.x - draw_x >= 0 { rect.x - draw_x } else { 0 };
    let sub_y = if rect.y - draw_y >= 0 { rect.y - draw_y } else { 0 };
    (draw_x, draw_y, sub_x, sub_y, draw_w, draw_h)
}

/// The panel pixels an image covers.
pub open spec fn image_region(rect: Rect, x_off: int, y_off: int, image: Image, px: int, py: int) -> bool {
    let (draw_x, draw_y, sub_x, sub_y, w, h) = image_placement(rect, x_off, y_off, image);
    0 <= px - draw_x < w && 0 <= py - draw_y < h
}

/// The panel color for each palette color.
pub open spec fn ink_of(color: [u8; 3]) -> Color {
    spec_color_map(choose|i: int| is_first_position(spec_desaturated_palette(), color, i))
}

/// The panel color each covered pixel gets: the ink of the image pixel drawn there.
pub open spec fn image_colors(rect: Rect, x_off: int, y_off: int, image: Image) -> Picture {
    |px: int, py: int| image_color_at(rect, x_off, y_off, image, px, py)
}

/// The panel color of the covered pixel `(px, py)`.
pub open spec fn image_color_at(rect: Rect, x_off: int, y_off: int, image: Image, px: int, py: int) -> Color {
    let (draw_x, draw_y, sub_x, sub_y, w, h) = image_placement(rect, x_off, y_off, image);
    ink_of(image.pixel(sub_x + px - draw_x, sub_y + py - draw_y))
}

/// Whether every pixel the image draws is a color of the pure ink palette.
pub open spec fn image_in_palette(rect: Rect, x_off: int, y_off: int, image: Image) -> bool {
    let (draw_x, draw_y, sub_x, sub_y, w, h) = image_placement(rect, x_off, y_off, image);
    forall|dx: int, dy: int|
        0 <= dx < w && 0 <= dy < h ==> in_ink_palette(#[trigger] image.pixel(sub_x + dx, sub_y + dy))
}

/// Whether `color` is one of the pure ink colors.
pub open spec fn in_ink_palette(color: [u8; 3]) -> bool {
    exists|i: int| #[trigger] is_first_position(spec_desaturated_palette(), color, i)
}

/// The colors a palette map produces are drawable: entry `i` of the pure ink palette (what
/// `InkyColorMap::map_color` gives for a color nearest to entry `i`) is an ink color, and an
/// image pixel of that color is drawn in the panel color of entry `i`.
pub proof fn lemma_mapped_color_ink(i: int)
    requires
        0 <= i < 6,
    ensures
        in_ink_palette(spec_desaturated_palette()[i]),
        ink_of(spec_desaturated_palette()[i]) == spec_color_map(i),
{
    let p = spec_desaturated_palette();
    assert forall|j: int, k: int| 0 <= j < k < 6 implies p[j] != p[k] by {
        if p[j] == p[k] {
            assert(p[j][0] == p[k][0] && p[j][1] == p[k][1] && p[j][2] == p[k][2]);
        }
    }
    assert(is_first_position(p, p[i], i));
    let c = choose|k: int| is_first_position(p, p[i], k);
    assert(is_first_position(p, p[i], c));
    if c < i {
        assert(p[c] != p[i]);
    } else if c > i {
        assert(p[i] != p[c]);
    }
}

/// Pixels of an image drawn in the rows before `dy`, and in row `dy` before column `dx`.
spec fn image_prefix(rect: Rect, x_off: int, y_off: int, image: Image, dx: int, dy: int, px: int, py: int) -> bool {
    let (draw_x, draw_y, sub_x, sub_y, w, h) = image_placement(rect, x_off, y_off, image);
    image_region(rect, x_off, y_off, image, px, py) && (py - draw_y < dy || (py - draw_y == dy && px - draw_x < dx))
}

/// A pixel of a glyph's bitmap lies inside the bytes the glyph owns.
proof fn lemma_glyph_index(w: int, h: int, cx: int, cy: int)
    requires
        0 <= cx < w <= 255,
        0 <= cy < h <= 255,
    ensures
        0 <= cx + cy * w <= w * h - 1,
        w * h <= 65025,
        (cx + cy * w) / 8 <= (w * h - 1) / 8,
{
    assert(0 <= cx + cy * w <= w * h - 1) by (nonlinear_arith)
        requires
            0 <= cx < w,
            0 <= cy < h,
    ;
    assert(w * h <= 65025) by (nonlinear_arith)
        requires
            0 <= w <= 255,
            0 <= h <= 255,
    ;
    assert((cx + cy * w) / 8 <= (w * h - 1) / 8) by (nonlinear_arith)
        requires
            0 <= cx + cy * w <= w * h - 1,
    ;
}

impl Graphics {
    /// The fonts and bitmaps this draws with.
    pub closed spec fn resources(&self) -> &Resources {
        &self.resources
    }

    /// Whether `draw_text` can draw `text` in the font named `font` at `(x, y)` with
    /// `alignment`: the font exists, has every glyph, and the coordinates stay in range.
    pub open spec fn text_drawable(&self, font: Seq<char>, text: Seq<char>, x: int, y: int, alignment: Alignment) -> bool {
        &&& self.font(font) is Some
        &&& has_glyphs(self.font(font)->0, text)
        &&& alignment != Alignment::Left ==> width_fits(self.font(font)->0, text)
        &&& fits_i32(aligned_x(self.font(font)->0, text, x, alignment))
        &&& text_fits(self.font(font)->0, text, aligned_x(self.font(font)->0, text, x, alignment), y)
    }

    /// The pixels `draw_text` sets for `text` in the font named `font` at `(x, y)` with
    /// `alignment`.
    pub open spec fn text_pixels(&self, font: Seq<char>, text: Seq<char>, x: int, y: int, alignment: Alignment, px: int, py: int) -> bool {
        text_region(self.font(font)->0, text, aligned_x(self.font(font)->0, text, x, alignment), y, px, py)
    }

    /// The font named `name`, if any.
    pub open spec fn font(&self, name: Seq<char>) -> Option<Font> {
        lookup(self.resources().fonts@, name)
    }

    /// The bitmap named `name`, if any.
    pub open spec fn bitmap(&self, name: Seq<char>) -> Option<Bitmap> {
        lookup(self.resources().bitmaps@, name)
    }

    /// Draws with the given fonts and bitmaps, each of which has a name of its own.
    pub fn new(resources: Resources) -> (g: Self)
        requires
            resources.wf(),
        ensures
            g.resources() == resources,
    {
        Graphics { resources }
    }

    /// The bitmap named `name`, if there is one.
    pub fn get_bitmap(&self, name: &str) -> (r: Option<&Bitmap>)
        ensures
            r matches Some(b) ==> self.bitmap(name@) == Some(*b),
            r is None ==> self.bitmap(name@) is None,
    {
        crate::font::find_named(&self.resources.bitmaps, name)
    }

    /// The font named `name`, if there is one.
    pub fn get_font(&self, name: &str) -> (r: Option<&Font>)
        ensures
            r matches Some(f) ==> self.font(name@) == Some(*f),
            r is None ==> self.font(name@) is None,
    {
        crate::font::find_named(&self.resources.fonts, name)
    }

    /// Fills `rect` with `color`.
    pub fn draw_rect<P: Panel>(&self, inky: &mut P, rect: &Rect, color: Color)
        requires
            old(inky).wf(),
            rect_coords_fit(*rect),
        ensures
            final(inky).wf(),
            painted(old(inky).pixels(), final(inky).pixels(), |x: int, y: int| rect.contains(x, y), color),
    {
        let ghost start = inky.pixels();
        let mut dy: i32 = 0;
        while dy < rect.height
            invariant
                0 <= dy,
                rect.height > 0 ==> dy <= rect.height,
                rect.height <= 0 ==> dy == 0,
                rect_coords_fit(*rect),
                inky.wf(),
                painted(
                    start,
                    inky.pixels(),
                    |x: int, y: int| rect.x <= x < rect.x + rect.width && rect.y <= y < rect.y + dy,
                    color,
                ),
            decreases rect.height - dy,
        {
            let mut dx: i32 = 0;
            while dx < rect.width
                invariant
                    0 <= dx,
                    rect.width > 0 ==> dx <= rect.width,
                    rect.width <= 0 ==> dx == 0,
                    0 <= dy < rect.height,
                    rect_coords_fit(*rect),
                    inky.wf(),
                    painted(
                        start,
                        inky.pixels(),
                        |x: int, y: int|
                            (rect.x <= x < rect.x + rect.width && rect.y <= y < rect.y + dy) || (
                            y == rect.y + dy && rect.x <= x < rect.x + dx),
                        color,
                    ),
                decreases rect.width - dx,
            {
                let ghost before = inky.pixels();
                inky.set(rect.x + dx, rect.y + dy, color);
                proof {
                    let px = rect.x + dx;
                    let py = rect.y + dy;
                    lemma_painted_union(
                        start,
                        before,
                        inky.pixels(),
                        |x: int, y: int|
                            (rect.x <= x < rect.x + rect.width && rect.y <= y < rect.y + dy) || (
                            y == rect.y + dy && rect.x <= x < rect.x + dx),
                        |x: int, y: int| x == px && y == py,
                        color,
                    );
                    lemma_painted_same_region(
                        start,
                        inky.pixels(),
                        |x: int, y: int|
                            ((rect.x <= x < rect.x + rect.width && rect.y <= y < rect.y + dy) || (
                            y == rect.y + dy && rect.x <= x < rect.x + dx)) || (x == px && y == py),
                        |x: int, y: int|
                            (rect.x <= x < rect.x + rect.width && rect.y <= y < rect.y + dy) || (
                            y == rect.y + dy && rect.x <= x < rect.x + dx + 1),
                        color,
                    );
                }
                dx += 1;
            }
            proof {
                lemma_painted_same_region(
                    start,
                    inky.pixels(),
                    |x: int, y: int|
                        (rect.x <= x < rect.x + rect.width && rect.y <= y < rect.y + dy) || (y
                            == rect.y + dy && rect.x <= x < rect.x + dx),
                    |x: int, y: int| rect.x <= x < rect.x + rect.width && rect.y <= y < rect.y + dy + 1,
                    color,
                );
            }
            dy += 1;
        }
        proof {
            lemma_painted_same_region(
                start,
                inky.pixels(),
                |x: int, y: int| rect.x <= x < rect.x + rect.width && rect.y <= y < rect.y + dy,
                |x: int, y: int| rect.contains(x, y),
                color,
            );
        }
    }

    /// Sets every pixel of `rect` that lies on a row with an even `y` and has `x + y` a
    /// multiple of four to `color`: a dithered fill.
    pub fn dither_rect<P: Panel>(&self, inky: &mut P, rect: &Rect, color: Color)
        requires
            old(inky).wf(),
            rect_coords_fit(*rect),
            rect.width > 0 && rect.height > 0 ==> fits_i32(rect.x + rect.y) && fits_i32(
                rect.x + rect.width - 1 + rect.y + rect.height - 1,
            ),
        ensures
            final(inky).wf(),
            painted(old(inky).pixels(), final(inky).pixels(), |x: int, y: int| dither_region(*rect, x, y), color),
    {
        let ghost start = inky.pixels();
        let mut dy: i32 = 0;
        while dy < rect.height
            invariant
                0 <= dy,
                rect.height > 0 ==> dy <= rect.height,
                rect.height <= 0 ==> dy == 0,
                rect_coords_fit(*rect),
                rect.width > 0 && rect.height > 0 ==> fits_i32(rect.x + rect.y) && fits_i32(
                    rect.x + rect.width - 1 + rect.y + rect.height - 1,
                ),
                inky.wf(),
                painted(
                    start,
                    inky.pixels(),
                    |x: int, y: int| dither_region(*rect, x, y) && y < rect.y + dy,
                    color,
                ),
            decreases rect.height - dy,
        {
            let mut dx: i32 = 0;
            while dx < rect.width
                invariant
                    0 <= dx,
                    rect.width > 0 ==> dx <= rect.width,
                    rect.width <= 0 ==> dx == 0,
                    0 <= dy < rect.height,
                    rect_coords_fit(*rect),
                    rect.width > 0 && rect.height > 0 ==> fits_i32(rect.x + rect.y) && fits_i32(
                        rect.x + rect.width - 1 + rect.y + rect.height - 1,
                    ),
                    inky.wf(),
                    painted(
                        start,
                        inky.pixels(),
                        |x: int, y: int|
                            (dither_region(*rect, x, y) && y < rect.y + dy) || (dither_region(
                                *rect,
                                x,
                                y,
                            ) && y == rect.y + dy && x < rect.x + dx),
                        color,
                    ),
                decreases rect.width - dx,
            {
                let px = rect.x + dx;
                let py = rect.y + dy;
                let ghost before = inky.pixels();
                if py % 2 == 0 && (px + py) % 4 == 0 {
                    inky.set(px, py, color);
                    proof {
                        lemma_painted_union(
                            start,
                            before,
                            inky.pixels(),
                            |x: int, y: int|
                                (dither_region(*rect, x, y) && y < rect.y + dy) || (dither_region(
                                    *rect,
                                    x,
                                    y,
                                ) && y == rect.y + dy && x < rect.x + dx),
                            |x: int, y: int| x == px && y == py,
                            color,
                        );
                        lemma_painted_same_region(
                            start,
                            inky.pixels(),
                            |x: int, y: int|
                                ((dither_region(*rect, x, y) && y < rect.y + dy) || (dither_region(
                                    *rect,
                                    x,
                                    y,
                                ) && y == rect.y + dy && x < rect.x + dx)) || (x == px && y == py),
                            |x: int, y: int|
                                (dither_region(*rect, x, y) && y < rect.y + dy) || (dither_region(
                                    *rect,
                                    x,
                                    y,
                                ) && y == rect.y + dy && x < rect.x + dx + 1),
                            color,
                        );
                    }
                } else {
                    proof {
                        lemma_painted_same_region(
                            start,
                            inky.pixels(),
                            |x: int, y: int|
                                (dither_region(*rect, x, y) && y < rect.y + dy) || (dither_region(
                                    *rect,
                                    x,
                                    y,
                                ) && y == rect.y + dy && x < rect.x + dx),
                            |x: int, y: int|
                                (dither_region(*rect, x, y) && y < rect.y + dy) || (dither_region(
                                    *rect,
                                    x,
                                    y,
                                ) && y == rect.y + dy && x < rect.x + dx + 1),
                            color,
                        );
                    }
                }
                dx += 1;
            }
            proof {
                lemma_painted_same_region(
                    start,
                    inky.pixels(),
                    |x: int, y: int|
                        (dither_region(*rect, x, y) && y < rect.y + dy) || (dither_region(
                            *rect,
                            x,
                            y,
                        ) && y == rect.y + dy && x < rect.x + dx),
                    |x: int, y: int| dither_region(*rect, x, y) && y < rect.y + dy + 1,
                    color,
                );
            }
            dy += 1;
        }
        proof {
            lemma_painted_same_region(
                start,
                inky.pixels(),
                |x: int, y: int| dither_region(*rect, x, y) && y < rect.y + dy,
                |x: int, y: int| dither_region(*rect, x, y),
                color,
            );
        }
    }

    /// Draws the outline of `rect` as four bands `border` pixels thick: top, left, right and
    /// bottom, the left and right bands running between the top and bottom ones.
    pub fn draw_box<P: Panel>(&self, inky: &mut P, rect: &Rect, border: i32, color: Color)
        requires
            old(inky).wf(),
            box_coords_fit(*rect, border),
        ensures
            final(inky).wf(),
            painted(old(inky).pixels(), final(inky).pixels(), |x: int, y: int| box_region(*rect, border, x, y), color),
    {
        let ghost p0 = inky.pixels();
        let ghost sides = box_sides(*rect, border);
        let top = Rect { x: rect.x, y: rect.y, width: rect.width, height: border };
        assert(top == sides[0]);
        self.draw_rect(inky, &top, color);
        let ghost p1 = inky.pixels();
        let left = Rect {
            x: rect.x,
            y: rect.y + border,
            width: border,
            height: rect.height - 2 * border,
        };
        assert(left == sides[1]);
        self.draw_rect(inky, &left, color);
        let ghost p2 = inky.pixels();
        let right = Rect {
            x: rect.x + rect.width - border,
            y: rect.y + border,
            width: border,
            height: rect.height - 2 * border,
        };
        assert(right == sides[2]);
        self.draw_rect(inky, &right, color);
        let ghost p3 = inky.pixels();
        let bottom = Rect {
            x: rect.x,
            y: rect.y + rect.height - border,
            width: rect.width,
            height: border,
        };
        assert(bottom == sides[3]);
        self.draw_rect(inky, &bottom, color);
        proof {
            let r0 = |x: int, y: int| sides[0].contains(x, y);
            let r1 = |x: int, y: int| sides[1].contains(x, y);
            let r2 = |x: int, y: int| sides[2].contains(x, y);
            let r3 = |x: int, y: int| sides[3].contains(x, y);
            lemma_painted_union(p0, p1, p2, r0, r1, color);
            let r01 = |x: int, y: int| r0(x, y) || r1(x, y);
            lemma_painted_union(p0, p2, p3, r01, r2, color);
            let r012 = |x: int, y: int| r01(x, y) || r2(x, y);
            lemma_painted_union(p0, p3, inky.pixels(), r012, r3, color);
            assert forall|x: int, y: int| on_screen(x, y) implies (r012(x, y) || r3(x, y)) <==> box_region(
                *rect,
                border,
                x,
                y,
            ) by {
                if box_region(*rect, border, x, y) {
                    let i = choose|i: int| 0 <= i < 4 && #[trigger] box_sides(*rect, border)[i].contains(x, y);
                    assert(i == 0 || i == 1 || i == 2 || i == 3);
                }
                if r0(x, y) {
                    assert(box_sides(*rect, border)[0].contains(x, y));
                }
                if r1(x, y) {
                    assert(box_sides(*rect, border)[1].contains(x, y));
                }
                if r2(x, y) {
                    assert(box_sides(*rect, border)[2].contains(x, y));
                }
                if r3(x, y) {
                    assert(box_sides(*rect, border)[3].contains(x, y));
                }
            }
            lemma_painted_same_region(
                p0,
                inky.pixels(),
                |x: int, y: int| r012(x, y) || r3(x, y),
                |x: int, y: int| box_region(*rect, border, x, y),
                color,
            );
        }
    }

    /// Draws the line from `(x0, y0)` to `(x1, y1)` with Bresenham's algorithm: the pixels the
    /// walk of `line_state` visits, which include both end points.
    #[verifier::spinoff_prover]
    pub fn draw_line<P: Panel>(
        &self,
        inky: &mut P,
        mut x0: i32,
        mut y0: i32,
        x1: i32,
        y1: i32,
        color: Color,
    )
        requires
            old(inky).wf(),
            fits_i32(4 * abs(x1 - x0)),
            fits_i32(4 * abs(y1 - y0)),
        ensures
            final(inky).wf(),
            painted(old(inky).pixels(), final(inky).pixels(), |x: int, y: int| line_region(x0 as int, y0 as int, x1 as int, y1 as int, x, y), color),
            line_region(x0 as int, y0 as int, x1 as int, y1 as int, x0 as int, y0 as int),
            line_region(x0 as int, y0 as int, x1 as int, y1 as int, x1 as int, y1 as int),
    {
        let ghost ax = x0 as int;
        let ghost ay = y0 as int;
        let ghost start = inky.pixels();
        let dx: i32 = if x1 - x0 < 0 { -(x1 - x0) } else { x1 - x0 };
        let sx: i32 = if x0 < x1 { 1 } else { -1 };
        let dy: i32 = -(if y1 - y0 < 0 { -(y1 - y0) } else { y1 - y0 });
        let sy: i32 = if y0 < y1 { 1 } else { -1 };
        let mut err: i32 = dx + dy;
        let mut e2: i32;
        let ghost mut k: nat = 0;
        let ghost mut a: int = 0;
        let ghost mut b: int = 0;
        assert(line_state(ax, ay, x1 as int, y1 as int, 0) == (ax, ay, dx + dy));
        assert((0int + 1) * (dx as int) == dx as int);
        assert((0int + 1) * (dy as int) == dy as int);
        assert(line_walk_inv(ax, ay, x1 as int, y1 as int, 0, 0, 0));
        loop
            invariant_except_break
                inky.wf(),
                dx == abs(x1 - ax),
                dy == -abs(y1 - ay),
                sx == (if ax < x1 { 1int } else { -1int }),
                sy == (if ay < y1 { 1int } else { -1int }),
                fits_i32(4 * abs(x1 - ax)),
                fits_i32(4 * abs(y1 - ay)),
                line_walk_inv(ax, ay, x1 as int, y1 as int, k, a, b),
                line_state(ax, ay, x1 as int, y1 as int, k) == (x0 as int, y0 as int, err as int),
                painted(
                    start,
                    inky.pixels(),
                    |x: int, y: int|
                        exists|j: nat|
                            j < k && (#[trigger] line_state(ax, ay, x1 as int, y1 as int, j)).0 == x
                                && line_state(ax, ay, x1 as int, y1 as int, j).1 == y,
                    color,
                ),
            ensures
                inky.wf(),
                painted(
                    start,
                    inky.pixels(),
                    |x: int, y: int| line_region(ax, ay, x1 as int, y1 as int, x, y),
                    color,
                ),
                line_region(ax, ay, x1 as int, y1 as int, x1 as int, y1 as int),
            decreases (dx - a) + (-dy - b),
        {
            let ghost before = inky.pixels();
            inky.set(x0, y0, color);
            proof {
                let rk = |x: int, y: int|
                    exists|j: nat|
                        j < k && (#[trigger] line_state(ax, ay, x1 as int, y1 as int, j)).0 == x
                            && line_state(ax, ay, x1 as int, y1 as int, j).1 == y;
                lemma_painted_union(
                    start,
                    before,
                    inky.pixels(),
                    rk,
                    |x: int, y: int| x == x0 && y == y0,
                    color,
                );
                let rk1 = |x: int, y: int|
                    exists|j: nat|
                        j < k + 1 && (#[trigger] line_state(ax, ay, x1 as int, y1 as int, j)).0
                            == x && line_state(ax, ay, x1 as int, y1 as int, j).1 == y;
                assert forall|x: int, y: int| on_screen(x, y) implies (rk(x, y) || (x == x0 && y
                    == y0)) <==> rk1(x, y) by {
                    if rk1(x, y) {
                        let j = choose|j: nat|
                            j < k + 1 && (#[trigger] line_state(ax, ay, x1 as int, y1 as int, j)).0
                                == x && line_state(ax, ay, x1 as int, y1 as int, j).1 == y;
                        if j < k {
                            assert(rk(x, y));
                        }
                    }
                    if x == x0 && y == y0 {
                        assert(line_state(ax, ay, x1 as int, y1 as int, k).0 == x);
                    }
                    if rk(x, y) {
                        let j = choose|j: nat|
                            j < k && (#[trigger] line_state(ax, ay, x1 as int, y1 as int, j)).0 == x
                                && line_state(ax, ay, x1 as int, y1 as int, j).1 == y;
                        assert(line_state(ax, ay, x1 as int, y1 as int, j).0 == x);
                    }
                }
                lemma_painted_same_region(
                    start,
                    inky.pixels(),
                    |x: int, y: int| rk(x, y) || (x == x0 && y == y0),
                    rk1,
                    color,
                );
            }
            if x0 == x1 && y0 == y1 {
                proof {
                    let len = line_length(ax, ay, x1 as int, y1 as int);
                    assert(k <= len);
                    assert forall|x: int, y: int| on_screen(x, y) implies (exists|j: nat|
                        j < k + 1 && (#[trigger] line_state(ax, ay, x1 as int, y1 as int, j)).0 == x
                            && line_state(ax, ay, x1 as int, y1 as int, j).1 == y) <==> line_region(
                        ax,
                        ay,
                        x1 as int,
                        y1 as int,
                        x,
                        y,
                    ) by {
                        if line_region(ax, ay, x1 as int, y1 as int, x, y) {
                            let j = choose|j: nat|
                                j <= len && (#[trigger] line_state(ax, ay, x1 as int, y1 as int, j)).0
                                    == x && line_state(ax, ay, x1 as int, y1 as int, j).1 == y;
                            if j > k {
                                lemma_line_state_stays(ax, ay, x1 as int, y1 as int, k, j);
                            }
                        }
                    }
                    lemma_painted_same_region(
                        start,
                        inky.pixels(),
                        |x: int, y: int|
                            exists|j: nat|
                                j < k + 1 && (#[trigger] line_state(ax, ay, x1 as int, y1 as int, j)).0
                                    == x && line_state(ax, ay, x1 as int, y1 as int, j).1 == y,
                        |x: int, y: int| line_region(ax, ay, x1 as int, y1 as int, x, y),
                        color,
                    );
                    assert(line_state(ax, ay, x1 as int, y1 as int, k).0 == x1);
                }
                break;
            }
            proof {
                lemma_line_walk_step(ax, ay, x1 as int, y1 as int, k, a, b);
            }
            e2 = 2 * err;
            if e2 >= dy {
                err += dy;
                x0 += sx;
            }
            if e2 <= dx {
                err += dx;
                y0 += sy;
            }
            proof {
                if 2 * line_state(ax, ay, x1 as int, y1 as int, k).2 >= dy {
                    a = a + 1;
                }
                if 2 * line_state(ax, ay, x1 as int, y1 as int, k).2 <= dx {
                    b = b + 1;
                }
                k = k + 1;
            }
        }
        proof {
            assert(line_state(ax, ay, x1 as int, y1 as int, 0).0 == ax);
        }
    }

    /// Sets the eight pixels `(xs[j], ys[j])`.
    fn plot_points<P: Panel>(&self, inky: &mut P, xs: [i32; 8], ys: [i32; 8], color: Color)
        requires
            old(inky).wf(),
        ensures
            final(inky).wf(),
            painted(
                old(inky).pixels(),
                final(inky).pixels(),
                |x: int, y: int| exists|j: int| 0 <= j < 8 && #[trigger] xs[j] == x && ys[j] == y,
                color,
            ),
    {
        let ghost p0 = inky.pixels();
        proof {
            lemma_painted_nothing(p0, color);
        }
        let mut i: usize = 0;
        while i < 8
            invariant
                i <= 8,
                inky.wf(),
                painted(
                    p0,
                    inky.pixels(),
                    |x: int, y: int| exists|j: int| 0 <= j < i && #[trigger] xs[j] == x && ys[j] == y,
                    color,
                ),
            decreases 8 - i,
        {
            let ghost before = inky.pixels();
            inky.set(xs[i], ys[i], color);
            proof {
                let r = |x: int, y: int| exists|j: int| 0 <= j < i && #[trigger] xs[j] == x && ys[j] == y;
                let px = xs[i as int] as int;
                let py = ys[i as int] as int;
                lemma_painted_union(p0, before, inky.pixels(), r, |x: int, y: int| x == px && y == py, color);
                let r2 = |x: int, y: int| exists|j: int| 0 <= j < i + 1 && #[trigger] xs[j] == x && ys[j] == y;
                assert forall|x: int, y: int| on_screen(x, y) implies (r(x, y) || (x == px && y
                    == py)) <==> r2(x, y) by {
                    if r2(x, y) {
                        let j = choose|j: int| 0 <= j < i + 1 && #[trigger] xs[j] == x && ys[j] == y;
                        if j < i {
                            assert(r(x, y));
                        }
                    }
                    if x == px && y == py {
                        assert(xs[i as int] == x && ys[i as int] == y);
                    }
                }
                lemma_painted_same_region(
                    p0,
                    inky.pixels(),
                    |x: int, y: int| r(x, y) || (x == px && y == py),
                    r2,
                    color,
                );
            }
            i += 1;
        }
    }

    /// Sets the eight mirror images of the offset `(cx, cy)` around `(center_x, center_y)`.
    fn plot_octants<P: Panel>(
        &self,
        inky: &mut P,
        center_x: i32,
        center_y: i32,
        cx: i32,
        cy: i32,
        color: Color,
    )
        requires
            old(inky).wf(),
            0 <= cy <= cx,
            fits_i32(center_x - cx),
            fits_i32(center_x + cx),
            fits_i32(center_y - cx),
            fits_i32(center_y + cx),
        ensures
            final(inky).wf(),
            painted(
                old(inky).pixels(),
                final(inky).pixels(),
                |x: int, y: int| octant_points(center_x as int, center_y as int, cx as int, cy as int, x, y),
                color,
            ),
    {
        let ghost p0 = inky.pixels();
        let xs: [i32; 8] = [
            center_x + cx,
            center_x + cy,
            center_x + cx,
            center_x + cy,
            center_x - cx,
            center_x - cy,
            center_x - cx,
            center_x - cy,
        ];
        let ys: [i32; 8] = [
            center_y + cy,
            center_y + cx,
            center_y - cy,
            center_y - cx,
            center_y + cy,
            center_y + cx,
            center_y - cy,
            center_y - cx,
        ];
        self.plot_points(inky, xs, ys, color);
        proof {
            let ccx = center_x as int;
            let ccy = center_y as int;
            assert forall|x: int, y: int| on_screen(x, y) implies (exists|j: int|
                0 <= j < 8 && #[trigger] xs[j] == x && ys[j] == y) <==> octant_points(
                ccx,
                ccy,
                cx as int,
                cy as int,
                x,
                y,
            ) by {
                if octant_points(ccx, ccy, cx as int, cy as int, x, y) {
                    if x - ccx == cx && y - ccy == cy {
                        assert(xs[0] == x && ys[0] == y);
                    } else if x - ccx == cy && y - ccy == cx {
                        assert(xs[1] == x && ys[1] == y);
                    } else if x - ccx == cx && y - ccy == -cy {
                        assert(xs[2] == x && ys[2] == y);
                    } else if x - ccx == cy && y - ccy == -cx {
                        assert(xs[3] == x && ys[3] == y);
                    } else if x - ccx == -cx && y - ccy == cy {
                        assert(xs[4] == x && ys[4] == y);
                    } else if x - ccx == -cy && y - ccy == cx {
                        assert(xs[5] == x && ys[5] == y);
                    } else if x - ccx == -cx && y - ccy == -cy {
                        assert(xs[6] == x && ys[6] == y);
                    } else {
                        assert(xs[7] == x && ys[7] == y);
                    }
                }
            }
            lemma_painted_same_region(
                p0,
                inky.pixels(),
                |x: int, y: int| exists|j: int| 0 <= j < 8 && #[trigger] xs[j] == x && ys[j] == y,
                |x: int, y: int| octant_points(ccx, ccy, cx as int, cy as int, x, y),
                color,
            );
        }
    }

    /// Draws the outline of the circle of `radius` around `(center_x, center_y)` with the
    /// midpoint circle walk of `circle_state`; a negative radius draws nothing.
    #[verifier::spinoff_prover]
    pub fn draw_circle<P: Panel>(
        &self,
        inky: &mut P,
        center_x: i32,
        center_y: i32,
        radius: i32,
        color: Color,
    )
        requires
            old(inky).wf(),
            radius >= 0 ==> fits_i32(center_x - radius) && fits_i32(center_x + radius) && fits_i32(
                center_y - radius,
            ) && fits_i32(center_y + radius) && fits_i32(2 * radius + 2),
        ensures
            final(inky).wf(),
            painted(
                old(inky).pixels(),
                final(inky).pixels(),
                |x: int, y: int| circle_region(center_x as int, center_y as int, radius as int, x, y),
                color,
            ),
    {
        let ghost start = inky.pixels();
        let ghost r = radius as int;
        let ghost ccx = center_x as int;
        let ghost ccy = center_y as int;
        let mut t1: i32 = radius / 16;
        let mut cx: i32 = radius;
        let mut cy: i32 = 0;
        let ghost mut k: nat = 0;
        assert(circle_state(r, 0) == (t1 as int, cx as int, cy as int));
        while cx >= cy
            invariant
                inky.wf(),
                r == radius,
                ccx == center_x,
                ccy == center_y,
                radius >= 0 ==> fits_i32(center_x - radius) && fits_i32(center_x + radius)
                    && fits_i32(center_y - radius) && fits_i32(center_y + radius) && fits_i32(
                    2 * radius + 2,
                ),
                circle_state(r, k) == (t1 as int, cx as int, cy as int),
                cx <= radius,
                cy >= 0,
                forall|j: nat| j < k ==> circle_running(r, j),
                painted(
                    start,
                    inky.pixels(),
                    |x: int, y: int|
                        exists|j: nat|
                            j < k && circle_running(r, j) && octant_points(
                                ccx,
                                ccy,
                                (#[trigger] circle_state(r, j)).1,
                                circle_state(r, j).2,
                                x,
                                y,
                            ),
                    color,
                ),
            decreases radius - cy + 1,
        {
            proof {
                lemma_circle_state_facts(r, k);
            }
            let ghost before = inky.pixels();
            self.plot_octants(inky, center_x, center_y, cx, cy, color);
            proof {
                let rk = |x: int, y: int|
                    exists|j: nat|
                        j < k && circle_running(r, j) && octant_points(
                            ccx,
                            ccy,
                            (#[trigger] circle_state(r, j)).1,
                            circle_state(r, j).2,
                            x,
                            y,
                        );
                let here = |x: int, y: int| octant_points(ccx, ccy, cx as int, cy as int, x, y);
                lemma_painted_union(start, before, inky.pixels(), rk, here, color);
                let rk1 = |x: int, y: int|
                    exists|j: nat|
                        j < k + 1 && circle_running(r, j) && octant_points(
                            ccx,
                            ccy,
                            (#[trigger] circle_state(r, j)).1,
                            circle_state(r, j).2,
                            x,
                            y,
                        );
                assert forall|x: int, y: int| on_screen(x, y) implies (rk(x, y) || here(x, y))
                    <==> rk1(x, y) by {
                    if rk1(x, y) {
                        let j = choose|j: nat|
                            j < k + 1 && circle_running(r, j) && octant_points(
                                ccx,
                                ccy,
                                (#[trigger] circle_state(r, j)).1,
                                circle_state(r, j).2,
                                x,
                                y,
                            );
                        if j < k {
                            assert(rk(x, y));
                        }
                    }
                    if here(x, y) {
                        assert(circle_state(r, k).1 == cx);
                    }
                }
                lemma_painted_same_region(
                    start,
                    inky.pixels(),
                    |x: int, y: int| rk(x, y) || here(x, y),
                    rk1,
                    color,
                );
            }
            cy += 1;
            t1 += cy;
            let t2: i32 = t1 - cx;
            if t2 >= 0 {
                t1 = t2;
                cx -= 1;
            }
            proof {
                k = k + 1;
            }
        }
        proof {
            assert forall|x: int, y: int| on_screen(x, y) implies (exists|j: nat|
                j < k && circle_running(r, j) && octant_points(
                    ccx,
                    ccy,
                    (#[trigger] circle_state(r, j)).1,
                    circle_state(r, j).2,
                    x,
                    y,
                )) <==> circle_region(ccx, ccy, r, x, y) by {
                if circle_region(ccx, ccy, r, x, y) {
                    let j = choose|j: nat|
                        circle_running(r, j) && octant_points(
                            ccx,
                            ccy,
                            (#[trigger] circle_state(r, j)).1,
                            circle_state(r, j).2,
                            x,
                            y,
                        );
                    if j >= k {
                        lemma_circle_running_prefix(r, k, j);
                    }
                }
            }
            lemma_painted_same_region(
                start,
                inky.pixels(),
                |x: int, y: int|
                    exists|j: nat|
                        j < k && circle_running(r, j) && octant_points(
                            ccx,
                            ccy,
                            (#[trigger] circle_state(r, j)).1,
                            circle_state(r, j).2,
                            x,
                            y,
                        ),
                |x: int, y: int| circle_region(ccx, ccy, r, x, y),
                color,
            );
        }
    }

    /// Sets the pixels of row `row` in the columns `from .. to`.
    fn draw_span<P: Panel>(&self, inky: &mut P, row: i32, from: i32, to: i32, color: Color)
        requires
            old(inky).wf(),
        ensures
            final(inky).wf(),
            painted(
                old(inky).pixels(),
                final(inky).pixels(),
                |x: int, y: int| span(row as int, from as int, to as int, x, y),
                color,
            ),
    {
        let ghost p0 = inky.pixels();
        let mut qx = from;
        while qx < to
            invariant
                inky.wf(),
                from < to ==> from <= qx <= to,
                from >= to ==> qx == from,
                painted(p0, inky.pixels(), |x: int, y: int| y == row && from <= x < qx, color),
            decreases to - qx,
        {
            let ghost before = inky.pixels();
            inky.set(qx, row, color);
            proof {
                lemma_painted_union(
                    p0,
                    before,
                    inky.pixels(),
                    |x: int, y: int| y == row && from <= x < qx,
                    |x: int, y: int| x == qx && y == row,
                    color,
                );
                lemma_painted_same_region(
                    p0,
                    inky.pixels(),
                    |x: int, y: int| (y == row && from <= x < qx) || (x == qx && y == row),
                    |x: int, y: int| y == row && from <= x < qx + 1,
                    color,
                );
            }
            qx += 1;
        }
        proof {
            lemma_painted_same_region(
                p0,
                inky.pixels(),
                |x: int, y: int| y == row && from <= x < qx,
                |x: int, y: int| span(row as int, from as int, to as int, x, y),
                color,
            );
        }
    }

    /// Fills the four rows of a rounded rectangle at corner walk offset `(cx, cy)`.
    fn fill_rounded_spans<P: Panel>(
        &self,
        inky: &mut P,
        rect: &Rect,
        radius: i32,
        cx: i32,
        cy: i32,
        color: Color,
    )
        requires
            old(inky).wf(),
            0 <= cy <= cx <= radius,
            rounded_arc_coords_fit(*rect, radius as int),
        ensures
            final(inky).wf(),
            painted(
                old(inky).pixels(),
                final(inky).pixels(),
                |x: int, y: int| rounded_spans(*rect, radius as int, cx as int, cy as int, x, y),
                color,
            ),
    {
        let ghost p0 = inky.pixels();
        let ghost r = radius as int;
        let ghost left = rect.x + r;
        let ghost right = rect.x + rect.width - r;
        let ghost bottom = rect.y + rect.height - r - 1;
        let ghost top = rect.y + r;
        let qy = rect.y + rect.height + cy - radius - 1;
        self.draw_span(inky, qy, rect.x - cx + radius, rect.x + rect.width + cx - radius, color);
        let ghost p1 = inky.pixels();
        let qy = rect.y + rect.height + cx - radius - 1;
        self.draw_span(inky, qy, rect.x - cy + radius, rect.x + rect.width + cy - radius, color);
        let ghost p2 = inky.pixels();
        let qy = rect.y - cy + radius;
        self.draw_span(inky, qy, rect.x - cx + radius, rect.x + rect.width + cx - radius, color);
        let ghost p3 = inky.pixels();
        let qy = rect.y - cx + radius;
        self.draw_span(inky, qy, rect.x - cy + radius, rect.x + rect.width + cy - radius, color);
        proof {
            let s1 = |x: int, y: int| span(bottom + cy, left - cx, right + cx, x, y);
            let s2 = |x: int, y: int| span(bottom + cx, left - cy, right + cy, x, y);
            let s3 = |x: int, y: int| span(top - cy, left - cx, right + cx, x, y);
            let s4 = |x: int, y: int| span(top - cx, left - cy, right + cy, x, y);
            lemma_painted_same_region(p0, p1, |x: int, y: int| span(rect.y + rect.height + cy - radius - 1, rect.x - cx + radius, rect.x + rect.width + cx - radius, x, y), s1, color);
            lemma_painted_same_region(p1, p2, |x: int, y: int| span(rect.y + rect.height + cx - radius - 1, rect.x - cy + radius, rect.x + rect.width + cy - radius, x, y), s2, color);
            lemma_painted_same_region(p2, p3, |x: int, y: int| span(rect.y - cy + radius, rect.x - cx + radius, rect.x + rect.width + cx - radius, x, y), s3, color);
            lemma_painted_same_region(p3, inky.pixels(), |x: int, y: int| span(rect.y - cx + radius, rect.x - cy + radius, rect.x + rect.width + cy - radius, x, y), s4, color);
            lemma_painted_union(p0, p1, p2, s1, s2, color);
            let s12 = |x: int, y: int| s1(x, y) || s2(x, y);
            lemma_painted_union(p0, p2, p3, s12, s3, color);
            let s123 = |x: int, y: int| s12(x, y) || s3(x, y);
            lemma_painted_union(p0, p3, inky.pixels(), s123, s4, color);
            lemma_painted_same_region(
                p0,
                inky.pixels(),
                |x: int, y: int| s123(x, y) || s4(x, y),
                |x: int, y: int| rounded_spans(*rect, r, cx as int, cy as int, x, y),
                color,
            );
        }
    }

    /// Fills `rect` with its corners rounded by `radius`: the rows the midpoint circle walk of
    /// `circle_state` gives near the top and bottom edges, then the three bands of
    /// `rounded_rect_bands` between them.
    #[verifier::spinoff_prover]
    pub fn draw_rounded_rect<P: Panel>(&self, inky: &mut P, rect: &Rect, radius: i32, color: Color)
        requires
            old(inky).wf(),
            rounded_arc_coords_fit(*rect, radius as int),
            rounded_bands_coords_fit(*rect, radius as int),
        ensures
            final(inky).wf(),
            painted(
                old(inky).pixels(),
                final(inky).pixels(),
                |x: int, y: int| rounded_rect_region(*rect, radius as int, x, y),
                color,
            ),
    {
        let ghost start = inky.pixels();
        let ghost r = radius as int;
        let mut t1: i32 = radius / 16;
        let mut cx: i32 = radius;
        let mut cy: i32 = 0;
        let ghost mut k: nat = 0;
        assert(circle_state(r, 0) == (t1 as int, cx as int, cy as int));
        while cx >= cy
            invariant
                inky.wf(),
                r == radius,
                rounded_arc_coords_fit(*rect, r),
                circle_state(r, k) == (t1 as int, cx as int, cy as int),
                cx <= radius,
                cy >= 0,
                forall|j: nat| j < k ==> circle_running(r, j),
                painted(
                    start,
                    inky.pixels(),
                    |x: int, y: int|
                        exists|j: nat|
                            j < k && circle_running(r, j) && rounded_spans(
                                *rect,
                                r,
                                (#[trigger] circle_state(r, j)).1,
                                circle_state(r, j).2,
                                x,
                                y,
                            ),
                    color,
                ),
            decreases radius - cy + 1,
        {
            proof {
                lemma_circle_state_facts(r, k);
            }
            let ghost before = inky.pixels();
            self.fill_rounded_spans(inky, rect, radius, cx, cy, color);
            proof {
                let rk = |x: int, y: int|
                    exists|j: nat|
                        j < k && circle_running(r, j) && rounded_spans(
                            *rect,
                            r,
                            (#[trigger] circle_state(r, j)).1,
                            circle_state(r, j).2,
                            x,
                            y,
                        );
                let here = |x: int, y: int| rounded_spans(*rect, r, cx as int, cy as int, x, y);
                lemma_painted_union(start, before, inky.pixels(), rk, here, color);
                let rk1 = |x: int, y: int|
                    exists|j: nat|
                        j < k + 1 && circle_running(r, j) && rounded_spans(
                            *rect,
                            r,
                            (#[trigger] circle_state(r, j)).1,
                            circle_state(r, j).2,
                            x,
                            y,
                        );
                assert forall|x: int, y: int| on_screen(x, y) implies (rk(x, y) || here(x, y))
                    <==> rk1(x, y) by {
                    if rk1(x, y) {
                        let j = choose|j: nat|
                            j < k + 1 && circle_running(r, j) && rounded_spans(
                                *rect,
                                r,
                                (#[trigger] circle_state(r, j)).1,
                                circle_state(r, j).2,
                                x,
                                y,
                            );
                        if j < k {
                            assert(rk(x, y));
                        }
                    }
                    if here(x, y) {
                        assert(circle_state(r, k).1 == cx);
                    }
                }
                lemma_painted_same_region(
                    start,
                    inky.pixels(),
                    |x: int, y: int| rk(x, y) || here(x, y),
                    rk1,
                    color,
                );
            }
            cy += 1;
            t1 += cy;
            let t2: i32 = t1 - cx;
            if t2 >= 0 {
                t1 = t2;
                cx -= 1;
            }
            proof {
                k = k + 1;
            }
        }
        let ghost arcs = inky.pixels();
        let ghost bands = rounded_rect_bands(*rect, r);
        let band0 = Rect { x: rect.x + radius, y: rect.y, width: rect.width - radius * 2, height: radius };
        assert(band0 == bands[0]);
        self.draw_rect(inky, &band0, color);
        let ghost b1 = inky.pixels();
        let band1 = Rect {
            x: rect.x,
            y: rect.y + radius,
            width: rect.width,
            height: rect.height - 2 * radius,
        };
        assert(band1 == bands[1]);
        self.draw_rect(inky, &band1, color);
        let ghost b2 = inky.pixels();
        let band2 = Rect {
            x: rect.x + radius,
            y: rect.y + rect.height - radius,
            width: rect.width - 2 * radius,
            height: 1,
        };
        assert(band2 == bands[2]);
        self.draw_rect(inky, &band2, color);
        proof {
            let ra = |x: int, y: int|
                exists|j: nat|
                    j < k && circle_running(r, j) && rounded_spans(
                        *rect,
                        r,
                        (#[trigger] circle_state(r, j)).1,
                        circle_state(r, j).2,
                        x,
                        y,
                    );
            let q0 = |x: int, y: int| bands[0].contains(x, y);
            let q1 = |x: int, y: int| bands[1].contains(x, y);
            let q2 = |x: int, y: int| bands[2].contains(x, y);
            lemma_painted_union(start, arcs, b1, ra, q0, color);
            let ra0 = |x: int, y: int| ra(x, y) || q0(x, y);
            lemma_painted_union(start, b1, b2, ra0, q1, color);
            let ra01 = |x: int, y: int| ra0(x, y) || q1(x, y);
            lemma_painted_union(start, b2, inky.pixels(), ra01, q2, color);
            assert forall|x: int, y: int| on_screen(x, y) implies (ra01(x, y) || q2(x, y))
                <==> rounded_rect_region(*rect, r, x, y) by {
                if exists|j: nat|
                    circle_running(r, j) && rounded_spans(
                        *rect,
                        r,
                        (#[trigger] circle_state(r, j)).1,
                        circle_state(r, j).2,
                        x,
                        y,
                    ) {
                    let j = choose|j: nat|
                        circle_running(r, j) && rounded_spans(
                            *rect,
                            r,
                            (#[trigger] circle_state(r, j)).1,
                            circle_state(r, j).2,
                            x,
                            y,
                        );
                    if j >= k {
                        lemma_circle_running_prefix(r, k, j);
                    }
                    assert(ra(x, y));
                }
                if exists|i: int| 0 <= i < 3 && #[trigger] bands[i].contains(x, y) {
                    let i = choose|i: int| 0 <= i < 3 && #[trigger] bands[i].contains(x, y);
                    assert(i == 0 || i == 1 || i == 2);
                }
                if q0(x, y) {
                    assert(bands[0].contains(x, y));
                }
                if q1(x, y) {
                    assert(bands[1].contains(x, y));
                }
                if q2(x, y) {
                    assert(bands[2].contains(x, y));
                }
            }
            lemma_painted_same_region(
                start,
                inky.pixels(),
                |x: int, y: int| ra01(x, y) || q2(x, y),
                |x: int, y: int| rounded_rect_region(*rect, r, x, y),
                color,
            );
        }
    }

    /// Draws the one-pixel outline of `rect` with its corners rounded by `radius`: the corner
    /// arcs of the midpoint circle walk of `circle_state`, then the four straight sides of
    /// `rounded_box_sides`.
    #[verifier::spinoff_prover]
    pub fn draw_rounded_box<P: Panel>(&self, inky: &mut P, rect: &Rect, radius: i32, color: Color)
        requires
            old(inky).wf(),
            rounded_arc_coords_fit(*rect, radius as int),
            radius >= 0 ==> fits_i32(rect.x + rect.width - radius - 1),
            rounded_sides_coords_fit(*rect, radius as int),
        ensures
            final(inky).wf(),
            painted(
                old(inky).pixels(),
                final(inky).pixels(),
                |x: int, y: int| rounded_box_region(*rect, radius as int, x, y),
                color,
            ),
    {
        let ghost start = inky.pixels();
        let ghost r = radius as int;
        let mut t1: i32 = radius / 16;
        let mut cx: i32 = radius;
        let mut cy: i32 = 0;
        let ghost mut k: nat = 0;
        assert(circle_state(r, 0) == (t1 as int, cx as int, cy as int));
        while cx >= cy
            invariant
                inky.wf(),
                r == radius,
                rounded_arc_coords_fit(*rect, r),
                radius >= 0 ==> fits_i32(rect.x + rect.width - radius - 1),
                circle_state(r, k) == (t1 as int, cx as int, cy as int),
                cx <= radius,
                cy >= 0,
                forall|j: nat| j < k ==> circle_running(r, j),
                painted(
                    start,
                    inky.pixels(),
                    |x: int, y: int|
                        exists|j: nat, i: int|
                            j < k && circle_running(r, j) && 0 <= i < 8 && #[trigger] rounded_corner_points(
                                *rect,
                                r,
                                circle_state(r, j).1,
                                circle_state(r, j).2,
                            )[i] == (x, y),
                    color,
                ),
            decreases radius - cy + 1,
        {
            proof {
                lemma_circle_state_facts(r, k);
            }
            let ghost before = inky.pixels();
            let xs: [i32; 8] = [
                rect.x + rect.width + cx - radius - 1,
                rect.x + rect.width + cy - radius - 1,
                rect.x + rect.width + cx - radius - 1,
                rect.x + rect.width + cy - radius - 1,
                rect.x - cx + radius,
                rect.x - cy + radius,
                rect.x - cx + radius,
                rect.x - cy + radius,
            ];
            let ys: [i32; 8] = [
                rect.y + rect.height + cy - radius - 1,
                rect.y + rect.height + cx - radius - 1,
                rect.y - cy + radius,
                rect.y - cx + radius,
                rect.y + rect.height + cy - radius - 1,
                rect.y + rect.height + cx - radius - 1,
                rect.y - cy + radius,
                rect.y - cx + radius,
            ];
            self.plot_points(inky, xs, ys, color);
            proof {
                let pts = rounded_corner_points(*rect, r, cx as int, cy as int);
                assert(forall|i: int| 0 <= i < 8 ==> #[trigger] pts[i] == (xs[i] as int, ys[i] as int));
                let rk = |x: int, y: int|
                    exists|j: nat, i: int|
                        j < k && circle_running(r, j) && 0 <= i < 8 && #[trigger] rounded_corner_points(
                            *rect,
                            r,
                            circle_state(r, j).1,
                            circle_state(r, j).2,
                        )[i] == (x, y);
                let here = |x: int, y: int| exists|i: int| 0 <= i < 8 && #[trigger] xs[i] == x && ys[i] == y;
                lemma_painted_union(start, before, inky.pixels(), rk, here, color);
                let rk1 = |x: int, y: int|
                    exists|j: nat, i: int|
                        j < k + 1 && circle_running(r, j) && 0 <= i < 8 && #[trigger] rounded_corner_points(
                            *rect,
                            r,
                            circle_state(r, j).1,
                            circle_state(r, j).2,
                        )[i] == (x, y);
                assert forall|x: int, y: int| on_screen(x, y) implies (rk(x, y) || here(x, y))
                    <==> rk1(x, y) by {
                    if rk1(x, y) {
                        let (j, i) = choose|j: nat, i: int|
                            j < k + 1 && circle_running(r, j) && 0 <= i < 8 && #[trigger] rounded_corner_points(
                                *rect,
                                r,
                                circle_state(r, j).1,
                                circle_state(r, j).2,
                            )[i] == (x, y);
                        if j < k {
                            assert(rk(x, y));
                        } else {
                            assert(pts[i] == (x, y));
                            assert(xs[i] == x && ys[i] == y);
                        }
                    }
                    if here(x, y) {
                        let i = choose|i: int| 0 <= i < 8 && #[trigger] xs[i] == x && ys[i] == y;
                        assert(pts[i] == (x, y));
                        assert(rounded_corner_points(*rect, r, circle_state(r, k).1, circle_state(r, k).2)[i] == (x, y));
                    }
                }
                lemma_painted_same_region(
                    start,
                    inky.pixels(),
                    |x: int, y: int| rk(x, y) || here(x, y),
                    rk1,
                    color,
                );
            }
            cy += 1;
            t1 += cy;
            let t2: i32 = t1 - cx;
            if t2 >= 0 {
                t1 = t2;
                cx -= 1;
            }
            proof {
                k = k + 1;
            }
        }
        let ghost arcs = inky.pixels();
        let ghost sides = rounded_box_sides(*rect, r);
        let side0 = Rect { x: rect.x + radius, y: rect.y, width: rect.width - radius * 2, height: 1 };
        assert(side0 == sides[0]);
        self.draw_rect(inky, &side0, color);
        let ghost b1 = inky.pixels();
        let side1 = Rect { x: rect.x, y: rect.y + radius, width: 1, height: rect.height - 2 * radius };
        assert(side1 == sides[1]);
        self.draw_rect(inky, &side1, color);
        let ghost b2 = inky.pixels();
        let side2 = Rect {
            x: rect.x + rect.width - 1,
            y: rect.y + radius,
            width: 1,
            height: rect.height - 2 * radius,
        };
        assert(side2 == sides[2]);
        self.draw_rect(inky, &side2, color);
        let ghost b3 = inky.pixels();
        let side3 = Rect {
            x: rect.x + radius,
            y: rect.y + rect.height - 1,
            width: rect.width - 2 * radius,
            height: 1,
        };
        assert(side3 == sides[3]);
        self.draw_rect(inky, &side3, color);
        proof {
            let ra = |x: int, y: int|
                exists|j: nat, i: int|
                    j < k && circle_running(r, j) && 0 <= i < 8 && #[trigger] rounded_corner_points(
                        *rect,
                        r,
                        circle_state(r, j).1,
                        circle_state(r, j).2,
                    )[i] == (x, y);
            let q0 = |x: int, y: int| sides[0].contains(x, y);
            let q1 = |x: int, y: int| sides[1].contains(x, y);
            let q2 = |x: int, y: int| sides[2].contains(x, y);
            let q3 = |x: int, y: int| sides[3].contains(x, y);
            lemma_painted_union(start, arcs, b1, ra, q0, color);
            let ra0 = |x: int, y: int| ra(x, y) || q0(x, y);
            lemma_painted_union(start, b1, b2, ra0, q1, color);
            let ra01 = |x: int, y: int| ra0(x, y) || q1(x, y);
            lemma_painted_union(start, b2, b3, ra01, q2, color);
            let ra012 = |x: int, y: int| ra01(x, y) || q2(x, y);
            lemma_painted_union(start, b3, inky.pixels(), ra012, q3, color);
            assert forall|x: int, y: int| on_screen(x, y) implies (ra012(x, y) || q3(x, y))
                <==> rounded_box_region(*rect, r, x, y) by {
                if exists|j: nat, i: int|
                    circle_running(r, j) && 0 <= i < 8 && #[trigger] rounded_corner_points(
                        *rect,
                        r,
                        circle_state(r, j).1,
                        circle_state(r, j).2,
                    )[i] == (x, y) {
                    let (j, i) = choose|j: nat, i: int|
                        circle_running(r, j) && 0 <= i < 8 && #[trigger] rounded_corner_points(
                            *rect,
                            r,
                            circle_state(r, j).1,
                            circle_state(r, j).2,
                        )[i] == (x, y);
                    if j >= k {
                        lemma_circle_running_prefix(r, k, j);
                    }
                    assert(ra(x, y));
                }
                if exists|i: int| 0 <= i < 4 && #[trigger] sides[i].contains(x, y) {
                    let i = choose|i: int| 0 <= i < 4 && #[trigger] sides[i].contains(x, y);
                    assert(i == 0 || i == 1 || i == 2 || i == 3);
                }
                if q0(x, y) {
                    assert(sides[0].contains(x, y));
                }
                if q1(x, y) {
                    assert(sides[1].contains(x, y));
                }
                if q2(x, y) {
                    assert(sides[2].contains(x, y));
                }
                if q3(x, y) {
                    assert(sides[3].contains(x, y));
                }
            }
            lemma_painted_same_region(
                start,
                inky.pixels(),
                |x: int, y: int| ra012(x, y) || q3(x, y),
                |x: int, y: int| rounded_box_region(*rect, r, x, y),
                color,
            );
        }
    }

    /// Whether every set pixel of the glyph of `c`, with its top-left pixel at `(ox, oy)`, has
    /// coordinates in range.
    fn glyph_fits_at(font: &Font, c: char, ox: i32, oy: i32) -> (r: bool)
        requires
            font.has_glyph(c),
        ensures
            r == glyph_fits(*font, c, ox as int, oy as int),
    {
        let character = font.get_character(c);
        let w = character.bm_width as usize;
        let h = character.bm_height as usize;
        let mut cy: usize = 0;
        while cy < h
            invariant
                font.has_glyph(c),
                font.glyph(c) == Some(*character),
                w == character.bm_width,
                h == character.bm_height,
                cy <= h,
                forall|px: int, py: int|
                    0 <= px < w && 0 <= py < cy && #[trigger] font.glyph_pixel(c, px, py) ==> fits_i32(ox + px)
                        && fits_i32(oy - py),
            decreases h - cy,
        {
            let mut cx: usize = 0;
            while cx < w
                invariant
                    font.has_glyph(c),
                    font.glyph(c) == Some(*character),
                    w == character.bm_width,
                    h == character.bm_height,
                    cy < h,
                    cx <= w,
                    forall|px: int, py: int|
                        0 <= px < w && 0 <= py < cy && #[trigger] font.glyph_pixel(c, px, py) ==> fits_i32(ox + px)
                            && fits_i32(oy - py),
                    forall|px: int| 0 <= px < cx && #[trigger] font.glyph_pixel(c, px, cy as int) ==> fits_i32(ox + px)
                        && fits_i32(oy - cy),
                decreases w - cx,
            {
                proof {
                    lemma_glyph_index(w as int, h as int, cx as int, cy as int);
                }
                if font.get_pixel(c, cx, cy) {
                    let px = ox as i64 + cx as i64;
                    let py = oy as i64 - cy as i64;
                    if px > i32::MAX as i64 || py < i32::MIN as i64 {
                        return false;
                    }
                }
                cx += 1;
            }
            cy += 1;
        }
        true
    }

    /// Whether `draw_text` can draw `text` in the font named `font` at `(x, y)` with
    /// `alignment`: the font exists and has every glyph, and every coordinate drawing computes is
    /// in range.
    pub fn can_draw_text(&self, x: i32, y: i32, text: &str, alignment: Alignment, font: &str) -> (r: bool)
        ensures
            r == self.text_drawable(font@, text@, x as int, y as int, alignment),
    {
        let f = match self.get_font(font) {
            None => {
                return false;
            },
            Some(f) => f,
        };
        let ghost s = text@;
        let len = text.unicode_len();
        let shifted = alignment != Alignment::Left;
        let mut i: usize = 0;
        let mut width: i64 = 0;
        while i < len
            invariant
                len == s.len(),
                s == text@,
                i <= len,
                self.font(font@) == Some(*f),
                shifted == (alignment != Alignment::Left),
                forall|j: int| 0 <= j < i ==> f.has_glyph(#[trigger] s[j]),
                shifted ==> width == text_width(*f, s.take(i as int)),
                shifted ==> forall|j: int| 0 <= j <= i ==> fits_i32(#[trigger] text_width(*f, s.take(j))),
            decreases len - i,
        {
            let c = text.get_char(i);
            if !f.has_glyph_in_atlas(c) {
                return false;
            }
            if shifted {
                proof {
                    lemma_pen_step(*f, s, 0, 0, i as int);
                }
                width = width + f.get_character(c).advance_x as i64;
                if width < i32::MIN as i64 || width > i32::MAX as i64 {
                    assert(!fits_i32(text_width(*f, s.take(i + 1))));
                    return false;
                }
            }
            i += 1;
        }
        assert(s.take(len as int) =~= s);
        let start = match alignment {
            Alignment::Left => x as i64,
            Alignment::Center => x as i64 - width / 2,
            Alignment::Right => x as i64 - width,
        };
        if start < i32::MIN as i64 || start > i32::MAX as i64 {
            return false;
        }
        assert(start == aligned_x(*f, s, x as int, alignment));
        Self::text_fits_at(f, start as i32, y, text).is_some()
    }

    /// Whether drawing `text`, all of whose glyphs `font` has, with the pen starting at `(x, y)`
    /// keeps every coordinate in range; if so, where the pen ends.
    fn text_fits_at(font: &Font, x: i32, y: i32, text: &str) -> (r: Option<(i32, i32)>)
        requires
            has_glyphs(*font, text@),
        ensures
            r is Some <==> text_fits(*font, text@, x as int, y as int),
            r matches Some(end) ==> (end.0 as int, end.1 as int) == pen(*font, text@, x as int, y as int, text@.len() as int),
    {
        let f = font;
        let ghost s = text@;
        let len = text.unicode_len();
        let mut pen_x: i64 = x as i64;
        let mut pen_y: i64 = y as i64;
        let mut i: usize = 0;
        assert(s.take(0) =~= Seq::<char>::empty());
        while i < len
            invariant
                len == s.len(),
                s == text@,
                *f == *font,
                i <= len,
                has_glyphs(*f, s),
                (pen_x as int, pen_y as int) == pen(*f, s, x as int, y as int, i as int),
                i32::MIN - 256 <= pen_x <= i32::MAX + 256,
                i32::MIN - 256 <= pen_y <= i32::MAX + 256,
                forall|j: int|
                    0 <= j < i ==> {
                        let (jx, jy) = #[trigger] pen(*f, s, x as int, y as int, j);
                        let (ox, oy) = glyph_origin(*f, s[j], jx, jy);
                        &&& fits_i32(jx) && fits_i32(jy)
                        &&& fits_i32(ox) && fits_i32(oy)
                        &&& glyph_fits(*f, s[j], ox, oy)
                    },
            decreases len - i,
        {
            if pen_x < i32::MIN as i64 || pen_x > i32::MAX as i64 || pen_y < i32::MIN as i64 || pen_y > i32::MAX as i64 {
                assert(pen(*f, s, x as int, y as int, i as int) == (pen_x as int, pen_y as int));
                return None;
            }
            let c = text.get_char(i);
            assert(f.has_glyph(s[i as int]));
            let character = f.get_character(c);
            let ox = pen_x + character.bm_x as i64;
            let oy = pen_y - character.bm_y as i64;
            assert(glyph_origin(*f, s[i as int], pen_x as int, pen_y as int) == (ox as int, oy as int));
            if ox < i32::MIN as i64 || ox > i32::MAX as i64 || oy < i32::MIN as i64 || oy > i32::MAX as i64 {
                assert(pen(*f, s, x as int, y as int, i as int) == (pen_x as int, pen_y as int));
                return None;
            }
            if !Self::glyph_fits_at(f, c, ox as i32, oy as i32) {
                assert(pen(*f, s, x as int, y as int, i as int) == (pen_x as int, pen_y as int));
                return None;
            }
            proof {
                lemma_pen_step(*f, s, x as int, y as int, i as int);
            }
            pen_x = pen_x + character.advance_x as i64;
            pen_y = pen_y + character.advance_y as i64;
            i += 1;
        }
        assert(pen(*f, s, x as int, y as int, len as int) == (pen_x as int, pen_y as int));
        if pen_x >= i32::MIN as i64 && pen_x <= i32::MAX as i64 && pen_y >= i32::MIN as i64 && pen_y <= i32::MAX as i64 {
            Some((pen_x as i32, pen_y as i32))
        } else {
            None
        }
    }

    /// Whether `font` has a glyph for every character of `text`.
    fn all_glyphs(font: &Font, text: &str) -> (r: bool)
        ensures
            r == forall|i: int| 0 <= i < text@.len() ==> (#[trigger] font.glyph(text@[i])) is Some,
    {
        let ghost s = text@;
        let len = text.unicode_len();
        let mut i: usize = 0;
        while i < len
            invariant
                len == s.len(),
                s == text@,
                i <= len,
                forall|j: int| 0 <= j < i ==> (#[trigger] font.glyph(s[j])) is Some,
            decreases len - i,
        {
            if !font.contains_glyph(text.get_char(i)) {
                return false;
            }
            i += 1;
        }
        true
    }

    /// Whether `font` has a glyph, inside its atlas, for every character of `text`.
    fn glyphs_in_atlas(font: &Font, text: &str) -> (r: bool)
        ensures
            r == has_glyphs(*font, text@),
    {
        let ghost s = text@;
        let len = text.unicode_len();
        let mut i: usize = 0;
        while i < len
            invariant
                len == s.len(),
                s == text@,
                i <= len,
                forall|j: int| 0 <= j < i ==> font.has_glyph(#[trigger] s[j]),
            decreases len - i,
        {
            if !font.has_glyph_in_atlas(text.get_char(i)) {
                return false;
            }
            i += 1;
        }
        true
    }

    /// Whether laying out `text`, all of whose glyphs `font` has, keeps the running sums of its
    /// advances and glyph widths in range.
    fn break_fits_check(font: &Font, text: &str) -> (r: bool)
        requires
            forall|i: int| 0 <= i < text@.len() ==> (#[trigger] font.glyph(text@[i])) is Some,
        ensures
            r == break_fits(*font, text@),
    {
        let ghost s = text@;
        let len = text.unicode_len();
        let mut i: usize = 0;
        let mut width: i64 = 0;
        assert(s.take(0) =~= Seq::<char>::empty());
        while i < len
            invariant
                len == s.len(),
                s == text@,
                i <= len,
                forall|j: int| 0 <= j < s.len() ==> (#[trigger] font.glyph(s[j])) is Some,
                width == text_width(*font, s.take(i as int)),
                forall|j: int| 0 <= j <= i ==> fits_i32(#[trigger] text_width(*font, s.take(j))),
                forall|j: int|
                    0 <= j < i ==> fits_i32(#[trigger] text_width(*font, s.take(j)) + font.glyph(s[j])->0.bm_width),
            decreases len - i,
        {
            let c = text.get_char(i);
            let character = font.get_character(c);
            proof {
                lemma_pen_step(*font, s, 0, 0, i as int);
            }
            let reach = width + character.bm_width as i64;
            if reach > i32::MAX as i64 {
                return false;
            }
            let next = width + character.advance_x as i64;
            if next < i32::MIN as i64 || next > i32::MAX as i64 {
                assert(!fits_i32(text_width(*font, s.take(i + 1))));
                return false;
            }
            width = next;
            i += 1;
        }
        true
    }

    /// Whether `draw_multiline_text_in` can draw `text` in the font named `font` in `rect`: the
    /// font exists, its baseline below the rectangle's top is in range, and every line of the text
    /// can be laid out and drawn.
    pub fn can_draw_multiline_text(&self, rect: Rect, text: &str, font: &str) -> (r: bool)
        ensures
            text.spec_bytes().len() <= usize::MAX,
            r == (self.font(font@) is Some && fits_i32(rect.y + self.font(font@)->0.baseline) && multiline_ok(
                self.font(font@)->0,
                rect.width as int,
                text.spec_bytes(),
                rect.x as int,
                rect.y + self.font(font@)->0.baseline,
            )),
    {
        let total = text.as_bytes().len();
        let f = match self.get_font(font) {
            None => {
                return false;
            },
            Some(f) => f,
        };
        let ghost bytes = text.spec_bytes();
        let ghost width = rect.width as int;
        let top = rect.y as i64 + f.baseline as i64;
        if top > i32::MAX as i64 {
            return false;
        }
        let ghost y0 = top as int;
        let mut y: i32 = top as i32;
        let mut start: usize = 0;
        let mut rest: &str = text;
        let ghost mut k: nat = 0;
        assert(bytes.subrange(0, bytes.len() as int) =~= bytes);
        while start < total
            invariant
                self.font(font@) == Some(*f),
                bytes == text.spec_bytes(),
                total == bytes.len(),
                width == rect.width,
                y0 == rect.y + f.baseline,
                start <= total,
                rest.spec_bytes() == bytes.subrange(start as int, total as int),
                multiline_state(*f, width, bytes, y0, k) == (start as int, y as int),
                forall|j: nat|
                    j < k ==> #[trigger] multiline_running(*f, width, bytes, y0, j) && multiline_line_ok(
                        *f,
                        width,
                        bytes,
                        rect.x as int,
                        y0,
                        j,
                    ),
            decreases total - start,
        {
            proof {
                assert(multiline_running(*f, width, bytes, y0, k));
                assert(rest@ == suffix_chars(bytes, start as int)) by {
                    vstd::utf8::encode_utf8_decode_utf8(rest@);
                }
                lemma_encode_utf8_len(rest@);
                lemma_line_break_bound(*f, width, rest@, bytes.len() - start);
            }
            if !Self::all_glyphs(f, rest) {
                return false;
            }
            if !Self::break_fits_check(f, rest) {
                return false;
            }
            let break_at = self.calculate_break_at(f, rect.width, rest);
            assert(break_at == line_break(*f, width, bytes, start as int));
            if break_at == 0 || !rest.is_char_boundary(break_at) {
                return false;
            }
            let (line, after) = rest.split_at(break_at);
            proof {
                assert(line.spec_bytes() =~= bytes.subrange(start as int, start + break_at));
                assert(line@ == line_chars(*f, width, bytes, start as int)) by {
                    vstd::utf8::encode_utf8_decode_utf8(line@);
                }
                assert(after.spec_bytes() =~= bytes.subrange(start + break_at, bytes.len() as int));
            }
            if !Self::glyphs_in_atlas(f, line) {
                return false;
            }
            let end = match Self::text_fits_at(f, rect.x, y, line) {
                None => {
                    return false;
                },
                Some(end) => end,
            };
            let next = end.1 as i64 + f.height as i64;
            proof {
                assert(line@.take(line@.len() as int) =~= line@);
                assert(multiline_state(*f, width, bytes, y0, k + 1) == (
                    start + break_at,
                    y + text_advance_y(*f, line@) + f.height,
                ));
            }
            if next > i32::MAX as i64 {
                return false;
            }
            y = next as i32;
            start += break_at;
            rest = after;
            proof {
                k = k + 1;
            }
        }
        proof {
            assert forall|j: nat| #[trigger] multiline_running(*f, width, bytes, y0, j) implies multiline_line_ok(
                *f,
                width,
                bytes,
                rect.x as int,
                y0,
                j,
            ) by {
                if j >= k {
                    lemma_multiline_stays(*f, width, bytes, y0, k, j);
                }
            }
        }
        true
    }

    /// Whether `draw_bitmap` can draw the bitmap named `bitmap` at `(x, y)`: the bitmap exists,
    /// its bits hold all its pixels, and the coordinates stay in range.
    pub fn can_draw_bitmap(&self, x: i32, y: i32, bitmap: &str) -> (r: bool)
        ensures
            r == (self.bitmap(bitmap@) is Some && bitmap_fits(self.bitmap(bitmap@)->0, x as int, y as int)),
    {
        match self.get_bitmap(bitmap) {
            None => false,
            Some(b) => {
                if b.width == 0 || b.height == 0 {
                    return true;
                }
                let w = b.width as u64;
                let h = b.height as u64;
                assert(w * h <= 0xffff_fffe_0000_0001) by (nonlinear_arith)
                    requires
                        w <= 0xffff_ffff,
                        h <= 0xffff_ffff,
                ;
                assert(w * h >= 1) by (nonlinear_arith)
                    requires
                        w >= 1,
                        h >= 1,
                ;
                let area = w * h;
                area <= usize::MAX as u64 && (area - 1) / 8 < b.bits.len() as u64 && b.height <= i32::MAX as u32
                    && b.width <= i32::MAX as u32 && x as i64 + b.height as i64 - 1 <= i32::MAX as i64 && y as i64
                    + b.width as i64 - 1 <= i32::MAX as i64
            },
        }
    }

    /// The font named `name`; there must be one.
    fn font_named(&self, name: &str) -> (f: &Font)
        requires
            self.font(name@) is Some,
        ensures
            self.font(name@) == Some(*f),
    {
        crate::font::find_named(&self.resources.fonts, name).unwrap()
    }

    /// Sets the set pixels of the glyph of `c` with its top-left pixel at `(ox, oy)`.
    fn draw_glyph<P: Panel>(&self, inky: &mut P, font: &Font, c: char, ox: i32, oy: i32, color: Color)
        requires
            old(inky).wf(),
            font.has_glyph(c),
            glyph_fits(*font, c, ox as int, oy as int),
        ensures
            final(inky).wf(),
            painted(
                old(inky).pixels(),
                final(inky).pixels(),
                |x: int, y: int| glyph_region(*font, c, ox as int, oy as int, x, y),
                color,
            ),
    {
        let ghost p0 = inky.pixels();
        let character = font.get_character(c);
        let w = character.bm_width as usize;
        let h = character.bm_height as usize;
        let mut cy: usize = 0;
        while cy < h
            invariant
                inky.wf(),
                font.has_glyph(c),
                glyph_fits(*font, c, ox as int, oy as int),
                font.glyph(c) == Some(*character),
                w == character.bm_width,
                h == character.bm_height,
                cy <= h,
                painted(p0, inky.pixels(), |x: int, y: int| glyph_prefix(*font, c, ox as int, oy as int, 0, cy as int, x, y), color),
            decreases h - cy,
        {
            let mut cx: usize = 0;
            while cx < w
                invariant
                    inky.wf(),
                    font.has_glyph(c),
                    glyph_fits(*font, c, ox as int, oy as int),
                    font.glyph(c) == Some(*character),
                    w == character.bm_width,
                    h == character.bm_height,
                    cy < h,
                    cx <= w,
                    painted(p0, inky.pixels(), |x: int, y: int| glyph_prefix(*font, c, ox as int, oy as int, cx as int, cy as int, x, y), color),
                decreases w - cx,
            {
                proof {
                    lemma_glyph_index(w as int, h as int, cx as int, cy as int);
                }
                let ghost before = inky.pixels();
                if font.get_pixel(c, cx, cy) {
                    let px = ox + cx as i32;
                    let py = oy - cy as i32;
                    inky.set(px, py, color);
                    proof {
                        lemma_painted_union(p0, before, inky.pixels(), |x: int, y: int| glyph_prefix(*font, c, ox as int, oy as int, cx as int, cy as int, x, y), |x: int, y: int| x == px && y == py, color);
                        lemma_painted_same_region(
                            p0,
                            inky.pixels(),
                            |x: int, y: int| glyph_prefix(*font, c, ox as int, oy as int, cx as int, cy as int, x, y) || (x == px && y == py),
                            |x: int, y: int| glyph_prefix(*font, c, ox as int, oy as int, cx + 1, cy as int, x, y),
                            color,
                        );
                    }
                } else {
                    proof {
                        lemma_painted_same_region(p0, inky.pixels(), |x: int, y: int| glyph_prefix(*font, c, ox as int, oy as int, cx as int, cy as int, x, y), |x: int, y: int| glyph_prefix(*font, c, ox as int, oy as int, cx + 1, cy as int, x, y), color);
                    }
                }
                cx += 1;
            }
            proof {
                lemma_painted_same_region(p0, inky.pixels(), |x: int, y: int| glyph_prefix(*font, c, ox as int, oy as int, cx as int, cy as int, x, y), |x: int, y: int| glyph_prefix(*font, c, ox as int, oy as int, 0, cy + 1, x, y), color);
            }
            cy += 1;
        }
        proof {
            lemma_painted_same_region(
                p0,
                inky.pixels(),
                |x: int, y: int| glyph_prefix(*font, c, ox as int, oy as int, 0, cy as int, x, y),
                |x: int, y: int| glyph_region(*font, c, ox as int, oy as int, x, y),
                color,
            );
        }
    }

    /// The sum of the horizontal advances of the characters of `text` in the font named
    /// `font`: the width the text takes up.
    pub fn calculate_text_width(&self, text: &str, font: &str) -> (width: i32)
        requires
            self.font(font@) is Some,
            forall|i: int| 0 <= i < text@.len() ==> (#[trigger] self.font(font@)->0.glyph(text@[i])) is Some,
            width_fits(self.font(font@)->0, text@),
        ensures
            width == text_width(self.font(font@)->0, text@),
    {
        let mut width: i32 = 0;
        let font = self.font_named(font);
        let ghost s = text@;
        assert(s.take(0) =~= Seq::<char>::empty());
        for c in it: text.chars()
            invariant
                it.seq() == s,
                forall|i: int| 0 <= i < s.len() ==> (#[trigger] font.glyph(s[i])) is Some,
                width_fits(*font, s),
                width == text_width(*font, s.take(it.index() as int)),
        {
            let ghost i = it.index() as int;
            proof {
                lemma_pen_step(*font, s, 0, 0, i);
                assert(fits_i32(text_width(*font, s.take(i + 1))));
                assert(font.glyph(s[i]) is Some);
            }
            width += font.get_character(c).advance_x as i32;
        }
        assert(s.take(s.len() as int) =~= s);
        width
    }

    /// Draws `text` in the font named `font` from the pen position `(x, y)`, shifted left by
    /// half its width (`Center`) or by its whole width (`Right`): each glyph's set pixels go
    /// at its bitmap offset from the pen, and the pen then moves by the glyph's advance.
    pub fn draw_text<P: Panel>(
        &self,
        inky: &mut P,
        mut x: i32,
        mut y: i32,
        text: &str,
        alignment: Alignment,
        font: &str,
        color: Color,
    )
        requires
            old(inky).wf(),
            self.text_drawable(font@, text@, x as int, y as int, alignment),
        ensures
            final(inky).wf(),
            painted(
                old(inky).pixels(),
                final(inky).pixels(),
                |px: int, py: int| self.text_pixels(font@, text@, x as int, y as int, alignment, px, py),
                color,
            ),
    {
        let ghost f = self.font(font@)->0;
        let ghost s = text@;
        proof {
            assert forall|i: int| 0 <= i < s.len() implies (#[trigger] f.glyph(s[i])) is Some by {
                assert(f.has_glyph(s[i]));
            }
        }
        match alignment {
            Alignment::Left => (),
            Alignment::Center => x -= self.calculate_text_width(text, font) / 2,
            Alignment::Right => x -= self.calculate_text_width(text, font),
        }
        let font = self.font_named(font);
        self.draw_text_run(inky, font, x, y, text, color);
    }

    /// Draws `text` in `font` with the pen starting at `(x, y)` and returns where the pen ends.
    fn draw_text_run<P: Panel>(&self, inky: &mut P, font: &Font, mut x: i32, mut y: i32, text: &str, color: Color) -> (end: (i32, i32))
        requires
            old(inky).wf(),
            has_glyphs(*font, text@),
            text_fits(*font, text@, x as int, y as int),
        ensures
            final(inky).wf(),
            painted(
                old(inky).pixels(),
                final(inky).pixels(),
                |px: int, py: int| text_region(*font, text@, x as int, y as int, px, py),
                color,
            ),
            (end.0 as int, end.1 as int) == pen(*font, text@, x as int, y as int, text@.len() as int),
    {
        let ghost f = *font;
        let ghost s = text@;
        let ghost x0 = x as int;
        let ghost y0 = y as int;
        let ghost start = inky.pixels();
        proof {
            lemma_painted_nothing(start, color);
            assert(s.take(0) =~= Seq::<char>::empty());
        }
        for c in it: text.chars()
            invariant
                it.seq() == s,
                *font == f,
                inky.wf(),
                has_glyphs(f, s),
                text_fits(f, s, x0, y0),
                (x as int, y as int) == pen(f, s, x0, y0, it.index() as int),
                painted(
                    start,
                    inky.pixels(),
                    |px: int, py: int| text_region_upto(f, s, x0, y0, it.index() as int, px, py),
                    color,
                ),
        {
            let ghost i = it.index() as int;
            proof {
                assert(f.has_glyph(s[i]));
                lemma_pen_step(f, s, x0, y0, i);
                assert(fits_i32(pen(f, s, x0, y0, i + 1).0));
                let (pen_x, pen_y) = pen(f, s, x0, y0, i);
                let (ox, oy) = glyph_origin(f, s[i], pen_x, pen_y);
                assert(fits_i32(ox) && fits_i32(oy) && glyph_fits(f, s[i], ox, oy));
            }
            let character = font.get_character(c);
            let ox = x + character.bm_x as i32;
            let oy = y - character.bm_y as i32;
            let ghost before = inky.pixels();
            self.draw_glyph(inky, font, c, ox, oy, color);
            proof {
                let done = |px: int, py: int| text_region_upto(f, s, x0, y0, i, px, py);
                let here = |px: int, py: int| glyph_region(f, c, ox as int, oy as int, px, py);
                lemma_painted_union(start, before, inky.pixels(), done, here, color);
                assert forall|px: int, py: int| on_screen(px, py) implies (done(px, py) || here(
                    px,
                    py,
                )) <==> text_region_upto(f, s, x0, y0, i + 1, px, py) by {
                    if text_region_upto(f, s, x0, y0, i + 1, px, py) {
                        let j = choose|j: int|
                            0 <= j < i + 1 && {
                                let (pen_x, pen_y) = #[trigger] pen(f, s, x0, y0, j);
                                let (ox, oy) = glyph_origin(f, s[j], pen_x, pen_y);
                                glyph_region(f, s[j], ox, oy, px, py)
                            };
                        if j < i {
                            assert(done(px, py));
                        }
                    }
                    if here(px, py) {
                        let _ = pen(f, s, x0, y0, i);
                    }
                }
                lemma_painted_same_region(
                    start,
                    inky.pixels(),
                    |px: int, py: int| done(px, py) || here(px, py),
                    |px: int, py: int| text_region_upto(f, s, x0, y0, i + 1, px, py),
                    color,
                );
            }
            x += character.advance_x as i32;
            y += character.advance_y as i32;
        }
        (x, y)
    }

    /// Draws the set pixels of the bitmap named `bitmap` with its top-left corner at
    /// `(x, y)`; there must be such a bitmap.
    pub fn draw_bitmap<P: Panel>(&self, inky: &mut P, x: i32, y: i32, bitmap: &str, color: Color)
        requires
            old(inky).wf(),
            self.bitmap(bitmap@) is Some,
            bitmap_fits(self.bitmap(bitmap@)->0, x as int, y as int),
        ensures
            final(inky).wf(),
            painted(
                old(inky).pixels(),
                final(inky).pixels(),
                |px: int, py: int| bitmap_region(self.bitmap(bitmap@)->0, x as int, y as int, px, py),
                color,
            ),
    {
        let bm = crate::font::find_named(&self.resources.bitmaps, bitmap).unwrap();
        let ghost b = *bm;
        let ghost p0 = inky.pixels();
        let w = bm.width as usize;
        let h = bm.height as usize;
        let mut dy: usize = 0;
        while dy < w
            invariant
                inky.wf(),
                *bm == b,
                bitmap_fits(b, x as int, y as int),
                w == b.width,
                h == b.height,
                dy <= w,
                painted(p0, inky.pixels(), |px: int, py: int| bitmap_prefix(b, x as int, y as int, 0, dy as int, px, py), color),
            decreases w - dy,
        {
            let mut dx: usize = 0;
            while dx < h
                invariant
                    inky.wf(),
                    *bm == b,
                    bitmap_fits(b, x as int, y as int),
                    w == b.width,
                    h == b.height,
                    dy < w,
                    dx <= h,
                    painted(p0, inky.pixels(), |px: int, py: int| bitmap_prefix(b, x as int, y as int, dx as int, dy as int, px, py), color),
                decreases h - dx,
            {
                proof {
                    lemma_bitmap_index(w as int, h as int, dx as int, dy as int);
                    assert(bm.bits@.len() == bm.bits.len());
                }
                let index = dx + dy * h;
                let byte = index / 8;
                let bit = index % 8;
                let ghost before = inky.pixels();
                if bm.bits[byte] & (1 << bit) != 0 {
                    let px = x + dx as i32;
                    let py = y + dy as i32;
                    inky.set(px, py, color);
                    proof {
                        lemma_painted_union(
                            p0,
                            before,
                            inky.pixels(),
                            |qx: int, qy: int| bitmap_prefix(b, x as int, y as int, dx as int, dy as int, qx, qy),
                            |qx: int, qy: int| qx == px && qy == py,
                            color,
                        );
                        lemma_painted_same_region(
                            p0,
                            inky.pixels(),
                            |qx: int, qy: int| bitmap_prefix(b, x as int, y as int, dx as int, dy as int, qx, qy) || (qx == px && qy == py),
                            |qx: int, qy: int| bitmap_prefix(b, x as int, y as int, dx + 1, dy as int, qx, qy),
                            color,
                        );
                    }
                } else {
                    proof {
                        lemma_painted_same_region(
                            p0,
                            inky.pixels(),
                            |qx: int, qy: int| bitmap_prefix(b, x as int, y as int, dx as int, dy as int, qx, qy),
                            |qx: int, qy: int| bitmap_prefix(b, x as int, y as int, dx + 1, dy as int, qx, qy),
                            color,
                        );
                    }
                }
                dx += 1;
            }
            proof {
                lemma_painted_same_region(
                    p0,
                    inky.pixels(),
                    |qx: int, qy: int| bitmap_prefix(b, x as int, y as int, dx as int, dy as int, qx, qy),
                    |qx: int, qy: int| bitmap_prefix(b, x as int, y as int, 0, dy + 1, qx, qy),
                    color,
                );
            }
            dy += 1;
        }
        proof {
            lemma_painted_same_region(
                p0,
                inky.pixels(),
                |qx: int, qy: int| bitmap_prefix(b, x as int, y as int, 0, dy as int, qx, qy),
                |qx: int, qy: int| bitmap_region(b, x as int, y as int, qx, qy),
                color,
            );
        }
    }

    /// Draws `image` in `rect`, its top-left corner offset by `(x_off, y_off)` from the
    /// rectangle's (offsets that would move it left of or above the rectangle count as zero),
    /// cut to the rectangle's size; each pixel, which must be a color of the pure ink palette,
    /// is drawn in its ink.
    #[verifier::spinoff_prover]
    pub fn draw_image_in<P: Panel>(&self, inky: &mut P, rect: &Rect, x_off: i32, y_off: i32, image: &Image)
        requires
            old(inky).wf(),
            image.wf(),
            image.width <= i32::MAX,
            image.height <= i32::MAX,
            fits_i32(rect.x + x_off),
            fits_i32(rect.y + y_off),
            ({
                let (draw_x, draw_y, sub_x, sub_y, w, h) = image_placement(*rect, x_off as int, y_off as int, *image);
                w > 0 && h > 0 ==> fits_i32(draw_x + w - 1) && fits_i32(draw_y + h - 1)
            }),
            image_in_palette(*rect, x_off as int, y_off as int, *image),
        ensures
            final(inky).wf(),
            painted_by(
                old(inky).pixels(),
                final(inky).pixels(),
                |px: int, py: int| image_region(*rect, x_off as int, y_off as int, *image, px, py),
                image_colors(*rect, x_off as int, y_off as int, *image),
            ),
    {
        let ghost p0 = inky.pixels();
        let ghost colors = image_colors(*rect, x_off as int, y_off as int, *image);
        let palette = desaturated_palette();
        let image_width = image.width as i32;
        let image_height = image.height as i32;
        let draw_width = if rect.width <= image_width { rect.width } else { image_width };
        let draw_height = if rect.height <= image_height { rect.height } else { image_height };
        let draw_x = if rect.x >= rect.x + x_off { rect.x } else { rect.x + x_off };
        let sub_x = if rect.x - draw_x >= 0 { rect.x - draw_x } else { 0 };
        let draw_y = if rect.y >= rect.y + y_off { rect.y } else { rect.y + y_off };
        let sub_y = if rect.y - draw_y >= 0 { rect.y - draw_y } else { 0 };
        assert(image_placement(*rect, x_off as int, y_off as int, *image) == (draw_x as int, draw_y as int, sub_x as int, sub_y as int, draw_width as int, draw_height as int));
        let mut dy: i32 = 0;
        while dy < draw_height
            invariant
                inky.wf(),
                image.wf(),
                palette@ == spec_desaturated_palette(),
                colors == image_colors(*rect, x_off as int, y_off as int, *image),
                image_placement(*rect, x_off as int, y_off as int, *image) == (draw_x as int, draw_y as int, sub_x as int, sub_y as int, draw_width as int, draw_height as int),
                sub_x == 0,
                sub_y == 0,
                draw_width <= image.width,
                draw_height <= image.height,
                draw_width > 0 && draw_height > 0 ==> fits_i32(draw_x + draw_width - 1) && fits_i32(draw_y + draw_height - 1),
                image_in_palette(*rect, x_off as int, y_off as int, *image),
                0 <= dy,
                draw_height > 0 ==> dy <= draw_height,
                draw_height <= 0 ==> dy == 0,
                painted_by(p0, inky.pixels(), |px: int, py: int| image_prefix(*rect, x_off as int, y_off as int, *image, 0, dy as int, px, py), colors),
            decreases draw_height - dy,
        {
            let mut dx: i32 = 0;
            while dx < draw_width
                invariant
                    inky.wf(),
                    image.wf(),
                    palette@ == spec_desaturated_palette(),
                    colors == image_colors(*rect, x_off as int, y_off as int, *image),
                    image_placement(*rect, x_off as int, y_off as int, *image) == (draw_x as int, draw_y as int, sub_x as int, sub_y as int, draw_width as int, draw_height as int),
                    sub_x == 0,
                    sub_y == 0,
                    draw_width <= image.width,
                    draw_height <= image.height,
                    draw_width > 0 && draw_height > 0 ==> fits_i32(draw_x + draw_width - 1) && fits_i32(draw_y + draw_height - 1),
                    image_in_palette(*rect, x_off as int, y_off as int, *image),
                    0 <= dy < draw_height,
                    0 <= dx,
                    draw_width > 0 ==> dx <= draw_width,
                    draw_width <= 0 ==> dx == 0,
                    painted_by(p0, inky.pixels(), |px: int, py: int| image_prefix(*rect, x_off as int, y_off as int, *image, dx as int, dy as int, px, py), colors),
                decreases draw_width - dx,
            {
                let pixel = image.get_pixel((sub_x + dx) as u32, (sub_y + dy) as u32);
                proof {
                    let pl = image_placement(*rect, x_off as int, y_off as int, *image);
                    assert(pl.2 == 0 && pl.3 == 0 && 0 <= dx < pl.4 && 0 <= dy < pl.5);
                    assert(image_in_palette(*rect, x_off as int, y_off as int, *image));
                    assert(in_ink_palette(image.pixel(pl.2 + dx, pl.3 + dy)));
                    let i = choose|i: int| #[trigger] is_first_position(spec_desaturated_palette(), pixel, i);
                    assert(palette@[i] == pixel);
                }
                let color_index = position(&palette, &pixel).unwrap();
                let color = color_map(color_index);
                let px = draw_x + dx;
                let py = draw_y + dy;
                let ghost before = inky.pixels();
                inky.set(px, py, color);
                proof {
                    assert(is_first_position(spec_desaturated_palette(), pixel, color_index as int));
                    let chosen = choose|i: int| is_first_position(spec_desaturated_palette(), pixel, i);
                    assert(chosen == color_index);
                    let pl = image_placement(*rect, x_off as int, y_off as int, *image);
                    assert(colors(px as int, py as int) == image_color_at(*rect, x_off as int, y_off as int, *image, px as int, py as int));
                    assert(colors(px as int, py as int) == color);
                    let r0 = |qx: int, qy: int| image_prefix(*rect, x_off as int, y_off as int, *image, dx as int, dy as int, qx, qy);
                    let r1 = |qx: int, qy: int| image_prefix(*rect, x_off as int, y_off as int, *image, dx + 1, dy as int, qx, qy);
                    assert forall|qx: int, qy: int| on_screen(qx, qy) implies #[trigger] (inky.pixels())(qx, qy) == (if r1(qx, qy) {
                        colors(qx, qy)
                    } else {
                        p0(qx, qy)
                    }) by {
                        if qx == px && qy == py {
                        } else {
                            assert((inky.pixels())(qx, qy) == before(qx, qy));
                        }
                    }
                }
                dx += 1;
            }
            dy += 1;
        }
    }

    /// Where the first line of `text` ends when lines are at most `width` wide: after the last
    /// space before the first character that would stick out, or at the end of the text (its
    /// length in bytes) when nothing sticks out.
    fn calculate_break_at(&self, font: &Font, width: i32, text: &str) -> (r: usize)
        requires
            forall|i: int| 0 <= i < text@.len() ==> (#[trigger] font.glyph(text@[i])) is Some,
            break_fits(*font, text@),
            text.spec_bytes().len() <= usize::MAX,
        ensures
            r == break_value(*font, width as int, text@, text.spec_bytes().len() as int),
    {
        let ghost s = text@;
        let mut break_at: usize = 0;
        let mut x: i32 = 0;
        let mut i: usize = 0;
        assert(s.take(0) =~= Seq::<char>::empty());
        proof {
            lemma_encode_utf8_len(s);
        }
        for c in it: text.chars()
            invariant
                it.seq() == s,
                s == text@,
                s.len() <= usize::MAX,
                i == it.index(),
                forall|k: int| 0 <= k < s.len() ==> (#[trigger] font.glyph(s[k])) is Some,
                break_fits(*font, s),
                x == text_width(*font, s.take(i as int)),
                break_at == last_space_end(s, i as int),
                first_overflow(*font, width as int, s, 0) == first_overflow(*font, width as int, s, i as int),
        {
            let character = font.get_character(c);
            proof {
                lemma_pen_step(*font, s, 0, 0, i as int);
                assert(fits_i32(text_width(*font, s.take(i + 1))));
                assert(fits_i32(text_width(*font, s.take(i as int)) + font.glyph(s[i as int])->0.bm_width));
            }
            if c == ' ' {
                break_at = i + 1;
            } else if x + character.bm_width as i32 > width {
                assert(first_overflow(*font, width as int, s, i as int) == Some(i as int));
                return break_at;
            }
            x += character.advance_x as i32;
            i += 1;
        }
        assert(first_overflow(*font, width as int, s, i as int) is None);
        text.len()
    }

    /// Draws `text` in the font named `font` as lines at most `rect.width` wide, starting
    /// from the rectangle's left edge on the font's baseline row: each line ends after the last
    /// space that keeps it within the width (see `line_break`), and each new line starts the
    /// font's height further down.
    #[verifier::spinoff_prover]
    pub fn draw_multiline_text_in<P: Panel>(&self, inky: &mut P, rect: Rect, text: &str, font: &str, color: Color)
        requires
            old(inky).wf(),
            self.font(font@) is Some,
            text.spec_bytes().len() <= usize::MAX,
            fits_i32(rect.y + self.font(font@)->0.baseline),
            multiline_ok(
                self.font(font@)->0,
                rect.width as int,
                text.spec_bytes(),
                rect.x as int,
                rect.y + self.font(font@)->0.baseline,
            ),
        ensures
            final(inky).wf(),
            painted(
                old(inky).pixels(),
                final(inky).pixels(),
                |px: int, py: int|
                    multiline_region(
                        self.font(font@)->0,
                        rect.width as int,
                        text.spec_bytes(),
                        rect.x as int,
                        rect.y + self.font(font@)->0.baseline,
                        px,
                        py,
                    ),
                color,
            ),
    {
        let font = self.font_named(font);
        let ghost f = *font;
        let ghost bytes = text.spec_bytes();
        let ghost width = rect.width as int;
        let ghost y0 = rect.y + f.baseline;
        let ghost start = inky.pixels();
        let mut y = rect.y + font.baseline as i32;
        let mut text_start: usize = 0;
        let mut rest: &str = text;
        let ghost mut k: nat = 0;
        proof {
            lemma_painted_nothing(start, color);
            assert(bytes.subrange(0, bytes.len() as int) =~= bytes);
        }
        while text_start < text.len()
            invariant
                inky.wf(),
                *font == f,
                bytes == text.spec_bytes(),
                bytes.len() <= usize::MAX,
                width == rect.width,
                y0 == rect.y + f.baseline,
                multiline_ok(f, width, bytes, rect.x as int, y0),
                text_start <= bytes.len(),
                rest.spec_bytes() == bytes.subrange(text_start as int, bytes.len() as int),
                multiline_state(f, width, bytes, y0, k) == (text_start as int, y as int),
                forall|j: nat| j < k ==> multiline_running(f, width, bytes, y0, j),
                painted(
                    start,
                    inky.pixels(),
                    |px: int, py: int|
                        exists|j: nat|
                            j < k && multiline_running(f, width, bytes, y0, j) && {
                                let (st, row) = #[trigger] multiline_state(f, width, bytes, y0, j);
                                text_region(f, line_chars(f, width, bytes, st), rect.x as int, row, px, py)
                            },
                    color,
                ),
            decreases bytes.len() - text_start,
        {
            proof {
                assert(multiline_running(f, width, bytes, y0, k));
                assert(rest@ == suffix_chars(bytes, text_start as int)) by {
                    vstd::utf8::encode_utf8_decode_utf8(rest@);
                }
                lemma_encode_utf8_len(rest@);
                lemma_line_break_bound(f, width, rest@, bytes.len() - text_start);
            }
            let break_at = self.calculate_break_at(font, rect.width, rest);
            let (line, after) = rest.split_at(break_at);
            proof {
                assert(line.spec_bytes() =~= bytes.subrange(text_start as int, text_start + break_at));
                assert(line@ == line_chars(f, width, bytes, text_start as int)) by {
                    vstd::utf8::encode_utf8_decode_utf8(line@);
                }
                assert(after.spec_bytes() =~= bytes.subrange(text_start + break_at, bytes.len() as int));
            }
            let ghost before = inky.pixels();
            let end = self.draw_text_run(inky, font, rect.x, y, line, color);
            proof {
                let done = |px: int, py: int|
                    exists|j: nat|
                        j < k && multiline_running(f, width, bytes, y0, j) && {
                            let (st, row) = #[trigger] multiline_state(f, width, bytes, y0, j);
                            text_region(f, line_chars(f, width, bytes, st), rect.x as int, row, px, py)
                        };
                let here = |px: int, py: int| text_region(f, line@, rect.x as int, y as int, px, py);
                lemma_painted_union(start, before, inky.pixels(), done, here, color);
                let next = |px: int, py: int|
                    exists|j: nat|
                        j < k + 1 && multiline_running(f, width, bytes, y0, j) && {
                            let (st, row) = #[trigger] multiline_state(f, width, bytes, y0, j);
                            text_region(f, line_chars(f, width, bytes, st), rect.x as int, row, px, py)
                        };
                assert forall|px: int, py: int| on_screen(px, py) implies (done(px, py) || here(px, py)) <==> next(px, py) by {
                    if next(px, py) {
                        let j = choose|j: nat|
                            j < k + 1 && multiline_running(f, width, bytes, y0, j) && {
                                let (st, row) = #[trigger] multiline_state(f, width, bytes, y0, j);
                                text_region(f, line_chars(f, width, bytes, st), rect.x as int, row, px, py)
                            };
                        if j < k {
                            assert(done(px, py));
                        }
                    }
                    if here(px, py) {
                        let _ = multiline_state(f, width, bytes, y0, k);
                    }
                }
                lemma_painted_same_region(start, inky.pixels(), |px: int, py: int| done(px, py) || here(px, py), next, color);
            }
            proof {
                assert(line@.take(line@.len() as int) =~= line@);
                assert(break_at == line_break(f, width, bytes, text_start as int));
                assert(multiline_state(f, width, bytes, y0, k + 1) == (text_start + break_at, y + text_advance_y(f, line@) + f.height));
            }
            y = end.1 + font.height as i32;
            text_start += break_at;
            rest = after;
            proof {
                k = k + 1;
            }
        }
        proof {
            assert(!multiline_running(f, width, bytes, y0, k));
            assert forall|px: int, py: int| on_screen(px, py) implies (exists|j: nat|
                j < k && multiline_running(f, width, bytes, y0, j) && {
                    let (st, row) = #[trigger] multiline_state(f, width, bytes, y0, j);
                    text_region(f, line_chars(f, width, bytes, st), rect.x as int, row, px, py)
                }) <==> multiline_region(f, width, bytes, rect.x as int, y0, px, py) by {
                if multiline_region(f, width, bytes, rect.x as int, y0, px, py) {
                    let j = choose|j: nat|
                        multiline_running(f, width, bytes, y0, j) && {
                            let (st, row) = #[trigger] multiline_state(f, width, bytes, y0, j);
                            text_region(f, line_chars(f, width, bytes, st), rect.x as int, row, px, py)
                        };
                    if j >= k {
                        lemma_multiline_stays(f, width, bytes, y0, k, j);
                    }
                }
            }
            lemma_painted_same_region(
                start,
                inky.pixels(),
                |px: int, py: int|
                    exists|j: nat|
                        j < k && multiline_running(f, width, bytes, y0, j) && {
                            let (st, row) = #[trigger] multiline_state(f, width, bytes, y0, j);
                            text_region(f, line_chars(f, width, bytes, st), rect.x as int, row, px, py)
                        },
                |px: int, py: int| multiline_region(f, width, bytes, rect.x as int, y0, px, py),
                color,
            );
        }
    }
}

/// Aligning text is shifting it: drawn at `x` aligned right, text sets the pixels it sets drawn
/// at `x` less its width aligned left, and centred those it sets at `x` less half its width
/// (rounded toward zero) aligned left; it can be drawn the one way when it can the other.
pub proof fn lemma_alignment_shifts_text(g: Graphics, font: Seq<char>, text: Seq<char>, x: int, y: int)
    ensures
        ({
            let shifted = x - text_width(g.font(font)->0, text);
            &&& forall|px: int, py: int|
                #[trigger] g.text_pixels(font, text, x, y, Alignment::Right, px, py) == g.text_pixels(
                    font,
                    text,
                    shifted,
                    y,
                    Alignment::Left,
                    px,
                    py,
                )
            &&& g.text_drawable(font, text, x, y, Alignment::Right) ==> g.text_drawable(font, text, shifted, y, Alignment::Left)
        }),
        ({
            let shifted = x - trunc_div(text_width(g.font(font)->0, text), 2);
            &&& forall|px: int, py: int|
                #[trigger] g.text_pixels(font, text, x, y, Alignment::Center, px, py) == g.text_pixels(
                    font,
                    text,
                    shifted,
                    y,
                    Alignment::Left,
                    px,
                    py,
                )
            &&& g.text_drawable(font, text, x, y, Alignment::Center) ==> g.text_drawable(font, text, shifted, y, Alignment::Left)
        }),
{
}

/// The pixels on the edge of `rect`: its first and last column and its first and last row.
pub open spec fn rect_border(rect: Rect, x: int, y: int) -> bool {
    &&& rect.contains(x, y)
    &&& (x == rect.x || x == rect.x + rect.width - 1 || y == rect.y || y == rect.y + rect.height - 1)
}

/// With corners of radius 0 an outlined rounded rectangle is a plain box: `draw_rounded_box`
/// with radius 0 sets exactly the pixels `draw_box` with border 1 sets, the edge of the
/// rectangle.
pub proof fn lemma_square_corners_draw_a_box(rect: Rect)
    requires
        rect.width >= 1,
        rect.height >= 1,
        fits_i32(rect.x + rect.width - 1),
        fits_i32(rect.y + rect.height - 1),
    ensures
        forall|x: int, y: int| #[trigger] rounded_box_region(rect, 0, x, y) == rect_border(rect, x, y),
        forall|x: int, y: int| #[trigger] box_region(rect, 1, x, y) == rect_border(rect, x, y),
{
    assert(circle_state(0, 0) == (0int, 0int, 0int));
    assert(circle_state(0, 1) == (1int, -1int, 1int));
    assert forall|k: nat| #[trigger] circle_running(0, k) implies k == 0 by {
        if k >= 1 {
            lemma_circle_running_prefix(0, 1, k);
        }
    }
    let corners = rounded_corner_points(rect, 0, 0, 0);
    let sides = rounded_box_sides(rect, 0);
    let bands = box_sides(rect, 1);
    assert forall|x: int, y: int| #[trigger] rounded_box_region(rect, 0, x, y) == rect_border(rect, x, y) by {
        if rect_border(rect, x, y) {
            if y == rect.y {
                assert(sides[0].contains(x, y));
            } else if x == rect.x {
                assert(sides[1].contains(x, y));
            } else if x == rect.x + rect.width - 1 {
                assert(sides[2].contains(x, y));
            } else {
                assert(sides[3].contains(x, y));
            }
        }
        if rounded_box_region(rect, 0, x, y) {
            if exists|k: nat, j: int|
                circle_running(0, k) && 0 <= j < 8 && #[trigger] rounded_corner_points(
                    rect,
                    0,
                    circle_state(0, k).1,
                    circle_state(0, k).2,
                )[j] == (x, y) {
                let (k, j) = choose|k: nat, j: int|
                    circle_running(0, k) && 0 <= j < 8 && #[trigger] rounded_corner_points(
                        rect,
                        0,
                        circle_state(0, k).1,
                        circle_state(0, k).2,
                    )[j] == (x, y);
                assert(k == 0);
                assert(corners[j] == (x, y));
            } else {
                let i = choose|i: int| 0 <= i < 4 && #[trigger] rounded_box_sides(rect, 0)[i].contains(x, y);
                assert(sides[i].contains(x, y));
            }
        }
    }
    assert forall|x: int, y: int| #[trigger] box_region(rect, 1, x, y) == rect_border(rect, x, y) by {
        if rect_border(rect, x, y) {
            if y == rect.y {
                assert(bands[0].contains(x, y));
            } else if y == rect.y + rect.height - 1 {
                assert(bands[3].contains(x, y));
            } else if x == rect.x {
                assert(bands[1].contains(x, y));
            } else {
                assert(bands[2].contains(x, y));
            }
        }
        if box_region(rect, 1, x, y) {
            let i = choose|i: int| 0 <= i < 4 && #[trigger] box_sides(rect, 1)[i].contains(x, y);
            assert(bands[i].contains(x, y));
        }
    }
}

} // verus!
