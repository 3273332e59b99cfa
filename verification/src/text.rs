use vstd::prelude::*;

use vstd::utf8::{decode_utf8, encode_scalar, encode_utf8, is_char_boundary};

use crate::font::Font;
use crate::rect::fits_i32;

verus! {

/// How far the glyph of `c` moves the pen to the right.
pub open spec fn advance_x(font: Font, c: char) -> int {
    font.glyph(c)->0.advance_x as int
}

/// How far the glyph of `c` moves the pen down.
pub open spec fn advance_y(font: Font, c: char) -> int {
    font.glyph(c)->0.advance_y as int
}

/// The sum of the horizontal advances of the characters of `s`.
pub open spec fn text_width(font: Font, s: Seq<char>) -> int
    decreases s.len(),
{
    if s.len() == 0 {
        0
    } else {
        text_width(font, s.drop_last()) + advance_x(font, s.last())
    }
}

/// The sum of the vertical advances of the characters of `s`.
pub open spec fn text_advance_y(font: Font, s: Seq<char>) -> int
    decreases s.len(),
{
    if s.len() == 0 {
        0
    } else {
        text_advance_y(font, s.drop_last()) + advance_y(font, s.last())
    }
}

/// Whether the font has a glyph, inside its atlas, for every character of `s`.
pub open spec fn has_glyphs(font: Font, s: Seq<char>) -> bool {
    forall|i: int| 0 <= i < s.len() ==> font.has_glyph(#[trigger] s[i])
}

/// Whether every running sum of the horizontal advances of `s` is an `i32`.
pub open spec fn width_fits(font: Font, s: Seq<char>) -> bool {
    forall|i: int| 0 <= i <= s.len() ==> fits_i32(#[trigger] text_width(font, s.take(i)))
}

/// The pen position before character `i` of `s` when the text starts at `(x, y)`.
pub open spec fn pen(font: Font, s: Seq<char>, x: int, y: int, i: int) -> (int, int) {
    (x + text_width(font, s.take(i)), y + text_advance_y(font, s.take(i)))
}

/// Where the top-left pixel of the glyph of `c` goes when the pen is at `(px, py)`.
pub open spec fn glyph_origin(font: Font, c: char, px: int, py: int) -> (int, int) {
    let g = font.glyph(c)->0;
    (px + g.bm_x, py - g.bm_y)
}

/// The pixels the glyph of `c` sets when its top-left pixel is at `(ox, oy)`: its set bitmap
/// pixels, rows going up the screen.
pub open spec fn glyph_region(font: Font, c: char, ox: int, oy: int, x: int, y: int) -> bool {
    let g = font.glyph(c)->0;
    let cx = x - ox;
    let cy = oy - y;
    &&& 0 <= cx < g.bm_width
    &&& 0 <= cy < g.bm_height
    &&& font.glyph_pixel(c, cx, cy)
}

/// Whether drawing the glyph of `c` at `(ox, oy)` keeps the coordinates of its set pixels in
/// range.
pub open spec fn glyph_fits(font: Font, c: char, ox: int, oy: int) -> bool {
    let g = font.glyph(c)->0;
    forall|cx: int, cy: int|
        0 <= cx < g.bm_width && 0 <= cy < g.bm_height && #[trigger] font.glyph_pixel(c, cx, cy)
            ==> fits_i32(ox + cx) && fits_i32(oy - cy)
}

/// The pixels the first `n` characters of `s` set when the text starts with the pen at
/// `(x, y)`.
pub open spec fn text_region_upto(
    font: Font,
    s: Seq<char>,
    x: int,
    y: int,
    n: int,
    px: int,
    py: int,
) -> bool {
    exists|i: int|
        0 <= i < n && {
            let (pen_x, pen_y) = #[trigger] pen(font, s, x, y, i);
            let (ox, oy) = glyph_origin(font, s[i], pen_x, pen_y);
            glyph_region(font, s[i], ox, oy, px, py)
        }
}

/// The pixels the text `s` sets when it starts with the pen at `(x, y)`.
pub open spec fn text_region(font: Font, s: Seq<char>, x: int, y: int, px: int, py: int) -> bool {
    text_region_upto(font, s, x, y, s.len() as int, px, py)
}

/// The pen moves by the advances of each character in turn.
pub proof fn lemma_pen_step(font: Font, s: Seq<char>, x: int, y: int, i: int)
    requires
        0 <= i < s.len(),
    ensures
        pen(font, s, x, y, i + 1) == (pen(font, s, x, y, i).0 + advance_x(font, s[i]), pen(
            font,
            s,
            x,
            y,
            i,
        ).1 + advance_y(font, s[i])),
        text_width(font, s.take(i + 1)) == text_width(font, s.take(i)) + advance_x(font, s[i]),
{
    assert(s.take(i + 1).drop_last() =~= s.take(i));
}

/// Whether drawing `s` from `(x, y)` keeps every coordinate it computes in range.
pub open spec fn text_fits(font: Font, s: Seq<char>, x: int, y: int) -> bool {
    &&& forall|i: int|
        0 <= i <= s.len() ==> {
            let (pen_x, pen_y) = #[trigger] pen(font, s, x, y, i);
            fits_i32(pen_x) && fits_i32(pen_y)
        }
    &&& forall|i: int|
        0 <= i < s.len() ==> {
            let (pen_x, pen_y) = #[trigger] pen(font, s, x, y, i);
            let (ox, oy) = glyph_origin(font, s[i], pen_x, pen_y);
            &&& fits_i32(ox)
            &&& fits_i32(oy)
            &&& glyph_fits(font, s[i], ox, oy)
        }
}

/// Whether the non-space character `s[i]` would stick out past `width` when the line is laid
/// out from zero.
pub open spec fn overflows_at(font: Font, width: int, s: Seq<char>, i: int) -> bool {
    s[i] != ' ' && text_width(font, s.take(i)) + font.glyph(s[i])->0.bm_width > width
}

/// The first character at or after `from` that would stick out past `width`, if any.
pub open spec fn first_overflow(font: Font, width: int, s: Seq<char>, from: int) -> Option<int>
    decreases s.len() - from,
{
    if from < 0 || from >= s.len() {
        None
    } else if overflows_at(font, width, s, from) {
        Some(from)
    } else {
        first_overflow(font, width, s, from + 1)
    }
}

/// One past the last space before position `j`, or zero when there is none.
pub open spec fn last_space_end(s: Seq<char>, j: int) -> int
    decreases j,
{
    if j <= 0 {
        0
    } else if s[j - 1] == ' ' {
        j
    } else {
        last_space_end(s, j - 1)
    }
}

/// Where a line of `s` at most `width` wide ends: after the last space before the first
/// character that would stick out, or, when nothing sticks out, `byte_len` (the text's length
/// in bytes).
pub open spec fn break_value(font: Font, width: int, s: Seq<char>, byte_len: int) -> int {
    match first_overflow(font, width, s, 0) {
        Some(j) => last_space_end(s, j),
        None => byte_len,
    }
}

/// Whether laying out `s` against `width` keeps its running sums in range.
pub open spec fn break_fits(font: Font, s: Seq<char>) -> bool {
    &&& width_fits(font, s)
    &&& forall|i: int|
        0 <= i < s.len() ==> fits_i32(
            #[trigger] text_width(font, s.take(i)) + font.glyph(s[i])->0.bm_width,
        )
}

/// A text takes at least one byte per character.
pub proof fn lemma_encode_utf8_len(chars: Seq<char>)
    ensures
        encode_utf8(chars).len() >= chars.len(),
    decreases chars.len(),
{
    if chars.len() > 0 {
        lemma_encode_utf8_len(chars.drop_first());
        assert(encode_scalar(chars[0] as u32).len() >= 1);
    }
}

/// The characters of the text whose UTF-8 encoding is `bytes`, from byte `start` on.
pub open spec fn suffix_chars(bytes: Seq<u8>, start: int) -> Seq<char> {
    decode_utf8(bytes.subrange(start, bytes.len() as int))
}

/// How many bytes the line starting at byte `start` takes: the break position the line
/// breaking rule gives for the rest of the text (a character count, or the rest's byte length
/// when nothing sticks out).
pub open spec fn line_break(font: Font, width: int, bytes: Seq<u8>, start: int) -> int {
    break_value(font, width, suffix_chars(bytes, start), bytes.len() - start)
}

/// The characters of the line starting at byte `start`.
pub open spec fn line_chars(font: Font, width: int, bytes: Seq<u8>, start: int) -> Seq<char> {
    decode_utf8(bytes.subrange(start, start + line_break(font, width, bytes, start)))
}

/// The byte where line `k` starts and the pen row it is drawn on, when the first line is
/// drawn on row `y`: each line moves the pen down by its characters' vertical advances and then
/// by the font's height. Past the end of the text it stays put.
pub open spec fn multiline_state(font: Font, width: int, bytes: Seq<u8>, y: int, k: nat) -> (int, int)
    decreases k,
{
    if k == 0 {
        (0, y)
    } else {
        let (start, row) = multiline_state(font, width, bytes, y, (k - 1) as nat);
        if start >= bytes.len() {
            (start, row)
        } else {
            let line = line_chars(font, width, bytes, start);
            (start + line_break(font, width, bytes, start), row + text_advance_y(font, line) + font.height)
        }
    }
}

/// Whether line `k` starts before the end of the text.
pub open spec fn multiline_running(font: Font, width: int, bytes: Seq<u8>, y: int, k: nat) -> bool {
    multiline_state(font, width, bytes, y, k).0 < bytes.len()
}

/// The pixels the lines of the text set, each drawn from column `x`.
pub open spec fn multiline_region(font: Font, width: int, bytes: Seq<u8>, x: int, y: int, px: int, py: int) -> bool {
    exists|k: nat|
        multiline_running(font, width, bytes, y, k) && {
            let (start, row) = #[trigger] multiline_state(font, width, bytes, y, k);
            text_region(font, line_chars(font, width, bytes, start), x, row, px, py)
        }
}

/// Whether every line of the text can be laid out and drawn: each takes at least one byte and
/// ends on a character boundary, every character of it and of the rest of the text has a glyph,
/// and the coordinates stay in range.
pub open spec fn multiline_ok(font: Font, width: int, bytes: Seq<u8>, x: int, y: int) -> bool {
    forall|k: nat|
        #[trigger] multiline_running(font, width, bytes, y, k) ==> multiline_line_ok(font, width, bytes, x, y, k)
}

/// Whether line `k` of the text can be laid out and drawn: it takes at least one byte and ends on
/// a character boundary, every character of it and of the rest of the text has a glyph, and the
/// coordinates stay in range.
pub open spec fn multiline_line_ok(font: Font, width: int, bytes: Seq<u8>, x: int, y: int, k: nat) -> bool {
    let (start, row) = multiline_state(font, width, bytes, y, k);
    let rest = suffix_chars(bytes, start);
    let b = line_break(font, width, bytes, start);
    let line = line_chars(font, width, bytes, start);
    &&& forall|i: int| 0 <= i < rest.len() ==> (#[trigger] font.glyph(rest[i])) is Some
    &&& break_fits(font, rest)
    &&& b > 0
    &&& is_char_boundary(bytes.subrange(start, bytes.len() as int), b)
    &&& has_glyphs(font, line)
    &&& text_fits(font, line, x, row)
    &&& fits_i32(multiline_state(font, width, bytes, y, k + 1).1)
}

/// A line break never runs past the end of the text.
pub proof fn lemma_line_break_bound(font: Font, width: int, s: Seq<char>, byte_len: int)
    requires
        s.len() <= byte_len,
    ensures
        0 <= break_value(font, width, s, byte_len) <= byte_len,
{
    if let Some(j) = first_overflow(font, width, s, 0) {
        lemma_first_overflow_range(font, width, s, 0);
        lemma_last_space_end_range(s, j);
    }
}

proof fn lemma_first_overflow_range(font: Font, width: int, s: Seq<char>, from: int)
    requires
        0 <= from,
    ensures
        first_overflow(font, width, s, from) matches Some(j) ==> from <= j < s.len(),
    decreases s.len() - from,
{
    if from < s.len() && !overflows_at(font, width, s, from) {
        lemma_first_overflow_range(font, width, s, from + 1);
    }
}

proof fn lemma_last_space_end_range(s: Seq<char>, j: int)
    ensures
        j >= 0 ==> 0 <= last_space_end(s, j) <= j,
    decreases j,
{
    if j > 0 {
        lemma_last_space_end_range(s, j - 1);
    }
}

/// Past the end of the text the line walk stays put.
pub proof fn lemma_multiline_stays(font: Font, width: int, bytes: Seq<u8>, y: int, k: nat, j: nat)
    requires
        k <= j,
        !multiline_running(font, width, bytes, y, k),
    ensures
        multiline_state(font, width, bytes, y, j) == multiline_state(font, width, bytes, y, k),
    decreases j - k,
{
    if k < j {
        lemma_multiline_stays(font, width, bytes, y, k, (j - 1) as nat);
    }
}

} // verus!
