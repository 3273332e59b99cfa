use vstd::prelude::*;
use vstd::string::StringSliceAdditionalSpecFns;

use std::collections::HashMap;

use crate::font::{bit_set, packed_bit, Character, Font};

verus! {

broadcast use vstd::std_specs::hash::group_hash_axioms;

/// Carriage return.
pub const CR: u8 = 13;
/// Line feed.
pub const LF: u8 = 10;
/// Space.
pub const SPACE: u8 = 32;
/// The digit `0`.
pub const DIGIT_ZERO: u8 = 48;
/// The digit `9`.
pub const DIGIT_NINE: u8 = 57;
/// The letter `a`.
pub const LOWER_A: u8 = 97;
/// The letter `f`.
pub const LOWER_F: u8 = 102;
/// The letter `A`.
pub const UPPER_A: u8 = 65;
/// The letter `F`.
pub const UPPER_F: u8 = 70;
/// Minus sign.
pub const MINUS: u8 = 45;
/// Plus sign.
pub const PLUS: u8 = 43;

/// The views of a list of byte vectors.
pub open spec fn pieces_view(v: Seq<Vec<u8>>) -> Seq<Seq<u8>> {
    v.map_values(|p: Vec<u8>| p@)
}

/// `line` without one trailing carriage return.
pub open spec fn strip_cr(line: Seq<u8>) -> Seq<u8> {
    if line.len() > 0 && line.last() == CR {
        line.drop_last()
    } else {
        line
    }
}

/// The lines of `s[start..]`, where the current line began at `start` and bytes up to `i` hold
/// no line feed: lines end at a line feed (with a carriage return before it dropped), and a
/// last line without a line feed counts only if it is not empty.
pub open spec fn lines_from(s: Seq<u8>, start: int, i: int) -> Seq<Seq<u8>>
    decreases s.len() - i,
{
    if i >= s.len() {
        if start < s.len() {
            seq![s.subrange(start, s.len() as int)]
        } else {
            seq![]
        }
    } else if s[i] == LF {
        seq![strip_cr(s.subrange(start, i))] + lines_from(s, i + 1, i + 1)
    } else {
        lines_from(s, start, i + 1)
    }
}

/// The lines of a text.
pub open spec fn text_lines(s: Seq<u8>) -> Seq<Seq<u8>> {
    lines_from(s, 0, 0)
}

/// The space-separated fields of `s[start..]`, where the current field began at `start` and
/// bytes up to `i` hold no space.
pub open spec fn fields_from(s: Seq<u8>, start: int, i: int) -> Seq<Seq<u8>>
    decreases s.len() - i,
{
    if i >= s.len() {
        seq![s.subrange(start, s.len() as int)]
    } else if s[i] == SPACE {
        seq![s.subrange(start, i)] + fields_from(s, i + 1, i + 1)
    } else {
        fields_from(s, start, i + 1)
    }
}

/// The fields of a line, split at every single space; there is always at least one.
pub open spec fn line_fields(s: Seq<u8>) -> Seq<Seq<u8>> {
    fields_from(s, 0, 0)
}

/// Splits a text into its lines.
pub fn split_lines(text: &[u8]) -> (lines: Vec<Vec<u8>>)
    ensures
        pieces_view(lines@) == text_lines(text@),
{
    let mut lines: Vec<Vec<u8>> = Vec::new();
    let mut current: Vec<u8> = Vec::new();
    let mut start: usize = 0;
    let mut i: usize = 0;
    while i < text.len()
        invariant
            start <= i <= text.len(),
            current@ == text@.subrange(start as int, i as int),
            pieces_view(lines@) + lines_from(text@, start as int, i as int) == text_lines(text@),
        decreases text.len() - i,
    {
        let ghost before = pieces_view(lines@);
        if text[i] == LF {
            let ghost line = strip_cr(current@);
            if current.len() > 0 && current[current.len() - 1] == CR {
                current.pop();
            }
            assert(current@ =~= line);
            lines.push(current);
            current = Vec::new();
            assert(pieces_view(lines@) =~= before + seq![line]);
            assert(pieces_view(lines@) + lines_from(text@, i + 1, i + 1) =~= before + lines_from(
                text@,
                start as int,
                i as int,
            ));
            start = i + 1;
        } else {
            current.push(text[i]);
            assert(current@ =~= text@.subrange(start as int, i + 1));
        }
        i += 1;
    }
    if start < text.len() {
        let ghost before = pieces_view(lines@);
        lines.push(current);
        assert(pieces_view(lines@) =~= before + seq![text@.subrange(start as int, text.len() as int)]);
    } else {
        assert(pieces_view(lines@) =~= pieces_view(lines@) + Seq::<Seq<u8>>::empty());
    }
    lines
}

/// Splits a line into its space-separated fields.
pub fn split_fields(line: &[u8]) -> (fields: Vec<Vec<u8>>)
    ensures
        pieces_view(fields@) == line_fields(line@),
{
    let mut fields: Vec<Vec<u8>> = Vec::new();
    let mut current: Vec<u8> = Vec::new();
    let mut start: usize = 0;
    let mut i: usize = 0;
    while i < line.len()
        invariant
            start <= i <= line.len(),
            current@ == line@.subrange(start as int, i as int),
            pieces_view(fields@) + fields_from(line@, start as int, i as int) == line_fields(line@),
        decreases line.len() - i,
    {
        let ghost before = pieces_view(fields@);
        if line[i] == SPACE {
            fields.push(current);
            current = Vec::new();
            assert(pieces_view(fields@) =~= before + seq![line@.subrange(start as int, i as int)]);
            assert(pieces_view(fields@) + fields_from(line@, i + 1, i + 1) =~= before
                + fields_from(line@, start as int, i as int));
            start = i + 1;
        } else {
            current.push(line[i]);
            assert(current@ =~= line@.subrange(start as int, i + 1));
        }
        i += 1;
    }
    let ghost before = pieces_view(fields@);
    fields.push(current);
    assert(pieces_view(fields@) =~= before + seq![line@.subrange(start as int, line.len() as int)]);
    fields
}

/// Whether `b` is an ASCII decimal digit.
pub open spec fn is_digit(b: u8) -> bool {
    DIGIT_ZERO <= b <= DIGIT_NINE
}

/// Whether every byte of `s` is an ASCII decimal digit.
pub open spec fn all_digits(s: Seq<u8>) -> bool {
    forall|i: int| 0 <= i < s.len() ==> is_digit(#[trigger] s[i])
}

/// The number written in decimal by the digits `s`.
pub open spec fn decimal(s: Seq<u8>) -> int
    decreases s.len(),
{
    if s.len() == 0 {
        0
    } else {
        decimal(s.drop_last()) * 10 + (s.last() - DIGIT_ZERO)
    }
}

/// The integer that `s` spells, if it lies in `min..=max`: an optional sign (a minus only
/// where `min` is negative) and then at least one decimal digit, nothing else.
pub open spec fn parse_integer(s: Seq<u8>, min: int, max: int) -> Option<int> {
    if s.len() == 0 {
        None
    } else {
        let negative = min < 0 && s[0] == MINUS;
        let digits = if s[0] == PLUS || negative {
            s.skip(1)
        } else {
            s
        };
        let value = if negative {
            -decimal(digits)
        } else {
            decimal(digits)
        };
        if digits.len() == 0 || !all_digits(digits) || value < min || value > max {
            None
        } else {
            Some(value)
        }
    }
}

proof fn lemma_decimal_nonnegative(s: Seq<u8>)
    requires
        all_digits(s),
    ensures
        decimal(s) >= 0,
    decreases s.len(),
{
    if s.len() > 0 {
        assert(all_digits(s.drop_last()));
        lemma_decimal_nonnegative(s.drop_last());
        assert(is_digit(s[s.len() - 1]));
    }
}

/// A decimal number is at least the number that any of its prefixes spells.
proof fn lemma_decimal_prefix(s: Seq<u8>, k: int)
    requires
        all_digits(s),
        0 <= k <= s.len(),
    ensures
        0 <= decimal(s.take(k)) <= decimal(s),
    decreases s.len() - k,
{
    if k == s.len() {
        assert(s.take(k) =~= s);
        lemma_decimal_nonnegative(s);
    } else {
        let d = s.drop_last();
        assert(all_digits(d));
        lemma_decimal_prefix(d, k);
        assert(d.take(k) =~= s.take(k));
        lemma_decimal_nonnegative(d);
        assert(is_digit(s[s.len() - 1]));
    }
}

/// Parses an integer in `min..=max` written in decimal, as `str::parse` does for the integer
/// type with that range.
pub fn parse_integer_in(s: &[u8], min: i64, max: i64) -> (r: Option<i64>)
    requires
        -0x1_0000_0000 <= min <= 0 <= max <= 0x1_0000_0000,
    ensures
        r matches Some(v) ==> parse_integer(s@, min as int, max as int) == Some(v as int),
        r is None ==> parse_integer(s@, min as int, max as int) is None,
{
    if s.len() == 0 {
        return None;
    }
    let negative = min < 0 && s[0] == MINUS;
    let first: usize = if s[0] == PLUS || negative {
        1
    } else {
        0
    };
    let ghost digits = s@.skip(first as int);
    assert(s@.skip(0) =~= s@);
    if first == s.len() {
        return None;
    }
    let mut value: i64 = 0;
    let mut i: usize = first;
    while i < s.len()
        invariant
            s.len() > 0,
            -0x1_0000_0000 <= min <= 0 <= max <= 0x1_0000_0000,
            negative == (min < 0 && s@[0] == MINUS),
            first == (if s@[0] == PLUS || negative { 1usize } else { 0usize }),
            first < s.len(),
            first <= i <= s.len(),
            digits == s@.skip(first as int),
            digits == (if s@[0] == PLUS || negative { s@.skip(1) } else { s@ }),
            value == decimal(digits.take(i - first)),
            0 <= value <= 0x1_0000_0000,
            forall|j: int| 0 <= j < i - first ==> is_digit(#[trigger] digits[j]),
        decreases s.len() - i,
    {
        let b = s[i];
        if b < DIGIT_ZERO || b > DIGIT_NINE {
            assert(!is_digit(digits[i - first]));
            return None;
        }
        assert(digits.take(i - first + 1).drop_last() =~= digits.take(i - first));
        value = value * 10 + (b - DIGIT_ZERO) as i64;
        i += 1;
        assert(value == decimal(digits.take(i - first)));
        if value > 0x1_0000_0000 {
            proof {
                if all_digits(digits) {
                    lemma_decimal_prefix(digits, i - first);
                }
            }
            return None;
        }
    }
    assert(digits.take(i - first) =~= digits);
    let signed = if negative {
        -value
    } else {
        value
    };
    if signed < min || signed > max {
        None
    } else {
        Some(signed)
    }
}


/// The byte whose bit `k` is set exactly where `f(k)` holds, for `k` in `0..8`.
pub open spec fn byte_of(f: spec_fn(int) -> bool) -> u8 {
    (if f(0) { 1u8 } else { 0u8 }) | (if f(1) { 2u8 } else { 0u8 }) | (if f(2) { 4u8 } else { 0u8 })
        | (if f(3) { 8u8 } else { 0u8 }) | (if f(4) { 16u8 } else { 0u8 }) | (if f(5) { 32u8 } else {
        0u8
    }) | (if f(6) { 64u8 } else { 0u8 }) | (if f(7) { 128u8 } else { 0u8 })
}

proof fn lemma_byte_of_bits(b: u8)
    ensures
        b == byte_of(|k: int| bit_set(b, k)),
{
    assert(b == ((if b & (1u8 << 0u8) != 0 { 1u8 } else { 0u8 }) | (if b & (1u8 << 1u8) != 0 { 2u8 } else { 0u8 })
        | (if b & (1u8 << 2u8) != 0 { 4u8 } else { 0u8 }) | (if b & (1u8 << 3u8) != 0 { 8u8 } else { 0u8 })
        | (if b & (1u8 << 4u8) != 0 { 16u8 } else { 0u8 }) | (if b & (1u8 << 5u8) != 0 { 32u8 } else { 0u8 })
        | (if b & (1u8 << 6u8) != 0 { 64u8 } else { 0u8 }) | (if b & (1u8 << 7u8) != 0 { 128u8 } else { 0u8 })))
        by (bit_vector);
}

/// Why a font description could not be read.
#[derive(Clone, Copy, Debug, PartialEq, Eq, Structural)]
pub enum BdfError {
    /// `ENCODING` without a number.
    MissingEncoding,
    /// `DWIDTH` without its first number.
    MissingAdvanceX,
    /// `DWIDTH` without its second number.
    MissingAdvanceY,
    /// `BBX` without its first number.
    MissingBitmapWidth,
    /// `BBX` without its second number.
    MissingBitmapHeight,
    /// `BBX` without its third number.
    MissingBitmapX,
    /// `BBX` without its fourth number.
    MissingBitmapY,
    /// A number that is not written right or does not fit its field.
    InvalidNumber,
    /// An encoding that is not a Unicode scalar value.
    InvalidCharacterCode,
    /// The text ends before all rows of a glyph's bitmap.
    MissingBitmapLine,
    /// A bitmap row holds something other than a hexadecimal digit.
    InvalidBitmapDigit,
}

/// The value of the hexadecimal digit `b`, if it is one.
pub open spec fn hex_value(b: u8) -> Option<u8> {
    if DIGIT_ZERO <= b <= DIGIT_NINE {
        Some((b - DIGIT_ZERO) as u8)
    } else if LOWER_A <= b <= LOWER_F {
        Some((b - LOWER_A + 10) as u8)
    } else if UPPER_A <= b <= UPPER_F {
        Some((b - UPPER_A + 10) as u8)
    } else {
        None
    }
}

/// Whether the digits of a bitmap row `width` pixels wide are hexadecimal: one digit holds four
/// pixels, and digits past the row's width are not read.
pub open spec fn row_valid(line: Seq<u8>, width: int) -> bool {
    forall|j: int| 0 <= j < line.len() && j < (width + 3) / 4 ==> (#[trigger] hex_value(line[j])) is Some
}

/// Whether pixel `x` of a bitmap row is lit: the bit for it, most significant first, in the
/// digit that holds it; pixels past the end of the row are not.
pub open spec fn row_lit(line: Seq<u8>, x: int) -> bool {
    &&& x / 4 < line.len()
    &&& hex_value(line[x / 4]) is Some
    &&& hex_value(line[x / 4])->0 & (1u8 << ((3 - x % 4) as u8)) != 0
}

/// Whether pixel `j` (from 0 to 3) of the four a hexadecimal digit of value `v` holds is lit:
/// the first is its eights bit, then its fours, twos and ones bits.
pub open spec fn digit_pixel(v: int, j: int) -> bool {
    (v / (if j == 0 {
        8int
    } else if j == 1 {
        4
    } else if j == 2 {
        2
    } else {
        1
    })) % 2 == 1
}

/// Each hexadecimal digit of a bitmap row holds the next four pixels of the row: pixel `x` is
/// lit exactly when the digit at position `x / 4` is hexadecimal and has pixel `x % 4` of its
/// four lit, most significant bit first.
pub proof fn lemma_row_pixels_from_digits(line: Seq<u8>, x: int)
    requires
        x >= 0,
    ensures
        row_lit(line, x) == (x / 4 < line.len() && hex_value(line[x / 4]) is Some && digit_pixel(
            hex_value(line[x / 4])->0 as int,
            x % 4,
        )),
{
    if x / 4 < line.len() && hex_value(line[x / 4]) is Some {
        let v = hex_value(line[x / 4])->0;
        assert(v < 16);
        let j = x % 4;
        if j == 0 {
            assert((3 - x % 4) as u8 == 3u8);
            assert(v & (1u8 << 3u8) != 0 <==> (v / 8) % 2 == 1) by (bit_vector)
                requires
                    v < 16,
            ;
        } else if j == 1 {
            assert((3 - x % 4) as u8 == 2u8);
            assert(v & (1u8 << 2u8) != 0 <==> (v / 4) % 2 == 1) by (bit_vector)
                requires
                    v < 16,
            ;
        } else if j == 2 {
            assert((3 - x % 4) as u8 == 1u8);
            assert(v & (1u8 << 1u8) != 0 <==> (v / 2) % 2 == 1) by (bit_vector)
                requires
                    v < 16,
            ;
        } else {
            assert((3 - x % 4) as u8 == 0u8);
            assert(v & (1u8 << 0u8) != 0 <==> v % 2 == 1) by (bit_vector)
                requires
                    v < 16,
            ;
        }
    }
}

/// Whether pixel number `index` (row after row) of a glyph `width` by `height` pixels is lit,
/// read from `rows`: the rows come top first, while the glyph's row `0` is its bottom one.
pub open spec fn glyph_lit(rows: Seq<Seq<u8>>, width: int, height: int, index: int) -> bool {
    0 <= index < width * height && row_lit(rows[height - 1 - index / width], index % width)
}

/// The bytes of a glyph read from `rows`, one bit per pixel, least significant first.
pub open spec fn glyph_bytes(rows: Seq<Seq<u8>>, width: int, height: int) -> Seq<u8> {
    Seq::new(
        ((width * height + 7) / 8) as nat,
        |j: int| byte_of(|k: int| glyph_lit(rows, width, height, 8 * j + k)),
    )
}

/// The error met reading `count` bitmap rows of `width` pixels from line `first` on, if any:
/// rows are read in order, and the first that is missing or not hexadecimal decides.
pub open spec fn rows_error(lines: Seq<Seq<u8>>, first: int, width: int, count: int) -> Option<BdfError>
    decreases count,
{
    if count <= 0 {
        None
    } else if first < 0 || first >= lines.len() {
        Some(BdfError::MissingBitmapLine)
    } else if !row_valid(lines[first], width) {
        Some(BdfError::InvalidBitmapDigit)
    } else {
        rows_error(lines, first + 1, width, count - 1)
    }
}

/// Whether bit number `index` of `buf` is set, counting bytes in order and each byte's bits
/// from the least significant.
pub open spec fn bit_at(buf: Seq<u8>, index: int) -> bool {
    bit_set(buf[index / 8], index % 8)
}

/// The value of a hexadecimal digit.
pub fn hex_digit(b: u8) -> (r: Option<u8>)
    ensures
        r == hex_value(b),
{
    if DIGIT_ZERO <= b && b <= DIGIT_NINE {
        Some(b - DIGIT_ZERO)
    } else if LOWER_A <= b && b <= LOWER_F {
        Some(b - LOWER_A + 10)
    } else if UPPER_A <= b && b <= UPPER_F {
        Some(b - UPPER_A + 10)
    } else {
        None
    }
}

/// Whether a bitmap row `width` pixels wide is hexadecimal where it is read.
fn row_is_valid(line: &Vec<u8>, width: usize) -> (r: bool)
    requires
        width <= 255,
    ensures
        r == row_valid(line@, width as int),
{
    let digits = (width + 3) / 4;
    let mut j: usize = 0;
    while j < line.len() && j < digits
        invariant
            digits == (width + 3) / 4,
            forall|i: int| 0 <= i < j ==> (#[trigger] hex_value(line@[i])) is Some,
        decreases line.len() - j,
    {
        if hex_digit(line[j]).is_none() {
            return false;
        }
        j += 1;
    }
    true
}

proof fn lemma_set_bit(b: u8, k: u8, q: u8)
    requires
        k < 8,
        q < 8,
    ensures
        (b | (1u8 << k)) & (1u8 << q) != 0 <==> (b & (1u8 << q) != 0 || q == k),
{
    assert((b | (1u8 << k)) & (1u8 << q) != 0 <==> (b & (1u8 << q) != 0 || q == k)) by (bit_vector)
        requires
            k < 8,
            q < 8,
    ;
}

/// Sets bit number `index` of `buf`.
pub(crate) fn set_bit(buf: &mut Vec<u8>, index: usize)
    requires
        index / 8 < old(buf).len(),
    ensures
        final(buf).len() == old(buf).len(),
        forall|q: int| 0 <= q < 8 * old(buf).len() ==> #[trigger] bit_at(final(buf)@, q) == (bit_at(old(buf)@, q) || q == index),
{
    let byte = index / 8;
    let bit = (index % 8) as u8;
    let old_byte = buf[byte];
    buf.set(byte, old_byte | (1u8 << bit));
    assert forall|q: int| 0 <= q < 8 * old(buf).len() implies #[trigger] bit_at(buf@, q) == (bit_at(old(buf)@, q) || q == index) by {
        if q / 8 == byte as int {
            lemma_set_bit(old_byte, bit, (q % 8) as u8);
        }
    }
}

/// Whether `q` lies in the row `y` of a grid `width` wide, and then its column.
proof fn lemma_row_index(q: int, y: int, width: int)
    requires
        width > 0,
        q >= 0,
        y >= 0,
    ensures
        (q / width == y) <==> (y * width <= q < y * width + width),
        y * width <= q < y * width + width ==> q % width == q - y * width,
{
    assert((q / width == y) <==> (y * width <= q < y * width + width)) by (nonlinear_arith)
        requires
            width > 0,
            q >= 0,
            y >= 0,
    ;
    assert(y * width <= q < y * width + width ==> q % width == q - y * width) by (nonlinear_arith)
        requires
            width > 0,
            q >= 0,
            y >= 0,
    ;
}

/// Lights the pixels of row `y` of a glyph `width` pixels wide that the digits of `line` light.
fn set_row_bits(buf: &mut Vec<u8>, line: &Vec<u8>, width: usize, y: usize)
    requires
        width <= 255,
        y <= 255,
        row_valid(line@, width as int),
        y * width + width <= 8 * old(buf).len(),
    ensures
        final(buf).len() == old(buf).len(),
        forall|q: int| 0 <= q < 8 * old(buf).len() ==> #[trigger] bit_at(final(buf)@, q) == (bit_at(old(buf)@, q) || (
            y * width <= q < y * width + width && row_lit(line@, q - y * width))),
{
    let ghost start = buf@;
    assert(y * width <= 255 * 255) by (nonlinear_arith)
        requires
            width <= 255,
            y <= 255,
    ;
    let base = y * width;
    let mut x: usize = 0;
    while x < width
        invariant
            width <= 255,
            base <= 255 * 255,
            row_valid(line@, width as int),
            base == y * width,
            base + width <= 8 * start.len(),
            x <= width,
            buf.len() == start.len(),
            forall|q: int| 0 <= q < 8 * start.len() ==> #[trigger] bit_at(buf@, q) == (bit_at(start, q) || (
                base <= q < base + x && row_lit(line@, q - base))),
        decreases width - x,
    {
        let j = x / 4;
        if j < line.len() {
            assert(j < (width + 3) / 4);
            assert(hex_value(line@[j as int]) is Some);
            let value = hex_digit(line[j]).unwrap();
            let shift = (3 - x % 4) as u8;
            if value & (1u8 << shift) != 0 {
                let ghost mid = buf@;
                set_bit(buf, base + x);
                assert(row_lit(line@, x as int));
                assert forall|q: int| 0 <= q < 8 * start.len() implies #[trigger] bit_at(buf@, q) == (bit_at(start, q) || (
                    base <= q < base + x + 1 && row_lit(line@, q - base))) by {
                    assert(bit_at(buf@, q) == (bit_at(mid, q) || q == base + x));
                }
            } else {
                assert(!row_lit(line@, x as int));
            }
        } else {
            assert(!row_lit(line@, x as int));
        }
        x += 1;
    }
}

proof fn lemma_byte_of_ext(f: spec_fn(int) -> bool, g: spec_fn(int) -> bool)
    requires
        forall|k: int| 0 <= k < 8 ==> #[trigger] f(k) == g(k),
    ensures
        byte_of(f) == byte_of(g),
{
    assert(f(0) == g(0) && f(1) == g(1) && f(2) == g(2) && f(3) == g(3));
    assert(f(4) == g(4) && f(5) == g(5) && f(6) == g(6) && f(7) == g(7));
}

/// Where pixel `q` of a glyph `width` by `height` pixels lies: row `q / width`, which is `y`
/// exactly when `q` lies in that row's span.
proof fn lemma_glyph_row(q: int, y: int, width: int, height: int)
    requires
        width > 0,
        0 <= q,
        0 <= y < height,
    ensures
        (q / width == y) <==> (y * width <= q < y * width + width),
        y * width <= q < y * width + width ==> q % width == q - y * width && q < width * height,
        q < width * height ==> 0 <= q / width < height,
{
    lemma_row_index(q, y, width);
    assert(y * width <= q < y * width + width ==> q < width * height) by (nonlinear_arith)
        requires
            width > 0,
            0 <= y < height,
    ;
    assert(q < width * height ==> 0 <= q / width < height) by (nonlinear_arith)
        requires
            width > 0,
            0 <= q,
    ;
}

/// Reads the `height` bitmap rows of a glyph `width` pixels wide from line `first` on, top row
/// first, into one bit per pixel with the glyph's bottom row first.
fn read_glyph(lines: &Vec<Vec<u8>>, first: usize, width: u8, height: u8) -> (r: Result<Vec<u8>, BdfError>)
    requires
        first <= lines.len(),
    ensures
        match r {
            Ok(bytes) => rows_error(pieces_view(lines@), first as int, width as int, height as int) is None
                && bytes@ == glyph_bytes(
                pieces_view(lines@).subrange(first as int, first + height),
                width as int,
                height as int,
            ),
            Err(e) => rows_error(pieces_view(lines@), first as int, width as int, height as int) == Some(e),
        },
{
    let ghost view = pieces_view(lines@);
    let w = width as usize;
    let h = height as usize;
    assert(w * h <= 255 * 255) by (nonlinear_arith)
        requires
            w <= 255,
            h <= 255,
    ;
    let n = (w * h + 7) / 8;
    let mut buf: Vec<u8> = Vec::new();
    while buf.len() < n
        invariant
            buf.len() <= n,
            forall|i: int| 0 <= i < buf.len() ==> buf@[i] == 0u8,
        decreases n - buf.len(),
    {
        buf.push(0);
    }
    assert forall|q: int| 0 <= q < 8 * n implies #[trigger] bit_at(buf@, q) == (q < w * h && h - 1 - q / (w as int) < 0
        && row_lit(view[first + h - 1 - q / (w as int)], q % (w as int))) by {
        let b = (q % 8) as u8;
        assert(0u8 & (1u8 << b) == 0u8) by (bit_vector);
        if w > 0 && q < w * h {
            lemma_glyph_row(q, 0, w as int, h as int);
        }
    }
    let mut k: usize = 0;
    while k < h
        invariant
            view == pieces_view(lines@),
            first <= lines.len(),
            w == width,
            h == height,
            n == (w * h + 7) / 8,
            w * h <= 255 * 255,
            k <= h,
            buf.len() == n,
            rows_error(view, first as int, w as int, h as int) == rows_error(view, first + k, w as int, h - k),
            first + k <= view.len(),
            forall|q: int| 0 <= q < 8 * n ==> #[trigger] bit_at(buf@, q) == (q < w * h && h - 1 - q / (w as int) < k
                && row_lit(view[first + h - 1 - q / (w as int)], q % (w as int))),
        decreases h - k,
    {
        if k >= lines.len() - first {
            return Err(BdfError::MissingBitmapLine);
        }
        let line = &lines[first + k];
        assert(line@ == view[first + k]);
        if !row_is_valid(line, w) {
            return Err(BdfError::InvalidBitmapDigit);
        }
        let y = h - 1 - k;
        let ghost before = buf@;
        assert(y * w + w <= 8 * n) by (nonlinear_arith)
            requires
                y < h,
                n == (w * h + 7) / 8,
        ;
        set_row_bits(&mut buf, line, w, y);
        assert forall|q: int| 0 <= q < 8 * n implies #[trigger] bit_at(buf@, q) == (q < w * h && h - 1 - q / (w as int)
            < k + 1 && row_lit(view[first + h - 1 - q / (w as int)], q % (w as int))) by {
            if w > 0 {
                lemma_glyph_row(q, y as int, w as int, h as int);
            } else {
                assert(y * w == 0);
            }
        }
        k += 1;
    }
    let ghost rows = view.subrange(first as int, first + h);
    assert forall|j: int| 0 <= j < n implies buf@[j] == byte_of(
        |kk: int| glyph_lit(rows, w as int, h as int, 8 * j + kk),
    ) by {
        lemma_byte_of_bits(buf@[j]);
        assert forall|kk: int| 0 <= kk < 8 implies bit_set(buf@[j], kk) == glyph_lit(rows, w as int, h as int, 8 * j + kk) by {
            let q = 8 * j + kk;
            assert(q / 8 == j && q % 8 == kk);
            assert(bit_at(buf@, q) == bit_set(buf@[j], kk));
            if w > 0 && q < w * h {
                lemma_glyph_row(q, 0, w as int, h as int);
            }
        }
        lemma_byte_of_ext(|kk: int| bit_set(buf@[j], kk), |kk: int| glyph_lit(rows, w as int, h as int, 8 * j + kk));
    }
    assert(buf@ =~= glyph_bytes(rows, w as int, h as int));
    Ok(buf)
}

/// What reading a font description has built so far: the atlas and glyph map of the font,
/// the encoding last declared and the glyph being described.
pub struct BdfState {
    pub atlas: Seq<u8>,
    pub chars: Map<u32, Character>,
    pub encoding: u32,
    pub character: Character,
}

/// The glyph description that reading starts from: all fields zero.
pub open spec fn blank_character() -> Character {
    Character {
        atlas_start: 0,
        bm_width: 0,
        bm_height: 0,
        bm_x: 0,
        bm_y: 0,
        advance_x: 0,
        advance_y: 0,
    }
}

/// The state that reading starts from: nothing read, encoding zero.
pub open spec fn initial_state() -> BdfState {
    BdfState { atlas: seq![], chars: Map::empty(), encoding: 0, character: blank_character() }
}

/// The keyword `ENCODING`.
pub open spec fn word_encoding() -> Seq<u8> {
    seq![69u8, 78, 67, 79, 68, 73, 78, 71]
}

/// The keyword `DWIDTH`.
pub open spec fn word_dwidth() -> Seq<u8> {
    seq![68u8, 87, 73, 68, 84, 72]
}

/// The keyword `BBX`.
pub open spec fn word_bbx() -> Seq<u8> {
    seq![66u8, 66, 88]
}

/// The keyword `BITMAP`.
pub open spec fn word_bitmap() -> Seq<u8> {
    seq![66u8, 73, 84, 77, 65, 80]
}

/// The keyword `ENDCHAR`.
pub open spec fn word_endchar() -> Seq<u8> {
    seq![69u8, 78, 68, 67, 72, 65, 82]
}

/// Whether `v` is the code of a Unicode scalar value.
pub open spec fn is_scalar_value(v: int) -> bool {
    0 <= v <= 0xd7ff || 0xe000 <= v <= 0x10ffff
}

/// What reading line `i` does: the line to read next, whether lines are being skipped up to
/// the end of a glyph, and the new state; or the error it meets.
/// - While skipping, only a line that is exactly `ENDCHAR` ends the skipping.
/// - `ENCODING n` with `n` negative skips the glyph; otherwise `n` becomes the encoding.
/// - `DWIDTH x y` sets the glyph's advance; `BBX w h x y` its bitmap size and offset.
/// - `BITMAP` reads the next `h` lines as the glyph's rows and appends them to the atlas.
/// - `ENDCHAR` maps the encoding to the glyph; any other line is passed over.
pub open spec fn read_line(lines: Seq<Seq<u8>>, i: int, skipping: bool, st: BdfState) -> Result<
    (int, bool, BdfState),
    BdfError,
> {
    let line = lines[i];
    let f = line_fields(line);
    if skipping {
        Ok((i + 1, line != word_endchar(), st))
    } else if f[0] == word_encoding() {
        if f.len() < 2 {
            Err(BdfError::MissingEncoding)
        } else {
            match parse_integer(f[1], -0x8000_0000, 0x7fff_ffff) {
                None => Err(BdfError::InvalidNumber),
                Some(v) => if v < 0 {
                    Ok((i + 1, true, st))
                } else if is_scalar_value(v) {
                    Ok((i + 1, false, BdfState { encoding: v as u32, ..st }))
                } else {
                    Err(BdfError::InvalidCharacterCode)
                },
            }
        }
    } else if f[0] == word_dwidth() {
        if f.len() < 2 {
            Err(BdfError::MissingAdvanceX)
        } else if parse_integer(f[1], -128, 127) is None {
            Err(BdfError::InvalidNumber)
        } else if f.len() < 3 {
            Err(BdfError::MissingAdvanceY)
        } else if parse_integer(f[2], -128, 127) is None {
            Err(BdfError::InvalidNumber)
        } else {
            let c = Character {
                advance_x: parse_integer(f[1], -128, 127)->0 as i8,
                advance_y: parse_integer(f[2], -128, 127)->0 as i8,
                ..st.character
            };
            Ok((i + 1, false, BdfState { character: c, ..st }))
        }
    } else if f[0] == word_bbx() {
        if f.len() < 2 {
            Err(BdfError::MissingBitmapWidth)
        } else if parse_integer(f[1], 0, 255) is None {
            Err(BdfError::InvalidNumber)
        } else if f.len() < 3 {
            Err(BdfError::MissingBitmapHeight)
        } else if parse_integer(f[2], 0, 255) is None {
            Err(BdfError::InvalidNumber)
        } else if f.len() < 4 {
            Err(BdfError::MissingBitmapX)
        } else if parse_integer(f[3], -128, 127) is None {
            Err(BdfError::InvalidNumber)
        } else if f.len() < 5 {
            Err(BdfError::MissingBitmapY)
        } else if parse_integer(f[4], -128, 127) is None {
            Err(BdfError::InvalidNumber)
        } else {
            let c = Character {
                bm_width: parse_integer(f[1], 0, 255)->0 as u8,
                bm_height: parse_integer(f[2], 0, 255)->0 as u8,
                bm_x: parse_integer(f[3], -128, 127)->0 as i8,
                bm_y: parse_integer(f[4], -128, 127)->0 as i8,
                ..st.character
            };
            Ok((i + 1, false, BdfState { character: c, ..st }))
        }
    } else if f[0] == word_bitmap() {
        let w = st.character.bm_width as int;
        let h = st.character.bm_height as int;
        match rows_error(lines, i + 1, w, h) {
            Some(e) => Err(e),
            None => {
                let c = Character { atlas_start: st.atlas.len() as usize, ..st.character };
                let atlas = st.atlas + glyph_bytes(lines.subrange(i + 1, i + 1 + h), w, h);
                Ok((i + 1 + h, false, BdfState { atlas: atlas, character: c, ..st }))
            },
        }
    } else if f[0] == word_endchar() {
        Ok((i + 1, false, BdfState { chars: st.chars.insert(st.encoding, st.character), ..st }))
    } else {
        Ok((i + 1, false, st))
    }
}

/// Rows that were read without error are all there.
pub proof fn lemma_rows_present(lines: Seq<Seq<u8>>, first: int, width: int, count: int)
    requires
        count > 0,
        rows_error(lines, first, width, count) is None,
    ensures
        0 <= first,
        first + count <= lines.len(),
    decreases count,
{
    if count > 1 {
        lemma_rows_present(lines, first + 1, width, count - 1);
    }
}

/// Reading a line moves on to a later line, at most one past the last.
pub proof fn lemma_read_line_advances(lines: Seq<Seq<u8>>, i: int, skipping: bool, st: BdfState)
    requires
        0 <= i < lines.len(),
    ensures
        read_line(lines, i, skipping, st) is Ok ==> i < read_line(lines, i, skipping, st)->Ok_0.0
            <= lines.len(),
{
    let w = st.character.bm_width as int;
    let h = st.character.bm_height as int;
    if !skipping && line_fields(lines[i])[0] == word_bitmap() && h > 0 && rows_error(lines, i + 1, w, h) is None {
        lemma_rows_present(lines, i + 1, w, h);
    }
}

/// The result of reading `lines` from line `i` on, from state `st`.
pub open spec fn read_from(lines: Seq<Seq<u8>>, i: int, skipping: bool, st: BdfState) -> Result<
    BdfState,
    BdfError,
>
    decreases lines.len() - i,
{
    if i < 0 || i >= lines.len() {
        Ok(st)
    } else {
        match read_line(lines, i, skipping, st) {
            Err(e) => Err(e),
            Ok((j, next_skipping, next)) => {
                proof {
                    lemma_read_line_advances(lines, i, skipping, st);
                }
                read_from(lines, j, next_skipping, next)
            },
        }
    }
}

/// The result of reading a font description.
pub open spec fn parse_bdf(text: Seq<u8>) -> Result<BdfState, BdfError> {
    read_from(text_lines(text), 0, false, initial_state())
}

/// A line always has a first field.
proof fn lemma_fields_nonempty(s: Seq<u8>, start: int, i: int)
    ensures
        fields_from(s, start, i).len() >= 1,
    decreases s.len() - i,
{
    if i < s.len() {
        if s[i] == SPACE {
            lemma_fields_nonempty(s, i + 1, i + 1);
        } else {
            lemma_fields_nonempty(s, start, i + 1);
        }
    }
}

/// Whether two byte strings are equal.
fn same_bytes(a: &[u8], b: &[u8]) -> (r: bool)
    ensures
        r == (a@ == b@),
{
    if a.len() != b.len() {
        return false;
    }
    let mut i: usize = 0;
    while i < a.len()
        invariant
            a.len() == b.len(),
            i <= a.len(),
            forall|j: int| 0 <= j < i ==> a@[j] == b@[j],
        decreases a.len() - i,
    {
        if a[i] != b[i] {
            return false;
        }
        i += 1;
    }
    assert(a@ =~= b@);
    true
}

/// Reads a font in the Glyph Bitmap Distribution Format: each glyph's bitmap goes into the
/// atlas, one bit per pixel with the glyph's bottom row first, and the glyph under its
/// encoding; height and baseline stay zero.
#[verifier::spinoff_prover]
pub fn load_font(text: &str) -> (r: Result<Font, BdfError>)
    ensures
        match (r, parse_bdf(text.spec_bytes())) {
            (Ok(font), Ok(st)) => font.atlas@ == st.atlas && font.chars@ == st.chars && font.height == 0
                && font.baseline == 0,
            (Err(e), Err(expected)) => e == expected,
            _ => false,
        },
{
    let bytes = text.as_bytes();
    let lines = split_lines(bytes);
    let ghost view = pieces_view(lines@);
    let encoding_word: [u8; 8] = [69, 78, 67, 79, 68, 73, 78, 71];
    let dwidth_word: [u8; 6] = [68, 87, 73, 68, 84, 72];
    let bbx_word: [u8; 3] = [66, 66, 88];
    let bitmap_word: [u8; 6] = [66, 73, 84, 77, 65, 80];
    let endchar_word: [u8; 7] = [69, 78, 68, 67, 72, 65, 82];
    assert(encoding_word@ =~= word_encoding());
    assert(dwidth_word@ =~= word_dwidth());
    assert(bbx_word@ =~= word_bbx());
    assert(bitmap_word@ =~= word_bitmap());
    assert(endchar_word@ =~= word_endchar());
    let mut atlas: Vec<u8> = Vec::new();
    let mut chars: HashMap<u32, Character> = HashMap::new();
    let mut encoding: u32 = 0;
    let mut character = Character {
        atlas_start: 0,
        bm_width: 0,
        bm_height: 0,
        bm_x: 0,
        bm_y: 0,
        advance_x: 0,
        advance_y: 0,
    };
    let mut skipping = false;
    let mut i: usize = 0;
    assert(atlas@ =~= initial_state().atlas);
    while i < lines.len()
        invariant
            view == pieces_view(lines@),
            view == text_lines(text.spec_bytes()),
            i <= lines.len(),
            encoding_word@ == word_encoding(),
            dwidth_word@ == word_dwidth(),
            bbx_word@ == word_bbx(),
            bitmap_word@ == word_bitmap(),
            endchar_word@ == word_endchar(),
            parse_bdf(text.spec_bytes()) == read_from(
                view,
                i as int,
                skipping,
                BdfState { atlas: atlas@, chars: chars@, encoding, character },
            ),
        decreases lines.len() - i,
    {
        let ghost st = BdfState { atlas: atlas@, chars: chars@, encoding, character };
        let line = &lines[i];
        assert(line@ == view[i as int]);
        proof {
            lemma_read_line_advances(view, i as int, skipping, st);
        }
        if skipping {
            skipping = !same_bytes(line.as_slice(), endchar_word.as_slice());
            i += 1;
            continue;
        }
        let fields = split_fields(line.as_slice());
        proof {
            lemma_fields_nonempty(line@, 0, 0);
        }
        let ghost f = pieces_view(fields@);
        assert(fields[0]@ == f[0]);
        let command = fields[0].as_slice();
        if same_bytes(command, encoding_word.as_slice()) {
            if fields.len() < 2 {
                return Err(BdfError::MissingEncoding);
            }
            assert(fields[1]@ == f[1]);
            match parse_integer_in(fields[1].as_slice(), -0x8000_0000, 0x7fff_ffff) {
                None => {
                    return Err(BdfError::InvalidNumber);
                },
                Some(v) => {
                    if v < 0 {
                        skipping = true;
                    } else if v <= 0xd7ff || (0xe000 <= v && v <= 0x10ffff) {
                        encoding = v as u32;
                    } else {
                        return Err(BdfError::InvalidCharacterCode);
                    }
                },
            }
            i += 1;
        } else if same_bytes(command, dwidth_word.as_slice()) {
            if fields.len() < 2 {
                return Err(BdfError::MissingAdvanceX);
            }
            assert(fields[1]@ == f[1]);
            let x = match parse_integer_in(fields[1].as_slice(), -128, 127) {
                None => {
                    return Err(BdfError::InvalidNumber);
                },
                Some(v) => v,
            };
            if fields.len() < 3 {
                return Err(BdfError::MissingAdvanceY);
            }
            assert(fields[2]@ == f[2]);
            let y = match parse_integer_in(fields[2].as_slice(), -128, 127) {
                None => {
                    return Err(BdfError::InvalidNumber);
                },
                Some(v) => v,
            };
            character.advance_x = x as i8;
            character.advance_y = y as i8;
            i += 1;
        } else if same_bytes(command, bbx_word.as_slice()) {
            if fields.len() < 2 {
                return Err(BdfError::MissingBitmapWidth);
            }
            assert(fields[1]@ == f[1]);
            let width = match parse_integer_in(fields[1].as_slice(), 0, 255) {
                None => {
                    return Err(BdfError::InvalidNumber);
                },
                Some(v) => v,
            };
            if fields.len() < 3 {
                return Err(BdfError::MissingBitmapHeight);
            }
            assert(fields[2]@ == f[2]);
            let height = match parse_integer_in(fields[2].as_slice(), 0, 255) {
                None => {
                    return Err(BdfError::InvalidNumber);
                },
                Some(v) => v,
            };
            if fields.len() < 4 {
                return Err(BdfError::MissingBitmapX);
            }
            assert(fields[3]@ == f[3]);
            let x = match parse_integer_in(fields[3].as_slice(), -128, 127) {
                None => {
                    return Err(BdfError::InvalidNumber);
                },
                Some(v) => v,
            };
            if fields.len() < 5 {
                return Err(BdfError::MissingBitmapY);
            }
            assert(fields[4]@ == f[4]);
            let y = match parse_integer_in(fields[4].as_slice(), -128, 127) {
                None => {
                    return Err(BdfError::InvalidNumber);
                },
                Some(v) => v,
            };
            character.bm_width = width as u8;
            character.bm_height = height as u8;
            character.bm_x = x as i8;
            character.bm_y = y as i8;
            i += 1;
        } else if same_bytes(command, bitmap_word.as_slice()) {
            let glyph = match read_glyph(&lines, i + 1, character.bm_width, character.bm_height) {
                Err(e) => {
                    return Err(e);
                },
                Ok(g) => g,
            };
            let h = character.bm_height as usize;
            if h > 0 {
                proof {
                    lemma_rows_present(view, i + 1, character.bm_width as int, h as int);
                }
            }
            character.atlas_start = atlas.len();
            let ghost start = atlas@;
            let mut j: usize = 0;
            while j < glyph.len()
                invariant
                    j <= glyph.len(),
                    atlas@ == start + glyph@.take(j as int),
                decreases glyph.len() - j,
            {
                atlas.push(glyph[j]);
                assert(glyph@.take(j + 1) =~= glyph@.take(j as int).push(glyph@[j as int]));
                j += 1;
            }
            assert(glyph@.take(j as int) =~= glyph@);
            i = i + 1 + h;
        } else if same_bytes(command, endchar_word.as_slice()) {
            chars.insert(encoding, character);
            i += 1;
        } else {
            i += 1;
        }
    }
    Ok(Font { atlas, chars, height: 0, baseline: 0 })
}

/// Bit `k` of the byte built from eight flags is flag `k`.
proof fn lemma_byte_of_bit(f: spec_fn(int) -> bool, k: int)
    requires
        0 <= k < 8,
    ensures
        bit_set(byte_of(f), k) == f(k),
{
    let (b0, b1, b2, b3, b4, b5, b6, b7) = (f(0), f(1), f(2), f(3), f(4), f(5), f(6), f(7));
    let kk = k as u8;
    assert(((if b0 { 1u8 } else { 0u8 }) | (if b1 { 2u8 } else { 0u8 }) | (if b2 { 4u8 } else { 0u8 }) | (if b3 {
        8u8
    } else {
        0u8
    }) | (if b4 { 16u8 } else { 0u8 }) | (if b5 { 32u8 } else { 0u8 }) | (if b6 { 64u8 } else { 0u8 }) | (if b7 {
        128u8
    } else {
        0u8
    })) & (1u8 << kk) != 0 <==> (if kk == 0 {
        b0
    } else if kk == 1 {
        b1
    } else if kk == 2 {
        b2
    } else if kk == 3 {
        b3
    } else if kk == 4 {
        b4
    } else if kk == 5 {
        b5
    } else if kk == 6 {
        b6
    } else {
        b7
    })) by (bit_vector)
        requires
            kk < 8,
    ;
}

/// A glyph's pixels sit in the atlas bottom row first: wherever its bytes are placed in the
/// atlas, pixel `(x, y)` of the glyph (`y` counted up from its bottom row) is pixel `x` of the
/// row read `height - 1 - y` lines after `BITMAP`.
pub proof fn lemma_glyph_pixel(
    before: Seq<u8>,
    rows: Seq<Seq<u8>>,
    after: Seq<u8>,
    width: int,
    height: int,
    x: int,
    y: int,
)
    requires
        0 <= x < width,
        0 <= y < height,
    ensures
        packed_bit(before + glyph_bytes(rows, width, height) + after, before.len() as int, x + y * width)
            == row_lit(rows[height - 1 - y], x),
{
    let q = x + y * width;
    lemma_glyph_row(q, y, width, height);
    assert(0 <= y * width) by (nonlinear_arith)
        requires
            0 <= y,
            0 < width,
    ;
    assert(y * width + width <= width * height) by (nonlinear_arith)
        requires
            0 <= y < height,
            0 < width,
    ;
    let g = glyph_bytes(rows, width, height);
    let j = q / 8;
    assert(j < g.len());
    let all = before + g + after;
    assert(all[before.len() + j] == g[j]);
    let f = |k: int| glyph_lit(rows, width, height, 8 * j + k);
    assert(g[j] == byte_of(f));
    lemma_byte_of_bit(f, q % 8);
    assert(8 * j + q % 8 == q);
}

/// A `BITMAP` line stores the rows that follow it: after it, pixel `(x, y)` of the glyph being
/// described (`y` counted up from its bottom row) reads, at the glyph's place in the atlas, as
/// pixel `x` of the row `height - y` lines further down.
pub proof fn lemma_bitmap_line_stores_rows(lines: Seq<Seq<u8>>, i: int, st: BdfState, x: int, y: int)
    requires
        0 <= i < lines.len(),
        st.atlas.len() <= usize::MAX,
        line_fields(lines[i])[0] == word_bitmap(),
        rows_error(lines, i + 1, st.character.bm_width as int, st.character.bm_height as int) is None,
        0 <= x < st.character.bm_width,
        0 <= y < st.character.bm_height,
    ensures
        read_line(lines, i, false, st) is Ok,
        ({
            let next = read_line(lines, i, false, st)->Ok_0.2;
            packed_bit(next.atlas, next.character.atlas_start as int, x + y * next.character.bm_width)
                == row_lit(lines[i + next.character.bm_height - y], x)
        }),
{
    let w = st.character.bm_width as int;
    let h = st.character.bm_height as int;
    lemma_rows_present(lines, i + 1, w, h);
    let rows = lines.subrange(i + 1, i + 1 + h);
    lemma_glyph_pixel(st.atlas, rows, Seq::<u8>::empty(), w, h, x, y);
    assert(st.atlas + glyph_bytes(rows, w, h) + Seq::<u8>::empty() =~= st.atlas + glyph_bytes(rows, w, h));
    assert(rows[h - 1 - y] == lines[i + h - y]);
}

/// Reading more lines never changes what the atlas already holds: it only grows at its end.
pub proof fn lemma_atlas_only_grows(lines: Seq<Seq<u8>>, i: int, skipping: bool, st: BdfState)
    ensures
        read_from(lines, i, skipping, st) matches Ok(end) ==> st.atlas.len() <= end.atlas.len()
            && end.atlas.subrange(0, st.atlas.len() as int) == st.atlas,
    decreases lines.len() - i,
{
    if 0 <= i < lines.len() {
        lemma_read_line_advances(lines, i, skipping, st);
        if let Ok((j, next_skipping, next)) = read_line(lines, i, skipping, st) {
            lemma_atlas_only_grows(lines, j, next_skipping, next);
            if let Ok(end) = read_from(lines, j, next_skipping, next) {
                assert(next.atlas.subrange(0, st.atlas.len() as int) =~= st.atlas);
                assert(end.atlas.subrange(0, st.atlas.len() as int) =~= next.atlas.subrange(0, st.atlas.len() as int));
            }
        }
    } else {
        assert(st.atlas.subrange(0, st.atlas.len() as int) =~= st.atlas);
    }
}

/// While glyph lines are being skipped, reading goes on, with the state unchanged, from the
/// line after the first `ENDCHAR` at or after line `k` up to line `j`.
proof fn lemma_skipping_to_endchar(lines: Seq<Seq<u8>>, k: int, j: int, st: BdfState)
    requires
        0 <= k <= j < lines.len(),
        forall|m: int| k <= m < j ==> #[trigger] lines[m] != word_endchar(),
        lines[j] == word_endchar(),
    ensures
        read_from(lines, k, true, st) == read_from(lines, j + 1, false, st),
    decreases j - k,
{
    assert(read_line(lines, k, true, st) == Ok::<(int, bool, BdfState), BdfError>((k + 1, lines[k] != word_endchar(), st)));
    if k < j {
        lemma_skipping_to_endchar(lines, k + 1, j, st);
    }
}

/// A glyph with a negative encoding is skipped whole: when reading comes to a line
/// `ENCODING n` with `n` negative, none of the lines up to the next line `ENDCHAR` is read, and
/// reading goes on after that line with the state it had, as if the glyph were not there.
pub proof fn lemma_negative_encoding_skips_glyph(lines: Seq<Seq<u8>>, i: int, j: int, st: BdfState)
    requires
        0 <= i < j < lines.len(),
        line_fields(lines[i])[0] == word_encoding(),
        line_fields(lines[i]).len() >= 2,
        parse_integer(line_fields(lines[i])[1], -0x8000_0000, 0x7fff_ffff) matches Some(n) && n < 0,
        forall|m: int| i < m < j ==> #[trigger] lines[m] != word_endchar(),
        lines[j] == word_endchar(),
    ensures
        read_from(lines, i, false, st) == read_from(lines, j + 1, false, st),
{
    assert(read_line(lines, i, false, st) == Ok::<(int, bool, BdfState), BdfError>((i + 1, true, st)));
    lemma_skipping_to_endchar(lines, i + 1, j, st);
}

/// The encoding declared by the line `ENCODING n` that opens a glyph block at line `i`.
pub open spec fn block_encoding(lines: Seq<Seq<u8>>, i: int) -> int {
    parse_integer(line_fields(lines[i])[1], -0x8000_0000, 0x7fff_ffff)->0
}

/// The bitmap width given by the line `BBX w h x y` of a glyph block at line `i`.
pub open spec fn block_width(lines: Seq<Seq<u8>>, i: int) -> int {
    parse_integer(line_fields(lines[i + 1])[1], 0, 255)->0
}

/// The bitmap height given by the line `BBX w h x y` of a glyph block at line `i`.
pub open spec fn block_height(lines: Seq<Seq<u8>>, i: int) -> int {
    parse_integer(line_fields(lines[i + 1])[2], 0, 255)->0
}

/// Whether lines `i` on hold a glyph block: `ENCODING n` with `n` a Unicode scalar value,
/// `BBX w h x y` with numbers in range, `BITMAP`, `h` rows of hexadecimal digits, `ENDCHAR`.
pub open spec fn is_glyph_block(lines: Seq<Seq<u8>>, i: int) -> bool {
    let e = line_fields(lines[i]);
    let b = line_fields(lines[i + 1]);
    &&& 0 <= i
    &&& i + 3 < lines.len()
    &&& e[0] == word_encoding()
    &&& e.len() >= 2
    &&& parse_integer(e[1], -0x8000_0000, 0x7fff_ffff) matches Some(n) && is_scalar_value(n)
    &&& b[0] == word_bbx()
    &&& b.len() >= 5
    &&& parse_integer(b[1], 0, 255) is Some
    &&& parse_integer(b[2], 0, 255) is Some
    &&& parse_integer(b[3], -128, 127) is Some
    &&& parse_integer(b[4], -128, 127) is Some
    &&& line_fields(lines[i + 2])[0] == word_bitmap()
    &&& rows_error(lines, i + 3, block_width(lines, i), block_height(lines, i)) is None
    &&& i + 3 + block_height(lines, i) < lines.len()
    &&& line_fields(lines[i + 3 + block_height(lines, i)])[0] == word_endchar()
}

/// The glyph that a glyph block at line `i` describes, read in state `st`: its bitmap placed at
/// the end of the atlas, with the size and offset of its `BBX` line and the advance it had.
pub open spec fn block_character(lines: Seq<Seq<u8>>, i: int, st: BdfState) -> Character {
    let b = line_fields(lines[i + 1]);
    Character {
        atlas_start: st.atlas.len() as usize,
        bm_width: block_width(lines, i) as u8,
        bm_height: block_height(lines, i) as u8,
        bm_x: parse_integer(b[3], -128, 127)->0 as i8,
        bm_y: parse_integer(b[4], -128, 127)->0 as i8,
        ..st.character
    }
}

/// The state after reading a glyph block at line `i` in state `st`: its rows appended to the
/// atlas, and its glyph stored under its encoding.
pub open spec fn block_state(lines: Seq<Seq<u8>>, i: int, st: BdfState) -> BdfState {
    let c = block_character(lines, i, st);
    let h = block_height(lines, i);
    BdfState {
        atlas: st.atlas + glyph_bytes(lines.subrange(i + 3, i + 3 + h), block_width(lines, i), h),
        chars: st.chars.insert(block_encoding(lines, i) as u32, c),
        encoding: block_encoding(lines, i) as u32,
        character: c,
    }
}

/// Reading a glyph block stores its glyph: reading goes on after its `ENDCHAR` line with the
/// block's rows appended to the atlas and its glyph stored under its encoding, and pixel
/// `(x, y)` of that glyph (`y` counted up from its bottom row) is pixel `x` of the row
/// `height - 1 - y` lines after `BITMAP`.
pub proof fn lemma_glyph_block_stored(lines: Seq<Seq<u8>>, i: int, st: BdfState)
    requires
        is_glyph_block(lines, i),
        st.atlas.len() <= usize::MAX,
    ensures
        read_from(lines, i, false, st) == read_from(
            lines,
            i + 4 + block_height(lines, i),
            false,
            block_state(lines, i, st),
        ),
        forall|x: int, y: int|
            0 <= x < block_width(lines, i) && 0 <= y < block_height(lines, i) ==> #[trigger] packed_bit(
                block_state(lines, i, st).atlas,
                st.atlas.len() as int,
                x + y * block_width(lines, i),
            ) == row_lit(lines[i + 2 + block_height(lines, i) - y], x),
{
    let n = block_encoding(lines, i);
    let w = block_width(lines, i);
    let h = block_height(lines, i);
    let b = line_fields(lines[i + 1]);
    let st1 = BdfState { encoding: n as u32, ..st };
    assert(read_line(lines, i, false, st) == Ok::<(int, bool, BdfState), BdfError>((i + 1, false, st1)));
    let c = block_character(lines, i, st);
    let c2 = Character {
        bm_width: w as u8,
        bm_height: h as u8,
        bm_x: parse_integer(b[3], -128, 127)->0 as i8,
        bm_y: parse_integer(b[4], -128, 127)->0 as i8,
        ..st1.character
    };
    let st2 = BdfState { character: c2, ..st1 };
    assert(read_line(lines, i + 1, false, st1) == Ok::<(int, bool, BdfState), BdfError>((i + 2, false, st2)));
    let st3 = BdfState {
        atlas: st.atlas + glyph_bytes(lines.subrange(i + 3, i + 3 + h), w, h),
        character: c,
        ..st2
    };
    assert(c2.bm_width as int == w && c2.bm_height as int == h);
    assert(read_line(lines, i + 2, false, st2) == Ok::<(int, bool, BdfState), BdfError>((i + 3 + h, false, st3)));
    assert(line_fields(lines[i + 3 + h])[0] != word_encoding());
    assert(line_fields(lines[i + 3 + h])[0] != word_dwidth());
    assert(line_fields(lines[i + 3 + h])[0] != word_bbx());
    assert(line_fields(lines[i + 3 + h])[0] != word_bitmap());
    assert(read_line(lines, i + 3 + h, false, st3) == Ok::<(int, bool, BdfState), BdfError>(
        (i + 4 + h, false, block_state(lines, i, st)),
    ));
    assert(read_from(lines, i, false, st) == read_from(lines, i + 1, false, st1));
    assert(read_from(lines, i + 1, false, st1) == read_from(lines, i + 2, false, st2));
    assert(read_from(lines, i + 2, false, st2) == read_from(lines, i + 3 + h, false, st3));
    assert(read_from(lines, i + 3 + h, false, st3) == read_from(lines, i + 4 + h, false, block_state(lines, i, st)));
    assert forall|x: int, y: int| 0 <= x < w && 0 <= y < h implies #[trigger] packed_bit(
        block_state(lines, i, st).atlas,
        st.atlas.len() as int,
        x + y * w,
    ) == row_lit(lines[i + 2 + h - y], x) by {
        lemma_bitmap_line_stores_rows(lines, i + 2, st2, x, y);
    }
}

/// What `get_pixel` reads of a loaded glyph is what its block wrote: when reading from a glyph
/// block at line `i` in state `st` ends in state `fin`, and the glyph of `c` there is still the
/// block's (no later block replaced it), a font holding the atlas and glyphs of `fin` has as
/// pixel `(x, y)` of `c` (`y` counted up from the bottom row) pixel `x` of the row
/// `height - 1 - y` lines after `BITMAP`.
pub proof fn lemma_loaded_glyph_pixel(
    lines: Seq<Seq<u8>>,
    i: int,
    st: BdfState,
    fin: BdfState,
    font: Font,
    c: char,
    x: int,
    y: int,
)
    requires
        is_glyph_block(lines, i),
        st.atlas.len() <= usize::MAX,
        read_from(lines, i, false, st) == Ok::<BdfState, BdfError>(fin),
        c as u32 == block_encoding(lines, i),
        fin.chars.contains_key(c as u32),
        fin.chars[c as u32] == block_character(lines, i, st),
        font.atlas@ == fin.atlas,
        font.chars@ == fin.chars,
        0 <= x < block_width(lines, i),
        0 <= y < block_height(lines, i),
    ensures
        font.glyph_pixel(c, x, y) == row_lit(lines[i + 2 + block_height(lines, i) - y], x),
{
    let w = block_width(lines, i);
    let h = block_height(lines, i);
    let next = block_state(lines, i, st);
    lemma_glyph_block_stored(lines, i, st);
    lemma_atlas_only_grows(lines, i + 4 + h, false, next);
    let rows = lines.subrange(i + 3, i + 3 + h);
    let rest = fin.atlas.subrange(next.atlas.len() as int, fin.atlas.len() as int);
    assert(fin.atlas =~= st.atlas + glyph_bytes(rows, w, h) + rest);
    lemma_glyph_pixel(st.atlas, rows, rest, w, h, x, y);
    assert(rows[h - 1 - y] == lines[i + 2 + h - y]);
    assert(font.glyph(c) == Some(block_character(lines, i, st)));
}

/// The lines of `q` read from inside `p + q` are the lines of `q`.
proof fn lemma_lines_from_shift(p: Seq<u8>, q: Seq<u8>, start: int, i: int)
    requires
        0 <= start <= i <= q.len(),
    ensures
        lines_from(p + q, p.len() + start, p.len() + i) == lines_from(q, start, i),
    decreases q.len() - i,
{
    let s = p + q;
    if i >= q.len() {
        if start < q.len() {
            assert(s.subrange(p.len() + start, s.len() as int) =~= q.subrange(start, q.len() as int));
        }
    } else {
        assert(s[p.len() + i] == q[i]);
        if q[i] == LF {
            assert(s.subrange(p.len() + start, p.len() + i) =~= q.subrange(start, i));
            lemma_lines_from_shift(p, q, i + 1, i + 1);
        } else {
            lemma_lines_from_shift(p, q, start, i + 1);
        }
    }
}

/// Splitting `a + b` into lines, where `a` ends a line, gives the lines of `a` then those of
/// `b`; here from a line of `a` that began at `start` and holds no line feed up to `i`.
proof fn lemma_lines_from_concat(a: Seq<u8>, b: Seq<u8>, start: int, i: int)
    requires
        0 <= start <= i <= a.len(),
        a.len() == 0 || a.last() == LF,
        forall|k: int| start <= k < i ==> a[k] != LF,
    ensures
        lines_from(a + b, start, i) == lines_from(a, start, i) + lines_from(b, 0, 0),
    decreases a.len() - i,
{
    let s = a + b;
    if i == a.len() {
        if a.len() > 0 {
            assert(a[a.len() - 1] == LF);
        }
        assert(start == i);
        lemma_lines_from_shift(a, b, 0, 0);
        assert(lines_from(a, start, i) =~= Seq::<Seq<u8>>::empty());
        assert(lines_from(a, start, i) + lines_from(b, 0, 0) =~= lines_from(b, 0, 0));
    } else {
        assert(s[i] == a[i]);
        if a[i] == LF {
            assert(s.subrange(start, i) =~= a.subrange(start, i));
            lemma_lines_from_concat(a, b, i + 1, i + 1);
            let first = seq![strip_cr(a.subrange(start, i))];
            assert(first + (lines_from(a, i + 1, i + 1) + lines_from(b, 0, 0)) =~= (first + lines_from(a, i + 1, i + 1))
                + lines_from(b, 0, 0));
        } else {
            lemma_lines_from_concat(a, b, start, i + 1);
        }
    }
}

/// The lines of `a + b`, where `a` is empty or ends with a line feed, are those of `a` then
/// those of `b`.
pub proof fn lemma_text_lines_concat(a: Seq<u8>, b: Seq<u8>)
    requires
        a.len() == 0 || a.last() == LF,
    ensures
        text_lines(a + b) == text_lines(a) + text_lines(b),
{
    lemma_lines_from_concat(a, b, 0, 0);
}

/// What reading `lines` from line `i` on leaves: whether lines are being skipped at the end,
/// and the state; or the error it meets.
pub open spec fn read_through(lines: Seq<Seq<u8>>, i: int, skipping: bool, st: BdfState) -> Result<
    (bool, BdfState),
    BdfError,
>
    decreases lines.len() - i,
{
    if i < 0 || i >= lines.len() {
        Ok((skipping, st))
    } else {
        match read_line(lines, i, skipping, st) {
            Err(e) => Err(e),
            Ok((j, next_skipping, next)) => {
                proof {
                    lemma_read_line_advances(lines, i, skipping, st);
                }
                read_through(lines, j, next_skipping, next)
            },
        }
    }
}

/// Whether reading the text `t` alone stops at its end outside any glyph's bitmap or skipped
/// glyph, or at an error of its own: what follows it is then read from a fresh line.
pub open spec fn ends_outside_glyph(t: Seq<u8>) -> bool {
    match read_through(text_lines(t), 0, false, initial_state()) {
        Ok((skipping, _)) => !skipping,
        Err(e) => e != BdfError::MissingBitmapLine,
    }
}

/// Bitmap rows found, or an invalid one met, within `a` are found or met alike in `a + t`.
proof fn lemma_rows_error_prefix(a: Seq<Seq<u8>>, t: Seq<Seq<u8>>, first: int, width: int, count: int)
    requires
        0 <= first,
        rows_error(a, first, width, count) != Some(BdfError::MissingBitmapLine),
    ensures
        rows_error(a + t, first, width, count) == rows_error(a, first, width, count),
    decreases count,
{
    if count > 0 && first < a.len() {
        assert((a + t)[first] == a[first]);
        if row_valid(a[first], width) {
            lemma_rows_error_prefix(a, t, first + 1, width, count - 1);
        }
    }
}

/// Bitmap rows of `q` read inside `p + q` are read alike.
proof fn lemma_rows_error_shift(p: Seq<Seq<u8>>, q: Seq<Seq<u8>>, first: int, width: int, count: int)
    requires
        0 <= first,
    ensures
        rows_error(p + q, p.len() + first, width, count) == rows_error(q, first, width, count),
    decreases count,
{
    if count > 0 && first < q.len() {
        assert((p + q)[p.len() + first] == q[first]);
        lemma_rows_error_shift(p, q, first + 1, width, count - 1);
    }
}

/// A line of `a` that reads without running out of bitmap rows reads alike in `a + t`.
proof fn lemma_read_line_prefix(a: Seq<Seq<u8>>, t: Seq<Seq<u8>>, i: int, skipping: bool, st: BdfState)
    requires
        0 <= i < a.len(),
        read_line(a, i, skipping, st) != Err::<(int, bool, BdfState), BdfError>(BdfError::MissingBitmapLine),
    ensures
        read_line(a + t, i, skipping, st) == read_line(a, i, skipping, st),
{
    assert((a + t)[i] == a[i]);
    let w = st.character.bm_width as int;
    let h = st.character.bm_height as int;
    if !skipping && line_fields(a[i])[0] == word_bitmap() {
        lemma_rows_error_prefix(a, t, i + 1, w, h);
        if rows_error(a, i + 1, w, h) is None {
            if h > 0 {
                lemma_rows_present(a, i + 1, w, h);
            }
            assert((a + t).subrange(i + 1, i + 1 + h) =~= a.subrange(i + 1, i + 1 + h));
        }
    }
}

/// A line of `q` reads inside `p + q` as it reads alone, the next line shifted by `p`.
proof fn lemma_read_line_shift(p: Seq<Seq<u8>>, q: Seq<Seq<u8>>, i: int, skipping: bool, st: BdfState)
    requires
        0 <= i < q.len(),
    ensures
        match read_line(q, i, skipping, st) {
            Ok((j, next_skipping, next)) => read_line(p + q, p.len() + i, skipping, st) == Ok::<
                (int, bool, BdfState),
                BdfError,
            >((p.len() + j, next_skipping, next)),
            Err(e) => read_line(p + q, p.len() + i, skipping, st) == Err::<(int, bool, BdfState), BdfError>(e),
        },
{
    assert((p + q)[p.len() + i] == q[i]);
    let w = st.character.bm_width as int;
    let h = st.character.bm_height as int;
    if !skipping && line_fields(q[i])[0] == word_bitmap() {
        lemma_rows_error_shift(p, q, i + 1, w, h);
        if rows_error(q, i + 1, w, h) is None {
            if h > 0 {
                lemma_rows_present(q, i + 1, w, h);
            }
            assert((p + q).subrange(p.len() + i + 1, p.len() + i + 1 + h) =~= q.subrange(i + 1, i + 1 + h));
        }
    }
}

/// Reading the lines of `q` inside `p + q` gives what reading `q` alone gives.
proof fn lemma_read_from_shift(p: Seq<Seq<u8>>, q: Seq<Seq<u8>>, i: int, skipping: bool, st: BdfState)
    requires
        0 <= i,
    ensures
        read_from(p + q, p.len() + i, skipping, st) == read_from(q, i, skipping, st),
    decreases q.len() - i,
{
    if i < q.len() {
        lemma_read_line_shift(p, q, i, skipping, st);
        lemma_read_line_advances(q, i, skipping, st);
        if let Ok((j, next_skipping, next)) = read_line(q, i, skipping, st) {
            lemma_read_from_shift(p, q, j, next_skipping, next);
        }
    }
}

/// Reading `a + t` first reads `a` as reading `a` alone does: when that ends without error,
/// reading goes on at the first line of `t` as it ended; when it stops at an error other than
/// running out of bitmap rows, reading `a + t` stops at the same error.
proof fn lemma_read_prefix(a: Seq<Seq<u8>>, t: Seq<Seq<u8>>, i: int, skipping: bool, st: BdfState)
    requires
        0 <= i <= a.len(),
    ensures
        read_through(a, i, skipping, st) matches Ok((end_skipping, end)) ==> read_from(a + t, i, skipping, st)
            == read_from(a + t, a.len() as int, end_skipping, end),
        read_through(a, i, skipping, st) matches Err(e) ==> (e != BdfError::MissingBitmapLine ==> read_from(
            a + t,
            i,
            skipping,
            st,
        ) == Err::<BdfState, BdfError>(e)),
    decreases a.len() - i,
{
    if i < a.len() {
        lemma_read_line_advances(a, i, skipping, st);
        match read_line(a, i, skipping, st) {
            Err(e) => {
                if e != BdfError::MissingBitmapLine {
                    lemma_read_line_prefix(a, t, i, skipping, st);
                }
            },
            Ok((j, next_skipping, next)) => {
                lemma_read_line_prefix(a, t, i, skipping, st);
                lemma_read_prefix(a, t, j, next_skipping, next);
            },
        }
    }
}

/// Reading lines none of which begins with `ENDCHAR` stores no glyph.
proof fn lemma_no_endchar_keeps_glyphs(lines: Seq<Seq<u8>>, i: int, skipping: bool, st: BdfState)
    requires
        0 <= i,
        forall|m: int| i <= m < lines.len() ==> #[trigger] line_fields(lines[m])[0] != word_endchar(),
    ensures
        read_from(lines, i, skipping, st) matches Ok(end) ==> end.chars == st.chars,
    decreases lines.len() - i,
{
    if i < lines.len() {
        lemma_read_line_advances(lines, i, skipping, st);
        assert(line_fields(lines[i])[0] != word_endchar());
        if let Ok((j, next_skipping, next)) = read_line(lines, i, skipping, st) {
            assert(next.chars == st.chars);
            lemma_no_endchar_keeps_glyphs(lines, j, next_skipping, next);
        }
    }
}

/// Whether `lines` are a glyph with a negative encoding: a first line `ENCODING n` with `n`
/// negative, a last line `ENDCHAR`, and no line `ENDCHAR` between them.
pub open spec fn is_negative_glyph(lines: Seq<Seq<u8>>) -> bool {
    let f = line_fields(lines[0]);
    &&& lines.len() >= 2
    &&& f[0] == word_encoding()
    &&& f.len() >= 2
    &&& parse_integer(f[1], -0x8000_0000, 0x7fff_ffff) matches Some(n) && n < 0
    &&& forall|m: int| 0 < m < lines.len() - 1 ==> #[trigger] lines[m] != word_endchar()
    &&& lines.last() == word_endchar()
}

/// A glyph with a negative encoding adds nothing to a font read from text: put, as whole lines,
/// after a text whose reading ends outside any bitmap or skipped glyph, it leaves the result of
/// reading the font, glyphs, atlas or error, as it is without it.
pub proof fn lemma_negative_glyph_text_skipped(t1: Seq<u8>, g: Seq<u8>, t2: Seq<u8>)
    requires
        t1.len() == 0 || t1.last() == LF,
        ends_outside_glyph(t1),
        g.len() > 0 && g.last() == LF,
        is_negative_glyph(text_lines(g)),
    ensures
        parse_bdf(t1 + g + t2) == parse_bdf(t1 + t2),
{
    let a = text_lines(t1);
    let gl = text_lines(g);
    let b = text_lines(t2);
    lemma_text_lines_concat(t1, g);
    assert((t1 + g).last() == LF);
    lemma_text_lines_concat(t1 + g, t2);
    lemma_text_lines_concat(t1, t2);
    let lines = a + gl + b;
    assert(text_lines(t1 + g + t2) == lines);
    assert(text_lines(t1 + t2) == a + b);
    assert(lines =~= a + (gl + b));
    lemma_read_prefix(a, gl + b, 0, false, initial_state());
    lemma_read_prefix(a, b, 0, false, initial_state());
    if let Ok((skipping, st)) = read_through(a, 0, false, initial_state()) {
        let i = a.len() as int;
        let j = a.len() + gl.len() - 1;
        assert forall|m: int| i < m < j implies #[trigger] lines[m] != word_endchar() by {
            assert(lines[m] == gl[m - i]);
        }
        assert(lines[i] == gl[0]);
        assert(lines[j] == gl.last());
        lemma_negative_encoding_skips_glyph(lines, i, j, st);
        lemma_read_from_shift(a + gl, b, 0, false, st);
        lemma_read_from_shift(a, b, 0, false, st);
    }
}

/// A glyph block that is all of `k` is a glyph block inside `a + k + b`, with the same
/// encoding and size.
proof fn lemma_glyph_block_shift(a: Seq<Seq<u8>>, k: Seq<Seq<u8>>, b: Seq<Seq<u8>>)
    requires
        is_glyph_block(k, 0),
        k.len() == 4 + block_height(k, 0),
    ensures
        is_glyph_block(a + k + b, a.len() as int),
        block_encoding(a + k + b, a.len() as int) == block_encoding(k, 0),
        block_width(a + k + b, a.len() as int) == block_width(k, 0),
        block_height(a + k + b, a.len() as int) == block_height(k, 0),
        forall|m: int| 0 <= m < k.len() ==> #[trigger] (a + k + b)[a.len() + m] == k[m],
{
    let lines = a + k + b;
    let i = a.len() as int;
    let w = block_width(k, 0);
    let h = block_height(k, 0);
    assert forall|m: int| 0 <= m < k.len() implies #[trigger] (a + k + b)[a.len() + m] == k[m] by {}
    assert(lines[i] == k[0]);
    assert(lines[i + 1] == k[1]);
    assert(lines[i + 2] == k[2]);
    assert(lines[i + 3 + h] == k[3 + h]);
    assert(lines =~= a + (k + b));
    lemma_rows_error_shift(a, k + b, 3, w, h);
    lemma_rows_error_prefix(k, b, 3, w, h);
}

/// What `get_pixel` reads of a font loaded from text is what the text's glyph block wrote: when
/// a text is read to a font whose atlas a `usize` can count, and has, as whole lines after a
/// part whose reading ends outside any bitmap or skipped glyph, a glyph block (`ENCODING`, `BBX`,
/// `BITMAP`, its rows, `ENDCHAR`) for `c` followed by no line beginning with `ENDCHAR`, then
/// pixel `(x, y)` of the glyph of `c` (`y` counted up from the bottom row) is pixel `x` of the
/// block's row `height - 1 - y`.
pub proof fn lemma_text_glyph_pixel(
    t1: Seq<u8>,
    block: Seq<u8>,
    t2: Seq<u8>,
    fin: BdfState,
    font: Font,
    c: char,
    x: int,
    y: int,
)
    requires
        t1.len() == 0 || t1.last() == LF,
        read_through(text_lines(t1), 0, false, initial_state()) matches Ok((skipping, _)) && !skipping,
        block.len() > 0 && block.last() == LF,
        is_glyph_block(text_lines(block), 0),
        text_lines(block).len() == 4 + block_height(text_lines(block), 0),
        c as u32 == block_encoding(text_lines(block), 0),
        forall|m: int| 0 <= m < text_lines(t2).len() ==> #[trigger] line_fields(text_lines(t2)[m])[0] != word_endchar(),
        parse_bdf(t1 + block + t2) == Ok::<BdfState, BdfError>(fin),
        fin.atlas.len() <= usize::MAX,
        font.atlas@ == fin.atlas,
        font.chars@ == fin.chars,
        0 <= x < block_width(text_lines(block), 0),
        0 <= y < block_height(text_lines(block), 0),
    ensures
        font.glyph_pixel(c, x, y) == row_lit(text_lines(block)[2 + block_height(text_lines(block), 0) - y], x),
        ({
            let row = text_lines(block)[2 + block_height(text_lines(block), 0) - y];
            font.glyph_pixel(c, x, y) == (x / 4 < row.len() && hex_value(row[x / 4]) is Some && digit_pixel(
                hex_value(row[x / 4])->0 as int,
                x % 4,
            ))
        }),
{
    let a = text_lines(t1);
    let k = text_lines(block);
    let b = text_lines(t2);
    lemma_text_lines_concat(t1, block);
    assert((t1 + block).last() == LF);
    lemma_text_lines_concat(t1 + block, t2);
    let lines = a + k + b;
    assert(text_lines(t1 + block + t2) == lines);
    assert(lines =~= a + (k + b));
    let st = read_through(a, 0, false, initial_state())->Ok_0.1;
    lemma_read_prefix(a, k + b, 0, false, initial_state());
    assert(read_from(lines, a.len() as int, false, st) == Ok::<BdfState, BdfError>(fin));
    lemma_block_lines_pixel(a, k, b, st, fin, font, c, x, y);
    lemma_row_pixels_from_digits(k[2 + block_height(k, 0) - y], x);
}

/// The line form of `lemma_text_glyph_pixel`: reading `a + k + b` on from the glyph block `k`.
proof fn lemma_block_lines_pixel(
    a: Seq<Seq<u8>>,
    k: Seq<Seq<u8>>,
    b: Seq<Seq<u8>>,
    st: BdfState,
    fin: BdfState,
    font: Font,
    c: char,
    x: int,
    y: int,
)
    requires
        read_from(a + k + b, a.len() as int, false, st) == Ok::<BdfState, BdfError>(fin),
        is_glyph_block(k, 0),
        k.len() == 4 + block_height(k, 0),
        c as u32 == block_encoding(k, 0),
        forall|m: int| 0 <= m < b.len() ==> #[trigger] line_fields(b[m])[0] != word_endchar(),
        fin.atlas.len() <= usize::MAX,
        font.atlas@ == fin.atlas,
        font.chars@ == fin.chars,
        0 <= x < block_width(k, 0),
        0 <= y < block_height(k, 0),
    ensures
        font.glyph_pixel(c, x, y) == row_lit(k[2 + block_height(k, 0) - y], x),
{
    let lines = a + k + b;
    let i = a.len() as int;
    let h = block_height(k, 0);
    lemma_glyph_block_shift(a, k, b);
    lemma_atlas_only_grows(lines, i, false, st);
    lemma_glyph_block_stored(lines, i, st);
    let next = block_state(lines, i, st);
    lemma_read_from_shift(a + k, b, 0, false, next);
    lemma_no_endchar_keeps_glyphs(b, 0, false, next);
    assert(fin.chars == next.chars);
    lemma_loaded_glyph_pixel(lines, i, st, fin, font, c, x, y);
    assert(lines[i + 2 + h - y] == k[2 + h - y]);
}

} // verus!
