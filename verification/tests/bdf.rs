use eink_frame::bdf::{
    hex_digit, load_font, parse_integer_in, split_fields, split_lines, BdfError,
};

const SAMPLE: &str = "STARTFONT 2.1\n\
FONT test\n\
SIZE 8 75 75\n\
CHARS 3\n\
STARTCHAR A\n\
ENCODING 65\n\
SWIDTH 500 0\n\
DWIDTH 5 0\n\
BBX 4 4 0 0\n\
BITMAP\n\
60\n\
90\n\
F0\n\
90\n\
ENDCHAR\n\
STARTCHAR space\n\
ENCODING 32\n\
DWIDTH 3 0\n\
BBX 0 0 0 0\n\
BITMAP\n\
ENDCHAR\n\
STARTCHAR skipped\n\
ENCODING -1\n\
DWIDTH 9 0\n\
BBX 1 1 0 0\n\
BITMAP\n\
80\n\
ENDCHAR\n\
ENDFONT\n";

fn lines_of(text: &str) -> Vec<Vec<u8>> {
    split_lines(text.as_bytes())
}

#[test]
fn lines_split_at_line_feeds_and_drop_carriage_returns() {
    let lines = lines_of("a\r\nb\n\nc");
    assert_eq!(lines, vec![b"a".to_vec(), b"b".to_vec(), b"".to_vec(), b"c".to_vec()]);
}

#[test]
fn trailing_line_feed_makes_no_empty_line() {
    assert_eq!(lines_of("a\n"), vec![b"a".to_vec()]);
    assert_eq!(lines_of(""), Vec::<Vec<u8>>::new());
    assert_eq!(lines_of("\n"), vec![b"".to_vec()]);
}

#[test]
fn last_line_keeps_its_carriage_return() {
    assert_eq!(lines_of("a\nb\r"), vec![b"a".to_vec(), b"b\r".to_vec()]);
}

#[test]
fn fields_split_at_every_space() {
    assert_eq!(split_fields(b"a  b"), vec![b"a".to_vec(), b"".to_vec(), b"b".to_vec()]);
    assert_eq!(split_fields(b""), vec![b"".to_vec()]);
    assert_eq!(split_fields(b"BBX 4 4 0 -1"), vec![
        b"BBX".to_vec(),
        b"4".to_vec(),
        b"4".to_vec(),
        b"0".to_vec(),
        b"-1".to_vec(),
    ]);
}

#[test]
fn integers_parse_like_str_parse() {
    assert_eq!(parse_integer_in(b"+5", -128, 127), Some(5));
    assert_eq!(parse_integer_in(b"007", 0, 255), Some(7));
    assert_eq!(parse_integer_in(b"-128", -128, 127), Some(-128));
    assert_eq!(parse_integer_in(b"255", 0, 255), Some(255));
    assert_eq!(parse_integer_in(b"-2147483648", -0x8000_0000, 0x7fff_ffff), Some(-2147483648));
}

#[test]
fn integers_out_of_range_or_malformed_are_refused() {
    assert_eq!(parse_integer_in(b"128", -128, 127), None);
    assert_eq!(parse_integer_in(b"-129", -128, 127), None);
    assert_eq!(parse_integer_in(b"256", 0, 255), None);
    assert_eq!(parse_integer_in(b"-0", 0, 255), None);
    assert_eq!(parse_integer_in(b"", -128, 127), None);
    assert_eq!(parse_integer_in(b"+", -128, 127), None);
    assert_eq!(parse_integer_in(b"-", -128, 127), None);
    assert_eq!(parse_integer_in(b"1x", -128, 127), None);
    assert_eq!(parse_integer_in(b" 1", -128, 127), None);
    assert_eq!(parse_integer_in(b"99999999999999999999", -0x8000_0000, 0x7fff_ffff), None);
}

#[test]
fn integer_parsing_agrees_with_std() {
    for text in ["0", "+0", "-0", "12", "-12", "+127", "127", "128", "-128", "-129", "00", "x", "", "+-1", "255", "256"] {
        let expected = text.parse::<i8>().ok().map(i64::from);
        assert_eq!(parse_integer_in(text.as_bytes(), -128, 127), expected, "i8 {text:?}");
        let expected = text.parse::<u8>().ok().map(i64::from);
        assert_eq!(parse_integer_in(text.as_bytes(), 0, 255), expected, "u8 {text:?}");
    }
}

#[test]
fn hex_digits_in_both_cases() {
    assert_eq!(hex_digit(b'0'), Some(0));
    assert_eq!(hex_digit(b'9'), Some(9));
    assert_eq!(hex_digit(b'a'), Some(10));
    assert_eq!(hex_digit(b'F'), Some(15));
    assert_eq!(hex_digit(b'g'), None);
    assert_eq!(hex_digit(b' '), None);
}

#[test]
fn sample_font_loads() {
    let font = load_font(SAMPLE).expect("sample font");
    assert_eq!(font.atlas, vec![0xf9, 0x69]);
    assert_eq!(font.chars.len(), 2);
    let a = font.chars[&65];
    assert_eq!(a.atlas_start, 0);
    assert_eq!((a.bm_width, a.bm_height, a.bm_x, a.bm_y), (4, 4, 0, 0));
    assert_eq!((a.advance_x, a.advance_y), (5, 0));
    let space = font.chars[&32];
    assert_eq!(space.atlas_start, 2);
    assert_eq!((space.bm_width, space.bm_height), (0, 0));
    assert_eq!((space.advance_x, space.advance_y), (3, 0));
    assert_eq!(font.height, 0);
    assert_eq!(font.baseline, 0);
}

#[test]
fn glyph_rows_are_stored_bottom_row_first() {
    let font = load_font(SAMPLE).unwrap();
    let rows = [0x6u8, 0x9, 0xf, 0x9];
    for y in 0..4usize {
        let digit = rows[3 - y];
        for x in 0..4usize {
            let lit = digit & (1 << (3 - x)) != 0;
            assert_eq!(font.get_pixel('A', x, y), lit, "pixel ({x}, {y})");
        }
    }
}

#[test]
fn negative_encoding_skips_the_glyph() {
    let font = load_font(SAMPLE).unwrap();
    assert!(!font.chars.contains_key(&0xffff_ffff));
    assert_eq!(font.chars[&32].advance_x, 3);
}

#[test]
fn carriage_returns_are_accepted() {
    let text = SAMPLE.replace('\n', "\r\n");
    let font = load_font(&text).unwrap();
    assert_eq!(font.atlas, vec![0xf9, 0x69]);
    assert_eq!(font.chars.len(), 2);
}

#[test]
fn digits_past_the_width_are_not_read() {
    let font = load_font("ENCODING 66\nBBX 4 1 0 0\nBITMAP\nFZZ\nENDCHAR\n").unwrap();
    assert_eq!(font.atlas, vec![0x0f]);
}

#[test]
fn glyph_fields_carry_over_between_glyphs() {
    let font = load_font("ENCODING 66\nDWIDTH 7 1\nENDCHAR\nENCODING 67\nENDCHAR\n").unwrap();
    assert_eq!(font.chars[&67].advance_x, 7);
    assert_eq!(font.chars[&67].advance_y, 1);
    assert_eq!(font.chars[&66].advance_x, 7);
}

#[test]
fn bdf_errors() {
    let cases: [(&str, BdfError); 15] = [
        ("ENCODING\n", BdfError::MissingEncoding),
        ("ENCODING x\n", BdfError::InvalidNumber),
        ("ENCODING 55296\n", BdfError::InvalidCharacterCode),
        ("ENCODING 1114112\n", BdfError::InvalidCharacterCode),
        ("DWIDTH\n", BdfError::MissingAdvanceX),
        ("DWIDTH 5\n", BdfError::MissingAdvanceY),
        ("DWIDTH 128 0\n", BdfError::InvalidNumber),
        ("BBX\n", BdfError::MissingBitmapWidth),
        ("BBX 4\n", BdfError::MissingBitmapHeight),
        ("BBX 4 4\n", BdfError::MissingBitmapX),
        ("BBX 4 4 0\n", BdfError::MissingBitmapY),
        ("BBX 256 1 0 0\n", BdfError::InvalidNumber),
        ("BBX -1 1 0 0\n", BdfError::InvalidNumber),
        ("BBX 4 2 0 0\nBITMAP\nF0\n", BdfError::MissingBitmapLine),
        ("BBX 4 1 0 0\nBITMAP\nG0\n", BdfError::InvalidBitmapDigit),
    ];
    for (text, expected) in cases {
        assert_eq!(load_font(text).err(), Some(expected), "{text:?}");
    }
}

#[test]
fn first_bitmap_error_in_row_order_wins() {
    assert_eq!(
        load_font("BBX 4 3 0 0\nBITMAP\nG0\n").err(),
        Some(BdfError::InvalidBitmapDigit)
    );
}

#[test]
fn skipped_glyph_may_hold_anything() {
    let font = load_font("ENCODING -5\nBBX x\nBITMAP\nENDCHAR\nENCODING 65\nENDCHAR\n").unwrap();
    assert_eq!(font.chars.len(), 1);
    assert!(font.chars.contains_key(&65));
}

#[test]
fn empty_text_gives_empty_font() {
    let font = load_font("").unwrap();
    assert!(font.atlas.is_empty());
    assert!(font.chars.is_empty());
}

#[test]
fn later_glyphs_only_append_to_the_atlas() {
    let text = "ENCODING 65\nBBX 4 4 0 0\nBITMAP\n60\n90\nF0\n90\nENDCHAR\n\
ENCODING 66\nBBX 3 2 1 -1\nBITMAP\nE0\nA0\nENDCHAR\n";
    let font = load_font(text).unwrap();
    assert_eq!(&font.atlas[..2], &[0xf9, 0x69]);
    assert_eq!(font.atlas.len(), 3);
    let b = font.chars[&66];
    assert_eq!(b.atlas_start, 2);
    assert_eq!((b.bm_width, b.bm_height, b.bm_x, b.bm_y), (3, 2, 1, -1));
    // Bottom row "A" = 101, top row "E" = 111.
    assert!(font.get_pixel('B', 0, 0));
    assert!(!font.get_pixel('B', 1, 0));
    assert!(font.get_pixel('B', 2, 0));
    assert!(font.get_pixel('B', 1, 1));
    assert!(font.get_pixel('A', 1, 3));
    assert!(!font.get_pixel('A', 0, 3));
}

#[test]
fn skipped_glyph_changes_nothing() {
    let with = "ENCODING 65\nBBX 4 1 0 0\nBITMAP\nF0\nENDCHAR\n\
ENCODING -3\nDWIDTH 9 9\nBBX 8 2 0 0\nBITMAP\nFF\nFF\nENDCHAR\n\
ENCODING 66\nBBX 2 1 0 0\nBITMAP\n40\nENDCHAR\n";
    let without = "ENCODING 65\nBBX 4 1 0 0\nBITMAP\nF0\nENDCHAR\n\
ENCODING 66\nBBX 2 1 0 0\nBITMAP\n40\nENDCHAR\n";
    let a = load_font(with).unwrap();
    let b = load_font(without).unwrap();
    assert_eq!(a.atlas, b.atlas);
    assert_eq!(a.chars, b.chars);
}
