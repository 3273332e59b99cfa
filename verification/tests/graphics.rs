use eink_frame::bdf::load_font;
use eink_frame::emulator::Inky;
use eink_frame::font::{Bitmap, Font, Resources};
use eink_frame::graphics::{Alignment, Graphics};
use eink_frame::palette::Image;
use eink_frame::{Color, Panel, Rect};

const FONT: &str = "ENCODING 65\nDWIDTH 5 0\nBBX 4 4 0 0\nBITMAP\n60\n90\nF0\n90\nENDCHAR\n\
ENCODING 32\nDWIDTH 3 0\nBBX 0 0 0 0\nBITMAP\nENDCHAR\n";

const BLACK: u8 = 0;
const WHITE: u8 = 1;

fn test_font() -> Font {
    let mut font = load_font(FONT).unwrap();
    font.height = 10;
    font.baseline = 5;
    font
}

fn graphics() -> Graphics {
    let mut fonts = Vec::new();
    for name in ["test", "helvB12", "helvR12", "helvR24", "helvR10"] {
        fonts.push((name.to_string(), test_font()));
    }
    let bitmaps = vec![(
        "dot".to_string(),
        Bitmap { bits: vec![0b1001], width: 2, height: 2 },
    )];
    Graphics::new(Resources { fonts, bitmaps })
}

fn pixel(inky: &Inky, x: usize, y: usize) -> u8 {
    inky.as_bytes()[x + y * 800]
}

#[test]
fn new_emulated_frame_is_white() {
    let inky = Inky::new();
    assert_eq!(inky.as_bytes().len(), 800 * 480);
    assert!(inky.as_bytes().iter().all(|&b| b == WHITE));
}

#[test]
fn draw_rect_paints_exactly_the_rect() {
    let g = graphics();
    let mut inky = Inky::new();
    g.draw_rect(&mut inky, &Rect::new(10, 10, 3, 2), Color::Black);
    for y in 10..12 {
        for x in 10..13 {
            assert_eq!(pixel(&inky, x, y), BLACK);
        }
    }
    assert_eq!(pixel(&inky, 13, 10), WHITE);
    assert_eq!(pixel(&inky, 9, 10), WHITE);
    assert_eq!(pixel(&inky, 10, 12), WHITE);
}

#[test]
fn drawing_off_screen_is_clipped() {
    let g = graphics();
    let mut inky = Inky::new();
    g.draw_rect(&mut inky, &Rect::new(-2, -2, 4, 4), Color::Red);
    assert_eq!(pixel(&inky, 0, 0), 3);
    assert_eq!(pixel(&inky, 1, 1), 3);
    assert_eq!(pixel(&inky, 2, 0), WHITE);
    g.draw_rect(&mut inky, &Rect::new(798, 478, 10, 10), Color::Red);
    assert_eq!(pixel(&inky, 799, 479), 3);
}

#[test]
fn empty_rect_paints_nothing() {
    let g = graphics();
    let mut inky = Inky::new();
    g.draw_rect(&mut inky, &Rect::new(10, 10, 0, 5), Color::Black);
    g.draw_rect(&mut inky, &Rect::new(10, 10, 5, -1), Color::Black);
    assert!(inky.as_bytes().iter().all(|&b| b == WHITE));
}

#[test]
fn dither_rect_sets_a_sparse_pattern() {
    let g = graphics();
    let mut inky = Inky::new();
    g.dither_rect(&mut inky, &Rect::new(0, 0, 8, 4), Color::Black);
    for (x, y) in [(0, 0), (4, 0), (2, 2), (6, 2)] {
        assert_eq!(pixel(&inky, x, y), BLACK, "({x}, {y})");
    }
    for (x, y) in [(1, 0), (2, 0), (0, 1), (0, 2), (4, 2), (8, 0)] {
        assert_eq!(pixel(&inky, x, y), WHITE, "({x}, {y})");
    }
}

#[test]
fn draw_box_paints_the_border_only() {
    let g = graphics();
    let mut inky = Inky::new();
    g.draw_box(&mut inky, &Rect::new(20, 20, 5, 4), 1, Color::Black);
    for x in 20..25 {
        assert_eq!(pixel(&inky, x, 20), BLACK);
        assert_eq!(pixel(&inky, x, 23), BLACK);
    }
    for y in 20..24 {
        assert_eq!(pixel(&inky, 20, y), BLACK);
        assert_eq!(pixel(&inky, 24, y), BLACK);
    }
    for y in 21..23 {
        for x in 21..24 {
            assert_eq!(pixel(&inky, x, y), WHITE);
        }
    }
}

#[test]
fn draw_line_follows_bresenham() {
    let g = graphics();
    let mut inky = Inky::new();
    g.draw_line(&mut inky, 0, 0, 4, 2, Color::Black);
    for (x, y) in [(0, 0), (1, 1), (2, 1), (3, 2), (4, 2)] {
        assert_eq!(pixel(&inky, x, y), BLACK, "({x}, {y})");
    }
    for (x, y) in [(1, 0), (2, 0), (2, 2), (0, 1)] {
        assert_eq!(pixel(&inky, x, y), WHITE, "({x}, {y})");
    }
}

#[test]
fn draw_line_reaches_both_ends_backwards() {
    let g = graphics();
    let mut inky = Inky::new();
    g.draw_line(&mut inky, 30, 40, 10, 35, Color::Blue);
    assert_eq!(pixel(&inky, 30, 40), 6);
    assert_eq!(pixel(&inky, 10, 35), 6);
}

#[test]
fn single_point_line() {
    let g = graphics();
    let mut inky = Inky::new();
    g.draw_line(&mut inky, 7, 7, 7, 7, Color::Yellow);
    assert_eq!(pixel(&inky, 7, 7), 2);
    assert_eq!(inky.as_bytes().iter().filter(|&&b| b != WHITE).count(), 1);
}

#[test]
fn draw_circle_touches_its_four_extremes() {
    let g = graphics();
    let mut inky = Inky::new();
    g.draw_circle(&mut inky, 50, 50, 4, Color::Black);
    for (x, y) in [(54, 50), (50, 54), (46, 50), (50, 46)] {
        assert_eq!(pixel(&inky, x, y), BLACK, "({x}, {y})");
    }
    assert_eq!(pixel(&inky, 50, 50), WHITE);
    assert_eq!(pixel(&inky, 54, 54), WHITE);
}

#[test]
fn rounded_rect_fills_inside_but_not_the_corners() {
    let g = graphics();
    let mut inky = Inky::new();
    g.draw_rounded_rect(&mut inky, &Rect::new(100, 100, 20, 10), 3, Color::Black);
    assert_eq!(pixel(&inky, 110, 105), BLACK);
    assert_eq!(pixel(&inky, 103, 100), BLACK);
    assert_eq!(pixel(&inky, 100, 105), BLACK);
    assert_eq!(pixel(&inky, 100, 100), WHITE);
    assert_eq!(pixel(&inky, 119, 100), WHITE);
    assert_eq!(pixel(&inky, 120, 105), WHITE);
}

#[test]
fn rounded_box_outlines_without_filling() {
    let g = graphics();
    let mut inky = Inky::new();
    g.draw_rounded_box(&mut inky, &Rect::new(200, 200, 20, 10), 3, Color::Black);
    assert_eq!(pixel(&inky, 210, 200), BLACK);
    assert_eq!(pixel(&inky, 210, 209), BLACK);
    assert_eq!(pixel(&inky, 200, 205), BLACK);
    assert_eq!(pixel(&inky, 219, 205), BLACK);
    assert_eq!(pixel(&inky, 210, 205), WHITE);
    assert_eq!(pixel(&inky, 200, 200), WHITE);
}

#[test]
fn text_width_adds_advances() {
    let g = graphics();
    assert_eq!(g.calculate_text_width("AA ", "test"), 13);
    assert_eq!(g.calculate_text_width("", "test"), 0);
}

#[test]
fn draw_text_places_glyph_pixels_above_the_pen() {
    let g = graphics();
    let mut inky = Inky::new();
    g.draw_text(&mut inky, 10, 20, "A", Alignment::Left, "test", Color::Black);
    // Rows of the glyph, bottom first: 9, F, 9, 6.
    let rows = [0x9u8, 0xf, 0x9, 0x6];
    for cy in 0..4usize {
        for cx in 0..4usize {
            let lit = rows[cy] & (1 << (3 - cx)) != 0;
            let expected = if lit { BLACK } else { WHITE };
            assert_eq!(pixel(&inky, 10 + cx, 20 - cy), expected, "({cx}, {cy})");
        }
    }
}

#[test]
fn draw_text_advances_the_pen() {
    let g = graphics();
    let mut inky = Inky::new();
    g.draw_text(&mut inky, 10, 20, "A A", Alignment::Left, "test", Color::Black);
    assert_eq!(pixel(&inky, 10, 20), BLACK);
    assert_eq!(pixel(&inky, 18, 20), BLACK);
    assert_eq!(pixel(&inky, 15, 20), WHITE);
}

#[test]
fn aligned_text_shifts_by_its_width() {
    let g = graphics();
    let mut centered = Inky::new();
    g.draw_text(&mut centered, 10, 20, "A", Alignment::Center, "test", Color::Black);
    assert_eq!(pixel(&centered, 8, 20), BLACK);
    assert_eq!(pixel(&centered, 10, 20), WHITE);
    let mut right = Inky::new();
    g.draw_text(&mut right, 10, 20, "A", Alignment::Right, "test", Color::Black);
    assert_eq!(pixel(&right, 5, 20), BLACK);
    assert_eq!(pixel(&right, 8, 20), BLACK);
}

#[test]
fn multiline_text_breaks_after_the_last_fitting_space() {
    let g = graphics();
    let mut inky = Inky::new();
    g.draw_multiline_text_in(&mut inky, Rect::new(0, 0, 12, 50), "A A A", "test", Color::Black);
    assert_eq!(pixel(&inky, 0, 5), BLACK);
    assert_eq!(pixel(&inky, 8, 5), BLACK);
    assert_eq!(pixel(&inky, 16, 5), WHITE);
    assert_eq!(pixel(&inky, 0, 15), BLACK);
    assert_eq!(pixel(&inky, 8, 15), WHITE);
}

#[test]
fn draw_bitmap_sets_its_lit_bits() {
    let g = graphics();
    assert!(g.get_bitmap("dot").is_some());
    assert!(g.get_bitmap("missing").is_none());
    let mut inky = Inky::new();
    g.draw_bitmap(&mut inky, 5, 5, "dot", Color::Green);
    assert_eq!(pixel(&inky, 5, 5), 5);
    assert_eq!(pixel(&inky, 6, 6), 5);
    assert_eq!(pixel(&inky, 6, 5), WHITE);
    assert_eq!(pixel(&inky, 5, 6), WHITE);
}

#[test]
fn draw_image_maps_palette_colors_to_inks() {
    let g = graphics();
    let mut inky = Inky::new();
    let image = Image { width: 2, height: 1, pixels: vec![[255, 0, 0], [0, 0, 255]] };
    g.draw_image_in(&mut inky, &Rect::new(0, 0, 10, 10), 0, 0, &image);
    assert_eq!(pixel(&inky, 0, 0), 3);
    assert_eq!(pixel(&inky, 1, 0), 6);
    assert_eq!(pixel(&inky, 2, 0), WHITE);
}

#[test]
fn draw_image_cuts_to_the_rect() {
    let g = graphics();
    let mut inky = Inky::new();
    let image = Image {
        width: 3,
        height: 1,
        pixels: vec![[255, 255, 0], [0, 255, 0], [0, 0, 0]],
    };
    g.draw_image_in(&mut inky, &Rect::new(10, 10, 2, 1), 0, 0, &image);
    assert_eq!(pixel(&inky, 10, 10), 2);
    assert_eq!(pixel(&inky, 11, 10), 5);
    assert_eq!(pixel(&inky, 12, 10), WHITE);
}

#[test]
fn draw_image_treats_negative_offsets_as_zero() {
    let g = graphics();
    let mut inky = Inky::new();
    let image = Image {
        width: 3,
        height: 1,
        pixels: vec![[255, 255, 0], [0, 255, 0], [0, 0, 0]],
    };
    g.draw_image_in(&mut inky, &Rect::new(10, 10, 2, 1), -1, 0, &image);
    assert_eq!(pixel(&inky, 9, 10), WHITE);
    assert_eq!(pixel(&inky, 10, 10), 2);
    assert_eq!(pixel(&inky, 11, 10), 5);
}

#[test]
fn clear_whitens_everything() {
    let g = graphics();
    let mut inky = Inky::new();
    g.draw_rect(&mut inky, &Rect::new(0, 0, 800, 480), Color::Black);
    inky.clear();
    assert!(inky.as_bytes().iter().all(|&b| b == WHITE));
}

#[test]
fn set_clips_negative_and_far_coordinates() {
    let mut inky = Inky::new();
    inky.set(-1, 0, Color::Black);
    inky.set(0, -1, Color::Black);
    inky.set(800, 0, Color::Black);
    inky.set(0, 480, Color::Black);
    assert!(inky.as_bytes().iter().all(|&b| b == WHITE));
    inky.set(799, 479, Color::Black);
    assert_eq!(pixel(&inky, 799, 479), BLACK);
}

#[test]
fn alignment_is_a_shift_of_left_aligned_text() {
    let g = graphics();
    let width = g.calculate_text_width("A A", "test");
    let mut right = Inky::new();
    g.draw_text(&mut right, 100, 50, "A A", Alignment::Right, "test", Color::Black);
    let mut left = Inky::new();
    g.draw_text(&mut left, 100 - width, 50, "A A", Alignment::Left, "test", Color::Black);
    assert!(right.as_bytes() == left.as_bytes());
    let mut centered = Inky::new();
    g.draw_text(&mut centered, 100, 50, "A A", Alignment::Center, "test", Color::Black);
    let mut shifted = Inky::new();
    g.draw_text(&mut shifted, 100 - width / 2, 50, "A A", Alignment::Left, "test", Color::Black);
    assert!(centered.as_bytes() == shifted.as_bytes());
}

#[test]
fn each_name_finds_its_own_resource() {
    let bitmaps = vec![
        ("one".to_string(), Bitmap { bits: vec![1], width: 1, height: 1 }),
        ("two".to_string(), Bitmap { bits: vec![0], width: 2, height: 3 }),
    ];
    let g = Graphics::new(Resources { fonts: Vec::new(), bitmaps });
    assert_eq!(g.get_bitmap("one").map(|b| (b.width, b.height)), Some((1, 1)));
    assert_eq!(g.get_bitmap("two").map(|b| (b.width, b.height)), Some((2, 3)));
}

#[test]
fn a_line_sets_one_pixel_per_step_of_its_longer_side() {
    let g = graphics();
    let mut inky = Inky::new();
    g.draw_line(&mut inky, 3, 9, 20, 2, Color::Black);
    let set = inky.as_bytes().iter().filter(|&&b| b == BLACK).count();
    assert_eq!(set, 17 + 1);
    // Each column between the ends holds exactly one pixel of the line.
    for x in 3..=20usize {
        let in_column = (0..480).filter(|&y| pixel(&inky, x, y) == BLACK).count();
        assert_eq!(in_column, 1, "column {x}");
    }
}

#[test]
fn a_circle_is_symmetric_in_its_octants() {
    let g = graphics();
    let mut inky = Inky::new();
    g.draw_circle(&mut inky, 100, 100, 13, Color::Black);
    for y in 80..=120usize {
        for x in 80..=120usize {
            let p = pixel(&inky, x, y);
            assert_eq!(p, pixel(&inky, 200 - x, y));
            assert_eq!(p, pixel(&inky, x, 200 - y));
            assert_eq!(p, pixel(&inky, 100 + y - 100, 100 + x - 100));
        }
    }
}

#[test]
fn drawable_text_is_told_apart() {
    let g = graphics();
    assert!(g.can_draw_text(10, 20, "A A", Alignment::Left, "test"));
    assert!(g.can_draw_text(10, 20, "A A", Alignment::Right, "test"));
    assert!(!g.can_draw_text(10, 20, "AB", Alignment::Left, "test"));
    assert!(!g.can_draw_text(10, 20, "A", Alignment::Left, "missing"));
    // The pen passes the largest coordinate after the first glyph.
    assert!(!g.can_draw_text(i32::MAX - 6, 20, "AA", Alignment::Left, "test"));
    assert!(!g.can_draw_text(i32::MIN + 2, 20, "A", Alignment::Right, "test"));
    assert!(g.can_draw_text(i32::MIN + 5, 20, "A", Alignment::Right, "test"));
}

#[test]
fn square_corners_draw_a_plain_box() {
    let g = graphics();
    for (w, h) in [(1, 1), (1, 5), (6, 1), (7, 4), (20, 13)] {
        let rect = Rect::new(30, 40, w, h);
        let mut rounded = Inky::new();
        g.draw_rounded_box(&mut rounded, &rect, 0, Color::Black);
        let mut boxed = Inky::new();
        g.draw_box(&mut boxed, &rect, 1, Color::Black);
        assert!(rounded.as_bytes() == boxed.as_bytes(), "{w} by {h}");
        let set = boxed.as_bytes().iter().filter(|&&b| b == BLACK).count() as i32;
        let edge = if w == 1 || h == 1 { w * h } else { 2 * (w + h) - 4 };
        assert_eq!(set, edge, "{w} by {h}");
    }
}

#[test]
fn multiline_text_is_checked_before_drawing() {
    let g = graphics();
    assert!(g.can_draw_multiline_text(Rect::new(0, 0, 12, 50), "A A A", "test"));
    assert!(g.can_draw_multiline_text(Rect::new(0, 0, 12, 50), "", "test"));
    assert!(!g.can_draw_multiline_text(Rect::new(0, 0, 12, 50), "A B", "test"));
    assert!(!g.can_draw_multiline_text(Rect::new(0, 0, 12, 50), "A", "missing"));
    assert!(!g.can_draw_multiline_text(Rect::new(0, i32::MAX - 2, 12, 50), "A", "test"));
    // A word wider than the rectangle takes no byte on its line.
    assert!(!g.can_draw_multiline_text(Rect::new(0, 0, 2, 50), "AA", "test"));
}

#[test]
fn bitmaps_are_checked_before_drawing() {
    let g = graphics();
    assert!(g.can_draw_bitmap(10, 10, "dot"));
    assert!(!g.can_draw_bitmap(10, 10, "missing"));
    assert!(!g.can_draw_bitmap(i32::MAX, 10, "dot"));
    assert!(g.can_draw_bitmap(i32::MAX - 1, 10, "dot"));
}
