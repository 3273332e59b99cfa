use eink_frame::astronomy::render_astronomy_frame;
use eink_frame::bdf::load_font;
use eink_frame::calendar::{progress_bar_rect, render_age_table, render_progress_bar, years_old};
use eink_frame::chart::{graph_scale_layout, render_axis, render_graph_line, render_graph_scale, Side};
use eink_frame::emulator::Inky;
use eink_frame::error_screen::render_error;
use eink_frame::font::{Font, Resources};
use eink_frame::graphics::{Alignment, Graphics};
use eink_frame::icons::{icon_bitmap, weather_icon_table};
use eink_frame::status::{draw_signal_bars, render_status_frame, signal_bars};
use eink_frame::{Color, Rect};

const FONT: &str = "ENCODING 65\nDWIDTH 5 0\nBBX 4 4 0 0\nBITMAP\n60\n90\nF0\n90\nENDCHAR\n\
ENCODING 32\nDWIDTH 3 0\nBBX 0 0 0 0\nBITMAP\nENDCHAR\n";

/// Every glyph the title "Family ages" needs: one lit pixel, advance 2.
fn with_title_glyphs(font: &str) -> String {
    let mut text = font.to_string();
    for c in "Fmilyages".chars() {
        text.push_str(&format!("ENCODING {}\nDWIDTH 2 0\nBBX 1 1 0 0\nBITMAP\n80\nENDCHAR\n", c as u32));
    }
    text
}

const BLACK: u8 = 0;
const WHITE: u8 = 1;

fn font() -> Font {
    load_font(&with_title_glyphs(FONT)).unwrap()
}

fn graphics() -> Graphics {
    let mut fonts = Vec::new();
    for name in ["helvB12", "helvR12", "helvR24"] {
        fonts.push((name.to_string(), font()));
    }
    Graphics::new(Resources { fonts, bitmaps: Vec::new() })
}

fn pixel(inky: &Inky, x: usize, y: usize) -> u8 {
    inky.as_bytes()[x + y * 800]
}

#[test]
fn error_screen_layout() {
    let g = graphics();
    let mut inky = Inky::new();
    render_error(&mut inky, &g, "A", "A", "A A");
    // The client area is dithered.
    assert_eq!(pixel(&inky, 0, 32), BLACK);
    assert_eq!(pixel(&inky, 1, 32), WHITE);
    assert_eq!(pixel(&inky, 0, 31), WHITE);
    // The status bar is left alone.
    assert_eq!(pixel(&inky, 0, 0), WHITE);
    // The band and the bars.
    assert_eq!(pixel(&inky, 1, 165), BLACK);
    assert_eq!(pixel(&inky, 1, 344), BLACK);
    assert_eq!(pixel(&inky, 1, 143), BLACK);
    assert_eq!(pixel(&inky, 1, 157), BLACK);
    assert_eq!(pixel(&inky, 1, 158), WHITE);
    assert_eq!(pixel(&inky, 1, 352), BLACK);
    assert_eq!(pixel(&inky, 1, 121), BLACK);
    assert_eq!(pixel(&inky, 1, 388), BLACK);
    assert_eq!(pixel(&inky, 1, 389), WHITE);
    // The title in white on the band, centered.
    assert_eq!(pixel(&inky, 398, 235), WHITE);
    assert_eq!(pixel(&inky, 399, 235), BLACK);
    assert_eq!(pixel(&inky, 398, 275), WHITE);
}

#[test]
fn signal_bars_round_up_quarters() {
    assert_eq!(signal_bars(None), 0);
    assert_eq!(signal_bars(Some(0)), 0);
    assert_eq!(signal_bars(Some(1)), 1);
    assert_eq!(signal_bars(Some(25)), 1);
    assert_eq!(signal_bars(Some(26)), 2);
    assert_eq!(signal_bars(Some(100)), 4);
    assert_eq!(signal_bars(Some(255)), 11);
}

#[test]
fn signal_bars_fill_the_first_ones() {
    let g = graphics();
    let mut inky = Inky::new();
    g.draw_rect(&mut inky, &Rect::new(0, 0, 800, 30), Color::Black);
    draw_signal_bars(&mut inky, &g, Rect::new(100, 0, 19, 10), 2);
    // Bar 0 is filled and starts six rows down.
    assert_eq!(pixel(&inky, 101, 7), WHITE);
    assert_eq!(pixel(&inky, 101, 5), BLACK);
    // Bar 1 is filled and starts four rows down.
    assert_eq!(pixel(&inky, 106, 5), WHITE);
    // Bar 3 is outlined over the full height.
    assert_eq!(pixel(&inky, 115, 0), WHITE);
    assert_eq!(pixel(&inky, 116, 1), BLACK);
    // Spacing stays dark.
    assert_eq!(pixel(&inky, 104, 8), BLACK);
}

#[test]
fn axis_ticks_spread_from_edge_to_edge() {
    let g = graphics();
    let mut inky = Inky::new();
    let labels = vec!["A".to_string(), String::new(), "A".to_string()];
    render_axis(&mut inky, &g, &Rect::new(100, 100, 50, 20), &labels, Color::Black);
    assert_eq!(pixel(&inky, 100, 100), BLACK);
    assert_eq!(pixel(&inky, 149, 119), BLACK);
    assert_eq!(pixel(&inky, 120, 110), WHITE);
    for x in [100, 124, 149] {
        assert_eq!(pixel(&inky, x, 121), BLACK, "tick at {x}");
        assert_eq!(pixel(&inky, x, 123), BLACK, "tick at {x}");
    }
    assert_eq!(pixel(&inky, 125, 121), WHITE);
}

#[test]
fn scale_layout_by_side() {
    let rect = Rect::new(60, 35, 100, 50);
    assert_eq!(graph_scale_layout(&rect, Side::Left), (56, 50, Alignment::Right));
    assert_eq!(graph_scale_layout(&rect, Side::Right), (160, 170, Alignment::Left));
}

#[test]
fn scale_ticks_and_labels() {
    let g = graphics();
    let mut inky = Inky::new();
    let rect = Rect::new(60, 35, 100, 50);
    let ticks = vec![(40, "A".to_string()), (80, String::new())];
    render_graph_scale(&mut inky, &g, &rect, Side::Right, &ticks, Color::Red);
    for x in 160..164 {
        assert_eq!(pixel(&inky, x, 40), 3);
        assert_eq!(pixel(&inky, x, 80), 3);
    }
    assert_eq!(pixel(&inky, 164, 40), WHITE);
    // The label starts at column 170, four rows under its tick.
    assert_eq!(pixel(&inky, 170, 44), 3);
}

#[test]
fn series_joins_evenly_spread_points() {
    let g = graphics();
    let mut inky = Inky::new();
    let rect = Rect::new(0, 0, 21, 30);
    render_graph_line(&mut inky, &g, &rect, &vec![10, 20, 10], Color::Blue);
    assert_eq!(pixel(&inky, 0, 10), 6);
    assert_eq!(pixel(&inky, 10, 20), 6);
    assert_eq!(pixel(&inky, 20, 10), 6);
    assert_eq!(pixel(&inky, 5, 15), 6);
    assert_eq!(pixel(&inky, 0, 20), WHITE);
}

#[test]
fn series_of_one_point_draws_nothing() {
    let g = graphics();
    let mut inky = Inky::new();
    render_graph_line(&mut inky, &g, &Rect::new(0, 0, 21, 30), &vec![10], Color::Blue);
    assert!(inky.as_bytes().iter().all(|&b| b == WHITE));
}

#[test]
fn icons_are_cut_from_the_sheet() {
    let width = 9 * 48;
    let mut red = vec![0u8; width * 48 * 4];
    // Icon 10 sits in the second row, second column.
    let (x, y) = (48, 48);
    red[(x + 3) + (y + 1) * width] = 200;
    red[(x + 47) + (y + 47) * width] = 1;
    red[(x + 48) + (y + 1) * width] = 255;
    let bitmap = icon_bitmap(&red, width, 10);
    assert_eq!((bitmap.width, bitmap.height), (48, 48));
    assert_eq!(bitmap.bits.len(), 288);
    let bit = |i: usize| bitmap.bits[i / 8] & (1 << (i % 8)) != 0;
    assert!(bit(3 + 48));
    assert!(bit(47 + 47 * 48));
    let lit = (0..48 * 48).filter(|&i| bit(i)).count();
    assert_eq!(lit, 2);
}

#[test]
fn icon_table_names_every_shared_bitmap() {
    let table = weather_icon_table();
    assert_eq!(table.len(), 26);
    assert!(table.contains(&("rain,rain_showers".to_string(), 3)));
    assert!(table.contains(&("fog".to_string(), 35)));
    for group in [
        "wind_few,wind_sct",
        "rain_snow,rain_sleet",
        "fzra,rain_fzra,snow_fzra",
        "snow_sleet,sleet",
        "rain,rain_showers",
        "tsra,tsra_sct",
        "hurricane,tropical_storm",
    ] {
        assert!(table.iter().any(|(name, _)| name == group), "{group}");
    }
}

#[test]
fn icon_drawn_from_the_sheet_shows_the_sheet() {
    let width = 9 * 48;
    let mut red = vec![0u8; width * 48];
    red[5 + 7 * width] = 9;
    red[40 + 2 * width] = 9;
    let bitmap = icon_bitmap(&red, width, 0);
    let g = Graphics::new(Resources { fonts: Vec::new(), bitmaps: vec![("icon".to_string(), bitmap)] });
    let mut inky = Inky::new();
    g.draw_bitmap(&mut inky, 100, 200, "icon", Color::Black);
    for dy in 0..48 {
        for dx in 0..48 {
            let lit = red[dx + dy * width] > 0;
            let expected = if lit { BLACK } else { WHITE };
            assert_eq!(pixel(&inky, 100 + dx, 200 + dy), expected, "({dx}, {dy})");
        }
    }
}

#[test]
fn age_table_rows_and_columns() {
    let g = graphics();
    let mut inky = Inky::new();
    let rows = vec![
        ["A".to_string(), "A".to_string(), "A".to_string(), "A".to_string(), "A".to_string()],
        ["A".to_string(), String::new(), String::new(), String::new(), "A".to_string()],
    ];
    render_age_table(&mut inky, &g, &rows);
    // The rule under the title.
    assert_eq!(pixel(&inky, 630, 60), BLACK);
    assert_eq!(pixel(&inky, 769, 61), BLACK);
    assert_eq!(pixel(&inky, 770, 61), WHITE);
    // Each "A" is right-aligned to its column: its bottom-left pixel is 5 columns left.
    for (column, row) in [(630, 80), (667, 80), (713, 80), (750, 80), (790, 80), (630, 104), (790, 104)] {
        assert_eq!(pixel(&inky, column - 5, row), BLACK, "cell at ({column}, {row})");
    }
    assert_eq!(pixel(&inky, 667 - 5, 104), WHITE);
}

#[test]
fn progress_bar_sits_at_the_bottom() {
    let bar = progress_bar_rect(Rect::new(0, 30, 800, 450));
    assert_eq!(bar, Rect::new(5, 465, 790, 10));
}

#[test]
fn progress_bar_fills_from_the_left() {
    let g = graphics();
    let mut inky = Inky::new();
    let bar = Rect::new(5, 465, 790, 10);
    render_progress_bar(&mut inky, &g, &bar, 100);
    assert_eq!(pixel(&inky, 400, 470), BLACK);
    assert_eq!(pixel(&inky, 50, 470), WHITE);
    assert_eq!(pixel(&inky, 6, 470), BLACK);
    assert_eq!(pixel(&inky, 5, 465), WHITE);
}

#[test]
fn status_bar_layout() {
    let g = graphics();
    let mut inky = Inky::new();
    let (inner, wifi, bars) = render_status_frame(&mut inky, &g, Rect::new(0, 0, 800, 30));
    assert_eq!(inner, Rect::new(5, 0, 790, 28));
    assert_eq!(wifi, Rect::new(5, 0, 766, 28));
    assert_eq!(bars, Rect::new(776, 3, 19, 23));
    assert_eq!(pixel(&inky, 0, 0), BLACK);
    assert_eq!(pixel(&inky, 799, 29), BLACK);
    assert_eq!(pixel(&inky, 0, 30), WHITE);
}

#[test]
fn astronomy_layout() {
    let g = graphics();
    let mut inky = Inky::new();
    let (picture, title, text) = render_astronomy_frame(&mut inky, &g, Rect::new(0, 30, 800, 450));
    assert_eq!(picture, Rect::new(0, 30, 550, 450));
    assert_eq!(title, Rect::new(550, 30, 250, 30));
    assert_eq!(text, Rect::new(560, 60, 230, 420));
    assert_eq!(pixel(&inky, 550, 30), BLACK);
    assert_eq!(pixel(&inky, 799, 479), BLACK);
    assert_eq!(pixel(&inky, 549, 100), WHITE);
}

#[test]
fn years_count_from_the_last_birthday() {
    assert_eq!(years_old(1990, 2024, true), 34);
    assert_eq!(years_old(1990, 2024, false), 33);
    assert_eq!(years_old(2024, 2024, true), 0);
}
