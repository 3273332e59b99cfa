use eink_frame::palette::{
    color_map, desaturated_palette, position, saturated_palette, InkyColorMap,
};
use eink_frame::emulator::Inky;
use eink_frame::font::Resources;
use eink_frame::graphics::Graphics;
use eink_frame::palette::Image;
use eink_frame::{Color, Rect};

#[test]
fn palettes_hold_six_colors() {
    let d = desaturated_palette();
    assert_eq!(d[0], [0, 0, 0]);
    assert_eq!(d[1], [255, 255, 255]);
    assert_eq!(d[4], [0, 0, 255]);
    let s = saturated_palette();
    assert_eq!(s[1], [161, 164, 165]);
    assert_eq!(s[5], [58, 91, 70]);
}

#[test]
fn palette_entries_map_to_inks() {
    assert_eq!(color_map(0), Color::Black);
    assert_eq!(color_map(1), Color::White);
    assert_eq!(color_map(2), Color::Yellow);
    assert_eq!(color_map(3), Color::Red);
    assert_eq!(color_map(4), Color::Blue);
    assert_eq!(color_map(5), Color::Green);
}

#[test]
fn nearest_palette_entry() {
    let map = InkyColorMap(desaturated_palette());
    assert_eq!(map.index_of(&[10, 10, 10]), 0);
    assert_eq!(map.index_of(&[250, 250, 250]), 1);
    assert_eq!(map.index_of(&[200, 40, 30]), 3);
    assert_eq!(map.index_of(&[30, 40, 200]), 4);
}

#[test]
fn ties_go_to_the_first_entry() {
    let map = InkyColorMap([[0, 0, 0], [10, 0, 0], [10, 0, 0], [0, 0, 0], [0, 0, 0], [0, 0, 0]]);
    assert_eq!(map.index_of(&[5, 0, 0]), 0);
    assert_eq!(map.index_of(&[10, 0, 0]), 1);
}

#[test]
fn every_palette_entry_maps_to_itself() {
    for palette in [desaturated_palette(), saturated_palette()] {
        let map = InkyColorMap(palette);
        for (i, entry) in palette.iter().enumerate() {
            assert_eq!(map.index_of(entry), i);
        }
    }
}

#[test]
fn map_color_replaces_by_the_pure_ink() {
    let map = InkyColorMap(saturated_palette());
    let mut color = [160, 160, 160];
    map.map_color(&mut color);
    assert_eq!(color, [255, 255, 255]);
    let mut color = [60, 60, 90];
    map.map_color(&mut color);
    assert_eq!(color, [0, 0, 255]);
}

#[test]
fn nearest_agrees_with_float_distance() {
    let palette = saturated_palette();
    let map = InkyColorMap(palette);
    for r in (0..=255u16).step_by(51) {
        for g in (0..=255u16).step_by(51) {
            for b in (0..=255u16).step_by(51) {
                let color = [r as u8, g as u8, b as u8];
                let mut best: Option<(f32, usize)> = None;
                for (i, p) in palette.iter().enumerate() {
                    let mut d = 0.0f32;
                    for c in 0..3 {
                        d += (color[c] as f32 - p[c] as f32).powi(2);
                    }
                    let replace = match best {
                        None => true,
                        Some((bd, _)) => bd > d,
                    };
                    if replace {
                        best = Some((d, i));
                    }
                }
                assert_eq!(map.index_of(&color), best.unwrap().1, "{color:?}");
            }
        }
    }
}

#[test]
fn position_finds_the_first_equal_entry() {
    let palette = desaturated_palette();
    assert_eq!(position(&palette, &[255, 0, 0]), Some(3));
    assert_eq!(position(&palette, &[1, 2, 3]), None);
}

#[test]
fn dithered_colors_draw_as_their_ink() {
    let map = InkyColorMap(saturated_palette());
    let samples = [[10u8, 10, 10], [170, 170, 170], [200, 180, 80], [150, 70, 70], [60, 60, 90], [60, 90, 70]];
    let mut pixels = Vec::new();
    let mut expected = Vec::new();
    for sample in samples {
        let mut color = sample;
        let index = map.index_of(&color);
        map.map_color(&mut color);
        pixels.push(color);
        expected.push(color_map(index).code());
    }
    let g = Graphics::new(Resources { fonts: Vec::new(), bitmaps: Vec::new() });
    let mut inky = Inky::new();
    let image = Image { width: 6, height: 1, pixels };
    g.draw_image_in(&mut inky, &Rect::new(0, 0, 6, 1), 0, 0, &image);
    assert_eq!(&inky.as_bytes()[..6], &expected[..]);
    assert_eq!(expected, vec![0, 1, 2, 3, 6, 5]);
}

#[test]
fn color_codes_round_trip() {
    for color in [Color::Black, Color::White, Color::Yellow, Color::Red, Color::Green, Color::Blue] {
        assert_eq!(Color::from_code(color.code()), Some(color));
    }
    assert_eq!(Color::Green.code(), 5);
    assert_eq!(Color::Blue.code(), 6);
    assert_eq!(Color::from_code(4), None);
    assert_eq!(Color::from_code(7), None);
}
