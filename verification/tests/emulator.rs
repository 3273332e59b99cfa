use eink_frame::emulator::{decode_events, event_bit, render_window, window_color, Inky};
use eink_frame::{Button, Color, Panel};

#[test]
fn emulated_pixels_are_one_byte_each() {
    let mut inky = Inky::new();
    inky.set_pixel(3, 2, Color::Green);
    assert_eq!(inky.as_bytes()[3 + 2 * 800], 5);
    inky.set_pixel(3, 2, Color::Blue);
    assert_eq!(inky.as_bytes()[3 + 2 * 800], 6);
    assert_eq!(inky.resolution_x(), 800);
    assert_eq!(inky.resolution_y(), 480);
}

#[test]
fn event_bits_per_button() {
    assert_eq!(event_bit(Button::A), 0b0001);
    assert_eq!(event_bit(Button::B), 0b0010);
    assert_eq!(event_bit(Button::C), 0b0100);
    assert_eq!(event_bit(Button::D), 0b1000);
}

#[test]
fn events_decode_in_button_order() {
    assert_eq!(decode_events(0b1010), vec![Button::B, Button::D]);
    assert_eq!(decode_events(0), Vec::<Button>::new());
    assert_eq!(decode_events(0xff), vec![Button::A, Button::B, Button::C, Button::D]);
}

#[test]
fn a_single_press_reads_back_as_that_button() {
    for button in [Button::A, Button::B, Button::C, Button::D] {
        assert_eq!(decode_events(event_bit(button)), vec![button]);
    }
}

#[test]
fn window_colors_swap_nothing_but_map_codes() {
    assert_eq!(window_color(0), Some(0x000000));
    assert_eq!(window_color(1), Some(0xffffff));
    assert_eq!(window_color(2), Some(0xffff00));
    assert_eq!(window_color(3), Some(0xff0000));
    assert_eq!(window_color(5), Some(0x0000ff));
    assert_eq!(window_color(6), Some(0x00ff00));
    assert_eq!(window_color(4), None);
    assert_eq!(window_color(7), None);
}

#[test]
fn window_redraw_paints_bytes_and_led() {
    let mut display = vec![7u32; 800 * 480];
    let mut buffer = vec![1u8];
    buffer.extend(std::iter::repeat(0u8).take(800 * 20));
    buffer[1] = 3;
    render_window(&mut display, &buffer);
    assert_eq!(display[0], 0xff0000);
    assert_eq!(display[1], 0x000000);
    assert_eq!(display[100 + 10 * 800], 0xffffff);
    assert_eq!(display[109 + 19 * 800], 0xffffff);
    assert_eq!(display[110 + 10 * 800], 0x000000);
    assert_eq!(display[800 * 20], 7);
}

#[test]
fn window_redraw_without_led() {
    let mut display = vec![7u32; 800 * 480];
    let buffer = vec![0u8, 1, 1];
    render_window(&mut display, &buffer);
    assert_eq!(display[0], 0xffffff);
    assert_eq!(display[1], 0xffffff);
    assert_eq!(display[2], 7);
    assert_eq!(display[100 + 10 * 800], 7);
}

#[test]
fn the_window_shows_what_was_drawn() {
    let mut inky = Inky::new();
    inky.set_pixel(0, 0, Color::Red);
    inky.set_pixel(1, 0, Color::Green);
    inky.set_pixel(2, 0, Color::Blue);
    inky.set_pixel(105, 12, Color::Black);
    let mut buffer = vec![0u8];
    buffer.extend_from_slice(inky.as_bytes());
    let mut display = vec![0u32; 800 * 480];
    render_window(&mut display, &buffer);
    assert_eq!(display[0], 0xff0000);
    // Green and blue pixels show in each other's colors.
    assert_eq!(display[1], 0x0000ff);
    assert_eq!(display[2], 0x00ff00);
    assert_eq!(display[3], 0xffffff);
    assert_eq!(display[105 + 12 * 800], 0x000000);
    // With the LED on, its square is white over the frame.
    buffer[0] = 1;
    render_window(&mut display, &buffer);
    assert_eq!(display[105 + 12 * 800], 0xffffff);
}
