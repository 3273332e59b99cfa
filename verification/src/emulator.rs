use vstd::prelude::*;

use crate::inky::{
    color_code, color_of_code, lemma_code_color_roundtrip, lemma_color_code_roundtrip, on_screen,
    painted, Button, Color, Panel, Picture, RESOLUTION_X, RESOLUTION_Y,
};

verus! {

/// The color a stored byte stands for; a byte that is no color's code reads as white.
pub open spec fn decode_byte(byte: u8) -> Color {
    match color_of_code(byte) {
        Some(c) => c,
        None => Color::White,
    }
}

/// Number of pixels of the panel.
pub open spec fn pixel_count() -> int {
    RESOLUTION_X * RESOLUTION_Y
}

/// The frame buffer of the desktop emulator: one byte per pixel, row after row, each byte the
/// controller code of the pixel's color.
pub struct Inky {
    buffer: Vec<u8>,
}

impl Inky {
    /// The bytes the emulator shows, row after row.
    pub closed spec fn bytes(&self) -> Seq<u8> {
        self.buffer@
    }

    /// A blank (all white) frame.
    pub fn new() -> (r: Self)
        ensures
            r.wf(),
            forall|x: int, y: int| on_screen(x, y) ==> #[trigger] (r.pixels())(x, y) == Color::White,
            r.bytes() == Seq::new(pixel_count() as nat, |i: int| color_code(Color::White)),
    {
        let mut buffer: Vec<u8> = Vec::new();
        let n = RESOLUTION_X * RESOLUTION_Y;
        while buffer.len() < n
            invariant
                n == pixel_count(),
                buffer.len() <= n,
                forall|i: int| 0 <= i < buffer.len() ==> buffer@[i] == color_code(Color::White),
            decreases n - buffer.len(),
        {
            buffer.push(Color::White.code());
        }
        let r = Inky { buffer };
        assert(r.bytes() =~= Seq::new(pixel_count() as nat, |i: int| color_code(Color::White)));
        r
    }

    /// The bytes of the frame, one per pixel, row after row: each the code of its pixel's
    /// color.
    pub fn as_bytes(&self) -> (b: &[u8])
        ensures
            b@ == self.bytes(),
            self.wf() ==> b@.len() == pixel_count(),
            self.wf() ==> forall|x: int, y: int|
                on_screen(x, y) ==> #[trigger] b@[x + y * RESOLUTION_X] == color_code((self.pixels())(x, y)),
    {
        proof {
            if self.wf() {
                assert forall|x: int, y: int| on_screen(x, y) implies #[trigger] self.buffer@[x + y * RESOLUTION_X]
                    == color_code((self.pixels())(x, y)) by {
                    let i = x + y * RESOLUTION_X;
                    assert(0 <= i < pixel_count()) by (nonlinear_arith)
                        requires
                            0 <= x < 800,
                            0 <= y < 480,
                            i == x + y * 800,
                    ;
                    lemma_code_color_roundtrip(self.buffer@[i]);
                }
            }
        }
        self.buffer.as_slice()
    }
}

impl Panel for Inky {
    closed spec fn wf(&self) -> bool {
        &&& self.buffer.len() == pixel_count()
        &&& forall|i: int| 0 <= i < self.buffer.len() ==> (#[trigger] color_of_code(self.buffer@[i])) is Some
    }

    closed spec fn pixels(&self) -> Picture {
        |x: int, y: int| decode_byte(self.buffer@[x + y * RESOLUTION_X])
    }

    fn resolution_x(&self) -> (r: usize) {
        RESOLUTION_X
    }

    fn resolution_y(&self) -> (r: usize) {
        RESOLUTION_Y
    }

    fn set_pixel(&mut self, x: usize, y: usize, color: Color) {
        let ghost before = self.pixels();
        self.buffer.set(x + y * RESOLUTION_X, color.code());
        proof {
            lemma_color_code_roundtrip(color);
            assert forall|i: int| 0 <= i < self.buffer.len() implies (#[trigger] color_of_code(self.buffer@[i])) is Some by {
                if i != x + y * RESOLUTION_X {
                    assert(self.buffer@[i] == old(self).buffer@[i]);
                }
            }
            let after = self.pixels();
            assert forall|px: int, py: int| on_screen(px, py) implies #[trigger] after(px, py) == (
            if px == x && py == y {
                color
            } else {
                before(px, py)
            }) by {
                if !(px == x && py == y) {
                    assert(px + py * RESOLUTION_X != x + y * RESOLUTION_X) by (nonlinear_arith)
                        requires
                            0 <= px < 800,
                            0 <= x < 800,
                            0 <= py,
                            0 <= y,
                            !(px == x && py == y),
                    ;
                }
            }
        }
    }
}

/// The bit a button press sets in the emulator's event byte: A is bit 0, B bit 1, C bit 2 and D
/// bit 3.
pub open spec fn spec_event_bit(button: Button) -> u8 {
    match button {
        Button::A => 1,
        Button::B => 2,
        Button::C => 4,
        Button::D => 8,
    }
}

/// The bit a button press sets in the emulator's event byte.
pub fn event_bit(button: Button) -> (bit: u8)
    ensures
        bit == spec_event_bit(button),
{
    match button {
        Button::A => 0b0001,
        Button::B => 0b0010,
        Button::C => 0b0100,
        Button::D => 0b1000,
    }
}

/// The buttons in the order their bits are checked.
pub open spec fn button_order() -> Seq<Button> {
    seq![Button::A, Button::B, Button::C, Button::D]
}

/// The buttons whose bits are set in `events`, among the first `n` in `button_order`.
pub open spec fn pressed_buttons(events: u8, n: int) -> Seq<Button>
    decreases n,
{
    if n <= 0 {
        seq![]
    } else {
        let rest = pressed_buttons(events, n - 1);
        let b = button_order()[n - 1];
        if events & spec_event_bit(b) != 0 {
            rest.push(b)
        } else {
            rest
        }
    }
}

/// The buttons pressed according to an event byte, in the order A, B, C, D.
pub fn decode_events(events: u8) -> (buttons: Vec<Button>)
    ensures
        buttons@ == pressed_buttons(events, 4),
{
    let order = [Button::A, Button::B, Button::C, Button::D];
    let mut buttons: Vec<Button> = Vec::new();
    let mut i: usize = 0;
    while i < 4
        invariant
            i <= 4,
            order@ == button_order(),
            buttons@ == pressed_buttons(events, i as int),
        decreases 4 - i,
    {
        let bit = event_bit(order[i]);
        if events & bit != 0 {
            buttons.push(order[i]);
        }
        i += 1;
    }
    buttons
}

/// A byte holding a single button's bit reads back as just that button.
pub proof fn lemma_event_roundtrip(button: Button)
    ensures
        pressed_buttons(spec_event_bit(button), 4) == seq![button],
{
    reveal_with_fuel(pressed_buttons, 5);
    assert(1u8 & 1u8 != 0 && 1u8 & 2u8 == 0 && 1u8 & 4u8 == 0 && 1u8 & 8u8 == 0) by (bit_vector);
    assert(2u8 & 1u8 == 0 && 2u8 & 2u8 != 0 && 2u8 & 4u8 == 0 && 2u8 & 8u8 == 0) by (bit_vector);
    assert(4u8 & 1u8 == 0 && 4u8 & 2u8 == 0 && 4u8 & 4u8 != 0 && 4u8 & 8u8 == 0) by (bit_vector);
    assert(8u8 & 1u8 == 0 && 8u8 & 2u8 == 0 && 8u8 & 4u8 == 0 && 8u8 & 8u8 != 0) by (bit_vector);
    assert(pressed_buttons(spec_event_bit(button), 4) =~= seq![button]);
}

/// The window color the emulator shows for a stored byte, if the byte is a color code.
pub open spec fn spec_window_color(byte: u8) -> Option<u32> {
    if byte == 0 {
        Some(0x000000u32)
    } else if byte == 1 {
        Some(0xffffffu32)
    } else if byte == 2 {
        Some(0xffff00u32)
    } else if byte == 3 {
        Some(0xff0000u32)
    } else if byte == 5 {
        Some(0x0000ffu32)
    } else if byte == 6 {
        Some(0x00ff00u32)
    } else {
        None
    }
}

/// The window color the emulator shows for a stored byte, if the byte is a color code.
pub fn window_color(byte: u8) -> (c: Option<u32>)
    ensures
        c == spec_window_color(byte),
{
    match byte {
        0 => Some(0x000000),
        1 => Some(0xffffff),
        2 => Some(0xffff00),
        3 => Some(0xff0000),
        5 => Some(0x0000ff),
        6 => Some(0x00ff00),
        _ => None,
    }
}

/// Whether window pixel `index` lies in the 10 by 10 square that shows the LED.
pub open spec fn in_led_square(index: int) -> bool {
    &&& 0 <= index
    &&& 100 <= index % (RESOLUTION_X as int) < 110
    &&& 10 <= index / (RESOLUTION_X as int) < 20
}

/// Window pixel `x + y * RESOLUTION_X` is column `x` of row `y`.
proof fn lemma_window_index(x: int, y: int)
    requires
        0 <= x < RESOLUTION_X,
        0 <= y,
    ensures
        (x + y * RESOLUTION_X) % RESOLUTION_X as int == x,
        (x + y * RESOLUTION_X) / RESOLUTION_X as int == y,
{
    vstd::arithmetic::div_mod::lemma_fundamental_div_mod_converse(x + y * 800, 800, y, x);
}

/// What the emulator window shows after a redraw from `buffer` (the shared file from its second
/// byte on): the bytes after the first give the colors of the first window pixels, and when the
/// first byte is not zero the LED square is painted white over them; other pixels keep their
/// old value.
pub open spec fn window_after(old_display: Seq<u32>, buffer: Seq<u8>) -> Seq<u32> {
    Seq::new(
        old_display.len(),
        |i: int|
            if buffer[0] != 0 && in_led_square(i) {
                0xffffffu32
            } else if i < buffer.len() - 1 {
                spec_window_color(buffer[i + 1])->0
            } else {
                old_display[i]
            },
    )
}

/// What is drawn is what the window shows: after a redraw from the LED byte followed by a
/// frame's bytes, each window pixel outside the lit LED square shows the window color of its
/// frame pixel's color code.
pub proof fn lemma_window_shows_frame(inky: Inky, display: Seq<u32>, led: u8, x: int, y: int)
    requires
        inky.wf(),
        display.len() >= pixel_count(),
        on_screen(x, y),
        !(led != 0 && in_led_square(x + y * RESOLUTION_X)),
    ensures
        window_after(display, seq![led] + inky.bytes())[x + y * RESOLUTION_X] == spec_window_color(
            color_code((inky.pixels())(x, y)),
        )->0,
{
    let i = x + y * RESOLUTION_X;
    assert(0 <= i < pixel_count()) by (nonlinear_arith)
        requires
            0 <= x < 800,
            0 <= y < 480,
            i == x + y * 800,
    ;
    let buffer = seq![led] + inky.bytes();
    assert(buffer[i + 1] == inky.bytes()[i]);
    lemma_code_color_roundtrip(inky.bytes()[i]);
}

/// Redraws the emulator window `display` from `buffer` as `window_after` says.
pub fn render_window(display: &mut Vec<u32>, buffer: &[u8])
    requires
        buffer.len() >= 1,
        buffer.len() - 1 <= old(display).len(),
        forall|i: int| 1 <= i < buffer.len() ==> (#[trigger] spec_window_color(buffer[i])) is Some,
        buffer[0] != 0 ==> old(display).len() >= 110 + 19 * RESOLUTION_X,
    ensures
        final(display)@ == window_after(old(display)@, buffer@),
{
    let ghost d0 = display@;
    let mut index: usize = 0;
    while index + 1 < buffer.len()
        invariant
            buffer.len() >= 1,
            buffer.len() - 1 <= d0.len(),
            display@.len() == d0.len(),
            forall|i: int| 1 <= i < buffer.len() ==> (#[trigger] spec_window_color(buffer[i])) is Some,
            index <= buffer.len() - 1,
            forall|i: int| 0 <= i < display@.len() ==> #[trigger] display@[i] == (if i < index {
                spec_window_color(buffer[i + 1])->0
            } else {
                d0[i]
            }),
        decreases buffer.len() - index,
    {
        let byte = buffer[index + 1];
        assert(spec_window_color(buffer[index + 1]) is Some);
        let color = window_color(byte).unwrap();
        display.set(index, color);
        index += 1;
    }
    if buffer[0] != 0 {
        let led_x: usize = 100;
        let led_y: usize = 10;
        let mut dy: usize = 0;
        while dy < 10
            invariant
                dy <= 10,
                buffer[0] != 0,
                buffer.len() >= 1,
                index == buffer.len() - 1,
                display@.len() == d0.len(),
                d0.len() >= 110 + 19 * RESOLUTION_X,
                led_x == 100,
                led_y == 10,
                forall|i: int| 0 <= i < display@.len() ==> #[trigger] display@[i] == (if 100 <= i % 800 < 110 && 10 <= i / 800 < 10 + dy {
                    0xffffffu32
                } else if i < index {
                    spec_window_color(buffer[i + 1])->0
                } else {
                    d0[i]
                }),
            decreases 10 - dy,
        {
            let mut dx: usize = 0;
            while dx < 10
                invariant
                    dx <= 10,
                    dy < 10,
                    buffer.len() >= 1,
                    index == buffer.len() - 1,
                    display@.len() == d0.len(),
                    d0.len() >= 110 + 19 * RESOLUTION_X,
                    led_x == 100,
                    led_y == 10,
                    forall|i: int| 0 <= i < display@.len() ==> #[trigger] display@[i] == (if (100 <= i % 800 < 110 && 10 <= i / 800 < 10 + dy) || (100 <= i % 800 < 100 + dx && i / 800 == 10 + dy) {
                        0xffffffu32
                    } else if i < index {
                        spec_window_color(buffer[i + 1])->0
                    } else {
                        d0[i]
                    }),
                decreases 10 - dx,
            {
                let x = led_x + dx;
                let y = led_y + dy;
                proof {
                    lemma_window_index(x as int, y as int);
                }
                display.set(x + y * RESOLUTION_X, 0xffffff);
                dx += 1;
            }
            dy += 1;
        }
    }
    assert(display@ =~= window_after(d0, buffer@));
}

} // verus!
