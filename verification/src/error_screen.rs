use vstd::prelude::*;

use crate::graphics::{dither_region, Alignment, Graphics};
use crate::inky::{lemma_painted_same_region, lemma_painted_then, lemma_painted_union, on_screen, painted, painted_by, Color, Panel};
use crate::rect::Rect;

verus! {

/// Height of the status bar above the screen's client area.
pub const STATUS_HEIGHT: i32 = 30;

/// Height of the black band behind the error's text.
pub const ERROR_BOX_HEIGHT: i32 = 180;

/// The client area under the status bar.
pub open spec fn error_client() -> Rect {
    Rect { x: 0, y: 30, width: 800, height: 450 }
}

/// The black band across the middle of the client area and, above and below it, three bars
/// 15, 10 and 5 pixels high, each half its own height away from the previous one.
pub open spec fn error_bars() -> Seq<Rect> {
    seq![
        Rect { x: 0, y: 165, width: 800, height: 180 },
        Rect { x: 0, y: 143, width: 800, height: 15 },
        Rect { x: 0, y: 352, width: 800, height: 15 },
        Rect { x: 0, y: 128, width: 800, height: 10 },
        Rect { x: 0, y: 372, width: 800, height: 10 },
        Rect { x: 0, y: 121, width: 800, height: 5 },
        Rect { x: 0, y: 384, width: 800, height: 5 },
    ]
}

/// The first `n` of the band and bars.
pub open spec fn in_bars(n: int, x: int, y: int) -> bool {
    exists|i: int| 0 <= i < n && #[trigger] error_bars()[i].contains(x, y)
}

/// The pixels `render_error` paints black: the dithered client area, the band and the bars.
pub open spec fn error_black(x: int, y: int) -> bool {
    dither_region(error_client(), x, y) || in_bars(7, x, y)
}

/// The pixels `render_error` paints white: the title, the summary and the message, centered
/// across the client area, in white on the band.
pub open spec fn error_text(graphics: Graphics, title: Seq<char>, summary: Seq<char>, message: Seq<char>, x: int, y: int) -> bool {
    ||| graphics.text_pixels("helvR24"@, title, 400, 235, Alignment::Center, x, y)
    ||| graphics.text_pixels("helvR12"@, summary, 400, 275, Alignment::Center, x, y)
    ||| graphics.text_pixels("helvR12"@, message, 400, 297, Alignment::Center, x, y)
}

/// Whether the three texts of an error screen can be drawn.
pub open spec fn error_drawable(graphics: Graphics, title: Seq<char>, summary: Seq<char>, message: Seq<char>) -> bool {
    &&& graphics.text_drawable("helvR24"@, title, 400, 235, Alignment::Center)
    &&& graphics.text_drawable("helvR12"@, summary, 400, 275, Alignment::Center)
    &&& graphics.text_drawable("helvR12"@, message, 400, 297, Alignment::Center)
}

/// The vertical distance from the middle of the client area to the near edge of the next bar
/// pair, after `k` of the three pairs.
pub open spec fn bar_offset(k: int) -> int {
    if k <= 0 {
        90
    } else if k == 1 {
        112
    } else if k == 2 {
        127
    } else {
        134
    }
}

/// Draws the error screen: the client area under the status bar dithered, a black band across
/// its middle with bars above and below, and on the band `title`, `summary` and `message` in
/// white, centered.
pub fn render_error<P: Panel>(inky: &mut P, graphics: &Graphics, title: &str, summary: &str, message: &str)
    requires
        old(inky).wf(),
        error_drawable(*graphics, title@, summary@, message@),
    ensures
        final(inky).wf(),
        painted_by(
            old(inky).pixels(),
            final(inky).pixels(),
            |x: int, y: int| error_black(x, y) || error_text(*graphics, title@, summary@, message@, x, y),
            |x: int, y: int|
                if error_text(*graphics, title@, summary@, message@, x, y) {
                    Color::White
                } else {
                    Color::Black
                },
        ),
{
    let ghost start = inky.pixels();
    let status_height: i32 = STATUS_HEIGHT;
    let box_height: i32 = ERROR_BOX_HEIGHT;
    let client_x: i32 = 0;
    let client_y: i32 = status_height;
    let client_width = inky.resolution_x() as i32;
    let client_height = inky.resolution_y() as i32 - status_height;
    let center_x = client_x + client_width / 2;
    let center_y = client_y + client_height / 2;
    let client = Rect { x: client_x, y: client_y, width: client_width, height: client_height };
    assert(client == error_client());
    graphics.dither_rect(inky, &client, Color::Black);
    let ghost p0 = inky.pixels();
    let band = Rect {
        x: client_x,
        y: client_y + client_height / 2 - box_height / 2,
        width: client_width,
        height: box_height,
    };
    assert(band == error_bars()[0]);
    graphics.draw_rect(inky, &band, Color::Black);
    proof {
        lemma_painted_union(start, p0, inky.pixels(), |x: int, y: int| dither_region(error_client(), x, y), |x: int, y: int| band.contains(x, y), Color::Black);
        lemma_painted_same_region(
            start,
            inky.pixels(),
            |x: int, y: int| dither_region(error_client(), x, y) || band.contains(x, y),
            |x: int, y: int| dither_region(error_client(), x, y) || in_bars(1, x, y),
            Color::Black,
        );
    }
    let widths: [i32; 3] = [15, 10, 5];
    let mut offset: i32 = box_height / 2;
    let mut k: usize = 0;
    while k < 3
        invariant
            inky.wf(),
            k <= 3,
            widths@ == seq![15i32, 10, 5],
            offset == bar_offset(k as int),
            client_x == 0,
            client_y == 30,
            client_width == 800,
            client_height == 450,
            painted(start, inky.pixels(), |x: int, y: int| dither_region(error_client(), x, y) || in_bars(1 + 2 * k, x, y), Color::Black),
        decreases 3 - k,
    {
        let bar_width = widths[k];
        let upper = Rect {
            x: client_x,
            y: client_y + client_height / 2 - offset - bar_width - bar_width / 2,
            width: client_width,
            height: bar_width,
        };
        let lower = Rect {
            x: client_x,
            y: client_y + client_height / 2 + offset + bar_width / 2,
            width: client_width,
            height: bar_width,
        };
        assert(upper == error_bars()[1 + 2 * k]);
        assert(lower == error_bars()[2 + 2 * k]);
        let ghost p1 = inky.pixels();
        graphics.draw_rect(inky, &upper, Color::Black);
        let ghost p2 = inky.pixels();
        graphics.draw_rect(inky, &lower, Color::Black);
        proof {
            let done = |x: int, y: int| dither_region(error_client(), x, y) || in_bars(1 + 2 * k, x, y);
            lemma_painted_union(start, p1, p2, done, |x: int, y: int| upper.contains(x, y), Color::Black);
            lemma_painted_union(
                start,
                p2,
                inky.pixels(),
                |x: int, y: int| done(x, y) || upper.contains(x, y),
                |x: int, y: int| lower.contains(x, y),
                Color::Black,
            );
            let next = |x: int, y: int| dither_region(error_client(), x, y) || in_bars(3 + 2 * k, x, y);
            assert forall|x: int, y: int| on_screen(x, y) implies ((done(x, y) || upper.contains(x, y)) || lower.contains(x, y))
                <==> next(x, y) by {
                if in_bars(3 + 2 * k, x, y) {
                    let i = choose|i: int| 0 <= i < 3 + 2 * k && #[trigger] error_bars()[i].contains(x, y);
                    if i < 1 + 2 * k {
                        assert(in_bars(1 + 2 * k, x, y));
                    }
                }
                if upper.contains(x, y) {
                    assert(error_bars()[1 + 2 * k].contains(x, y));
                }
                if lower.contains(x, y) {
                    assert(error_bars()[2 + 2 * k].contains(x, y));
                }
                if in_bars(1 + 2 * k, x, y) {
                    let i = choose|i: int| 0 <= i < 1 + 2 * k && #[trigger] error_bars()[i].contains(x, y);
                    assert(error_bars()[i].contains(x, y));
                }
            }
            lemma_painted_same_region(
                start,
                inky.pixels(),
                |x: int, y: int| (done(x, y) || upper.contains(x, y)) || lower.contains(x, y),
                next,
                Color::Black,
            );
        }
        offset += bar_width + bar_width / 2;
        k += 1;
    }
    let ghost black = inky.pixels();
    graphics.draw_text(inky, center_x, center_y - 20, title, Alignment::Center, "helvR24", Color::White);
    let ghost t1 = inky.pixels();
    graphics.draw_text(inky, center_x, center_y + 20, summary, Alignment::Center, "helvR12", Color::White);
    let ghost t2 = inky.pixels();
    graphics.draw_text(inky, center_x, center_y + 42, message, Alignment::Center, "helvR12", Color::White);
    proof {
        let r1 = |x: int, y: int| graphics.text_pixels("helvR24"@, title@, 400, 235, Alignment::Center, x, y);
        let r2 = |x: int, y: int| graphics.text_pixels("helvR12"@, summary@, 400, 275, Alignment::Center, x, y);
        let r3 = |x: int, y: int| graphics.text_pixels("helvR12"@, message@, 400, 297, Alignment::Center, x, y);
        lemma_painted_union(black, t1, t2, r1, r2, Color::White);
        lemma_painted_union(black, t2, inky.pixels(), |x: int, y: int| r1(x, y) || r2(x, y), r3, Color::White);
        let text = |x: int, y: int| error_text(*graphics, title@, summary@, message@, x, y);
        lemma_painted_same_region(black, inky.pixels(), |x: int, y: int| (r1(x, y) || r2(x, y)) || r3(x, y), text, Color::White);
        assert forall|x: int, y: int| on_screen(x, y) implies (dither_region(error_client(), x, y) || in_bars(7, x, y)) <==> error_black(x, y) by {
        }
        lemma_painted_same_region(
            start,
            black,
            |x: int, y: int| dither_region(error_client(), x, y) || in_bars(7, x, y),
            |x: int, y: int| error_black(x, y),
            Color::Black,
        );
        lemma_painted_then(start, black, inky.pixels(), |x: int, y: int| error_black(x, y), Color::Black, text, Color::White);
    }
}

} // verus!
