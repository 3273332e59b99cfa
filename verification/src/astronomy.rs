use vstd::prelude::*;

use crate::graphics::{rect_coords_fit, Graphics};
use crate::inky::{painted, Color, Panel};
use crate::rect::{fits_i32, Rect};

verus! {

/// The sidebar of the astronomy screen: the last 250 columns of `rect`.
pub open spec fn astronomy_sidebar(rect: Rect) -> Rect {
    rect.split_right(250).1
}

/// Where the picture goes: what is left of `rect` beside the sidebar.
pub open spec fn astronomy_picture_area(rect: Rect) -> Rect {
    rect.split_right(250).0
}

/// Where the picture's title goes: the sidebar's top 30 rows.
pub open spec fn astronomy_title_area(rect: Rect) -> Rect {
    astronomy_sidebar(rect).split_top(30).1
}

/// Where the picture's explanation goes: the rest of the sidebar, 10 pixels in from the left
/// and right.
pub open spec fn astronomy_text_area(rect: Rect) -> Rect {
    astronomy_sidebar(rect).split_top(30).0.shrunk(10, 0, 10, 0)
}

/// Whether laying out the astronomy screen keeps every coordinate in range.
pub open spec fn astronomy_layout_fits(rect: Rect) -> bool {
    let sidebar = astronomy_sidebar(rect);
    let below = sidebar.split_top(30).0;
    &&& fits_i32(rect.width - 250)
    &&& fits_i32(rect.x + rect.width - 250)
    &&& rect_coords_fit(sidebar)
    &&& fits_i32(sidebar.y + 30)
    &&& fits_i32(sidebar.height - 30)
    &&& fits_i32(below.x + 10)
    &&& fits_i32(below.width - 10)
    &&& fits_i32(below.width - 20)
}

/// Fills the sidebar of the astronomy screen black and gives where its parts go: the picture,
/// the title and the explanation.
pub fn render_astronomy_frame<P: Panel>(inky: &mut P, graphics: &Graphics, rect: Rect) -> (areas: (Rect, Rect, Rect))
    requires
        old(inky).wf(),
        astronomy_layout_fits(rect),
    ensures
        final(inky).wf(),
        areas == (astronomy_picture_area(rect), astronomy_title_area(rect), astronomy_text_area(rect)),
        painted(
            old(inky).pixels(),
            final(inky).pixels(),
            |x: int, y: int| astronomy_sidebar(rect).contains(x, y),
            Color::Black,
        ),
{
    let mut picture = rect;
    let mut sidebar = picture.split_off_right(250);
    graphics.draw_rect(inky, &sidebar, Color::Black);
    let title = sidebar.split_off_top(30);
    let text = sidebar.shrink(10, 0, 10, 0);
    (picture, title, text)
}

} // verus!
