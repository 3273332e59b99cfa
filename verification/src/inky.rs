use vstd::prelude::*;

verus! {

/// Width of the panel in pixels.
pub const RESOLUTION_X: usize = 800;

/// Height of the panel in pixels.
pub const RESOLUTION_Y: usize = 480;

/// The colors the e-ink panel can show.
#[derive(Clone, Copy, Debug, PartialEq, Eq, Structural)]
pub enum Color {
    Black,
    White,
    Yellow,
    Red,
    Green,
    Blue,
}

/// The four buttons beside the panel.
#[derive(Clone, Copy, Debug, PartialEq, Eq, Structural)]
pub enum Button {
    A,
    B,
    C,
    D,
}

/// The controller's code for each color.
pub open spec fn color_code(color: Color) -> u8 {
    match color {
        Color::Black => 0,
        Color::White => 1,
        Color::Yellow => 2,
        Color::Red => 3,
        Color::Green => 5,
        Color::Blue => 6,
    }
}

/// The color with a given controller code, if any.
pub open spec fn color_of_code(code: u8) -> Option<Color> {
    if code == 0 {
        Some(Color::Black)
    } else if code == 1 {
        Some(Color::White)
    } else if code == 2 {
        Some(Color::Yellow)
    } else if code == 3 {
        Some(Color::Red)
    } else if code == 5 {
        Some(Color::Green)
    } else if code == 6 {
        Some(Color::Blue)
    } else {
        None
    }
}

/// Reading a color back from its code gives the color.
pub proof fn lemma_color_code_roundtrip(color: Color)
    ensures
        color_of_code(color_code(color)) == Some(color),
{
}

/// A code that names a color is that color's code.
pub proof fn lemma_code_color_roundtrip(code: u8)
    ensures
        color_of_code(code) matches Some(c) ==> color_code(c) == code,
{
}

impl Color {
    /// The controller's code for this color.
    pub fn code(self) -> (c: u8)
        ensures
            c == color_code(self),
    {
        match self {
            Color::Black => 0,
            Color::White => 1,
            Color::Yellow => 2,
            Color::Red => 3,
            Color::Green => 5,
            Color::Blue => 6,
        }
    }

    /// The color with the controller code `code`, if there is one.
    pub fn from_code(code: u8) -> (c: Option<Color>)
        ensures
            c == color_of_code(code),
    {
        if code == 0 {
            Some(Color::Black)
        } else if code == 1 {
            Some(Color::White)
        } else if code == 2 {
            Some(Color::Yellow)
        } else if code == 3 {
            Some(Color::Red)
        } else if code == 5 {
            Some(Color::Green)
        } else if code == 6 {
            Some(Color::Blue)
        } else {
            None
        }
    }
}

/// Whether `(x, y)` is a pixel of the panel.
pub open spec fn on_screen(x: int, y: int) -> bool {
    0 <= x < RESOLUTION_X && 0 <= y < RESOLUTION_Y
}

/// The picture a panel shows: the color of each pixel, meaningful on screen.
pub type Picture = spec_fn(int, int) -> Color;

/// `after` is `before` with the on-screen pixels of `region` set to `color` and every other
/// on-screen pixel kept.
pub open spec fn painted(
    before: Picture,
    after: Picture,
    region: spec_fn(int, int) -> bool,
    color: Color,
) -> bool {
    forall|x: int, y: int|
        on_screen(x, y) ==> #[trigger] after(x, y) == (if region(x, y) {
            color
        } else {
            before(x, y)
        })
}

/// Painting a region and then another one in the same color paints their union.
pub proof fn lemma_painted_union(
    a: Picture,
    b: Picture,
    c: Picture,
    r1: spec_fn(int, int) -> bool,
    r2: spec_fn(int, int) -> bool,
    color: Color,
)
    requires
        painted(a, b, r1, color),
        painted(b, c, r2, color),
    ensures
        painted(a, c, |x: int, y: int| r1(x, y) || r2(x, y), color),
{
    assert forall|x: int, y: int| on_screen(x, y) implies #[trigger] c(x, y) == (if r1(x, y)
        || r2(x, y) {
        color
    } else {
        a(x, y)
    }) by {
        assert(c(x, y) == (if r2(x, y) {
            color
        } else {
            b(x, y)
        }));
        assert(b(x, y) == (if r1(x, y) {
            color
        } else {
            a(x, y)
        }));
    }
}

/// A painting is described as well by any region with the same on-screen pixels.
pub proof fn lemma_painted_same_region(
    a: Picture,
    b: Picture,
    r1: spec_fn(int, int) -> bool,
    r2: spec_fn(int, int) -> bool,
    color: Color,
)
    requires
        painted(a, b, r1, color),
        forall|x: int, y: int| on_screen(x, y) ==> (r1(x, y) <==> r2(x, y)),
    ensures
        painted(a, b, r2, color),
{
    assert forall|x: int, y: int| on_screen(x, y) implies #[trigger] b(x, y) == (if r2(x, y) {
        color
    } else {
        a(x, y)
    }) by {
        assert(r1(x, y) <==> r2(x, y));
    }
}

/// Painting the empty region keeps every pixel.
pub proof fn lemma_painted_nothing(a: Picture, color: Color)
    ensures
        painted(a, a, |x: int, y: int| false, color),
{
}

/// `after` is `before` with each on-screen pixel of `region` set to its color in `colors`, and
/// every other on-screen pixel kept.
pub open spec fn painted_by(
    before: Picture,
    after: Picture,
    region: spec_fn(int, int) -> bool,
    colors: Picture,
) -> bool {
    forall|x: int, y: int|
        on_screen(x, y) ==> #[trigger] after(x, y) == (if region(x, y) {
            colors(x, y)
        } else {
            before(x, y)
        })
}

/// Painting a region in one color and then another region in a second color leaves the
/// second color where the second region lies, the first color elsewhere in the first region,
/// and every other pixel as it was.
pub proof fn lemma_painted_then(
    a: Picture,
    b: Picture,
    c: Picture,
    r1: spec_fn(int, int) -> bool,
    c1: Color,
    r2: spec_fn(int, int) -> bool,
    c2: Color,
)
    requires
        painted(a, b, r1, c1),
        painted(b, c, r2, c2),
    ensures
        painted_by(
            a,
            c,
            |x: int, y: int| r1(x, y) || r2(x, y),
            |x: int, y: int|
                if r2(x, y) {
                    c2
                } else {
                    c1
                },
        ),
{
    assert forall|x: int, y: int| on_screen(x, y) implies #[trigger] c(x, y) == (if r1(x, y)
        || r2(x, y) {
        if r2(x, y) {
            c2
        } else {
            c1
        }
    } else {
        a(x, y)
    }) by {
        assert(c(x, y) == (if r2(x, y) {
            c2
        } else {
            b(x, y)
        }));
        assert(b(x, y) == (if r1(x, y) {
            c1
        } else {
            a(x, y)
        }));
    }
}

/// A frame buffer for the panel: a grid of `RESOLUTION_X` by `RESOLUTION_Y` colored pixels.
pub trait Panel: Sized {
    /// The buffer's internal invariant.
    spec fn wf(&self) -> bool;

    /// The picture the buffer holds.
    spec fn pixels(&self) -> Picture;

    fn resolution_x(&self) -> (r: usize)
        ensures
            r == RESOLUTION_X,
    ;

    fn resolution_y(&self) -> (r: usize)
        ensures
            r == RESOLUTION_Y,
    ;

    /// Sets the pixel `(x, y)` to `color`.
    fn set_pixel(&mut self, x: usize, y: usize, color: Color)
        requires
            old(self).wf(),
            x < RESOLUTION_X,
            y < RESOLUTION_Y,
        ensures
            final(self).wf(),
            painted(old(self).pixels(), final(self).pixels(), |px: int, py: int| px == x && py == y, color),
    ;

    /// Sets the pixel `(x, y)` to `color` if it is on the panel; does nothing otherwise.
    fn set(&mut self, x: i32, y: i32, color: Color)
        requires
            old(self).wf(),
        ensures
            final(self).wf(),
            painted(old(self).pixels(), final(self).pixels(), |px: int, py: int| px == x && py == y, color),
    {
        if x >= 0 && (x as usize) < self.resolution_x() && y >= 0 && (y as usize)
            < self.resolution_y() {
            self.set_pixel(x as usize, y as usize, color);
        }
    }

    /// Sets every pixel to white.
    fn clear(&mut self)
        requires
            old(self).wf(),
        ensures
            final(self).wf(),
            painted(old(self).pixels(), final(self).pixels(), |px: int, py: int| true, Color::White),
    {
        let ghost start = self.pixels();
        let height = self.resolution_y();
        let width = self.resolution_x();
        let mut y: usize = 0;
        while y < height
            invariant
                y <= height,
                height == RESOLUTION_Y,
                width == RESOLUTION_X,
                self.wf(),
                painted(start, self.pixels(), |px: int, py: int| py < y, Color::White),
            decreases height - y,
        {
            let mut x: usize = 0;
            while x < width
                invariant
                    x <= width,
                    y < height,
                    height == RESOLUTION_Y,
                    width == RESOLUTION_X,
                    self.wf(),
                painted(start, self.pixels(), |px: int, py: int| py < y || (py == y && px < x), Color::White),
                decreases width - x,
            {
                let ghost before = self.pixels();
                self.set_pixel(x, y, Color::White);
                proof {
                    lemma_painted_union(
                        start,
                        before,
                        self.pixels(),
                        |px: int, py: int| py < y || (py == y && px < x),
                        |px: int, py: int| px == x && py == y,
                        Color::White,
                    );
                    lemma_painted_same_region(
                        start,
                        self.pixels(),
                        |px: int, py: int| (py < y || (py == y && px < x)) || (px == x && py == y),
                        |px: int, py: int| py < y || (py == y && px < x + 1),
                        Color::White,
                    );
                }
                x += 1;
            }
            proof {
                lemma_painted_same_region(
                    start,
                    self.pixels(),
                    |px: int, py: int| py < y || (py == y && px < width),
                    |px: int, py: int| py < y + 1,
                    Color::White,
                );
            }
            y += 1;
        }
        proof {
            lemma_painted_same_region(
                start,
                self.pixels(),
                |px: int, py: int| py < height,
                |px: int, py: int| true,
                Color::White,
            );
        }
    }
}

} // verus!
