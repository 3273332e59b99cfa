use vstd::prelude::*;

use crate::inky::Color;

verus! {

/// An RGB color.
pub type Rgb = [u8; 3];

/// The pure RGB colors the panel's inks stand for, in the order `color_map` follows.
pub fn desaturated_palette() -> (p: [Rgb; 6])
    ensures
        p@ == spec_desaturated_palette(),
{
    let p = [[0, 0, 0], [255, 255, 255], [255, 255, 0], [255, 0, 0], [0, 0, 255], [0, 255, 0]];
    assert(p@ =~= spec_desaturated_palette());
    p
}

pub open spec fn spec_desaturated_palette() -> Seq<Rgb> {
    seq![[0u8, 0u8, 0u8], [255u8, 255u8, 255u8], [255u8, 255u8, 0u8], [255u8, 0u8, 0u8], [0u8, 0u8, 255u8], [0u8, 255u8, 0u8]]
}

/// The RGB colors the panel's inks actually look like, in the same order.
pub fn saturated_palette() -> (p: [Rgb; 6])
    ensures
        p@ == spec_saturated_palette(),
{
    let p = [[0, 0, 0], [161, 164, 165], [208, 190, 71], [156, 72, 75], [61, 59, 94], [58, 91, 70]];
    assert(p@ =~= spec_saturated_palette());
    p
}

pub open spec fn spec_saturated_palette() -> Seq<Rgb> {
    seq![[0u8, 0u8, 0u8], [161u8, 164u8, 165u8], [208u8, 190u8, 71u8], [156u8, 72u8, 75u8], [61u8, 59u8, 94u8], [58u8, 91u8, 70u8]]
}

/// The panel color of each palette entry.
pub open spec fn spec_color_map(index: int) -> Color {
    if index == 0 {
        Color::Black
    } else if index == 1 {
        Color::White
    } else if index == 2 {
        Color::Yellow
    } else if index == 3 {
        Color::Red
    } else if index == 4 {
        Color::Blue
    } else {
        Color::Green
    }
}

/// The panel color of palette entry `index`.
pub fn color_map(index: usize) -> (c: Color)
    requires
        index < 6,
    ensures
        c == spec_color_map(index as int),
{
    if index == 0 {
        Color::Black
    } else if index == 1 {
        Color::White
    } else if index == 2 {
        Color::Yellow
    } else if index == 3 {
        Color::Red
    } else if index == 4 {
        Color::Blue
    } else {
        Color::Green
    }
}

/// The squared distance between two colors in RGB space.
pub open spec fn sq_dist(a: Rgb, b: Rgb) -> int {
    (a[0] - b[0]) * (a[0] - b[0]) + (a[1] - b[1]) * (a[1] - b[1]) + (a[2] - b[2]) * (a[2] - b[2])
}

/// The squared distance between two colors in RGB space.
fn squared_distance(a: &Rgb, b: &Rgb) -> (d: u32)
    ensures
        d == sq_dist(*a, *b),
{
    let mut d: u32 = 0;
    let mut i: usize = 0;
    while i < 3
        invariant
            i <= 3,
            d == (if i > 0 { (a[0] - b[0]) * (a[0] - b[0]) } else { 0 }) + (if i > 1 { (a[1] - b[1]) * (a[1] - b[1]) } else { 0 }) + (if i > 2 { (a[2] - b[2]) * (a[2] - b[2]) } else { 0 }),
            d <= i * 65025,
        decreases 3 - i,
    {
        let diff: u32 = if a[i] >= b[i] { (a[i] - b[i]) as u32 } else { (b[i] - a[i]) as u32 };
        assert(diff * diff == (a[i as int] - b[i as int]) * (a[i as int] - b[i as int])) by (nonlinear_arith)
            requires
                diff == (if a[i as int] >= b[i as int] { a[i as int] - b[i as int] } else { b[i as int] - a[i as int] }),
        ;
        assert(diff * diff <= 65025) by (nonlinear_arith)
            requires
                diff <= 255,
        ;
        d += diff * diff;
        i += 1;
    }
    d
}

/// Whether `i` is the first entry of `palette` nearest to `color`.
pub open spec fn is_first_nearest(palette: Seq<Rgb>, color: Rgb, i: int) -> bool {
    &&& 0 <= i < palette.len()
    &&& forall|j: int| 0 <= j < i ==> sq_dist(color, #[trigger] palette[j]) > sq_dist(color, palette[i])
    &&& forall|j: int| i < j < palette.len() ==> sq_dist(color, #[trigger] palette[j]) >= sq_dist(color, palette[i])
}

/// Maps colors to the nearest entry of a six-color palette (squared distance in RGB space, the
/// first entry winning ties).
pub struct InkyColorMap(pub [Rgb; 6]);

impl InkyColorMap {
    /// The index of the first palette entry nearest to `color`.
    pub fn index_of(&self, color: &Rgb) -> (i: usize)
        ensures
            is_first_nearest(self.0@, *color, i as int),
    {
        let mut best: Option<(u32, usize)> = None;
        let mut i: usize = 0;
        while i < 6
            invariant
                i <= 6,
                i == 0 <==> best is None,
                best matches Some((d, k)) ==> {
                    &&& k < i
                    &&& d == sq_dist(*color, self.0@[k as int])
                    &&& forall|j: int| 0 <= j < k ==> sq_dist(*color, #[trigger] self.0@[j]) > d
                    &&& forall|j: int| k < j < i ==> sq_dist(*color, #[trigger] self.0@[j]) >= d
                },
            decreases 6 - i,
        {
            let sq = squared_distance(color, &self.0[i]);
            let replace = match best {
                None => true,
                Some((best_sq, _)) => best_sq > sq,
            };
            if replace {
                best = Some((sq, i));
            }
            i += 1;
        }
        match best {
            Some((_, k)) => k,
            None => 0,
        }
    }

    /// Replaces `color` by the pure ink color of its nearest palette entry.
    pub fn map_color(&self, color: &mut Rgb)
        ensures
            exists|i: int| is_first_nearest(self.0@, *old(color), i) && *final(color)
                == spec_desaturated_palette()[i],
    {
        let i = self.index_of(color);
        let p = desaturated_palette();
        *color = p[i];
    }
}

/// A color that is an entry of a palette with distinct entries maps to that entry.
pub proof fn lemma_palette_entry_maps_to_itself(palette: Seq<Rgb>, i: int)
    requires
        0 <= i < palette.len(),
        forall|j: int, k: int| 0 <= j < k < palette.len() ==> palette[j] != palette[k],
    ensures
        is_first_nearest(palette, palette[i], i),
{
    assert forall|j: int| 0 <= j < palette.len() && j != i implies sq_dist(palette[i], #[trigger] palette[j]) > 0 by {
        let a = palette[i];
        let b = palette[j];
        if j < i {
            assert(palette[j] != palette[i]);
        } else {
            assert(palette[i] != palette[j]);
        }
        assert(a[0] != b[0] || a[1] != b[1] || a[2] != b[2]) by {
            if a[0] == b[0] && a[1] == b[1] && a[2] == b[2] {
                assert(a =~= b);
            }
        }
        assert(sq_dist(a, b) > 0) by (nonlinear_arith)
            requires
                a[0] != b[0] || a[1] != b[1] || a[2] != b[2],
        ;
    }
    assert(sq_dist(palette[i], palette[i]) == 0);
}

/// A picture in RGB: `width` by `height` pixels, row after row.
pub struct Image {
    pub width: u32,
    pub height: u32,
    pub pixels: Vec<Rgb>,
}

impl Image {
    /// The color of pixel `(x, y)`.
    pub open spec fn pixel(self, x: int, y: int) -> Rgb {
        self.pixels@[x + y * self.width]
    }

    /// Whether the pixel list holds every pixel.
    pub open spec fn wf(self) -> bool {
        self.width * self.height <= self.pixels@.len()
    }

    /// The color of pixel `(x, y)`, which must lie in the picture.
    pub fn get_pixel(&self, x: u32, y: u32) -> (c: Rgb)
        requires
            self.wf(),
            x < self.width,
            y < self.height,
        ensures
            c == self.pixel(x as int, y as int),
    {
        assert(x + y * self.width < self.width * self.height) by (nonlinear_arith)
            requires
                x < self.width,
                y < self.height,
        ;
        assert(self.pixels@.len() == self.pixels.len());
        self.pixels[x as usize + y as usize * self.width as usize]
    }
}

/// Whether `i` is the first position of `color` in `palette`.
pub open spec fn is_first_position(palette: Seq<Rgb>, color: Rgb, i: int) -> bool {
    &&& 0 <= i < palette.len()
    &&& palette[i] == color
    &&& forall|j: int| 0 <= j < i ==> palette[j] != color
}

/// The first position of `color` in `palette`, if any.
pub fn position(palette: &[Rgb; 6], color: &Rgb) -> (r: Option<usize>)
    ensures
        r matches Some(i) ==> is_first_position(palette@, *color, i as int),
        r is None ==> forall|j: int| 0 <= j < 6 ==> palette@[j] != *color,
{
    let mut i: usize = 0;
    while i < 6
        invariant
            i <= 6,
            forall|j: int| 0 <= j < i ==> palette@[j] != *color,
        decreases 6 - i,
    {
        let p = palette[i];
        if p[0] == color[0] && p[1] == color[1] && p[2] == color[2] {
            assert(p =~= *color);
            return Some(i);
        }
        assert(p != *color) by {
            if p == *color {
                assert(p[0] == color[0]);
            }
        }
        i += 1;
    }
    None
}

} // verus!
