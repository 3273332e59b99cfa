use vstd::prelude::*;

use crate::graphics::{Alignment, Graphics};
use crate::inky::{lemma_painted_same_region, lemma_painted_then, lemma_painted_union, on_screen, painted, painted_by, Color, Panel};
use crate::rect::{fits_i32, Rect};

verus! {

/// The whole years someone born in `birth_year` is old in `now_year`: the year of their last
/// birthday, this year's if it has come and last year's if not, less the year of their birth.
pub fn years_old(birth_year: i16, now_year: i16, birthday_passed: bool) -> (years: i32)
    ensures
        years == (if birthday_passed { now_year as int } else { now_year - 1 }) - birth_year,
{
    let last_birthday_year = if birthday_passed { now_year as i32 } else { now_year as i32 - 1 };
    last_birthday_year - birth_year as i32
}

/// The column cell `k` of a row of the age table is right-aligned to: the name, then years,
/// days, hours and minutes.
pub open spec fn age_column(k: int) -> int {
    if k == 0 {
        630
    } else if k == 1 {
        667
    } else if k == 2 {
        713
    } else if k == 3 {
        750
    } else {
        790
    }
}

/// The baseline row of row `i` of the age table.
pub open spec fn age_row(i: int) -> int {
    80 + 24 * i
}

/// The rule under the age table's title.
pub open spec fn ages_rule() -> Rect {
    Rect { x: 630, y: 60, width: 140, height: 2 }
}

/// The text of cell `k` of row `i`.
pub open spec fn age_cell(rows: Seq<[String; 5]>, i: int, k: int) -> Seq<char> {
    rows[i]@[k]@
}

/// The pixels of cell `k` of row `i`.
pub open spec fn age_cell_pixels(graphics: Graphics, rows: Seq<[String; 5]>, i: int, k: int, x: int, y: int) -> bool {
    graphics.text_pixels("helvB12"@, age_cell(rows, i, k), age_column(k), age_row(i), Alignment::Right, x, y)
}

/// The pixels of the cells before cell `k` of row `i`, in reading order.
pub open spec fn age_cells_before(graphics: Graphics, rows: Seq<[String; 5]>, i: int, k: int, x: int, y: int) -> bool {
    exists|j: int, c: int|
        0 <= j < rows.len() && 0 <= c < 5 && (j < i || (j == i && c < k)) && #[trigger] age_cell_pixels(
            graphics,
            rows,
            j,
            c,
            x,
            y,
        )
}

/// The pixels of the age table's title and rule.
pub open spec fn age_heading(graphics: Graphics, x: int, y: int) -> bool {
    graphics.text_pixels("helvB12"@, "Family ages"@, 700, 50, Alignment::Center, x, y) || ages_rule().contains(x, y)
}

/// The pixels `render_age_table` sets: the title, the rule and every cell.
pub open spec fn age_table_region(graphics: Graphics, rows: Seq<[String; 5]>, x: int, y: int) -> bool {
    age_heading(graphics, x, y) || age_cells_before(graphics, rows, rows.len() as int, 0, x, y)
}

/// Whether the age table can be drawn: every text has its font and glyphs and stays in range.
pub open spec fn age_table_drawable(graphics: Graphics, rows: Seq<[String; 5]>) -> bool {
    &&& graphics.text_drawable("helvB12"@, "Family ages"@, 700, 50, Alignment::Center)
    &&& fits_i32(age_row(rows.len() as int))
    &&& forall|i: int, k: int|
        0 <= i < rows.len() && 0 <= k < 5 ==> #[trigger] graphics.text_drawable(
            "helvB12"@,
            age_cell(rows, i, k),
            age_column(k),
            age_row(i),
            Alignment::Right,
        )
}

/// The column of cell `k`.
fn column(k: usize) -> (x: i32)
    requires
        k < 5,
    ensures
        x == age_column(k as int),
{
    match k {
        0 => 630,
        1 => 667,
        2 => 713,
        3 => 750,
        _ => 790,
    }
}

/// Draws the table of ages: the title "Family ages" centered over a rule, and under it one row
/// per person, 24 rows apart, each of its five cells (name, years, days, hours, minutes)
/// right-aligned to its column, in black.
pub fn render_age_table<P: Panel>(inky: &mut P, graphics: &Graphics, rows: &Vec<[String; 5]>)
    requires
        old(inky).wf(),
        age_table_drawable(*graphics, rows@),
    ensures
        final(inky).wf(),
        painted(
            old(inky).pixels(),
            final(inky).pixels(),
            |x: int, y: int| age_table_region(*graphics, rows@, x, y),
            Color::Black,
        ),
{
    let ghost start = inky.pixels();
    graphics.draw_text(inky, 700, 50, "Family ages", Alignment::Center, "helvB12", Color::Black);
    let ghost p0 = inky.pixels();
    let rule = Rect { x: 630, y: 60, width: 140, height: 2 };
    graphics.draw_rect(inky, &rule, Color::Black);
    proof {
        lemma_painted_union(
            start,
            p0,
            inky.pixels(),
            |x: int, y: int| graphics.text_pixels("helvB12"@, "Family ages"@, 700, 50, Alignment::Center, x, y),
            |x: int, y: int| rule.contains(x, y),
            Color::Black,
        );
        lemma_painted_same_region(
            start,
            inky.pixels(),
            |x: int, y: int|
                graphics.text_pixels("helvB12"@, "Family ages"@, 700, 50, Alignment::Center, x, y) || rule.contains(x, y),
            |x: int, y: int| age_heading(*graphics, x, y) || age_cells_before(*graphics, rows@, 0, 0, x, y),
            Color::Black,
        );
    }
    let mut y: i32 = 80;
    let mut i: usize = 0;
    while i < rows.len()
        invariant
            inky.wf(),
            i <= rows.len(),
            y == age_row(i as int),
            age_table_drawable(*graphics, rows@),
            painted(
                start,
                inky.pixels(),
                |x: int, y: int| age_heading(*graphics, x, y) || age_cells_before(*graphics, rows@, i as int, 0, x, y),
                Color::Black,
            ),
        decreases rows.len() - i,
    {
        let mut k: usize = 0;
        while k < 5
            invariant
                inky.wf(),
                i < rows.len(),
                k <= 5,
                y == age_row(i as int),
                age_table_drawable(*graphics, rows@),
                painted(
                    start,
                    inky.pixels(),
                    |x: int, y: int| age_heading(*graphics, x, y) || age_cells_before(*graphics, rows@, i as int, k as int, x, y),
                    Color::Black,
                ),
            decreases 5 - k,
        {
            let x = column(k);
            proof {
                assert(graphics.text_drawable("helvB12"@, age_cell(rows@, i as int, k as int), age_column(k as int), age_row(i as int), Alignment::Right));
            }
            let ghost before = inky.pixels();
            graphics.draw_text(inky, x, y, rows[i][k].as_str(), Alignment::Right, "helvB12", Color::Black);
            proof {
                let done = |px: int, py: int| age_heading(*graphics, px, py) || age_cells_before(*graphics, rows@, i as int, k as int, px, py);
                let cell = |px: int, py: int| age_cell_pixels(*graphics, rows@, i as int, k as int, px, py);
                lemma_painted_union(start, before, inky.pixels(), done, cell, Color::Black);
                let next = |px: int, py: int| age_heading(*graphics, px, py) || age_cells_before(*graphics, rows@, i as int, k + 1, px, py);
                assert forall|px: int, py: int| on_screen(px, py) implies (done(px, py) || cell(px, py)) <==> next(px, py) by {
                    if age_cells_before(*graphics, rows@, i as int, k + 1, px, py) {
                        let (j, c) = choose|j: int, c: int|
                            0 <= j < rows@.len() && 0 <= c < 5 && (j < i || (j == i && c < k + 1)) && #[trigger] age_cell_pixels(*graphics, rows@, j, c, px, py);
                        if j < i || c < k {
                            assert(age_cells_before(*graphics, rows@, i as int, k as int, px, py));
                        }
                    }
                    if age_cells_before(*graphics, rows@, i as int, k as int, px, py) {
                        let (j, c) = choose|j: int, c: int|
                            0 <= j < rows@.len() && 0 <= c < 5 && (j < i || (j == i && c < k)) && #[trigger] age_cell_pixels(*graphics, rows@, j, c, px, py);
                        assert(age_cell_pixels(*graphics, rows@, j, c, px, py));
                    }
                    if cell(px, py) {
                        assert(age_cell_pixels(*graphics, rows@, i as int, k as int, px, py));
                    }
                }
                lemma_painted_same_region(start, inky.pixels(), |px: int, py: int| done(px, py) || cell(px, py), next, Color::Black);
            }
            k += 1;
        }
        proof {
            assert forall|px: int, py: int| on_screen(px, py) implies (age_heading(*graphics, px, py) || age_cells_before(*graphics, rows@, i as int, 5, px, py))
                <==> (age_heading(*graphics, px, py) || age_cells_before(*graphics, rows@, i + 1, 0, px, py)) by {
                if age_cells_before(*graphics, rows@, i as int, 5, px, py) {
                    let (j, c) = choose|j: int, c: int|
                        0 <= j < rows@.len() && 0 <= c < 5 && (j < i || (j == i && c < 5)) && #[trigger] age_cell_pixels(*graphics, rows@, j, c, px, py);
                    assert(age_cell_pixels(*graphics, rows@, j, c, px, py));
                }
                if age_cells_before(*graphics, rows@, i + 1, 0, px, py) {
                    let (j, c) = choose|j: int, c: int|
                        0 <= j < rows@.len() && 0 <= c < 5 && (j < i + 1 || (j == i + 1 && c < 0)) && #[trigger] age_cell_pixels(*graphics, rows@, j, c, px, py);
                    assert(age_cell_pixels(*graphics, rows@, j, c, px, py));
                }
            }
            lemma_painted_same_region(
                start,
                inky.pixels(),
                |px: int, py: int| age_heading(*graphics, px, py) || age_cells_before(*graphics, rows@, i as int, 5, px, py),
                |px: int, py: int| age_heading(*graphics, px, py) || age_cells_before(*graphics, rows@, i + 1, 0, px, py),
                Color::Black,
            );
        }
        y += 24;
        i += 1;
    }
}

/// The progress bar along the bottom of `rect`: its bottom 20 rows, 5 pixels in from every
/// side.
pub open spec fn progress_bar(rect: Rect) -> Rect {
    rect.split_bottom(20).1.shrunk(5, 5, 5, 5)
}

/// The filled part of a progress bar: its first `done` columns, 2 pixels in from every side.
pub open spec fn progress_fill(bar: Rect, done: int) -> Rect {
    bar.split_left(done).1.shrunk(2, 2, 2, 2)
}

/// Where the progress bar goes in `rect`.
pub fn progress_bar_rect(rect: Rect) -> (bar: Rect)
    requires
        fits_i32(rect.height - 20),
        fits_i32(rect.y + rect.height - 20),
        fits_i32(rect.x + 5),
        fits_i32(rect.y + rect.height - 15),
        fits_i32(rect.width - 10),
    ensures
        bar == progress_bar(rect),
{
    let mut rest = rect;
    rest.split_off_bottom(20).shrink(5, 5, 5, 5)
}

/// Draws a progress bar in `bar`: a black rounded bar with, inside it, the first `done`
/// columns' rounded fill in white.
pub fn render_progress_bar<P: Panel>(inky: &mut P, graphics: &Graphics, bar: &Rect, done: i32)
    requires
        old(inky).wf(),
        fits_i32(bar.x + done),
        fits_i32(bar.width - done),
        fits_i32(bar.x + 2),
        fits_i32(bar.y + 2),
        fits_i32(done - 4),
        fits_i32(bar.height - 4),
        crate::graphics::rounded_arc_coords_fit(*bar, 5),
        crate::graphics::rounded_bands_coords_fit(*bar, 5),
        crate::graphics::rounded_arc_coords_fit(progress_fill(*bar, done as int), 3),
        crate::graphics::rounded_bands_coords_fit(progress_fill(*bar, done as int), 3),
    ensures
        final(inky).wf(),
        painted_by(
            old(inky).pixels(),
            final(inky).pixels(),
            |x: int, y: int|
                crate::circle::rounded_rect_region(*bar, 5, x, y) || crate::circle::rounded_rect_region(
                    progress_fill(*bar, done as int),
                    3,
                    x,
                    y,
                ),
            |x: int, y: int|
                if crate::circle::rounded_rect_region(progress_fill(*bar, done as int), 3, x, y) {
                    Color::White
                } else {
                    Color::Black
                },
        ),
{
    let ghost start = inky.pixels();
    graphics.draw_rounded_rect(inky, bar, 5, Color::Black);
    let ghost outline = inky.pixels();
    let mut rest = *bar;
    let fill = rest.split_off_left(done).shrink(2, 2, 2, 2);
    assert(fill == progress_fill(*bar, done as int));
    graphics.draw_rounded_rect(inky, &fill, 3, Color::White);
    proof {
        lemma_painted_then(
            start,
            outline,
            inky.pixels(),
            |x: int, y: int| crate::circle::rounded_rect_region(*bar, 5, x, y),
            Color::Black,
            |x: int, y: int| crate::circle::rounded_rect_region(fill, 3, x, y),
            Color::White,
        );
    }
}

} // verus!
