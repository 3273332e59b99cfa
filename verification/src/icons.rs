use vstd::prelude::*;

use crate::bdf::{bit_at, set_bit};
use crate::font::{packed_bit, Bitmap};
use crate::graphics::bitmap_region;
use crate::weather::icon_bitmap_name;

verus! {

/// The side of a weather icon, in pixels.
pub const ICON_SIZE: usize = 48;

/// How many icons a row of the icon sheet holds.
pub const ICONS_PER_ROW: usize = 9;

/// Where icon number `index` of the sheet begins: its left and top edges.
pub open spec fn icon_origin(index: int) -> (int, int) {
    ((index % 9) * 48, (index / 9) * 48)
}

/// Whether pixel `q` (row after row) of icon number `index` is lit: the first channel of the
/// sheet pixel under it is not zero. `red` holds the first channel of the sheet's pixels, row
/// after row, `sheet_width` to a row.
pub open spec fn icon_lit(red: Seq<u8>, sheet_width: int, index: int, q: int) -> bool {
    let (x, y) = icon_origin(index);
    red[(x + q % 48) + (y + q / 48) * sheet_width] > 0
}

/// Whether icon number `index` lies inside a sheet of `red.len()` pixels, `sheet_width` to a
/// row.
pub open spec fn icon_in_sheet(red: Seq<u8>, sheet_width: int, index: int) -> bool {
    let (x, y) = icon_origin(index);
    &&& x + 48 <= sheet_width
    &&& (y + 48) * sheet_width <= red.len()
}

/// Whether `bitmap` is icon number `index` of the sheet: 48 by 48 pixels, one bit each, lit
/// where the sheet's first channel is not zero.
pub open spec fn is_icon_of(bitmap: Bitmap, red: Seq<u8>, sheet_width: int, index: int) -> bool {
    &&& bitmap.width == 48
    &&& bitmap.height == 48
    &&& bitmap.bits@.len() == 48 * 48 / 8
    &&& forall|q: int| 0 <= q < 48 * 48 ==> #[trigger] bit_at(bitmap.bits@, q) == icon_lit(red, sheet_width, index, q)
}

/// Cuts icon number `index` (nine to a row) out of an icon sheet into a 48 by 48 bitmap, one
/// bit per pixel, lit where the sheet's first channel is not zero.
pub fn icon_bitmap(red: &Vec<u8>, sheet_width: usize, index: usize) -> (bitmap: Bitmap)
    requires
        icon_in_sheet(red@, sheet_width as int, index as int),
    ensures
        is_icon_of(bitmap, red@, sheet_width as int, index as int),
{
    let x = index % ICONS_PER_ROW * ICON_SIZE;
    assert(index / 9 * 48 + 48 <= red.len()) by (nonlinear_arith)
        requires
            (index / 9 * 48 + 48) * sheet_width <= red.len(),
            sheet_width >= 48,
    ;
    let y = index / ICONS_PER_ROW * ICON_SIZE;
    let mut bits: Vec<u8> = Vec::new();
    while bits.len() < 288
        invariant
            bits.len() <= 288,
            forall|i: int| 0 <= i < bits.len() ==> bits@[i] == 0u8,
        decreases 288 - bits.len(),
    {
        bits.push(0);
    }
    assert forall|q: int| 0 <= q < 48 * 48 implies !#[trigger] bit_at(bits@, q) by {
        let b = (q % 8) as u8;
        assert(0u8 & (1u8 << b) == 0u8) by (bit_vector);
    }
    let mut dy: usize = 0;
    while dy < ICON_SIZE
        invariant
            icon_in_sheet(red@, sheet_width as int, index as int),
            x == icon_origin(index as int).0,
            y == icon_origin(index as int).1,
            y + 48 <= red.len(),
            dy <= 48,
            bits.len() == 288,
            forall|q: int| 0 <= q < 48 * 48 ==> #[trigger] bit_at(bits@, q) == (q < dy * 48 && icon_lit(
                red@,
                sheet_width as int,
                index as int,
                q,
            )),
        decreases 48 - dy,
    {
        let mut dx: usize = 0;
        while dx < ICON_SIZE
            invariant
                icon_in_sheet(red@, sheet_width as int, index as int),
                x == icon_origin(index as int).0,
                y == icon_origin(index as int).1,
                    dy < 48,
                y + 48 <= red.len(),
                dx <= 48,
                bits.len() == 288,
                forall|q: int| 0 <= q < 48 * 48 ==> #[trigger] bit_at(bits@, q) == (q < dy * 48 + dx
                    && icon_lit(red@, sheet_width as int, index as int, q)),
            decreases 48 - dx,
        {
            assert((y + dy) * sheet_width + x + dx < red.len()) by (nonlinear_arith)
                requires
                    x + 48 <= sheet_width,
                    (y + 48) * sheet_width <= red.len(),
                    dy < 48,
                    dx < 48,
            ;
            let i = (x + dx) + (y + dy) * sheet_width;
            let q = dx + dy * ICON_SIZE;
            assert(q / 48 == dy && q % 48 == dx);
            if red[i] > 0 {
                let ghost before = bits@;
                set_bit(&mut bits, q);
                assert forall|p: int| 0 <= p < 48 * 48 implies #[trigger] bit_at(bits@, p) == (p < dy * 48 + dx + 1
                    && icon_lit(red@, sheet_width as int, index as int, p)) by {
                    assert(bit_at(bits@, p) == (bit_at(before, p) || p == q));
                }
            }
            dx += 1;
        }
        dy += 1;
    }
    Bitmap { bits, width: 48, height: 48 }
}

/// An icon cut from the sheet draws as the sheet shows it: drawn with its top-left corner at
/// `(x, y)`, it sets exactly the pixels whose sheet pixel is lit.
pub proof fn lemma_icon_draws_as_sheet(bitmap: Bitmap, red: Seq<u8>, sheet_width: int, index: int, x: int, y: int, px: int, py: int)
    requires
        is_icon_of(bitmap, red, sheet_width, index),
    ensures
        bitmap_region(bitmap, x, y, px, py) == (0 <= px - x < 48 && 0 <= py - y < 48 && icon_lit(
            red,
            sheet_width,
            index,
            (px - x) + (py - y) * 48,
        )),
{
    let q = (px - x) + (py - y) * 48;
    if 0 <= px - x < 48 && 0 <= py - y < 48 {
        assert(0 <= q < 48 * 48);
        assert(packed_bit(bitmap.bits@, 0, q) == bit_at(bitmap.bits@, q));
    }
}

/// The weather icons and where each sits on the icon sheet: its bitmap name and its number,
/// nine to a row. A name that joins several with commas is shared by those conditions.
pub open spec fn icon_table() -> Seq<(Seq<char>, int)> {
    seq![
        ("skc"@, 0int),
        ("few"@, 9int),
        ("sct"@, 18int),
        ("bkn"@, 27int),
        ("ovc"@, 35int),
        ("wind_skc"@, 1int),
        ("wind_few,wind_sct"@, 19int),
        ("wind_bkn"@, 28int),
        ("wind_ovc"@, 37int),
        ("snow"@, 2int),
        ("rain_snow,rain_sleet"@, 11int),
        ("fzra,rain_fzra,snow_fzra"@, 20int),
        ("snow_sleet,sleet"@, 29int),
        ("rain,rain_showers"@, 3int),
        ("rain_showers_hi"@, 12int),
        ("tsra,tsra_sct"@, 4int),
        ("tsra_hi"@, 13int),
        ("tornado"@, 5int),
        ("hurricane,tropical_storm"@, 6int),
        ("dust"@, 7int),
        ("smoke"@, 16int),
        ("haze"@, 25int),
        ("hot"@, 8int),
        ("cold"@, 17int),
        ("blizzard"@, 26int),
        ("fog"@, 35int),
    ]
}

/// The views of a table of named icons.
pub open spec fn table_view(table: Seq<(String, usize)>) -> Seq<(Seq<char>, int)> {
    table.map_values(|e: (String, usize)| (e.0@, e.1 as int))
}

/// The weather icons and their numbers on the icon sheet.
pub fn weather_icon_table() -> (table: Vec<(String, usize)>)
    ensures
        table_view(table@) == icon_table(),
{
    let mut table: Vec<(String, usize)> = Vec::new();
    table.push(("skc".to_owned(), 0));
    table.push(("few".to_owned(), 9));
    table.push(("sct".to_owned(), 18));
    table.push(("bkn".to_owned(), 27));
    table.push(("ovc".to_owned(), 35));
    table.push(("wind_skc".to_owned(), 1));
    table.push(("wind_few,wind_sct".to_owned(), 19));
    table.push(("wind_bkn".to_owned(), 28));
    table.push(("wind_ovc".to_owned(), 37));
    table.push(("snow".to_owned(), 2));
    table.push(("rain_snow,rain_sleet".to_owned(), 11));
    table.push(("fzra,rain_fzra,snow_fzra".to_owned(), 20));
    table.push(("snow_sleet,sleet".to_owned(), 29));
    table.push(("rain,rain_showers".to_owned(), 3));
    table.push(("rain_showers_hi".to_owned(), 12));
    table.push(("tsra,tsra_sct".to_owned(), 4));
    table.push(("tsra_hi".to_owned(), 13));
    table.push(("tornado".to_owned(), 5));
    table.push(("hurricane,tropical_storm".to_owned(), 6));
    table.push(("dust".to_owned(), 7));
    table.push(("smoke".to_owned(), 16));
    table.push(("haze".to_owned(), 25));
    table.push(("hot".to_owned(), 8));
    table.push(("cold".to_owned(), 17));
    table.push(("blizzard".to_owned(), 26));
    table.push(("fog".to_owned(), 35));
    assert(table_view(table@) =~= icon_table());
    table
}

/// Whether the icon table names a bitmap `name`.
pub open spec fn in_icon_table(name: Seq<char>) -> bool {
    exists|i: int| 0 <= i < icon_table().len() && (#[trigger] icon_table()[i]).0 == name
}

/// Every condition that shares its picture with others is drawn with a bitmap that the icon
/// table provides.
pub proof fn lemma_shared_icons_in_table(name: Seq<char>)
    requires
        icon_bitmap_name(name) != name,
    ensures
        in_icon_table(icon_bitmap_name(name)),
{
    let t = icon_table();
    let b = icon_bitmap_name(name);
    if b == "wind_few,wind_sct"@ {
        assert(t[6].0 == b);
    } else if b == "rain_snow,rain_sleet"@ {
        assert(t[10].0 == b);
    } else if b == "fzra,rain_fzra,snow_fzra"@ {
        assert(t[11].0 == b);
    } else if b == "snow_sleet,sleet"@ {
        assert(t[12].0 == b);
    } else if b == "rain,rain_showers"@ {
        assert(t[13].0 == b);
    } else if b == "tsra,tsra_sct"@ {
        assert(t[15].0 == b);
    } else {
        assert(b == "hurricane,tropical_storm"@);
        assert(t[18].0 == b);
    }
}

} // verus!
