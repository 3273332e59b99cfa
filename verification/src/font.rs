use std::collections::HashMap;

use vstd::prelude::*;
use vstd::std_specs::hash::obeys_key_model;

verus! {

broadcast use vstd::std_specs::hash::group_hash_axioms;

/// Where a glyph's bitmap lies in a font's atlas, and how the glyph is placed: its bitmap is
/// `bm_width` by `bm_height` pixels, its top-left pixel sits `bm_x` right of and `bm_y` above
/// the pen, and drawing it moves the pen by `advance_x` and `advance_y`.
#[derive(Clone, Copy, Default, Debug, PartialEq, Eq, Structural)]
pub struct Character {
    pub atlas_start: usize,
    pub bm_width: u8,
    pub bm_height: u8,
    pub bm_x: i8,
    pub bm_y: i8,
    pub advance_x: i8,
    pub advance_y: i8,
}

/// A bitmap font: glyph bitmaps packed one bit per pixel (least significant bit first, row after
/// row) into `atlas`, and the glyph of each character, keyed by its code point.
pub struct Font {
    pub atlas: Vec<u8>,
    pub chars: HashMap<u32, Character>,
    pub height: u8,
    pub baseline: u8,
}

/// A one-bit-per-pixel image, least significant bit first.
pub struct Bitmap {
    pub bits: Vec<u8>,
    pub width: u32,
    pub height: u32,
}

/// The named fonts and bitmaps the screens draw with.
pub struct Resources {
    pub fonts: Vec<(String, Font)>,
    pub bitmaps: Vec<(String, Bitmap)>,
}

impl Resources {
    /// Whether each font and each bitmap has a name of its own.
    pub open spec fn wf(&self) -> bool {
        names_distinct(self.fonts@) && names_distinct(self.bitmaps@)
    }
}

/// Whether bit number `bit` (`0` is the least significant) of `byte` is set.
pub open spec fn bit_set(byte: u8, bit: int) -> bool {
    byte & (1u8 << (bit as u8)) != 0
}

/// Whether the pixel with row-major number `index` of a bitmap packed from byte `start` of
/// `bits` is set.
pub open spec fn packed_bit(bits: Seq<u8>, start: int, index: int) -> bool {
    bit_set(bits[start + index / 8], index % 8)
}

/// The first entry named `name`, if there is one.
pub open spec fn lookup<T>(entries: Seq<(String, T)>, name: Seq<char>) -> Option<T>
    decreases entries.len(),
{
    if entries.len() == 0 {
        None
    } else if entries[0].0@ == name {
        Some(entries[0].1)
    } else {
        lookup(entries.drop_first(), name)
    }
}

/// Whether no two entries share a name, as in a map from names to values.
pub open spec fn names_distinct<T>(entries: Seq<(String, T)>) -> bool {
    forall|i: int, j: int| 0 <= i < j < entries.len() ==> #[trigger] entries[i].0@ != #[trigger] entries[j].0@
}

/// Entries with distinct names behave as a map: looking up an entry's name finds that entry.
pub proof fn lemma_lookup_distinct<T>(entries: Seq<(String, T)>, i: int)
    requires
        names_distinct(entries),
        0 <= i < entries.len(),
    ensures
        lookup(entries, entries[i].0@) == Some(entries[i].1),
    decreases entries.len(),
{
    if i > 0 {
        assert(entries[0].0@ != entries[i].0@);
        let rest = entries.drop_first();
        assert(rest[i - 1] == entries[i]);
        assert forall|a: int, b: int| 0 <= a < b < rest.len() implies #[trigger] rest[a].0@ != #[trigger] rest[b].0@ by {
            assert(rest[a] == entries[a + 1] && rest[b] == entries[b + 1]);
        }
        lemma_lookup_distinct(rest, i - 1);
    }
}

/// Finds the first entry named `name`.
pub fn find_named<'a, T>(entries: &'a Vec<(String, T)>, name: &str) -> (r: Option<&'a T>)
    ensures
        r matches Some(v) ==> lookup(entries@, name@) == Some(*v),
        r is None ==> lookup(entries@, name@) is None,
{
    let key = name.to_owned();
    let mut i: usize = 0;
    assert(entries@.skip(0) =~= entries@);
    while i < entries.len()
        invariant
            i <= entries.len(),
            key@ == name@,
            lookup(entries@, name@) == lookup(entries@.skip(i as int), name@),
        decreases entries.len() - i,
    {
        assert(entries@.skip(i as int).drop_first() =~= entries@.skip(i + 1));
        if entries[i].0 == key {
            return Some(&entries[i].1);
        }
        i += 1;
    }
    None
}

impl Character {
    /// Whether the glyph's bitmap lies inside an atlas of `atlas_len` bytes.
    pub open spec fn fits_atlas(self, atlas_len: int) -> bool {
        self.bm_width * self.bm_height > 0 ==> self.atlas_start + (self.bm_width * self.bm_height
            - 1) / 8 < atlas_len
    }
}

impl Font {
    /// The glyph of `c`, if the font has one.
    pub open spec fn glyph(self, c: char) -> Option<Character> {
        if self.chars@.contains_key(c as u32) {
            Some(self.chars@[c as u32])
        } else {
            None
        }
    }

    /// Whether the font has a glyph for `c`, placed inside its atlas.
    pub open spec fn has_glyph(self, c: char) -> bool {
        &&& self.glyph(c) is Some
        &&& self.glyph(c)->0.fits_atlas(self.atlas@.len() as int)
    }

    /// Whether pixel `(x, y)` of the glyph of `c` is set.
    pub open spec fn glyph_pixel(self, c: char, x: int, y: int) -> bool {
        let g = self.glyph(c)->0;
        packed_bit(self.atlas@, g.atlas_start as int, x + y * g.bm_width)
    }

    /// The glyph of `c`; the font must have one.
    pub fn get_character(&self, c: char) -> (r: &Character)
        requires
            self.glyph(c) is Some,
        ensures
            self.glyph(c) == Some(*r),
    {
        assert(obeys_key_model::<u32>());
        self.chars.get(&(c as u32)).unwrap()
    }

    /// Whether the font has a glyph for `c`.
    pub fn contains_glyph(&self, c: char) -> (r: bool)
        ensures
            r == self.glyph(c) is Some,
    {
        assert(obeys_key_model::<u32>());
        self.chars.contains_key(&(c as u32))
    }

    /// Whether the font has a glyph for `c` whose bitmap lies inside its atlas.
    pub fn has_glyph_in_atlas(&self, c: char) -> (r: bool)
        ensures
            r == self.has_glyph(c),
    {
        assert(obeys_key_model::<u32>());
        match self.chars.get(&(c as u32)) {
            None => false,
            Some(character) => {
                let w = character.bm_width as usize;
                let h = character.bm_height as usize;
                assert(w * h <= 65025) by (nonlinear_arith)
                    requires
                        w <= 255,
                        h <= 255,
                ;
                let pixels = w * h;
                if pixels == 0 {
                    true
                } else {
                    character.atlas_start < self.atlas.len() && (pixels - 1) / 8 < self.atlas.len()
                        - character.atlas_start
                }
            },
        }
    }

    /// Whether pixel `(x, y)` of the glyph of `c` is set.
    pub fn get_pixel(&self, c: char, x: usize, y: usize) -> (r: bool)
        requires
            self.glyph(c) is Some,
            x + y * self.glyph(c)->0.bm_width <= usize::MAX,
            self.glyph(c)->0.atlas_start + (x + y * self.glyph(c)->0.bm_width) / 8 < self.atlas@.len(),
        ensures
            r == self.glyph_pixel(c, x as int, y as int),
    {
        let character = self.get_character(c);
        let index = x + y * character.bm_width as usize;
        let byte = index / 8;
        let bit = index % 8;
        assert(*character == self.glyph(c)->0);
        assert(character.atlas_start + byte < self.atlas@.len());
        assert(self.atlas@.len() == self.atlas.len());
        self.atlas[character.atlas_start + byte] & (1 << bit) != 0
    }
}

} // verus!
