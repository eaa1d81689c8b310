use vstd::prelude::*;

verus! {

/// The fixed shading palette, darkest glyph first.
pub open spec fn palette() -> Seq<char> {
    seq!['█', '▓', '▒', '░', ' ']
}

/// The glyph at a palette index (meaningful for indices 0..=4).
pub open spec fn glyph_of_index(i: int) -> char {
    palette()[i]
}

/// Palette index for a luminance given in thousandths of a channel unit:
/// round-half-away-from-zero of `L / 63.75`, written over integers as
/// `(L_milli + 31875) / 63750`.
pub open spec fn palette_index_of_milli(m: int) -> int {
    (m + 31875) / 63750
}

/// Palette index for a pixel's channel sum `s = R + G + B`: the index of
/// the luminance `s / 3`, i.e. round-half-away-from-zero of `(s/3) / 63.75`,
/// written over integers as `(8*s + 765) / 1530` (never exactly half).
pub open spec fn palette_index_of_sum(s: int) -> int {
    (8 * s + 765) / 1530
}

/// A channel sum in range maps to an index in range.
pub proof fn lemma_sum_index_range(s: int)
    requires
        0 <= s <= 765,
    ensures
        0 <= palette_index_of_sum(s) <= 4,
{
}

/// Darker never maps lighter: the palette index is monotone in luminance.
pub proof fn lemma_map_monotone(m1: int, m2: int)
    requires
        0 <= m1 <= m2,
    ensures
        palette_index_of_milli(m1) <= palette_index_of_milli(m2),
{
    vstd::arithmetic::div_mod::lemma_div_is_ordered(m1 + 31875, m2 + 31875, 63750);
}

/// The bucket boundaries: luminance 0 is the darkest glyph, 255 the lightest,
/// the midpoint 127.5 the middle one, and 31.875 is the first luminance that
/// leaves the darkest bucket.
pub proof fn lemma_palette_boundaries()
    ensures
        palette_index_of_milli(0) == 0,
        palette_index_of_milli(255000) == 4,
        palette_index_of_milli(127500) == 2,
        palette_index_of_milli(31875) == 1,
        palette_index_of_milli(31874) == 0,
        glyph_of_index(0) == '█',
        glyph_of_index(2) == '▒',
        glyph_of_index(4) == ' ',
{
}

/// The two index formulas implement one mapper: for a grey level `v`, the
/// rasterizer's channel-sum index equals the luminance mapper's index for
/// the same brightness — both are round-half-away-from-zero of `v / 63.75`.
pub proof fn lemma_sum_agrees_with_milli(v: int)
    requires
        0 <= v <= 255,
    ensures
        palette_index_of_sum(3 * v) == palette_index_of_milli(1000 * v),
{
    let q = (8 * v + 255) / 510;
    let r = (8 * v + 255) % 510;
    vstd::arithmetic::div_mod::lemma_fundamental_div_mod(8 * v + 255, 510);
    vstd::arithmetic::div_mod::lemma_fundamental_div_mod_converse_div(
        8 * (3 * v) + 765,
        1530,
        q,
        3 * r,
    );
    vstd::arithmetic::div_mod::lemma_fundamental_div_mod_converse_div(
        1000 * v + 31875,
        63750,
        q,
        125 * r,
    );
}

/// No palette glyph is the border or line separator character.
pub proof fn lemma_palette_avoids_delimiters(i: int)
    requires
        0 <= i <= 4,
    ensures
        glyph_of_index(i) != '+',
        glyph_of_index(i) != '\n',
{
}

/// Maps a luminance, given in thousandths of a channel unit in
/// `[0, 255000]`, to its shading glyph.
pub fn map_luminance_to_ascii(luminance_milli: u32) -> (c: char)
    requires
        luminance_milli <= 255000,
    ensures
        c == glyph_of_index(palette_index_of_milli(luminance_milli as int)),
{
    let i: u32 = (luminance_milli + 31875) / 63750;
    glyph_at(i)
}

/// Maps a pixel's channel sum `R + G + B`, in `[0, 765]`, to its glyph.
pub fn glyph_for_sum(sum: u16) -> (c: char)
    requires
        sum <= 765,
    ensures
        c == glyph_of_index(palette_index_of_sum(sum as int)),
{
    let i: u32 = (8 * (sum as u32) + 765) / 1530;
    glyph_at(i)
}

fn glyph_at(i: u32) -> (c: char)
    requires
        i <= 4,
    ensures
        c == glyph_of_index(i as int),
{
    if i == 0 {
        '█'
    } else if i == 1 {
        '▓'
    } else if i == 2 {
        '▒'
    } else if i == 3 {
        '░'
    } else {
        ' '
    }
}

} // verus!
