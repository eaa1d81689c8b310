use vstd::prelude::*;

use crate::img::Img;
use crate::palette::{
    glyph_for_sum, glyph_of_index, lemma_palette_avoids_delimiters, lemma_sum_index_range, palette,
    palette_index_of_sum,
};
use crate::text::{chars_to_string, join_char_vecs, join_with, no_sep, split_on, views_of};

verus! {

/// The channel sum `R + G + B` of the pixel at `(x, y)` in a row-major
/// RGB buffer of width `w`.
pub open spec fn pix_sum(pix: Seq<u8>, w: int, x: int, y: int) -> int {
    pix[3 * (y * w + x)] + pix[3 * (y * w + x) + 1] + pix[3 * (y * w + x) + 2]
}

/// A border line: `w + 2` border characters.
pub open spec fn border_row(w: int) -> Seq<char> {
    Seq::new((w + 2) as nat, |i: int| '+')
}

/// The `w` shading glyphs of raster row `y`.
pub open spec fn body_row(pix: Seq<u8>, w: int, y: int) -> Seq<char> {
    Seq::new(w as nat, |x: int| glyph_of_index(palette_index_of_sum(pix_sum(pix, w, x, y))))
}

/// An interior panel line: the row's glyphs between two border characters.
pub open spec fn panel_row(pix: Seq<u8>, w: int, y: int) -> Seq<char> {
    seq!['+'] + body_row(pix, w, y) + seq!['+']
}

/// The `h + 2` lines of a panel: border, interior rows, border.
pub open spec fn panel_lines(w: int, h: int, pix: Seq<u8>) -> Seq<Seq<char>> {
    seq![border_row(w)] + Seq::new(h as nat, |y: int| panel_row(pix, w, y)) + seq![border_row(w)]
}

/// The panel as text: its lines joined by newlines, with a trailing
/// newline after the final border line.
pub open spec fn panel_text(w: int, h: int, pix: Seq<u8>) -> Seq<char> {
    join_with(panel_lines(w, h, pix).push(Seq::<char>::empty()), '\n')
}

/// A panel's body: the interior rows without their border columns,
/// joined by newlines, with no trailing newline.
pub open spec fn body_text(w: int, h: int, pix: Seq<u8>) -> Seq<char> {
    join_with(Seq::new(h as nat, |y: int| body_row(pix, w, y)), '\n')
}

/// Panel shape: `h + 2` lines, every line `w + 2` characters long, the
/// first and last line all border characters, every interior line bordered
/// on both ends.
pub proof fn lemma_panel_shape(w: int, h: int, pix: Seq<u8>)
    requires
        w >= 0,
        h >= 0,
    ensures
        panel_lines(w, h, pix).len() == h + 2,
        forall|i: int| 0 <= i < h + 2 ==> (#[trigger] panel_lines(w, h, pix)[i]).len() == w + 2,
        forall|j: int| 0 <= j < w + 2 ==> #[trigger] panel_lines(w, h, pix)[0][j] == '+',
        forall|j: int| 0 <= j < w + 2 ==> #[trigger] panel_lines(w, h, pix)[h + 1][j] == '+',
        forall|i: int|
            1 <= i <= h ==> (#[trigger] panel_lines(w, h, pix)[i]).first() == '+' && panel_lines(
                w,
                h,
                pix,
            )[i].last() == '+',
{
    assert forall|i: int| 0 <= i < h + 2 implies (#[trigger] panel_lines(w, h, pix)[i]).len() == w
        + 2 by {
        if 1 <= i <= h {
            assert(panel_lines(w, h, pix)[i] == panel_row(pix, w, i - 1));
        }
    }
    assert forall|i: int| 1 <= i <= h implies (#[trigger] panel_lines(w, h, pix)[i]).first() == '+'
        && panel_lines(w, h, pix)[i].last() == '+' by {
        assert(panel_lines(w, h, pix)[i] == panel_row(pix, w, i - 1));
    }
}

/// Palette closure: every interior character of a panel is one of the five
/// shading glyphs, and so is neither a border character nor a newline.
pub proof fn lemma_palette_closure(w: int, h: int, pix: Seq<u8>, y: int, x: int)
    requires
        0 <= y < h,
        0 <= x < w,
    ensures
        palette().contains(panel_lines(w, h, pix)[y + 1][x + 1]),
        panel_lines(w, h, pix)[y + 1][x + 1] != '+',
        panel_lines(w, h, pix)[y + 1][x + 1] != '\n',
{
    assert(panel_lines(w, h, pix)[y + 1] == panel_row(pix, w, y));
    assert(panel_row(pix, w, y)[x + 1] == body_row(pix, w, y)[x]);
    let s = pix_sum(pix, w, x, y);
    assert(0 <= s <= 765);
    lemma_sum_index_range(s);
    lemma_palette_avoids_delimiters(palette_index_of_sum(s));
    assert(palette()[palette_index_of_sum(s)] == body_row(pix, w, y)[x]);
}

/// A raster row's glyphs contain neither the border character nor a newline.
pub proof fn lemma_body_row_clean(pix: Seq<u8>, w: int, y: int)
    ensures
        no_sep(body_row(pix, w, y), '+'),
        no_sep(body_row(pix, w, y), '\n'),
{
    assert forall|x: int| 0 <= x < body_row(pix, w, y).len() implies body_row(pix, w, y)[x] != '+'
        && body_row(pix, w, y)[x] != '\n' by {
        let s = pix_sum(pix, w, x, y);
        lemma_sum_index_range(s);
        lemma_palette_avoids_delimiters(palette_index_of_sum(s));
    }
}

/// No panel line contains a newline.
pub proof fn lemma_panel_lines_no_newline(w: int, h: int, pix: Seq<u8>)
    requires
        w >= 0,
        h >= 0,
    ensures
        forall|i: int|
            0 <= i < panel_lines(w, h, pix).len() ==> no_sep(
                #[trigger] panel_lines(w, h, pix)[i],
                '\n',
            ),
{
    let lines = panel_lines(w, h, pix);
    assert forall|i: int| 0 <= i < lines.len() implies no_sep(#[trigger] lines[i], '\n') by {
        if 1 <= i <= h {
            assert(lines[i] == panel_row(pix, w, i - 1));
            assert forall|j: int| 0 <= j < lines[i].len() implies lines[i][j] != '\n' by {
                if 1 <= j <= w {
                    lemma_palette_closure(w, h, pix, i - 1, j - 1);
                    assert(panel_lines(w, h, pix)[i][j] == panel_row(pix, w, i - 1)[j]);
                }
            }
        }
    }
}

/// Splitting a panel's text at newlines yields exactly its lines, followed
/// by one empty fragment for the trailing newline.
pub proof fn lemma_panel_split(w: int, h: int, pix: Seq<u8>)
    requires
        w >= 0,
        h >= 0,
    ensures
        split_on(panel_text(w, h, pix), '\n') == panel_lines(w, h, pix).push(Seq::<char>::empty()),
{
    lemma_panel_lines_no_newline(w, h, pix);
    let xs = panel_lines(w, h, pix).push(Seq::<char>::empty());
    assert forall|i: int| 0 <= i < xs.len() implies no_sep(#[trigger] xs[i], '\n') by {
        if i < panel_lines(w, h, pix).len() {
            assert(xs[i] == panel_lines(w, h, pix)[i]);
        }
    }
    crate::text::lemma_split_join(xs, '\n');
}

/// Panel shape over the produced text: a panel splits at newlines into its
/// `h + 2` lines plus one empty fragment for the trailing newline; every
/// line is `w + 2` characters long, the first and last lines are entirely
/// border characters, and every interior line begins and ends with one.
pub proof fn lemma_panel_text_shape(w: int, h: int, pix: Seq<u8>)
    requires
        w >= 0,
        h >= 0,
    ensures
        split_on(panel_text(w, h, pix), '\n').len() == h + 3,
        split_on(panel_text(w, h, pix), '\n').last() == Seq::<char>::empty(),
        forall|i: int|
            0 <= i < h + 2 ==> (#[trigger] split_on(panel_text(w, h, pix), '\n')[i]).len() == w + 2,
        forall|i: int, j: int|
            (i == 0 || i == h + 1) && 0 <= j < w + 2 ==> #[trigger] split_on(
                panel_text(w, h, pix),
                '\n',
            )[i][j] == '+',
        forall|i: int|
            1 <= i <= h ==> (#[trigger] split_on(panel_text(w, h, pix), '\n')[i]).first() == '+'
                && split_on(panel_text(w, h, pix), '\n')[i].last() == '+',
{
    lemma_panel_split(w, h, pix);
    lemma_panel_shape(w, h, pix);
    let lines = panel_lines(w, h, pix);
    let split = split_on(panel_text(w, h, pix), '\n');
    assert forall|i: int| 0 <= i < h + 2 implies (#[trigger] split[i]).len() == w + 2 by {
        assert(split[i] == lines[i]);
    }
    assert forall|i: int, j: int| (i == 0 || i == h + 1) && 0 <= j < w + 2 implies #[trigger] split[i][j]
        == '+' by {
        assert(split[i] == lines[i]);
    }
    assert forall|i: int| 1 <= i <= h implies (#[trigger] split[i]).first() == '+'
        && split[i].last() == '+' by {
        assert(split[i] == lines[i]);
    }
}

fn pixel_sum(img: &Img, x: u32, y: u32) -> (s: u16)
    requires
        img.wf(),
        x < img.width,
        y < img.height,
    ensures
        s as int == pix_sum(img.pixels@, img.width as int, x as int, y as int),
{
    let n = img.pixels.len();
    proof {
        assert((y as int) * (img.width as int) + (x as int) + 1 <= (img.height as int) * (
        img.width as int)) by (nonlinear_arith)
            requires
                x < img.width,
                y < img.height,
        ;
        assert(3 * ((y as int) * (img.width as int) + (x as int)) + 3 <= 3 * (img.width as int) * (
        img.height as int)) by (nonlinear_arith)
            requires
                x < img.width,
                y < img.height,
        ;
        assert(3 * ((y as int) * (img.width as int) + (x as int)) + 3 <= n as int);
    }
    let idx: usize = 3 * ((y as usize) * (img.width as usize) + (x as usize));
    let s: u16 = img.pixels[idx] as u16 + img.pixels[idx + 1] as u16 + img.pixels[idx + 2] as u16;
    s
}

/// Rasterizes a decoded image into its bordered ASCII panel: one glyph per
/// pixel, quantized from the mean of the three channels, inside a border of
/// `+` characters, every line ended by a newline.
pub fn get_ascii_art(img: &Img) -> (s: String)
    requires
        img.wf(),
    ensures
        s@ == panel_text(img.width as int, img.height as int, img.pixels@),
{
    let w = img.width;
    let h = img.height;
    let border = make_border(w);
    let mut lines: Vec<Vec<char>> = Vec::new();
    lines.push(border);
    let mut y: u32 = 0;
    while y < h
        invariant
            y <= h,
            img.wf(),
            img.width == w,
            img.height == h,
            views_of(lines@) == seq![border_row(w as int)] + Seq::new(
                y as nat,
                |r: int| panel_row(img.pixels@, w as int, r),
            ),
        decreases h - y,
    {
        let mut row: Vec<char> = Vec::new();
        row.push('+');
        let mut x: u32 = 0;
        while x < w
            invariant
                x <= w,
                y < h,
                img.wf(),
                img.width == w,
                img.height == h,
                row@ == seq!['+'] + body_row(img.pixels@, w as int, y as int).take(x as int),
            decreases w - x,
        {
            let g = glyph_for_sum(pixel_sum(img, x, y));
            row.push(g);
            proof {
                assert(body_row(img.pixels@, w as int, y as int).take(x + 1) =~= body_row(
                    img.pixels@,
                    w as int,
                    y as int,
                ).take(x as int).push(body_row(img.pixels@, w as int, y as int)[x as int]));
            }
            x += 1;
        }
        row.push('+');
        proof {
            assert(body_row(img.pixels@, w as int, y as int).take(w as int) =~= body_row(
                img.pixels@,
                w as int,
                y as int,
            ));
            assert(row@ =~= panel_row(img.pixels@, w as int, y as int));
        }
        let ghost prev = views_of(lines@);
        let ghost row_view = row@;
        lines.push(row);
        proof {
            assert(views_of(lines@) =~~= prev.push(row_view));
            assert(Seq::new(y as nat, |r: int| panel_row(img.pixels@, w as int, r)).push(
                panel_row(img.pixels@, w as int, y as int),
            ) =~~= Seq::new((y + 1) as nat, |r: int| panel_row(img.pixels@, w as int, r)));
            assert(views_of(lines@) =~~= seq![border_row(w as int)] + Seq::new(
                (y + 1) as nat,
                |r: int| panel_row(img.pixels@, w as int, r),
            ));
        }
        y += 1;
    }
    let border2 = make_border(w);
    lines.push(border2);
    let empty_line: Vec<char> = Vec::new();
    lines.push(empty_line);
    proof {
        assert(views_of(lines@) =~~= panel_lines(w as int, h as int, img.pixels@).push(
            Seq::<char>::empty(),
        ));
    }
    let joined = join_char_vecs(&lines, '\n');
    chars_to_string(&joined)
}

fn make_border(w: u32) -> (v: Vec<char>)
    ensures
        v@ == border_row(w as int),
{
    let mut v: Vec<char> = Vec::new();
    v.push('+');
    let mut i: u32 = 0;
    while i < w
        invariant
            i <= w,
            v@ == seq!['+'] + border_row(w as int).take(i as int),
        decreases w - i,
    {
        v.push('+');
        proof {
            assert(border_row(w as int).take(i + 1) =~= border_row(w as int).take(i as int).push(
                '+',
            ));
        }
        i += 1;
    }
    v.push('+');
    proof {
        assert(v@ =~= border_row(w as int));
    }
    v
}

} // verus!
