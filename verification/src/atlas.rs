use vstd::prelude::*;

use crate::errors::AsciiError;
use crate::img::{resize_img, scaled_height, thumb_result, Img};
use crate::raster::{body_row, body_text, get_ascii_art, panel_lines, panel_row, panel_text};
use crate::text::{
    chars_to_string, frags, join_char_vecs, join_with, lemma_split_frags_no_sep, lemma_split_join,
    lemma_split_len, no_sep, split_char_vec, split_frags, split_on, str_to_chars, views_of,
};

verus! {

/// The views of a sequence of string slices.
pub open spec fn str_views(d: Seq<&str>) -> Seq<Seq<char>> {
    d.map_values(|s: &str| s@)
}

/// The number of newline-separated lines of a panel (a trailing newline
/// contributes one empty line).
pub open spec fn line_count(p: Seq<char>) -> int {
    split_on(p, '\n').len() as int
}

/// All panels have the first panel's line count.
pub open spec fn equal_line_counts(ps: Seq<Seq<char>>) -> bool {
    forall|j: int| 0 <= j < ps.len() ==> line_count(#[trigger] ps[j]) == line_count(ps[0])
}

/// Each panel split into its lines.
pub open spec fn lines_of_panels(ps: Seq<Seq<char>>) -> Seq<Seq<Seq<char>>> {
    ps.map_values(|p: Seq<char>| split_on(p, '\n'))
}

/// Line `i` of the atlas: the concatenation of line `i` of every panel.
pub open spec fn concat_row(ls: Seq<Seq<Seq<char>>>, i: int) -> Seq<char>
    decreases ls.len(),
{
    if ls.len() == 0 {
        Seq::<char>::empty()
    } else {
        ls[0][i] + concat_row(ls.drop_first(), i)
    }
}

/// The length of atlas line `i`: the sum of the panels' line lengths.
pub open spec fn sum_row_len(ls: Seq<Seq<Seq<char>>>, i: int) -> int
    decreases ls.len(),
{
    if ls.len() == 0 {
        0
    } else {
        ls[0][i].len() + sum_row_len(ls.drop_first(), i)
    }
}

/// The atlas of equally tall panels: their lines concatenated row by row
/// and joined with newlines, nothing more appended.
pub open spec fn hcat_spec(ps: Seq<Seq<char>>) -> Seq<char> {
    join_with(
        Seq::new(line_count(ps[0]) as nat, |i: int| concat_row(lines_of_panels(ps), i)),
        '\n',
    )
}

pub proof fn lemma_concat_row_push(ls: Seq<Seq<Seq<char>>>, x: Seq<Seq<char>>, i: int)
    ensures
        concat_row(ls.push(x), i) == concat_row(ls, i) + x[i],
        sum_row_len(ls.push(x), i) == sum_row_len(ls, i) + x[i].len(),
    decreases ls.len(),
{
    if ls.len() == 0 {
        reveal_with_fuel(concat_row, 2);
        reveal_with_fuel(sum_row_len, 2);
        assert(ls.push(x)[0] == x);
        assert(ls.push(x).drop_first() =~~= Seq::<Seq<Seq<char>>>::empty());
        assert(concat_row(Seq::<Seq<Seq<char>>>::empty(), i) == Seq::<char>::empty());
        assert(concat_row(ls, i) + x[i] =~= x[i] + Seq::<char>::empty());
    } else {
        lemma_concat_row_push(ls.drop_first(), x, i);
        assert(ls.push(x).drop_first() =~~= ls.drop_first().push(x));
        assert(ls.push(x)[0] == ls[0]);
        assert(ls[0][i] + (concat_row(ls.drop_first(), i) + x[i]) =~= (ls[0][i] + concat_row(
            ls.drop_first(),
            i,
        )) + x[i]);
    }
}

pub proof fn lemma_concat_row_len(ls: Seq<Seq<Seq<char>>>, i: int)
    ensures
        concat_row(ls, i).len() == sum_row_len(ls, i),
    decreases ls.len(),
{
    if ls.len() > 0 {
        lemma_concat_row_len(ls.drop_first(), i);
    }
}

pub proof fn lemma_concat_row_no_sep(ls: Seq<Seq<Seq<char>>>, i: int, sep: char)
    requires
        forall|j: int| 0 <= j < ls.len() ==> no_sep(#[trigger] ls[j][i], sep),
    ensures
        no_sep(concat_row(ls, i), sep),
    decreases ls.len(),
{
    if ls.len() > 0 {
        assert forall|j: int| 0 <= j < ls.drop_first().len() implies no_sep(
            #[trigger] ls.drop_first()[j][i],
            sep,
        ) by {
            assert(ls.drop_first()[j] == ls[j + 1]);
        }
        lemma_concat_row_no_sep(ls.drop_first(), i, sep);
        assert(no_sep(ls[0][i], sep));
    }
}

/// Atlas shape: an atlas of equally tall panels splits back into that
/// common number of lines, and line `i` is the concatenation of the
/// panels' lines `i`, with the summed length.
pub proof fn lemma_atlas_shape(ps: Seq<Seq<char>>)
    requires
        ps.len() >= 1,
        equal_line_counts(ps),
    ensures
        split_on(hcat_spec(ps), '\n').len() == line_count(ps[0]),
        forall|i: int|
            0 <= i < line_count(ps[0]) ==> #[trigger] split_on(hcat_spec(ps), '\n')[i]
                == concat_row(lines_of_panels(ps), i),
        forall|i: int|
            0 <= i < line_count(ps[0]) ==> (#[trigger] split_on(hcat_spec(ps), '\n')[i]).len()
                == sum_row_len(lines_of_panels(ps), i),
{
    let ls = lines_of_panels(ps);
    let rows = Seq::new(line_count(ps[0]) as nat, |i: int| concat_row(ls, i));
    lemma_split_len(ps[0], '\n');
    assert forall|i: int| 0 <= i < rows.len() implies no_sep(#[trigger] rows[i], '\n') by {
        assert forall|j: int| 0 <= j < ls.len() implies no_sep(#[trigger] ls[j][i], '\n') by {
            lemma_split_frags_no_sep(ps[j], '\n');
            assert(ls[j] == split_on(ps[j], '\n'));
            assert(line_count(ps[j]) == line_count(ps[0]));
        }
        lemma_concat_row_no_sep(ls, i, '\n');
    }
    lemma_split_join(rows, '\n');
    assert forall|i: int| 0 <= i < line_count(ps[0]) implies (#[trigger] split_on(
        hcat_spec(ps),
        '\n',
    )[i]).len() == sum_row_len(ls, i) by {
        lemma_concat_row_len(ls, i);
    }
}

/// Horizontally concatenates panels: line `i` of the result is the
/// concatenation of line `i` of every panel, lines joined by newlines.
/// Succeeds exactly when all panels have the same line count, and reports
/// mismatched panel heights otherwise.
pub fn hcat(data: Vec<&str>) -> (r: Result<String, AsciiError>)
    requires
        data@.len() >= 1,
    ensures
        equal_line_counts(str_views(data@)) ==> (r matches Ok(s) && s@ == hcat_spec(
            str_views(data@),
        )),
        !equal_line_counts(str_views(data@)) ==> r == Err::<String, AsciiError>(
            AsciiError::MismatchedPanelHeights,
        ),
{
    let ghost pviews = str_views(data@);
    let ghost ls = lines_of_panels(pviews);
    let mut all_lines: Vec<Vec<Vec<char>>> = Vec::new();
    let mut j: usize = 0;
    while j < data.len()
        invariant
            j <= data@.len(),
            all_lines@.len() == j,
            pviews == str_views(data@),
            ls == lines_of_panels(pviews),
            forall|t: int|
                0 <= t < j ==> views_of(#[trigger] all_lines@[t]@) == split_on(data@[t]@, '\n'),
        decreases data@.len() - j,
    {
        let chars = str_to_chars(data[j]);
        let parts = split_char_vec(&chars, '\n');
        all_lines.push(parts);
        j += 1;
    }
    proof {
        assert forall|t: int| 0 <= t < ls.len() implies #[trigger] ls[t] == views_of(
            all_lines@[t]@,
        ) by {
            assert(ls[t] == split_on(pviews[t], '\n'));
            assert(pviews[t] == data@[t]@);
        }
    }
    let count = all_lines[0].len();
    proof {
        assert(count == line_count(pviews[0]));
    }
    let mut j: usize = 1;
    while j < all_lines.len()
        invariant
            1 <= j <= all_lines@.len(),
            all_lines@.len() == data@.len(),
            count == line_count(pviews[0]),
            pviews == str_views(data@),
            ls == lines_of_panels(pviews),
            forall|t: int|
                0 <= t < all_lines@.len() ==> views_of(#[trigger] all_lines@[t]@) == split_on(
                    data@[t]@,
                    '\n',
                ),
            forall|t: int| 0 <= t < j ==> line_count(#[trigger] pviews[t]) == line_count(pviews[0]),
        decreases all_lines@.len() - j,
    {
        if all_lines[j].len() != count {
            proof {
                assert(line_count(pviews[j as int]) != line_count(pviews[0]));
                assert(!equal_line_counts(pviews));
            }
            return Err(AsciiError::MismatchedPanelHeights);
        }
        j += 1;
    }
    proof {
        assert(equal_line_counts(pviews));
    }
    let mut rows: Vec<Vec<char>> = Vec::new();
    let mut i: usize = 0;
    while i < count
        invariant
            i <= count,
            count == line_count(pviews[0]),
            all_lines@.len() == data@.len() >= 1,
            pviews == str_views(data@),
            ls == lines_of_panels(pviews),
            equal_line_counts(pviews),
            forall|t: int|
                0 <= t < all_lines@.len() ==> views_of(#[trigger] all_lines@[t]@) == split_on(
                    data@[t]@,
                    '\n',
                ),
            views_of(rows@) == Seq::new(i as nat, |t: int| concat_row(ls, t)),
        decreases count - i,
    {
        let mut row: Vec<char> = Vec::new();
        let mut j: usize = 0;
        while j < all_lines.len()
            invariant
                j <= all_lines@.len(),
                i < count,
                count == line_count(pviews[0]),
                all_lines@.len() == data@.len() >= 1,
                pviews == str_views(data@),
                ls == lines_of_panels(pviews),
                equal_line_counts(pviews),
                forall|t: int|
                    0 <= t < all_lines@.len() ==> views_of(#[trigger] all_lines@[t]@) == split_on(
                        data@[t]@,
                        '\n',
                    ),
                row@ == concat_row(ls.take(j as int), i as int),
            decreases all_lines@.len() - j,
        {
            proof {
                assert(views_of(all_lines@[j as int]@) == split_on(data@[j as int]@, '\n'));
                assert(line_count(pviews[j as int]) == count);
                assert(ls.take(j + 1) =~~= ls.take(j as int).push(ls[j as int]));
                lemma_concat_row_push(ls.take(j as int), ls[j as int], i as int);
            }
            let part = &all_lines[j];
            let ghost base = row@;
            let mut t: usize = 0;
            let pl = part[i].len();
            while t < pl
                invariant
                    t <= pl,
                    i < part@.len(),
                    pl == part@[i as int]@.len(),
                    row@ == base + part@[i as int]@.take(t as int),
                decreases pl - t,
            {
                let c = part[i][t];
                row.push(c);
                proof {
                    assert(part@[i as int]@.take(t + 1) =~= part@[i as int]@.take(t as int).push(
                        part@[i as int]@[t as int],
                    ));
                }
                t += 1;
            }
            proof {
                assert(part@[i as int]@.take(pl as int) =~= part@[i as int]@);
                assert(ls[j as int][i as int] == part@[i as int]@);
                assert(row@ == concat_row(ls.take(j + 1), i as int));
            }
            j += 1;
        }
        proof {
            assert(ls.take(ls.len() as int) =~~= ls);
        }
        let ghost prev = views_of(rows@);
        let ghost row_view = row@;
        rows.push(row);
        proof {
            assert(views_of(rows@) =~~= prev.push(row_view));
            assert(views_of(rows@) =~~= Seq::new((i + 1) as nat, |t: int| concat_row(ls, t)));
        }
        i += 1;
    }
    let joined = join_char_vecs(&rows, '\n');
    let s = chars_to_string(&joined);
    proof {
        assert(views_of(rows@) =~~= Seq::new(line_count(pviews[0]) as nat, |t: int| concat_row(
            ls,
            t,
        )));
        assert(s@ == hcat_spec(pviews));
    }
    Ok(s)
}

/// Each atlas line's non-empty fragments between border characters.
pub open spec fn row_frag_lists(a: Seq<char>) -> Seq<Seq<Seq<char>>> {
    split_on(a, '\n').map_values(|l: Seq<char>| frags(l, '+'))
}

/// The atlas lines that carry panel bodies: those with at least one
/// non-empty fragment (all-border lines and empty lines drop out).
pub open spec fn kept_rows(a: Seq<char>) -> Seq<Seq<Seq<char>>> {
    row_frag_lists(a).filter(|fl: Seq<Seq<char>>| fl.len() != 0)
}

/// Panel index `k` exists on every body-carrying line of the atlas.
pub open spec fn find_ok(a: Seq<char>, k: int) -> bool {
    forall|i: int| 0 <= i < kept_rows(a).len() ==> k < (#[trigger] kept_rows(a)[i]).len()
}

/// The body of panel `k`: fragment `k` of every body-carrying line,
/// joined by newlines.
pub open spec fn find_spec(a: Seq<char>, k: int) -> Seq<char> {
    join_with(Seq::new(kept_rows(a).len(), |i: int| kept_rows(a)[i][k]), '\n')
}

/// Extracts the body of the panel at a zero-based index from an atlas:
/// every atlas line is split at border characters, empty fragments and
/// fragment-free lines are dropped, and fragment `adress` of each
/// remaining line is kept. Fails with an out-of-range report exactly when
/// some body-carrying line has no fragment `adress`.
pub fn find(atlas: &str, adress: usize) -> (r: Result<String, AsciiError>)
    ensures
        find_ok(atlas@, adress as int) ==> (r matches Ok(s) && s@ == find_spec(
            atlas@,
            adress as int,
        )),
        !find_ok(atlas@, adress as int) ==> r == Err::<String, AsciiError>(
            AsciiError::PanelIndexOutOfRange,
        ),
{
    let ghost a = atlas@;
    let ghost fr_fn = (|l: Seq<char>| frags(l, '+'));
    let ghost ne_fn = (|fl: Seq<Seq<char>>| fl.len() != 0);
    let chars = str_to_chars(atlas);
    let lines = split_char_vec(&chars, '\n');
    let ghost lv = split_on(a, '\n');
    let mut picked: Vec<Vec<char>> = Vec::new();
    let mut i: usize = 0;
    while i < lines.len()
        invariant
            i <= lines@.len(),
            a == atlas@,
            views_of(lines@) == lv,
            lv == split_on(a, '\n'),
            fr_fn == (|l: Seq<char>| frags(l, '+')),
            ne_fn == (|fl: Seq<Seq<char>>| fl.len() != 0),
            views_of(picked@).len() == lv.take(i as int).map_values(fr_fn).filter(ne_fn).len(),
            forall|t: int|
                0 <= t < views_of(picked@).len() ==> #[trigger] views_of(picked@)[t] == lv.take(
                    i as int,
                ).map_values(fr_fn).filter(ne_fn)[t][adress as int],
            forall|t: int|
                0 <= t < views_of(picked@).len() ==> (adress as int) < (#[trigger] lv.take(
                    i as int,
                ).map_values(fr_fn).filter(ne_fn)[t]).len(),
        decreases lines@.len() - i,
    {
        let ghost prefix = lv.take(i as int).map_values(fr_fn).filter(ne_fn);
        let mut fr = split_frags(&lines[i], '+');
        proof {
            assert(lines@[i as int]@ == lv[i as int]);
            assert(views_of(fr@) == frags(lv[i as int], '+'));
            assert(lv.take(i + 1).map_values(fr_fn) =~~= lv.take(i as int).map_values(fr_fn).push(
                fr_fn(lv[i as int]),
            ));
            crate::text::lemma_filter_push(
                lv.take(i as int).map_values(fr_fn),
                fr_fn(lv[i as int]),
                ne_fn,
            );
        }
        if fr.len() > 0 {
            if adress < fr.len() {
                let chosen = fr.remove(adress);
                proof {
                    assert(chosen@ == frags(lv[i as int], '+')[adress as int]);
                }
                let ghost prev = views_of(picked@);
                let ghost cv = chosen@;
                picked.push(chosen);
                proof {
                    assert(views_of(picked@) =~~= prev.push(cv));
                    assert(lv.take(i + 1).map_values(fr_fn).filter(ne_fn) =~~= prefix.push(
                        fr_fn(lv[i as int]),
                    ));
                }
            } else {
                proof {
                    let kp = prefix.push(fr_fn(lv[i as int]));
                    assert(lv.take(i + 1).map_values(fr_fn).filter(ne_fn) =~~= kp);
                    assert(lv =~~= lv.take(i + 1) + lv.skip(i + 1));
                    assert(lv.map_values(fr_fn) =~~= lv.take(i + 1).map_values(fr_fn) + lv.skip(
                        i + 1,
                    ).map_values(fr_fn));
                    Seq::filter_distributes_over_add(
                        lv.take(i + 1).map_values(fr_fn),
                        lv.skip(i + 1).map_values(fr_fn),
                        ne_fn,
                    );
                    assert(kept_rows(a) =~~= kp + lv.skip(i + 1).map_values(fr_fn).filter(ne_fn));
                    assert(kept_rows(a)[prefix.len() as int] == fr_fn(lv[i as int]));
                    assert(!(adress < fr_fn(lv[i as int]).len()));
                    assert(0 <= prefix.len() < kept_rows(a).len());
                    assert(!((adress as int) < (kept_rows(a)[prefix.len() as int]).len()));
                    assert(!find_ok(a, adress as int));
                }
                return Err(AsciiError::PanelIndexOutOfRange);
            }
        } else {
            proof {
                assert(lv.take(i + 1).map_values(fr_fn).filter(ne_fn) =~~= prefix);
            }
        }
        i += 1;
    }
    proof {
        assert(lv.take(lv.len() as int) =~~= lv);
        assert(kept_rows(a) == lv.take(lv.len() as int).map_values(fr_fn).filter(ne_fn));
        assert(find_ok(a, adress as int));
    }
    let joined = join_char_vecs(&picked, '\n');
    let s = chars_to_string(&joined);
    proof {
        assert(views_of(picked@) =~~= Seq::new(
            kept_rows(a).len(),
            |t: int| kept_rows(a)[t][adress as int],
        ));
        assert(s@ == find_spec(a, adress as int));
    }
    Ok(s)
}

/// A run of bordered chunks: each body wrapped in border characters, all
/// concatenated, as the interior rows of an atlas are laid out.
pub open spec fn chunk_concat(bodies: Seq<Seq<char>>) -> Seq<char>
    decreases bodies.len(),
{
    if bodies.len() == 0 {
        Seq::<char>::empty()
    } else {
        (seq!['+'] + bodies[0] + seq!['+']) + chunk_concat(bodies.drop_first())
    }
}

/// Splitting a run of bordered chunks at the border character recovers
/// exactly the bodies, when every body is non-empty and border-free.
pub proof fn lemma_frags_chunks(bodies: Seq<Seq<char>>)
    requires
        forall|j: int|
            0 <= j < bodies.len() ==> no_sep(#[trigger] bodies[j], '+') && bodies[j].len() >= 1,
    ensures
        frags(chunk_concat(bodies), '+') =~~= bodies,
    decreases bodies.len(),
{
    if bodies.len() == 0 {
        crate::text::lemma_frags_all_sep(chunk_concat(bodies));
    } else if bodies.len() == 1 {
        crate::text::lemma_frags_chunk(bodies[0]);
        assert(bodies.drop_first() =~~= Seq::<Seq<char>>::empty());
        assert(chunk_concat(Seq::<Seq<char>>::empty()) =~= Seq::<char>::empty());
        assert(chunk_concat(bodies) =~= seq!['+'] + bodies[0] + seq!['+']);
        assert(frags(chunk_concat(bodies), '+') =~~= seq![bodies[0]]);
        assert(seq![bodies[0]] =~~= bodies);
    } else {
        let rest = bodies.drop_first();
        assert forall|j: int| 0 <= j < rest.len() implies no_sep(#[trigger] rest[j], '+')
            && rest[j].len() >= 1 by {
            assert(rest[j] == bodies[j + 1]);
        }
        lemma_frags_chunks(rest);
        crate::text::lemma_frags_chunk(bodies[0]);
        assert(chunk_concat(rest)[0] == '+');
        crate::text::lemma_frags_concat(seq!['+'] + bodies[0] + seq!['+'], chunk_concat(rest));
        assert(frags(chunk_concat(bodies), '+') =~~= seq![bodies[0]] + rest);
        assert(seq![bodies[0]] + rest =~~= bodies);
    }
}

/// An atlas row whose panel lines are bordered chunks is the run of those
/// chunks.
pub proof fn lemma_concat_row_chunks(ls: Seq<Seq<Seq<char>>>, bodies: Seq<Seq<char>>, i: int)
    requires
        ls.len() == bodies.len(),
        forall|j: int|
            0 <= j < ls.len() ==> #[trigger] ls[j][i] == seq!['+'] + bodies[j] + seq!['+'],
    ensures
        concat_row(ls, i) == chunk_concat(bodies),
    decreases ls.len(),
{
    if ls.len() > 0 {
        assert forall|j: int| 0 <= j < ls.drop_first().len() implies #[trigger] ls.drop_first(
        )[j][i] == seq!['+'] + bodies.drop_first()[j] + seq!['+'] by {
            assert(ls.drop_first()[j] == ls[j + 1]);
            assert(bodies.drop_first()[j] == bodies[j + 1]);
        }
        lemma_concat_row_chunks(ls.drop_first(), bodies.drop_first(), i);
    }
}

/// An atlas row whose panel lines hold only one character holds only that
/// character.
pub proof fn lemma_concat_row_const(ls: Seq<Seq<Seq<char>>>, i: int, c: char)
    requires
        forall|j: int, t: int|
            0 <= j < ls.len() && 0 <= t < ls[j][i].len() ==> #[trigger] ls[j][i][t] == c,
    ensures
        forall|t: int| 0 <= t < concat_row(ls, i).len() ==> #[trigger] concat_row(ls, i)[t] == c,
    decreases ls.len(),
{
    if ls.len() > 0 {
        assert forall|j: int, t: int|
            0 <= j < ls.drop_first().len() && 0 <= t < ls.drop_first()[j][i].len() implies #[trigger] ls.drop_first(
        )[j][i][t] == c by {
            assert(ls.drop_first()[j] == ls[j + 1]);
        }
        lemma_concat_row_const(ls.drop_first(), i, c);
        assert forall|t: int| 0 <= t < concat_row(ls, i).len() implies #[trigger] concat_row(
            ls,
            i,
        )[t] == c by {
            if t < ls[0][i].len() {
                assert(ls[0][i][t] == c);
            } else {
                assert(concat_row(ls, i)[t] == concat_row(ls.drop_first(), i)[t - ls[0][i].len()]);
            }
        }
    }
}

/// The panels the rasterizer produces from a list of decoded images.
pub open spec fn raster_panels(imgs: Seq<Img>) -> Seq<Seq<char>> {
    Seq::new(
        imgs.len(),
        |j: int| panel_text(imgs[j].width as int, imgs[j].height as int, imgs[j].pixels@),
    )
}

/// Raster row `y` of every image, in order.
pub open spec fn bodies_at(imgs: Seq<Img>, y: int) -> Seq<Seq<char>> {
    Seq::new(imgs.len(), |j: int| body_row(imgs[j].pixels@, imgs[j].width as int, y))
}

/// Round trip: composing the rasters of equally tall images of positive
/// width into an atlas and extracting panel `k` yields exactly the body of
/// the raster of image `k` — the panel with its border rows and border
/// columns stripped.
pub proof fn lemma_atlas_round_trip(imgs: Seq<Img>, k: int)
    requires
        imgs.len() >= 1,
        0 <= k < imgs.len(),
        forall|j: int| 0 <= j < imgs.len() ==> (#[trigger] imgs[j]).width >= 1,
        forall|j: int| 0 <= j < imgs.len() ==> (#[trigger] imgs[j]).height == imgs[0].height,
    ensures
        equal_line_counts(raster_panels(imgs)),
        find_ok(hcat_spec(raster_panels(imgs)), k),
        find_spec(hcat_spec(raster_panels(imgs)), k) == body_text(
            imgs[k].width as int,
            imgs[k].height as int,
            imgs[k].pixels@,
        ),
{
    let h = imgs[0].height as int;
    let texts = raster_panels(imgs);
    let ls = lines_of_panels(texts);
    let fr_fn = (|l: Seq<char>| frags(l, '+'));
    let ne_fn = (|fl: Seq<Seq<char>>| fl.len() != 0);
    assert forall|j: int| 0 <= j < imgs.len() implies #[trigger] ls[j] == panel_lines(
        imgs[j].width as int,
        h,
        imgs[j].pixels@,
    ).push(Seq::<char>::empty()) && ls[j].len() == h + 3 by {
        crate::raster::lemma_panel_split(imgs[j].width as int, h, imgs[j].pixels@);
        crate::raster::lemma_panel_shape(imgs[j].width as int, h, imgs[j].pixels@);
        assert(ls[j] == split_on(texts[j], '\n'));
    }
    assert forall|j: int| 0 <= j < texts.len() implies line_count(#[trigger] texts[j]) == h
        + 3 by {
        assert(ls[j] == split_on(texts[j], '\n'));
        assert(ls[j].len() == h + 3);
    }
    assert(equal_line_counts(texts));
    let atlas = hcat_spec(texts);
    lemma_atlas_shape(texts);
    let rows = split_on(atlas, '\n');
    assert(rows.len() == h + 3);
    // The two border rows and the final empty row yield no fragments.
    assert forall|i: int| i == 0 || i == h + 1 || i == h + 2 implies frags(#[trigger] rows[i], '+')
        =~~= Seq::<Seq<char>>::empty() by {
        assert forall|j: int, t: int|
            0 <= j < ls.len() && 0 <= t < ls[j][i].len() implies #[trigger] ls[j][i][t]
            == '+' by {
            let lines_j = panel_lines(imgs[j].width as int, h, imgs[j].pixels@);
            crate::raster::lemma_panel_shape(imgs[j].width as int, h, imgs[j].pixels@);
            if i < h + 2 {
                assert(ls[j][i] == lines_j[i]);
            } else {
                assert(ls[j][i] =~= Seq::<char>::empty());
            }
        }
        lemma_concat_row_const(ls, i, '+');
        assert(rows[i] == concat_row(ls, i));
        crate::text::lemma_frags_all_sep(rows[i]);
    }
    // Each interior row yields exactly the raster bodies of that row.
    assert forall|i: int| 1 <= i <= h implies frags(#[trigger] rows[i], '+') =~~= bodies_at(
        imgs,
        i - 1,
    ) by {
        assert forall|j: int| 0 <= j < ls.len() implies #[trigger] ls[j][i] == seq!['+']
            + bodies_at(imgs, i - 1)[j] + seq!['+'] by {
            let lines_j = panel_lines(imgs[j].width as int, h, imgs[j].pixels@);
            assert(ls[j][i] == lines_j[i]);
            assert(lines_j[i] == panel_row(imgs[j].pixels@, imgs[j].width as int, i - 1));
        }
        lemma_concat_row_chunks(ls, bodies_at(imgs, i - 1), i);
        assert forall|j: int| 0 <= j < bodies_at(imgs, i - 1).len() implies no_sep(
            #[trigger] bodies_at(imgs, i - 1)[j],
            '+',
        ) && bodies_at(imgs, i - 1)[j].len() >= 1 by {
            crate::raster::lemma_body_row_clean(imgs[j].pixels@, imgs[j].width as int, i - 1);
        }
        lemma_frags_chunks(bodies_at(imgs, i - 1));
        assert(rows[i] == concat_row(ls, i));
    }
    // Filtering keeps exactly the interior rows' fragment lists.
    let mapped = rows.map_values(fr_fn);
    let mid = Seq::new(h as nat, |y: int| bodies_at(imgs, y));
    let empty_fl = Seq::<Seq<char>>::empty();
    assert(mapped =~~= seq![empty_fl] + mid + seq![empty_fl, empty_fl]);
    Seq::filter_distributes_over_add(seq![empty_fl] + mid, seq![empty_fl, empty_fl], ne_fn);
    Seq::filter_distributes_over_add(seq![empty_fl], mid, ne_fn);
    reveal_with_fuel(Seq::filter, 3);
    assert(seq![empty_fl].filter(ne_fn) =~~= Seq::<Seq<Seq<char>>>::empty());
    assert(seq![empty_fl, empty_fl].drop_last() =~~= seq![empty_fl]);
    assert(seq![empty_fl, empty_fl].filter(ne_fn) =~~= Seq::<Seq<Seq<char>>>::empty());
    assert forall|y: int| 0 <= y < mid.len() implies ne_fn(#[trigger] mid[y]) by {
        assert(mid[y] == bodies_at(imgs, y));
    }
    crate::text::lemma_filter_all(mid, ne_fn);
    assert(kept_rows(atlas) =~~= mid);
    // Every kept row has one fragment per panel, so index k exists,
    // and selects raster row y of image k.
    assert(find_ok(atlas, k));
    assert(Seq::new(kept_rows(atlas).len(), |y: int| kept_rows(atlas)[y][k]) =~~= Seq::new(
        h as nat,
        |y: int| body_row(imgs[k].pixels@, imgs[k].width as int, y),
    ));
}

/// The raster the composer derives from one input image: the scaler's
/// output for a target width of 100 characters.
pub open spec fn resized_of(img: Img) -> (int, int, Seq<u8>) {
    thumb_result(
        img.pixels@,
        img.width as int,
        img.height as int,
        100,
        scaled_height(img.width as int, img.height as int, 100),
    )
}

/// The panel the composer derives from one input image.
pub open spec fn resized_panel(img: Img) -> Seq<char> {
    panel_text(resized_of(img).0, resized_of(img).1, resized_of(img).2)
}

/// The panels the composer derives from its input images.
pub open spec fn compose_panels(imgs: Seq<Img>) -> Seq<Seq<char>> {
    Seq::new(imgs.len(), |j: int| resized_panel(imgs[j]))
}

/// Resizes every decoded image to the fixed target width, rasterizes each
/// into its panel, and horizontally concatenates the panels into one atlas.
/// Succeeds exactly when the resized panels come out equally tall, and
/// reports mismatched panel heights otherwise.
pub fn compose_ascii_atlas(imgs: Vec<Img>) -> (r: Result<String, AsciiError>)
    requires
        imgs@.len() >= 1,
        forall|j: int|
            0 <= j < imgs@.len() ==> (#[trigger] imgs@[j]).wf() && imgs@[j].width >= 1
                && imgs@[j].height >= 1 && 100 * (imgs@[j].height as int) <= u32::MAX as int,
    ensures
        equal_line_counts(compose_panels(imgs@)) ==> (r matches Ok(s) && s@ == hcat_spec(
            compose_panels(imgs@),
        )),
        !equal_line_counts(compose_panels(imgs@)) ==> r == Err::<String, AsciiError>(
            AsciiError::MismatchedPanelHeights,
        ),
{
    let mut panels: Vec<String> = Vec::new();
    let mut j: usize = 0;
    while j < imgs.len()
        invariant
            j <= imgs@.len(),
            panels@.len() == j,
            forall|t: int|
                0 <= t < imgs@.len() ==> (#[trigger] imgs@[t]).wf() && imgs@[t].width >= 1
                    && imgs@[t].height >= 1 && 100 * (imgs@[t].height as int) <= u32::MAX as int,
            forall|t: int| 0 <= t < j ==> (#[trigger] panels@[t])@ == resized_panel(imgs@[t]),
        decreases imgs@.len() - j,
    {
        let resized = resize_img(&imgs[j], 100);
        let panel = get_ascii_art(&resized);
        proof {
            assert(panel@ == resized_panel(imgs@[j as int]));
        }
        panels.push(panel);
        j += 1;
    }
    let mut refs: Vec<&str> = Vec::new();
    let mut j: usize = 0;
    while j < panels.len()
        invariant
            j <= panels@.len(),
            refs@.len() == j,
            panels@.len() == imgs@.len(),
            forall|t: int| 0 <= t < panels@.len() ==> (#[trigger] panels@[t])@ == resized_panel(imgs@[t]),
            forall|t: int| 0 <= t < j ==> (#[trigger] refs@[t])@ == resized_panel(imgs@[t]),
        decreases panels@.len() - j,
    {
        refs.push(panels[j].as_str());
        j += 1;
    }
    proof {
        assert(str_views(refs@) =~~= compose_panels(imgs@));
    }
    hcat(refs)
}

} // verus!
