use vstd::prelude::*;
use vstd::string::*;

verus! {

broadcast use vstd::seq_lib::group_seq_lib_default;

/// Split a character sequence at every occurrence of `sep`, keeping empty
/// fragments, exactly as `str::split` does: the result always has at least
/// one fragment, and a trailing separator yields a trailing empty fragment.
pub open spec fn split_on(s: Seq<char>, sep: char) -> Seq<Seq<char>>
    decreases s.len(),
{
    if s.len() == 0 {
        seq![Seq::<char>::empty()]
    } else if s[0] == sep {
        seq![Seq::<char>::empty()] + split_on(s.drop_first(), sep)
    } else {
        let rest = split_on(s.drop_first(), sep);
        seq![seq![s[0]] + rest[0]] + rest.drop_first()
    }
}

/// Join fragments with a single `sep` between adjacent fragments.
pub open spec fn join_with(xs: Seq<Seq<char>>, sep: char) -> Seq<char>
    decreases xs.len(),
{
    if xs.len() == 0 {
        Seq::<char>::empty()
    } else if xs.len() == 1 {
        xs[0]
    } else {
        xs[0] + seq![sep] + join_with(xs.drop_first(), sep)
    }
}

/// The non-empty fragments of splitting on `sep`.
pub open spec fn frags(s: Seq<char>, sep: char) -> Seq<Seq<char>> {
    split_on(s, sep).filter(|f: Seq<char>| f.len() != 0)
}

/// `sep` occurs nowhere in `s`.
pub open spec fn no_sep(s: Seq<char>, sep: char) -> bool {
    forall|i: int| 0 <= i < s.len() ==> s[i] != sep
}

pub proof fn lemma_split_len(s: Seq<char>, sep: char)
    ensures
        split_on(s, sep).len() >= 1,
    decreases s.len(),
{
    if s.len() == 0 {
    } else {
        lemma_split_len(s.drop_first(), sep);
    }
}

/// A sequence without the separator splits into just itself.
pub proof fn lemma_split_no_sep(s: Seq<char>, sep: char)
    requires
        no_sep(s, sep),
    ensures
        split_on(s, sep) =~~= seq![s],
    decreases s.len(),
{
    if s.len() == 0 {
        assert(split_on(s, sep) =~~= seq![s]);
    } else {
        lemma_split_no_sep(s.drop_first(), sep);
        assert(seq![s[0]] + s.drop_first() =~= s);
    }
}

/// How splitting distributes over concatenation: the last fragment of `a`
/// fuses with the first fragment of `b`.
pub proof fn lemma_split_concat(a: Seq<char>, b: Seq<char>, sep: char)
    ensures
        split_on(a + b, sep) =~~= split_on(a, sep).drop_last() + seq![
            split_on(a, sep).last() + split_on(b, sep).first(),
        ] + split_on(b, sep).drop_first(),
    decreases a.len(),
{
    lemma_split_len(a, sep);
    lemma_split_len(b, sep);
    if a.len() == 0 {
        assert(a + b =~= b);
        assert(split_on(a, sep) =~~= seq![Seq::<char>::empty()]);
        assert(Seq::<char>::empty() + split_on(b, sep).first() =~= split_on(b, sep).first());
        assert(seq![split_on(b, sep).first()] + split_on(b, sep).drop_first() =~~= split_on(
            b,
            sep,
        ));
    } else {
        let a1 = a.drop_first();
        lemma_split_len(a1, sep);
        assert((a + b).drop_first() =~= a1 + b);
        lemma_split_concat(a1, b, sep);
        let r = split_on(a1, sep);
        let q = split_on(a1 + b, sep);
        if a[0] == sep {
            assert(split_on(a, sep) =~~= seq![Seq::<char>::empty()] + r);
            assert(split_on(a, sep).drop_last() =~~= seq![Seq::<char>::empty()] + r.drop_last());
            assert(split_on(a, sep).last() == r.last());
            assert(split_on(a + b, sep) =~~= seq![Seq::<char>::empty()] + q);
        } else {
            assert(split_on(a, sep) =~~= seq![seq![a[0]] + r[0]] + r.drop_first());
            assert(split_on(a + b, sep) =~~= seq![seq![a[0]] + q[0]] + q.drop_first());
            if r.len() == 1 {
                assert(q =~~= seq![r.last() + split_on(b, sep).first()] + split_on(
                    b,
                    sep,
                ).drop_first());
                assert(q[0] == r[0] + split_on(b, sep).first());
                assert(seq![a[0]] + (r[0] + split_on(b, sep).first()) =~= (seq![a[0]] + r[0])
                    + split_on(b, sep).first());
                assert(split_on(a, sep).drop_last() =~~= Seq::<Seq<char>>::empty());
                assert(split_on(a, sep).last() == seq![a[0]] + r[0]);
            } else {
                assert(q[0] == r.drop_last()[0]);
                assert(r.drop_last()[0] == r[0]);
                assert(q.drop_first() =~~= r.drop_last().drop_first() + seq![
                    r.last() + split_on(b, sep).first(),
                ] + split_on(b, sep).drop_first());
                assert(r.drop_last().drop_first() =~~= r.drop_first().drop_last());
                assert(split_on(a, sep).drop_last() =~~= seq![seq![a[0]] + r[0]]
                    + r.drop_first().drop_last());
                assert(split_on(a, sep).last() == r.last());
            }
        }
    }
}

/// Splitting undoes joining when no fragment contains the separator.
pub proof fn lemma_split_join(xs: Seq<Seq<char>>, sep: char)
    requires
        xs.len() >= 1,
        forall|i: int| 0 <= i < xs.len() ==> no_sep(#[trigger] xs[i], sep),
    ensures
        split_on(join_with(xs, sep), sep) =~~= xs,
    decreases xs.len(),
{
    if xs.len() == 1 {
        lemma_split_no_sep(xs[0], sep);
    } else {
        let rest = xs.drop_first();
        lemma_split_join(rest, sep);
        lemma_split_no_sep(xs[0], sep);
        let tail = seq![sep] + join_with(rest, sep);
        assert(join_with(xs, sep) =~= xs[0] + tail);
        lemma_split_concat(xs[0], tail, sep);
        assert(tail[0] == sep);
        assert(tail.drop_first() =~= join_with(rest, sep));
        assert(split_on(tail, sep) =~~= seq![Seq::<char>::empty()] + rest);
        assert(split_on(xs[0], sep) =~~= seq![xs[0]]);
        assert(xs[0] + Seq::<char>::empty() =~= xs[0]);
        assert(split_on(xs[0] + tail, sep) =~~= seq![xs[0]] + rest);
        assert(seq![xs[0]] + rest =~~= xs);
    }
}

/// Appending one character extends the last fragment, or opens a new one.
pub proof fn lemma_split_push(s: Seq<char>, c: char, sep: char)
    ensures
        c == sep ==> split_on(s.push(c), sep) =~~= split_on(s, sep).push(Seq::<char>::empty()),
        c != sep ==> split_on(s.push(c), sep) =~~= split_on(s, sep).drop_last().push(
            split_on(s, sep).last().push(c),
        ),
{
    lemma_split_len(s, sep);
    assert(s.push(c) =~= s + seq![c]);
    lemma_split_concat(s, seq![c], sep);
    assert(seq![c].drop_first() =~= Seq::<char>::empty());
    if c == sep {
        assert(split_on(seq![c], sep) =~~= seq![Seq::<char>::empty()] + split_on(
            Seq::<char>::empty(),
            sep,
        ));
        assert(split_on(seq![c], sep).first() =~= Seq::<char>::empty());
        assert(split_on(s, sep).last() + Seq::<char>::empty() =~= split_on(s, sep).last());
        assert(split_on(s, sep).drop_last() + seq![split_on(s, sep).last()] =~~= split_on(s, sep));
    } else {
        lemma_split_no_sep(seq![c], sep);
        assert(split_on(seq![c], sep) =~~= seq![seq![c]]);
        assert(split_on(s, sep).last() + seq![c] =~= split_on(s, sep).last().push(c));
    }
}

/// Joining after appending a fragment appends a separator and the fragment.
pub proof fn lemma_join_push(xs: Seq<Seq<char>>, x: Seq<char>, sep: char)
    ensures
        xs.len() == 0 ==> join_with(xs.push(x), sep) =~= x,
        xs.len() >= 1 ==> join_with(xs.push(x), sep) =~= join_with(xs, sep) + seq![sep] + x,
    decreases xs.len(),
{
    if xs.len() == 0 {
    } else if xs.len() == 1 {
        assert(xs.push(x).drop_first() =~~= seq![x]);
        assert(xs.push(x)[0] == xs[0]);
        assert(join_with(seq![x], sep) == x);
        assert(join_with(xs.push(x), sep) == xs[0] + seq![sep] + x);
    } else {
        lemma_join_push(xs.drop_first(), x, sep);
        assert(xs.push(x).drop_first() =~~= xs.drop_first().push(x));
        assert(xs.push(x)[0] == xs[0]);
        assert(join_with(xs.push(x), sep) == xs[0] + seq![sep] + join_with(
            xs.drop_first().push(x),
            sep,
        ));
        assert(xs[0] + seq![sep] + (join_with(xs.drop_first(), sep) + seq![sep] + x) =~= (xs[0]
            + seq![sep] + join_with(xs.drop_first(), sep)) + seq![sep] + x);
    }
}

/// Filtering a sequence extended by one element.
pub proof fn lemma_filter_push<A>(s: Seq<A>, x: A, pred: spec_fn(A) -> bool)
    ensures
        pred(x) ==> s.push(x).filter(pred) =~= s.filter(pred).push(x),
        !pred(x) ==> s.push(x).filter(pred) =~= s.filter(pred),
{
    reveal(Seq::filter);
    assert(s.push(x).drop_last() =~= s);
}

/// A filter that keeps every element returns the sequence unchanged.
pub proof fn lemma_filter_all<A>(s: Seq<A>, pred: spec_fn(A) -> bool)
    requires
        forall|i: int| 0 <= i < s.len() ==> pred(#[trigger] s[i]),
    ensures
        s.filter(pred) =~= s,
    decreases s.len(),
{
    reveal(Seq::filter);
    if s.len() > 0 {
        lemma_filter_all(s.drop_last(), pred);
    }
}

/// The fragments of a split never contain the separator.
pub proof fn lemma_split_frags_no_sep(s: Seq<char>, sep: char)
    ensures
        forall|i: int|
            0 <= i < split_on(s, sep).len() ==> no_sep(#[trigger] split_on(s, sep)[i], sep),
    decreases s.len(),
{
    if s.len() == 0 {
    } else {
        lemma_split_frags_no_sep(s.drop_first(), sep);
        let rest = split_on(s.drop_first(), sep);
        lemma_split_len(s.drop_first(), sep);
        if s[0] == sep {
        } else {
            assert forall|i: int| 0 <= i < split_on(s, sep).len() implies no_sep(
                #[trigger] split_on(s, sep)[i],
                sep,
            ) by {
                if i == 0 {
                    assert(split_on(s, sep)[0] == seq![s[0]] + rest[0]);
                    assert(no_sep(rest[0], sep));
                } else {
                    assert(split_on(s, sep)[i] == rest[i]);
                }
            }
        }
    }
}

/// A bordered chunk `+ body +` whose body is separator-free contributes its
/// body as the sole non-empty fragment (or nothing, when the body is empty).
pub proof fn lemma_frags_chunk(body: Seq<char>)
    requires
        no_sep(body, '+'),
    ensures
        body.len() == 0 ==> frags(seq!['+'] + body + seq!['+'], '+') =~~= Seq::<Seq<char>>::empty(),
        body.len() >= 1 ==> frags(seq!['+'] + body + seq!['+'], '+') =~~= seq![body],
{
    let chunk = seq!['+'] + body + seq!['+'];
    lemma_split_no_sep(body, '+');
    lemma_split_concat(body, seq!['+'], '+');
    assert(seq!['+'].drop_first() =~= Seq::<char>::empty());
    assert(split_on(seq!['+'], '+') =~~= seq![Seq::<char>::empty()] + split_on(
        Seq::<char>::empty(),
        '+',
    ));
    assert(split_on(seq!['+'], '+') =~~= seq![Seq::<char>::empty(), Seq::<char>::empty()]);
    assert(body + Seq::<char>::empty() =~= body);
    assert(split_on(body + seq!['+'], '+') =~~= seq![body, Seq::<char>::empty()]);
    assert(chunk =~= seq!['+'] + (body + seq!['+']));
    assert(chunk[0] == '+');
    assert(chunk.drop_first() =~= body + seq!['+']);
    assert(split_on(chunk, '+') =~~= seq![Seq::<char>::empty()] + split_on(chunk.drop_first(), '+'));
    assert(split_on(chunk, '+') =~~= seq![Seq::<char>::empty()] + split_on(body + seq!['+'], '+'));
    assert(split_on(chunk, '+') =~~= seq![Seq::<char>::empty(), body, Seq::<char>::empty()]);
    reveal_with_fuel(Seq::filter, 5);
    let sp = seq![Seq::<char>::empty(), body, Seq::<char>::empty()];
    assert(sp.drop_last() =~~= seq![Seq::<char>::empty(), body]);
    assert(sp.drop_last().drop_last() =~~= seq![Seq::<char>::empty()]);
    assert(sp.drop_last().drop_last().drop_last() =~~= Seq::<Seq<char>>::empty());
}

/// Non-empty fragments distribute over a concatenation that re-enters at a
/// separator character.
pub proof fn lemma_frags_concat(a: Seq<char>, b: Seq<char>)
    requires
        b.len() >= 1,
        b[0] == '+',
    ensures
        frags(a + b, '+') =~~= frags(a, '+') + frags(b, '+'),
{
    let sep = '+';
    let b1 = b.drop_first();
    lemma_split_len(a, sep);
    lemma_split_len(b1, sep);
    lemma_split_concat(a, b, sep);
    assert(split_on(b, sep) =~~= seq![Seq::<char>::empty()] + split_on(b1, sep));
    assert(split_on(b, sep).first() =~= Seq::<char>::empty());
    assert(split_on(b, sep).drop_first() =~~= split_on(b1, sep));
    assert(split_on(a, sep).last() + Seq::<char>::empty() =~= split_on(a, sep).last());
    assert(split_on(a + b, sep) =~~= (split_on(a, sep).drop_last() + seq![split_on(a, sep).last()])
        + split_on(b1, sep));
    assert(split_on(a, sep).drop_last() + seq![split_on(a, sep).last()] =~~= split_on(a, sep));
    let pred = |f: Seq<char>| f.len() != 0;
    Seq::filter_distributes_over_add(split_on(a, sep), split_on(b1, sep), pred);
    Seq::filter_distributes_over_add(
        seq![Seq::<char>::empty()],
        split_on(b1, sep),
        pred,
    );
    reveal_with_fuel(Seq::filter, 2);
    assert(seq![Seq::<char>::empty()].filter(pred) =~~= Seq::<Seq<char>>::empty());
}

/// The views of a sequence of character vectors.
pub open spec fn views_of(v: Seq<Vec<char>>) -> Seq<Seq<char>> {
    v.map_values(|x: Vec<char>| x@)
}

/// Collects the characters of a string slice into a vector.
pub fn str_to_chars(s: &str) -> (v: Vec<char>)
    ensures
        v@ == s@,
{
    let n = s.unicode_len();
    let mut v: Vec<char> = Vec::new();
    let mut i: usize = 0;
    while i < n
        invariant
            i <= n,
            n == s@.len(),
            v@ == s@.take(i as int),
        decreases n - i,
    {
        v.push(s.get_char(i));
        proof {
            assert(s@.take(i + 1) =~= s@.take(i as int).push(s@[i as int]));
        }
        i += 1;
    }
    proof {
        assert(s@.take(n as int) =~= s@);
    }
    v
}

/// Relies on String::push: appends exactly one character to the string.
#[verifier::external_body]
fn push_char(s: &mut String, c: char)
    ensures
        final(s)@ == old(s)@.push(c),
{
    s.push(c);
}

/// Builds a string from a vector of characters.
pub fn chars_to_string(v: &Vec<char>) -> (s: String)
    ensures
        s@ == v@,
{
    let mut s = String::new();
    let mut i: usize = 0;
    while i < v.len()
        invariant
            i <= v.len(),
            s@ == v@.take(i as int),
        decreases v.len() - i,
    {
        push_char(&mut s, v[i]);
        proof {
            assert(v@.take(i + 1) =~= v@.take(i as int).push(v@[i as int]));
        }
        i += 1;
    }
    proof {
        assert(v@.take(v@.len() as int) =~= v@);
    }
    s
}

/// Splits a character vector at every separator, keeping empty fragments.
pub fn split_char_vec(s: &Vec<char>, sep: char) -> (r: Vec<Vec<char>>)
    ensures
        views_of(r@) == split_on(s@, sep),
{
    let mut done: Vec<Vec<char>> = Vec::new();
    let mut cur: Vec<char> = Vec::new();
    let mut i: usize = 0;
    while i < s.len()
        invariant
            i <= s.len(),
            views_of(done@).push(cur@) == split_on(s@.take(i as int), sep),
        decreases s.len() - i,
    {
        proof {
            lemma_split_push(s@.take(i as int), s@[i as int], sep);
            assert(s@.take(i + 1) =~= s@.take(i as int).push(s@[i as int]));
            lemma_split_len(s@.take(i as int), sep);
        }
        let c = s[i];
        if c == sep {
            done.push(cur);
            cur = Vec::new();
            proof {
                assert(views_of(done@).push(cur@) =~~= split_on(s@.take(i + 1), sep));
            }
        } else {
            cur.push(c);
            proof {
                assert(views_of(done@).push(cur@) =~~= split_on(s@.take(i + 1), sep));
            }
        }
        i += 1;
    }
    proof {
        assert(s@.take(s@.len() as int) =~= s@);
    }
    done.push(cur);
    proof {
        assert(views_of(done@) =~~= split_on(s@, sep));
    }
    done
}

/// Splits a line at the border character and keeps only the non-empty
/// fragments, as the extractor's field separation does.
pub fn split_frags(s: &Vec<char>, sep: char) -> (r: Vec<Vec<char>>)
    ensures
        views_of(r@) == frags(s@, sep),
{
    let mut done: Vec<Vec<char>> = Vec::new();
    let mut cur: Vec<char> = Vec::new();
    let mut i: usize = 0;
    while i < s.len()
        invariant
            i <= s.len(),
            views_of(done@) == split_on(s@.take(i as int), sep).drop_last().filter(
                (|f: Seq<char>| f.len() != 0),
            ),
            cur@ == split_on(s@.take(i as int), sep).last(),
        decreases s.len() - i,
    {
        proof {
            lemma_split_push(s@.take(i as int), s@[i as int], sep);
            assert(s@.take(i + 1) =~= s@.take(i as int).push(s@[i as int]));
            lemma_split_len(s@.take(i as int), sep);
        }
        let ghost prev = split_on(s@.take(i as int), sep);
        let c = s[i];
        if c == sep {
            proof {
                lemma_filter_push(prev.drop_last(), prev.last(), (|f: Seq<char>| f.len() != 0));
                assert(prev.drop_last().push(prev.last()) =~~= prev);
                assert(split_on(s@.take(i + 1), sep).drop_last() =~~= prev);
            }
            if cur.len() != 0 {
                done.push(cur);
                proof {
                    assert(views_of(done@) =~~= prev.filter((|f: Seq<char>| f.len() != 0)));
                }
            }
            cur = Vec::new();
        } else {
            cur.push(c);
            proof {
                assert(split_on(s@.take(i + 1), sep).drop_last() =~~= prev.drop_last());
            }
        }
        i += 1;
    }
    proof {
        assert(s@.take(s@.len() as int) =~= s@);
    }
    let ghost full = split_on(s@, sep);
    if cur.len() != 0 {
        done.push(cur);
    }
    proof {
        lemma_split_len(s@, sep);
        lemma_filter_push(full.drop_last(), full.last(), (|f: Seq<char>| f.len() != 0));
        assert(full.drop_last().push(full.last()) =~~= full);
        assert(views_of(done@) =~~= full.filter((|f: Seq<char>| f.len() != 0)));
    }
    done
}

/// Joins fragments with the separator between adjacent fragments.
pub fn join_char_vecs(parts: &Vec<Vec<char>>, sep: char) -> (r: Vec<char>)
    ensures
        r@ == join_with(views_of(parts@), sep),
{
    let mut r: Vec<char> = Vec::new();
    let mut i: usize = 0;
    while i < parts.len()
        invariant
            i <= parts.len(),
            r@ == join_with(views_of(parts@).take(i as int), sep),
        decreases parts.len() - i,
    {
        proof {
            lemma_join_push(views_of(parts@).take(i as int), parts@[i as int]@, sep);
            assert(views_of(parts@).take(i + 1) =~~= views_of(parts@).take(i as int).push(
                parts@[i as int]@,
            ));
        }
        if i > 0 {
            r.push(sep);
        }
        let ghost base = r@;
        let part = &parts[i];
        let mut j: usize = 0;
        while j < part.len()
            invariant
                j <= part.len(),
                r@ == base + part@.take(j as int),
            decreases part.len() - j,
        {
            r.push(part[j]);
            proof {
                assert(part@.take(j + 1) =~= part@.take(j as int).push(part@[j as int]));
            }
            j += 1;
        }
        proof {
            assert(part@.take(part@.len() as int) =~= part@);
            if i == 0 {
                assert(base =~= Seq::<char>::empty());
                assert(base + part@ =~= part@);
            }
        }
        i += 1;
    }
    proof {
        assert(views_of(parts@).take(parts@.len() as int) =~~= views_of(parts@));
    }
    r
}

/// A line made entirely of border characters has no non-empty fragment.
pub proof fn lemma_frags_all_sep(s: Seq<char>)
    requires
        forall|i: int| 0 <= i < s.len() ==> s[i] == '+',
    ensures
        frags(s, '+') =~~= Seq::<Seq<char>>::empty(),
    decreases s.len(),
{
    let sep = '+';
    let pred = |f: Seq<char>| f.len() != 0;
    if s.len() == 0 {
        reveal_with_fuel(Seq::filter, 2);
    } else {
        lemma_frags_all_sep(s.drop_first());
        assert(split_on(s, sep) =~~= seq![Seq::<char>::empty()] + split_on(s.drop_first(), sep));
        Seq::filter_distributes_over_add(
            seq![Seq::<char>::empty()],
            split_on(s.drop_first(), sep),
            pred,
        );
        reveal_with_fuel(Seq::filter, 2);
        assert(seq![Seq::<char>::empty()].filter(pred) =~~= Seq::<Seq<char>>::empty());
    }
}

} // verus!
