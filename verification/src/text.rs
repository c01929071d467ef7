//! Splitting text into lines and into whitespace-separated words, as the
//! sprite-sheet description is read: one sprite per line, fields separated by
//! whitespace.
use vstd::prelude::*;

verus! {

/// The contents of each vector of characters.
pub open spec fn char_views(v: Seq<Vec<char>>) -> Seq<Seq<char>> {
    v.map_values(|x: Vec<char>| x@)
}

/// Whether `c` has the Unicode `White_Space` property
/// (U+0009..U+000D, U+0020, U+0085, U+00A0, U+1680, U+2000..U+200A,
/// U+2028, U+2029, U+202F, U+205F, U+3000).
pub open spec fn is_white_space(c: char) -> bool {
    let u = c as u32;
    ||| 0x9 <= u <= 0xd
    ||| u == 0x20
    ||| u == 0x85
    ||| u == 0xa0
    ||| u == 0x1680
    ||| 0x2000 <= u <= 0x200a
    ||| u == 0x2028
    ||| u == 0x2029
    ||| u == 0x202f
    ||| u == 0x205f
    ||| u == 0x3000
}

/// Whether `c` has the Unicode `White_Space` property.
pub fn white_space(c: char) -> (r: bool)
    ensures
        r == is_white_space(c),
{
    let u = c as u32;
    (0x9 <= u && u <= 0xd) || u == 0x20 || u == 0x85 || u == 0xa0 || u == 0x1680 || (0x2000 <= u
        && u <= 0x200a) || u == 0x2028 || u == 0x2029 || u == 0x202f || u == 0x205f || u == 0x3000
}

/// The pieces of `s` cut after each `'\n'`: every piece but the last ends in
/// `'\n'`, and no piece is empty.
pub open spec fn newline_chunks(s: Seq<char>) -> Seq<Seq<char>>
    decreases s.len(),
{
    if s.len() == 0 {
        seq![]
    } else {
        let p = newline_chunks(s.drop_last());
        if p.len() == 0 || p.last().last() == '\n' {
            p.push(seq![s.last()])
        } else {
            p.update(p.len() - 1, p.last().push(s.last()))
        }
    }
}

/// A piece without its line ending: a final `'\n'`, or `"\r\n"`.
pub open spec fn strip_line_end(c: Seq<char>) -> Seq<char> {
    if c.len() > 0 && c.last() == '\n' {
        let d = c.drop_last();
        if d.len() > 0 && d.last() == '\r' {
            d.drop_last()
        } else {
            d
        }
    } else {
        c
    }
}

/// The lines of `s`: split at `'\n'` or `"\r\n"`, terminators left out, and
/// no empty line after a final terminator.
pub open spec fn lines_of(s: Seq<char>) -> Seq<Seq<char>> {
    strip_line_ends(newline_chunks(s))
}

/// Each piece without its line ending.
pub open spec fn strip_line_ends(chunks: Seq<Seq<char>>) -> Seq<Seq<char>> {
    chunks.map_values(|c: Seq<char>| strip_line_end(c))
}

/// The pieces of `s` between white-space characters, empty ones included.
pub open spec fn white_space_pieces(s: Seq<char>) -> Seq<Seq<char>>
    decreases s.len(),
{
    if s.len() == 0 {
        seq![seq![]]
    } else {
        let p = white_space_pieces(s.drop_last());
        if is_white_space(s.last()) {
            p.push(seq![])
        } else {
            p.update(p.len() - 1, p.last().push(s.last()))
        }
    }
}

/// Holds of a sequence that is not empty.
pub open spec fn non_empty() -> spec_fn(Seq<char>) -> bool {
    |w: Seq<char>| w.len() > 0
}

/// The words of `s`: its maximal runs of characters without white space.
pub open spec fn words_of(s: Seq<char>) -> Seq<Seq<char>> {
    white_space_pieces(s).filter(non_empty())
}

proof fn lemma_white_space_pieces_not_empty(s: Seq<char>)
    ensures
        white_space_pieces(s).len() >= 1,
    decreases s.len(),
{
    if s.len() > 0 {
        lemma_white_space_pieces_not_empty(s.drop_last());
    }
}

proof fn lemma_pieces_have_no_white_space(s: Seq<char>)
    ensures
        forall|k: int, j: int|
            0 <= k < white_space_pieces(s).len() && 0 <= j < white_space_pieces(s)[k].len()
                ==> !is_white_space(#[trigger] white_space_pieces(s)[k][j]),
    decreases s.len(),
{
    if s.len() > 0 {
        let p = white_space_pieces(s.drop_last());
        lemma_pieces_have_no_white_space(s.drop_last());
        lemma_white_space_pieces_not_empty(s.drop_last());
        let q = white_space_pieces(s);
        assert forall|k: int, j: int| 0 <= k < q.len() && 0 <= j < q[k].len() implies !is_white_space(
            #[trigger] q[k][j],
        ) by {
            if k < p.len() - 1 {
                assert(q[k] == p[k]);
            } else if k == p.len() - 1 {
                if !is_white_space(s.last()) {
                    assert(q[k] == p[k].push(s.last()));
                    if j < p[k].len() {
                        assert(q[k][j] == p[k][j]);
                    }
                } else {
                    assert(q[k] == p[k]);
                }
            }
        }
    }
}

/// A word is never empty and holds no white space.
pub proof fn lemma_words_are_solid(s: Seq<char>)
    ensures
        forall|k: int| 0 <= k < words_of(s).len() ==> #[trigger] words_of(s)[k].len() > 0,
        forall|k: int, j: int|
            0 <= k < words_of(s).len() && 0 <= j < words_of(s)[k].len() ==> !is_white_space(
                #[trigger] words_of(s)[k][j],
            ),
{
    broadcast use vstd::seq_lib::group_filter_ensures;

    let p = white_space_pieces(s);
    lemma_pieces_have_no_white_space(s);
    assert forall|k: int| 0 <= k < words_of(s).len() implies #[trigger] words_of(s)[k].len()
        > 0 by {
        assert(non_empty()(words_of(s)[k]));
    }
    assert forall|k: int, j: int|
        0 <= k < words_of(s).len() && 0 <= j < words_of(s)[k].len() implies !is_white_space(
        #[trigger] words_of(s)[k][j],
    ) by {
        assert(p.filter(non_empty()).contains(words_of(s)[k]));
        p.lemma_filter_contains_rev(non_empty(), words_of(s)[k]);
        let m = choose|m: int| 0 <= m < p.len() && p[m] == words_of(s)[k];
        assert(p[m][j] == words_of(s)[k][j]);
    }
}

proof fn lemma_chunks_shape(s: Seq<char>)
    ensures
        forall|k: int|
            0 <= k < newline_chunks(s).len() ==> #[trigger] newline_chunks(s)[k].len() > 0,
        forall|k: int, j: int|
            0 <= k < newline_chunks(s).len() && 0 <= j < newline_chunks(s)[k].len() - 1
                ==> #[trigger] newline_chunks(s)[k][j] != '\n',
    decreases s.len(),
{
    if s.len() > 0 {
        let p = newline_chunks(s.drop_last());
        lemma_chunks_shape(s.drop_last());
        let q = newline_chunks(s);
        assert forall|k: int| 0 <= k < q.len() implies #[trigger] q[k].len() > 0 by {
            if k < p.len() {
                assert(q[k].len() >= p[k].len());
            }
        }
        assert forall|k: int, j: int| 0 <= k < q.len() && 0 <= j < q[k].len() - 1 implies #[trigger] q[k][j]
            != '\n' by {
            if k < p.len() - 1 {
                assert(q[k] == p[k]);
            } else if k == p.len() - 1 {
                if !(p.len() == 0 || p.last().last() == '\n') {
                    assert(q[k] == p[k].push(s.last()));
                    assert(q[k][j] == p[k][j]);
                    if j == p[k].len() - 1 {
                        assert(p[k][j] == p.last().last());
                    }
                } else {
                    assert(q[k] == p[k]);
                }
            }
        }
    }
}

/// A line never holds a line feed.
pub proof fn lemma_lines_hold_no_line_feed(s: Seq<char>)
    ensures
        forall|k: int, j: int|
            0 <= k < lines_of(s).len() && 0 <= j < lines_of(s)[k].len() ==> #[trigger] lines_of(
                s,
            )[k][j] != '\n',
{
    let c = newline_chunks(s);
    lemma_chunks_shape(s);
    assert forall|k: int, j: int|
        0 <= k < lines_of(s).len() && 0 <= j < lines_of(s)[k].len() implies #[trigger] lines_of(
        s,
    )[k][j] != '\n' by {
        let l = lines_of(s)[k];
        assert(l == strip_line_end(c[k]));
        assert(l[j] == c[k][j]);
        if j == c[k].len() - 1 {
            assert(c[k].last() != '\n');
        }
    }
}

proof fn lemma_pieces_of_solid(s: Seq<char>)
    requires
        forall|j: int| 0 <= j < s.len() ==> !is_white_space(#[trigger] s[j]),
    ensures
        white_space_pieces(s) == seq![s],
    decreases s.len(),
{
    if s.len() == 0 {
        assert(s =~= seq![]);
    } else {
        let d = s.drop_last();
        assert forall|j: int| 0 <= j < d.len() implies !is_white_space(#[trigger] d[j]) by {
            assert(d[j] == s[j]);
        }
        lemma_pieces_of_solid(d);
        assert(d.push(s.last()) =~= s);
        assert(seq![d].update(0, d.push(s.last())) =~= seq![s]);
    }
}

/// A word is a maximal run without white space: a non-empty text without
/// white space is one word, the whole of it, however long.
pub proof fn lemma_solid_text_is_one_word(s: Seq<char>)
    requires
        s.len() > 0,
        forall|j: int| 0 <= j < s.len() ==> !is_white_space(#[trigger] s[j]),
    ensures
        words_of(s) == seq![s],
{
    lemma_pieces_of_solid(s);
    reveal(Seq::filter);
    assert(seq![s].drop_last() =~= Seq::<Seq<char>>::empty());
    assert(Seq::<Seq<char>>::empty().filter(non_empty()) == Seq::<Seq<char>>::empty());
    assert(seq![s].filter(non_empty()) == Seq::<Seq<char>>::empty().push(s));
    assert(Seq::<Seq<char>>::empty().push(s) =~= seq![s]);
}

/// A text of white space alone has no words.
pub proof fn lemma_blank_text_has_no_words(s: Seq<char>)
    requires
        forall|j: int| 0 <= j < s.len() ==> is_white_space(#[trigger] s[j]),
    ensures
        words_of(s) == Seq::<Seq<char>>::empty(),
    decreases s.len(),
{
    broadcast use vstd::seq_lib::group_filter_ensures;

    let p = white_space_pieces(s);
    assert forall|k: int| 0 <= k < p.len() implies #[trigger] p[k].len() == 0 by {
        lemma_blank_pieces(s);
    }
    if words_of(s).len() > 0 {
        let w = words_of(s)[0];
        assert(non_empty()(w));
        assert(p.filter(non_empty()).contains(w));
        p.lemma_filter_contains_rev(non_empty(), w);
    }
    assert(words_of(s) =~= Seq::<Seq<char>>::empty());
}

proof fn lemma_blank_pieces(s: Seq<char>)
    requires
        forall|j: int| 0 <= j < s.len() ==> is_white_space(#[trigger] s[j]),
    ensures
        forall|k: int|
            0 <= k < white_space_pieces(s).len() ==> #[trigger] white_space_pieces(s)[k].len() == 0,
    decreases s.len(),
{
    if s.len() > 0 {
        let d = s.drop_last();
        assert forall|j: int| 0 <= j < d.len() implies is_white_space(#[trigger] d[j]) by {
            assert(d[j] == s[j]);
        }
        lemma_blank_pieces(d);
        assert(is_white_space(s[s.len() - 1]));
        let p = white_space_pieces(d);
        let q = white_space_pieces(s);
        assert(q == p.push(seq![]));
        assert forall|k: int| 0 <= k < q.len() implies #[trigger] q[k].len() == 0 by {
            if k < p.len() {
                assert(q[k] == p[k]);
            }
        }
    } else {
        assert(white_space_pieces(s)[0] =~= Seq::<char>::empty());
    }
}

proof fn lemma_chunks_of_one_line(s: Seq<char>)
    requires
        s.len() > 0,
        forall|j: int| 0 <= j < s.len() - 1 ==> #[trigger] s[j] != '\n',
    ensures
        newline_chunks(s) == seq![s],
    decreases s.len(),
{
    let d = s.drop_last();
    if d.len() == 0 {
        assert(newline_chunks(d) =~= Seq::<Seq<char>>::empty());
        assert(seq![s.last()] =~= s);
    } else {
        assert forall|j: int| 0 <= j < d.len() - 1 implies #[trigger] d[j] != '\n' by {
            assert(d[j] == s[j]);
        }
        lemma_chunks_of_one_line(d);
        assert(d.last() == s[s.len() - 2]);
        assert(d.push(s.last()) =~= s);
        assert(seq![d].update(0, d.push(s.last())) =~= seq![s]);
    }
}

/// A text holding no line feed is one line, the whole of it; the same text
/// with a line feed (or carriage return and line feed) after it is the same
/// single line.
pub proof fn lemma_single_line(l: Seq<char>)
    requires
        l.len() > 0,
        forall|j: int| 0 <= j < l.len() ==> #[trigger] l[j] != '\n',
    ensures
        lines_of(l) == seq![l],
        l.last() != '\r' ==> lines_of(l.push('\n')) == seq![l],
        lines_of(l.push('\r').push('\n')) == seq![l],
{
    lemma_chunks_of_one_line(l);
    assert(lines_of(l) =~= seq![l]);
    let a = l.push('\n');
    assert forall|j: int| 0 <= j < a.len() - 1 implies #[trigger] a[j] != '\n' by {
        assert(a[j] == l[j]);
    }
    lemma_chunks_of_one_line(a);
    assert(a.drop_last() =~= l);
    assert(lines_of(a) =~= seq![strip_line_end(a)]);
    let b = l.push('\r').push('\n');
    assert forall|j: int| 0 <= j < b.len() - 1 implies #[trigger] b[j] != '\n' by {
        if j < l.len() {
            assert(b[j] == l[j]);
        }
    }
    lemma_chunks_of_one_line(b);
    assert(b.drop_last().drop_last() =~= l);
    assert(lines_of(b) =~= seq![strip_line_end(b)]);
}

proof fn lemma_filter_push(p: Seq<Seq<char>>, w: Seq<char>)
    ensures
        p.push(w).filter(non_empty()) == (if w.len() > 0 {
            p.filter(non_empty()).push(w)
        } else {
            p.filter(non_empty())
        }),
{
    reveal(Seq::filter);
    assert(p.push(w).drop_last() =~= p);
}

proof fn lemma_views_push(v: Seq<Vec<char>>, x: Vec<char>)
    ensures
        char_views(v.push(x)) == char_views(v).push(x@),
{
    assert(char_views(v.push(x)) =~= char_views(v).push(x@));
}

proof fn lemma_strip_push(d: Seq<Seq<char>>, c: Seq<char>)
    ensures
        strip_line_ends(d.push(c)) == strip_line_ends(d).push(strip_line_end(c)),
{
    assert(strip_line_ends(d.push(c)) =~= strip_line_ends(d).push(strip_line_end(c)));
}

/// Splits `line` at white space, as `str::split_whitespace` does.
pub fn split_words(line: &Vec<char>) -> (words: Vec<Vec<char>>)
    ensures
        char_views(words@) == words_of(line@),
{
    let mut words: Vec<Vec<char>> = Vec::new();
    let mut cur: Vec<char> = Vec::new();
    let ghost mut done: Seq<Seq<char>> = seq![];
    let n = line.len();
    for i in 0..n
        invariant
            n == line@.len(),
            white_space_pieces(line@.take(i as int)) == done.push(cur@),
            char_views(words@) == done.filter(non_empty()),
    {
        let c = line[i];
        proof {
            assert(line@.take(i + 1).drop_last() =~= line@.take(i as int));
            assert(line@.take(i + 1).last() == c);
        }
        if white_space(c) {
            proof {
                lemma_filter_push(done, cur@);
            }
            let finished = cur;
            cur = Vec::new();
            if finished.len() > 0 {
                words.push(finished);
                assert(char_views(words@) =~= done.filter(non_empty()).push(finished@));
            }
            proof {
                done = done.push(finished@);
            }
        } else {
            cur.push(c);
        }
    }
    proof {
        assert(line@.take(n as int) =~= line@);
        lemma_filter_push(done, cur@);
    }
    if cur.len() > 0 {
        let ghost last = cur@;
        words.push(cur);
        assert(char_views(words@) =~= done.filter(non_empty()).push(last));
    }
    words
}

/// Splits `text` into lines, as `str::lines` does.
pub fn split_lines(text: &Vec<char>) -> (lines: Vec<Vec<char>>)
    ensures
        char_views(lines@) == lines_of(text@),
{
    let mut lines: Vec<Vec<char>> = Vec::new();
    let mut cur: Vec<char> = Vec::new();
    let ghost mut done: Seq<Seq<char>> = seq![];
    let n = text.len();
    for i in 0..n
        invariant
            n == text@.len(),
            newline_chunks(text@.take(i as int)) == (if cur@.len() == 0 {
                done
            } else {
                done.push(cur@)
            }),
            forall|j: int|
                0 <= j < done.len() ==> #[trigger] done[j].len() > 0 && done[j].last() == '\n',
            cur@.len() > 0 ==> cur@.last() != '\n',
            char_views(lines@) == strip_line_ends(done),
    {
        let c = text[i];
        let ghost before = cur@;
        proof {
            let t = text@.take(i + 1);
            assert(t.drop_last() =~= text@.take(i as int));
            assert(t.last() == c);
            let p = newline_chunks(text@.take(i as int));
            if before.len() == 0 {
                if done.len() > 0 {
                    assert(p.last() == done[done.len() - 1]);
                }
                assert(newline_chunks(t) == p.push(seq![c]));
                assert(seq![c] =~= before.push(c));
            } else {
                assert(p.last() == before);
                assert(newline_chunks(t) == p.update(p.len() - 1, before.push(c)));
                assert(p.update(p.len() - 1, before.push(c)) =~= done.push(before.push(c)));
            }
        }
        cur.push(c);
        if c == '\n' {
            let mut line = cur;
            cur = Vec::new();
            let ghost chunk = line@;
            line.pop();
            if line.len() > 0 && line[line.len() - 1] == '\r' {
                line.pop();
            }
            assert(line@ == strip_line_end(chunk));
            proof {
                lemma_views_push(lines@, line);
                lemma_strip_push(done, chunk);
            }
            lines.push(line);
            proof {
                done = done.push(chunk);
            }
        }
    }
    proof {
        assert(text@.take(n as int) =~= text@);
    }
    if cur.len() > 0 {
        let ghost chunk = cur@;
        proof {
            lemma_views_push(lines@, cur);
            lemma_strip_push(done, chunk);
        }
        lines.push(cur);
        proof {
            done = done.push(chunk);
        }
    }
    lines
}

} // verus!
