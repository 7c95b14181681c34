//! The lines every filter works on, and line selection.
use vstd::prelude::*;
use crate::text::{contains, occurs_at, ascii_lowercase, is_ascii, is_ws, law_strip_ansi, lowered, all_ws, chars_of, is_blank, join, join_chars, lemma_deep_index, lemma_join_first, lemma_lines_no_newline, lemma_lines_of_join, lemma_strip_ansi_keeps_out, lines, lines_of, no_newline, string_of, strip_ansi, strip_ansi_chars};

verus! {

broadcast use vstd::string::group_string_axioms;

/// The elements of `ls` that `keep` accepts, in order.
pub open spec fn select(ls: Seq<Seq<char>>, keep: spec_fn(Seq<char>) -> bool) -> Seq<Seq<char>>
    decreases ls.len(),
{
    if ls.len() == 0 {
        Seq::empty()
    } else {
        let r = select(ls.drop_last(), keep);
        if keep(ls.last()) {
            r.push(ls.last())
        } else {
            r
        }
    }
}

/// What a selection keeps passes the test and is among the lines it selects from.
pub proof fn lemma_select_from(ls: Seq<Seq<char>>, keep: spec_fn(Seq<char>) -> bool)
    ensures
        select(ls, keep).len() <= ls.len(),
        forall|k: int|
            0 <= k < select(ls, keep).len() ==> keep(#[trigger] select(ls, keep)[k]) && ls.contains(
                select(ls, keep)[k],
            ),
    decreases ls.len(),
{
    if ls.len() > 0 {
        let p = ls.drop_last();
        lemma_select_from(p, keep);
        let r = select(ls, keep);
        assert forall|k: int| 0 <= k < r.len() implies keep(#[trigger] r[k]) && ls.contains(r[k]) by {
            if k < select(p, keep).len() {
                assert(r[k] == select(p, keep)[k]);
                let j = choose|j: int| 0 <= j < p.len() && p[j] == r[k];
                assert(ls[j] == p[j]);
            } else {
                assert(ls[ls.len() - 1] == r[k]);
            }
        }
    }
}

/// Selecting from two parts is selecting from each.
pub proof fn lemma_select_concat(a: Seq<Seq<char>>, b: Seq<Seq<char>>, keep: spec_fn(Seq<char>) -> bool)
    ensures
        select(a + b, keep) == select(a, keep) + select(b, keep),
    decreases b.len(),
{
    if b.len() == 0 {
        assert(a + b =~= a);
        assert(select(a, keep) + select(b, keep) =~= select(a, keep));
    } else {
        lemma_select_concat(a, b.drop_last(), keep);
        assert((a + b).drop_last() =~= a + b.drop_last());
        assert((a + b).last() == b.last());
        if keep(b.last()) {
            assert(select(a, keep) + select(b.drop_last(), keep).push(b.last()) =~= (select(a, keep) + select(
                b.drop_last(),
                keep,
            )).push(b.last()));
        }
    }
}

/// A selection keeps everything when every line passes, nothing when none does.
pub proof fn lemma_select_uniform(ls: Seq<Seq<char>>, keep: spec_fn(Seq<char>) -> bool)
    ensures
        (forall|k: int| 0 <= k < ls.len() ==> keep(#[trigger] ls[k])) ==> select(ls, keep) == ls,
        (forall|k: int| 0 <= k < ls.len() ==> !keep(#[trigger] ls[k])) ==> select(ls, keep) == Seq::<
            Seq<char>,
        >::empty(),
    decreases ls.len(),
{
    if ls.len() > 0 {
        let p = ls.drop_last();
        lemma_select_uniform(p, keep);
        if forall|k: int| 0 <= k < ls.len() ==> keep(#[trigger] ls[k]) {
            assert forall|k: int| 0 <= k < p.len() implies keep(#[trigger] p[k]) by {
                assert(p[k] == ls[k]);
            }
            assert(keep(ls[ls.len() - 1]));
            assert(p.push(ls.last()) =~= ls);
        }
        if forall|k: int| 0 <= k < ls.len() ==> !keep(#[trigger] ls[k]) {
            assert forall|k: int| 0 <= k < p.len() implies !keep(#[trigger] p[k]) by {
                assert(p[k] == ls[k]);
            }
            assert(!keep(ls[ls.len() - 1]));
        }
    }
}

/// A line that the content lines of a text can hold as it is when the text is
/// joined again: not blank, free of ANSI sequences, without a line break or a
/// final carriage return.
pub open spec fn plain_line(c: Seq<char>) -> bool {
    &&& not_blank(c)
    &&& strip_ansi(c) == c
    &&& no_newline(c)
    &&& c.last() != '\r'
}

/// A word of lowercase ASCII letters and dashes is a plain line and its own
/// lowercase form.
pub proof fn lemma_plain_word(w: Seq<char>)
    requires
        w.len() > 0,
        forall|i: int| 0 <= i < w.len() ==> ('a' <= #[trigger] w[i] && w[i] <= 'z') || w[i] == '-',
    ensures
        plain_line(w),
        lowered(w) == w,
{
    law_strip_ansi(w);
    assert(!is_ws(w[0]));
    assert(is_ascii(w));
    assert(ascii_lowercase(w) =~= w);
}

/// Plain lines joined with line breaks are the content lines of the result.
pub proof fn lemma_content_of_join(ls: Seq<Seq<char>>)
    requires
        ls.len() > 0,
        forall|k: int| 0 <= k < ls.len() ==> plain_line(#[trigger] ls[k]),
    ensures
        content_lines(join(ls, "\n"@)) == ls,
{
    lemma_lines_of_join(ls);
    let cl = clean_lines(join(ls, "\n"@));
    assert(cl =~= ls);
    lemma_select_uniform(ls, |c: Seq<char>| not_blank(c));
}

/// Content lines hold no line break.
pub proof fn lemma_content_no_newline(s: Seq<char>)
    ensures
        forall|k: int| 0 <= k < content_lines(s).len() ==> no_newline(#[trigger] content_lines(s)[k]),
{
    lemma_lines_no_newline(s);
    let cl = clean_lines(s);
    assert forall|k: int| 0 <= k < cl.len() implies no_newline(#[trigger] cl[k]) by {
        lemma_strip_ansi_keeps_out(lines(s)[k], '\n');
    }
    lemma_select_from(cl, |c: Seq<char>| not_blank(c));
    assert forall|k: int| 0 <= k < content_lines(s).len() implies no_newline(#[trigger] content_lines(s)[k]) by {
        let j = choose|j: int| 0 <= j < cl.len() && cl[j] == content_lines(s)[k];
    }
}

/// A line that passes the test is among the selected lines: its position there.
pub proof fn lemma_select_index(ls: Seq<Seq<char>>, keep: spec_fn(Seq<char>) -> bool, k: int) -> (j: int)
    requires
        0 <= k < ls.len(),
        keep(ls[k]),
    ensures
        0 <= j < select(ls, keep).len(),
        select(ls, keep)[j] == ls[k],
    decreases ls.len(),
{
    let p = ls.drop_last();
    if k == ls.len() - 1 {
        select(p, keep).len() as int
    } else {
        assert(p[k] == ls[k]);
        let j = lemma_select_index(p, keep, k);
        if keep(ls.last()) {
            assert(select(ls, keep)[j] == select(p, keep)[j]);
        }
        j
    }
}

/// The last line that passes the test is the last selected line.
pub proof fn lemma_select_last(ls: Seq<Seq<char>>, keep: spec_fn(Seq<char>) -> bool, k: int)
    requires
        0 <= k < ls.len(),
        keep(ls[k]),
        forall|i: int| k < i < ls.len() ==> !keep(#[trigger] ls[i]),
    ensures
        select(ls, keep).len() > 0,
        select(ls, keep).last() == ls[k],
    decreases ls.len(),
{
    let p = ls.drop_last();
    if k < ls.len() - 1 {
        assert(!keep(ls[ls.len() - 1]));
        assert forall|i: int| k < i < p.len() implies !keep(#[trigger] p[i]) by {
            assert(p[i] == ls[i]);
        }
        assert(p[k] == ls[k]);
        lemma_select_last(p, keep, k);
    }
}

/// Each line of a join occurs in it.
pub proof fn lemma_join_has(ls: Seq<Seq<char>>, sep: Seq<char>, k: int)
    requires
        0 <= k < ls.len(),
    ensures
        contains(join(ls, sep), ls[k]),
    decreases ls.len(),
{
    let r = join(ls, sep);
    if ls.len() == 1 {
        assert(r.subrange(0, ls[0].len() as int) =~= ls[0]);
        assert(occurs_at(r, ls[k], 0));
    } else {
        let p = ls.drop_last();
        let jp = join(p, sep);
        assert(r == jp + sep + ls.last());
        if k == ls.len() - 1 {
            let i: int = (jp.len() + sep.len()) as int;
            assert(r.subrange(i, i + ls[k].len()) =~= ls[k]);
            assert(occurs_at(r, ls[k], i));
        } else {
            assert(p[k] == ls[k]);
            lemma_join_has(p, sep, k);
            let i = choose|i: int| occurs_at(jp, ls[k], i);
            assert(r.subrange(i, i + ls[k].len()) =~= jp.subrange(i, i + ls[k].len()));
            assert(occurs_at(r, ls[k], i));
        }
    }
}

/// Each kept line occurs in `ok_or_join` of the kept lines.
pub proof fn lemma_ok_or_join_has(ls: Seq<Seq<char>>, k: int)
    requires
        0 <= k < ls.len(),
    ensures
        contains(ok_or_join(ls), ls[k]),
{
    lemma_join_has(ls, "\n"@, k);
}

/// A content line that passes the test shows in `ok_or_join` of the selection.
pub proof fn lemma_selected_shown(s: Seq<char>, keep: spec_fn(Seq<char>) -> bool, k: int)
    requires
        0 <= k < content_lines(s).len(),
        keep(content_lines(s)[k]),
    ensures
        contains(ok_or_join(select(content_lines(s), keep)), content_lines(s)[k]),
{
    let j = lemma_select_index(content_lines(s), keep, k);
    lemma_ok_or_join_has(select(content_lines(s), keep), j);
}

/// One more element of a selection loop.
pub proof fn lemma_select_step(ls: Seq<Seq<char>>, keep: spec_fn(Seq<char>) -> bool, i: int)
    requires
        0 <= i < ls.len(),
    ensures
        select(ls.take(i + 1), keep) == if keep(ls[i]) {
            select(ls.take(i), keep).push(ls[i])
        } else {
            select(ls.take(i), keep)
        },
{
    assert(ls.take(i + 1).drop_last() =~= ls.take(i));
    assert(ls.take(i + 1).last() == ls[i]);
}

/// The whole sequence, taken as a prefix of itself.
pub proof fn lemma_take_all(ls: Seq<Seq<char>>)
    ensures
        ls.take(ls.len() as int) == ls,
{
    assert(ls.take(ls.len() as int) =~= ls);
}

/// A line with some non-whitespace character.
pub open spec fn not_blank(c: Seq<char>) -> bool {
    !all_ws(c)
}

/// The lines of `s` with ANSI escape sequences removed.
pub open spec fn clean_lines(s: Seq<char>) -> Seq<Seq<char>> {
    lines(s).map_values(|l: Seq<char>| strip_ansi(l))
}

/// The clean lines of `s` that are not blank: the lines every filter looks at.
pub open spec fn content_lines(s: Seq<char>) -> Seq<Seq<char>> {
    select(clean_lines(s), |c: Seq<char>| not_blank(c))
}

/// Every content line has a non-whitespace character.
pub proof fn lemma_content_not_blank(s: Seq<char>)
    ensures
        forall|k: int| 0 <= k < content_lines(s).len() ==> !all_ws(#[trigger] content_lines(s)[k]),
{
    lemma_select_from(clean_lines(s), |c: Seq<char>| not_blank(c));
}

/// Lines selected from the content lines are not blank.
pub proof fn lemma_selected_not_blank(s: Seq<char>, keep: spec_fn(Seq<char>) -> bool)
    ensures
        forall|k: int|
            0 <= k < select(content_lines(s), keep).len() ==> !all_ws(#[trigger] select(content_lines(s), keep)[k]),
{
    lemma_content_not_blank(s);
    lemma_select_from(content_lines(s), keep);
    assert forall|k: int| 0 <= k < select(content_lines(s), keep).len() implies !all_ws(
        #[trigger] select(content_lines(s), keep)[k],
    ) by {
        let j = choose|j: int|
            0 <= j < content_lines(s).len() && content_lines(s)[j] == select(content_lines(s), keep)[k];
    }
}

/// The non-blank, ANSI-free lines of `output`.
pub fn content_of(output: &str) -> (r: Vec<Vec<char>>)
    ensures
        r.deep_view() == content_lines(output@),
{
    let chars = chars_of(output);
    let raw = lines_of(&chars);
    let ghost cl = clean_lines(output@);
    let ghost keep = |c: Seq<char>| not_blank(c);
    proof {
        lemma_deep_index(raw);
    }
    let mut out: Vec<Vec<char>> = Vec::new();
    for i in 0..raw.len()
        invariant
            raw.deep_view() == lines(output@),
            raw.deep_view().len() == raw@.len(),
            forall|k: int| 0 <= k < raw@.len() ==> #[trigger] raw.deep_view()[k] == raw@[k]@,
            cl == clean_lines(output@),
            keep == (|c: Seq<char>| not_blank(c)),
            out.deep_view() == select(cl.take(i as int), keep),
    {
        proof {
            lemma_select_step(cl, keep, i as int);
        }
        let clean = strip_ansi_chars(&raw[i]);
        assert(cl[i as int] == clean@);
        if !is_blank(&clean) {
            let ghost before = out;
            out.push(clean);
            proof {
                lemma_deep_index(before);
                lemma_deep_index(out);
                assert(out.deep_view() =~= before.deep_view().push(clean@));
            }
        }
    }
    proof {
        lemma_take_all(cl);
    }
    out
}

/// The literal `"ok"` when nothing was kept, the kept lines joined with
/// newlines otherwise.
pub open spec fn ok_or_join(ls: Seq<Seq<char>>) -> Seq<char> {
    if ls.len() == 0 {
        "ok"@
    } else {
        join(ls, "\n"@)
    }
}

/// `ok_or_join` is never empty when the first line is not.
pub proof fn lemma_ok_or_join_nonempty(ls: Seq<Seq<char>>)
    requires
        ls.len() > 0 ==> ls[0].len() > 0,
    ensures
        ok_or_join(ls).len() > 0,
{
    reveal_strlit("ok");
    if ls.len() > 0 {
        lemma_join_first(ls, "\n"@);
    }
}

/// `"ok"` for no lines, else the lines joined with newlines, as a `String`.
pub fn ok_or_join_string(ls: &Vec<Vec<char>>) -> (r: String)
    ensures
        r@ == ok_or_join(ls.deep_view()),
{
    proof {
        lemma_deep_index(*ls);
    }
    if ls.len() == 0 {
        String::from_str("ok")
    } else {
        let v = join_chars(ls, "\n");
        string_of(&v)
    }
}

/// Appends a line to a vector of lines, keeping track of the deep view.
pub fn push_line(ls: &mut Vec<Vec<char>>, l: Vec<char>)
    ensures
        final(ls).deep_view() == old(ls).deep_view().push(l@),
{
    let ghost before = *ls;
    ls.push(l);
    proof {
        lemma_deep_index(before);
        lemma_deep_index(*ls);
        assert(ls.deep_view() =~= before.deep_view().push(l@));
    }
}

/// Appends all lines of `src` to `dst`.
pub fn extend_lines(dst: &mut Vec<Vec<char>>, src: Vec<Vec<char>>)
    ensures
        final(dst).deep_view() == old(dst).deep_view() + src.deep_view(),
{
    let ghost before = *dst;
    let mut src = src;
    let ghost s0 = src;
    dst.append(&mut src);
    proof {
        lemma_deep_index(before);
        lemma_deep_index(s0);
        lemma_deep_index(*dst);
        assert(dst.deep_view() =~= before.deep_view() + s0.deep_view());
    }
}

/// A vector holding the single line of the literal `s`.
pub fn line_of(s: &str) -> (r: Vec<char>)
    ensures
        r@ == s@,
{
    chars_of(s)
}

/// The elements of `content` that `keep_line` accepts, in order.
pub(crate) fn keep_lines<F: Fn(&Vec<char>) -> bool>(
    content: &Vec<Vec<char>>,
    keep_line: F,
    Ghost(keep): Ghost<spec_fn(Seq<char>) -> bool>,
) -> (r: Vec<Vec<char>>)
    requires
        forall|c: &Vec<char>| #[trigger] keep_line.requires((c,)),
        forall|c: &Vec<char>, b: bool| keep_line.ensures((c,), b) ==> b == keep(c@),
    ensures
        r.deep_view() == select(content.deep_view(), keep),
{
    let ghost ls = content.deep_view();
    proof {
        lemma_deep_index(*content);
    }
    let mut out: Vec<Vec<char>> = Vec::new();
    for i in 0..content.len()
        invariant
            ls == content.deep_view(),
            ls.len() == content@.len(),
            forall|k: int| 0 <= k < content@.len() ==> #[trigger] ls[k] == content@[k]@,
            forall|c: &Vec<char>| #[trigger] keep_line.requires((c,)),
            forall|c: &Vec<char>, b: bool| keep_line.ensures((c,), b) ==> b == keep(c@),
            out.deep_view() == select(ls.take(i as int), keep),
    {
        proof {
            lemma_select_step(ls, keep, i as int);
        }
        let line = &content[i];
        if keep_line(line) {
            push_line(&mut out, line.clone());
        }
    }
    proof {
        lemma_take_all(ls);
    }
    out
}

/// A `"---"` separator followed by the lines, or nothing when there are none.
pub open spec fn section(ls: Seq<Seq<char>>) -> Seq<Seq<char>> {
    if ls.len() == 0 {
        Seq::empty()
    } else {
        seq!["---"@] + ls
    }
}

/// Appends `section(src)` to `dst`.
pub fn push_section(dst: &mut Vec<Vec<char>>, src: Vec<Vec<char>>)
    ensures
        final(dst).deep_view() == old(dst).deep_view() + section(src.deep_view()),
{
    proof {
        lemma_deep_index(src);
    }
    if src.len() > 0 {
        let ghost d0 = dst.deep_view();
        push_line(dst, line_of("---"));
        let ghost sv = src.deep_view();
        extend_lines(dst, src);
        assert(dst.deep_view() =~= d0 + section(sv));
    } else {
        assert(section(src.deep_view()) =~= Seq::<Seq<char>>::empty());
        assert(dst.deep_view() =~= old(dst).deep_view() + section(src.deep_view()));
    }
}

/// Each line preceded by a `"---"` separator line.
pub open spec fn with_separators(ls: Seq<Seq<char>>) -> Seq<Seq<char>>
    decreases ls.len(),
{
    if ls.len() == 0 {
        Seq::empty()
    } else {
        with_separators(ls.drop_last()) + seq!["---"@, ls.last()]
    }
}

/// Appends `with_separators(src)` to `dst`.
pub fn push_separated(dst: &mut Vec<Vec<char>>, src: &Vec<Vec<char>>)
    ensures
        final(dst).deep_view() == old(dst).deep_view() + with_separators(src.deep_view()),
{
    let ghost sv = src.deep_view();
    proof {
        lemma_deep_index(*src);
    }
    for k in 0..src.len()
        invariant
            sv == src.deep_view(),
            sv.len() == src@.len(),
            forall|i: int| 0 <= i < src@.len() ==> #[trigger] sv[i] == src@[i]@,
            dst.deep_view() == old(dst).deep_view() + with_separators(sv.take(k as int)),
    {
        let ghost t = sv.take(k + 1);
        assert(t.drop_last() =~= sv.take(k as int));
        push_line(dst, line_of("---"));
        push_line(dst, src[k].clone());
        assert(dst.deep_view() =~= old(dst).deep_view() + with_separators(t));
    }
    assert(sv.take(src.len() as int) =~= sv);
}

} // verus!
