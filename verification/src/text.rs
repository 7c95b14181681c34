//! Character-sequence model of the string operations the filters use.
use vstd::prelude::*;

verus! {

broadcast use vstd::string::group_string_axioms;

/// Unicode `White_Space` characters, the set `char::is_whitespace` tests for.
pub open spec fn is_ws(c: char) -> bool {
    ||| ('\u{9}' <= c && c <= '\u{d}')
    ||| c == ' '
    ||| c == '\u{85}'
    ||| c == '\u{a0}'
    ||| c == '\u{1680}'
    ||| ('\u{2000}' <= c && c <= '\u{200a}')
    ||| c == '\u{2028}'
    ||| c == '\u{2029}'
    ||| c == '\u{202f}'
    ||| c == '\u{205f}'
    ||| c == '\u{3000}'
}

/// A sequence made only of whitespace (the empty one included).
pub open spec fn all_ws(s: Seq<char>) -> bool {
    forall|i: int| 0 <= i < s.len() ==> is_ws(#[trigger] s[i])
}

pub fn char_is_ws(c: char) -> (r: bool)
    ensures
        r == is_ws(c),
{
    ('\u{9}' <= c && c <= '\u{d}') || c == ' ' || c == '\u{85}' || c == '\u{a0}' || c == '\u{1680}'
        || ('\u{2000}' <= c && c <= '\u{200a}') || c == '\u{2028}' || c == '\u{2029}' || c
        == '\u{202f}' || c == '\u{205f}' || c == '\u{3000}'
}

/// The characters of a string slice, in order.
pub fn chars_of(s: &str) -> (v: Vec<char>)
    ensures
        v@ == s@,
{
    let mut v: Vec<char> = Vec::new();
    for c in it: s.chars()
        invariant
            v@ == it.seq().take(it.index() as int),
    {
        v.push(c);
    }
    v
}

/// `String::push`: appends one character at the end of the string.
#[verifier::external_body]
fn string_push(s: &mut String, c: char)
    ensures
        final(s)@ == old(s)@.push(c),
{
    s.push(c)
}

/// A `String` holding exactly the given characters.
pub fn string_of(v: &Vec<char>) -> (s: String)
    ensures
        s@ == v@,
{
    let mut s = String::new();
    for i in 0..v.len()
        invariant
            s@ == v@.take(i as int),
    {
        string_push(&mut s, v[i]);
        assert(s@ =~= v@.take(i + 1));
    }
    assert(v@.take(v.len() as int) =~= v@);
    s
}

/// Whether every character is whitespace (`s.trim().is_empty()`).
pub fn is_blank(s: &Vec<char>) -> (r: bool)
    ensures
        r == all_ws(s@),
{
    for i in 0..s.len()
        invariant
            forall|j: int| 0 <= j < i ==> is_ws(#[trigger] s@[j]),
    {
        if !char_is_ws(s[i]) {
            return false;
        }
    }
    true
}

/// `p` occurs in `s` starting at index `i`.
pub open spec fn occurs_at(s: Seq<char>, p: Seq<char>, i: int) -> bool {
    0 <= i && i + p.len() <= s.len() && s.subrange(i, i + p.len()) == p
}

/// `str::contains`: `p` occurs somewhere in `s`.
pub open spec fn contains(s: Seq<char>, p: Seq<char>) -> bool {
    exists|i: int| occurs_at(s, p, i)
}

/// `str::starts_with`.
pub open spec fn starts_with(s: Seq<char>, p: Seq<char>) -> bool {
    p.len() <= s.len() && s.take(p.len() as int) == p
}

/// Index of the first occurrence of `p` in `s` at or after `i` (`str::find` from 0).
pub open spec fn find_from(s: Seq<char>, p: Seq<char>, i: int) -> Option<int>
    decreases s.len() + 1 - i,
{
    if i < 0 || i > s.len() {
        None
    } else if occurs_at(s, p, i) {
        Some(i)
    } else {
        find_from(s, p, i + 1)
    }
}

/// A search from `j` finds an occurrence at or before any occurrence at `i >= j`.
pub proof fn lemma_find_from(s: Seq<char>, p: Seq<char>, j: int, i: int)
    requires
        0 <= j <= i,
        occurs_at(s, p, i),
    ensures
        find_from(s, p, j) matches Some(k) && j <= k <= i && occurs_at(s, p, k),
    decreases i - j,
{
    if !occurs_at(s, p, j) {
        lemma_find_from(s, p, j + 1, i);
    }
}

/// Index of the last occurrence of `p` in `s` at or before `i` (`str::rfind` from the end).
pub open spec fn rfind_from(s: Seq<char>, p: Seq<char>, i: int) -> Option<int>
    decreases i + 1,
{
    if i < 0 {
        None
    } else if occurs_at(s, p, i) {
        Some(i)
    } else {
        rfind_from(s, p, i - 1)
    }
}

pub fn match_at(s: &Vec<char>, p: &Vec<char>, i: usize) -> (r: bool)
    ensures
        r == occurs_at(s@, p@, i as int),
{
    if i > s.len() || p.len() > s.len() - i {
        return false;
    }
    for k in 0..p.len()
        invariant
            i + p.len() <= s.len(),
            forall|m: int| 0 <= m < k ==> s@[i + m] == p@[m],
    {
        if s[i + k] != p[k] {
            assert(s@.subrange(i as int, i + p.len())[k as int] != p@[k as int]);
            return false;
        }
    }
    assert(s@.subrange(i as int, i + p.len()) =~= p@);
    true
}

/// First occurrence of `p` in `s`.
pub fn find(s: &Vec<char>, p: &Vec<char>) -> (r: Option<usize>)
    ensures
        r matches Some(i) ==> find_from(s@, p@, 0) == Some(i as int) && occurs_at(s@, p@, i as int),
        r is None ==> find_from(s@, p@, 0) is None,
        r is None <==> !contains(s@, p@),
{
    let mut i: usize = 0;
    while i <= s.len()
        invariant
            find_from(s@, p@, 0) == find_from(s@, p@, i as int),
            forall|j: int| 0 <= j < i ==> !occurs_at(s@, p@, j),
        decreases s.len() + 1 - i,
    {
        if match_at(s, p, i) {
            return Some(i);
        }
        if i == s.len() {
            assert(forall|j: int| occurs_at(s@, p@, j) ==> j <= s.len());
            assert(find_from(s@, p@, s.len() + 1) is None);
            return None;
        }
        i = i + 1;
    }
    None
}

/// Last occurrence of `p` in `s`.
pub fn rfind(s: &Vec<char>, p: &Vec<char>) -> (r: Option<usize>)
    ensures
        r matches Some(i) ==> rfind_from(s@, p@, s@.len() as int) == Some(i as int) && occurs_at(
            s@,
            p@,
            i as int,
        ),
        r is None ==> rfind_from(s@, p@, s@.len() as int) is None,
{
    let mut i: usize = s.len();
    loop
        invariant
            i <= s.len(),
            rfind_from(s@, p@, s@.len() as int) == rfind_from(s@, p@, i as int),
        decreases i,
    {
        if match_at(s, p, i) {
            return Some(i);
        }
        if i == 0 {
            assert(rfind_from(s@, p@, -1) is None);
            return None;
        }
        i = i - 1;
    }
}

/// Whether `p` occurs in `s`.
pub fn vec_contains(s: &Vec<char>, p: &Vec<char>) -> (r: bool)
    ensures
        r == contains(s@, p@),
{
    find(s, p).is_some()
}

/// Whether the string literal `p` occurs in `s`.
pub fn has(s: &Vec<char>, p: &str) -> (r: bool)
    ensures
        r == contains(s@, p@),
{
    let pv = chars_of(p);
    vec_contains(s, &pv)
}

/// Whether `s` starts with the string literal `p`.
pub fn begins(s: &Vec<char>, p: &str) -> (r: bool)
    ensures
        r == starts_with(s@, p@),
{
    let pv = chars_of(p);
    let r = match_at(s, &pv, 0);
    assert(s@.subrange(0, pv@.len() as int) =~= s@.take(pv@.len() as int));
    r
}

/// `s` without its leading whitespace.
pub open spec fn trim_front(s: Seq<char>) -> Seq<char>
    decreases s.len(),
{
    if s.len() > 0 && is_ws(s[0]) {
        trim_front(s.drop_first())
    } else {
        s
    }
}

/// `s` without its trailing whitespace.
pub open spec fn trim_back(s: Seq<char>) -> Seq<char>
    decreases s.len(),
{
    if s.len() > 0 && is_ws(s.last()) {
        trim_back(s.drop_last())
    } else {
        s
    }
}

/// `str::trim`: `s` without leading and trailing whitespace.
pub open spec fn trim(s: Seq<char>) -> Seq<char> {
    trim_back(trim_front(s))
}

proof fn lemma_trim_front(s: Seq<char>, a: int)
    requires
        0 <= a <= s.len(),
        forall|j: int| 0 <= j < a ==> is_ws(#[trigger] s[j]),
        a == s.len() || !is_ws(s[a]),
    ensures
        trim_front(s) == s.skip(a),
    decreases a,
{
    if a == 0 {
        assert(s.skip(0) =~= s);
    } else {
        let t = s.drop_first();
        assert forall|j: int| 0 <= j < a - 1 implies is_ws(#[trigger] t[j]) by {
            assert(t[j] == s[j + 1]);
        }
        lemma_trim_front(t, a - 1);
        assert(t.skip(a - 1) =~= s.skip(a));
    }
}

proof fn lemma_trim_back(s: Seq<char>, b: int)
    requires
        0 <= b <= s.len(),
        forall|j: int| b <= j < s.len() ==> is_ws(#[trigger] s[j]),
        b == 0 || !is_ws(s[b - 1]),
    ensures
        trim_back(s) == s.take(b),
    decreases s.len() - b,
{
    if b == s.len() {
        assert(s.take(b) =~= s);
    } else {
        let t = s.drop_last();
        lemma_trim_back(t, b);
        assert(t.take(b) =~= s.take(b));
    }
}

proof fn lemma_trim_front_not_blank(s: Seq<char>)
    requires
        !all_ws(s),
    ensures
        !all_ws(trim_front(s)),
    decreases s.len(),
{
    if s.len() > 0 && is_ws(s[0]) {
        let t = s.drop_first();
        assert(!all_ws(t)) by {
            let i = choose|i: int| 0 <= i < s.len() && !is_ws(#[trigger] s[i]);
            assert(t[i - 1] == s[i]);
        }
        lemma_trim_front_not_blank(t);
    }
}

proof fn lemma_trim_back_not_blank(s: Seq<char>)
    requires
        !all_ws(s),
    ensures
        !all_ws(trim_back(s)),
    decreases s.len(),
{
    if s.len() > 0 && is_ws(s.last()) {
        let t = s.drop_last();
        assert(!all_ws(t)) by {
            let i = choose|i: int| 0 <= i < s.len() && !is_ws(#[trigger] s[i]);
            assert(t[i] == s[i]);
        }
        lemma_trim_back_not_blank(t);
    }
}

/// Trimming a line that is not all whitespace leaves a line that is not.
pub proof fn lemma_trim_not_blank(s: Seq<char>)
    requires
        !all_ws(s),
    ensures
        !all_ws(trim(s)),
        trim(s).len() > 0,
{
    lemma_trim_front_not_blank(s);
    lemma_trim_back_not_blank(trim_front(s));
}

/// Whitespace-trimmed copy of `s`.
pub fn trim_chars(s: &Vec<char>) -> (r: Vec<char>)
    ensures
        r@ == trim(s@),
{
    let n = s.len();
    let mut a: usize = 0;
    while a < n && char_is_ws(s[a])
        invariant
            a <= n == s.len(),
            forall|j: int| 0 <= j < a ==> is_ws(#[trigger] s@[j]),
        decreases n - a,
    {
        a = a + 1;
    }
    proof {
        lemma_trim_front(s@, a as int);
    }
    let mut b: usize = n;
    while b > a && char_is_ws(s[b - 1])
        invariant
            a <= b <= n == s.len(),
            forall|j: int| b <= j < n ==> is_ws(#[trigger] s@[j]),
        decreases b,
    {
        b = b - 1;
    }
    let ghost t = s@.skip(a as int);
    proof {
        assert forall|j: int| b - a <= j < t.len() implies is_ws(#[trigger] t[j]) by {
            assert(t[j] == s@[a + j]);
        }
        if b > a {
            assert(t[b - a - 1] == s@[b - 1]);
        }
        lemma_trim_back(t, b - a);
    }
    let mut r: Vec<char> = Vec::new();
    for k in a..b
        invariant
            a <= b <= n == s.len(),
            r@ == s@.subrange(a as int, k as int),
    {
        r.push(s[k]);
        assert(r@ =~= s@.subrange(a as int, k + 1));
    }
    assert(r@ =~= t.take(b - a));
    r
}

/// One more character of a line scan: the finished lines and the line in progress.
pub open spec fn strip_cr(l: Seq<char>) -> Seq<char> {
    if l.len() > 0 && l.last() == '\r' {
        l.drop_last()
    } else {
        l
    }
}

/// Left-to-right scan of `s` splitting at `'\n'`: the finished lines and the
/// line still open at the end.
pub open spec fn line_scan(s: Seq<char>) -> (Seq<Seq<char>>, Seq<char>)
    decreases s.len(),
{
    if s.len() == 0 {
        (Seq::empty(), Seq::empty())
    } else {
        let (done, cur) = line_scan(s.drop_last());
        if s.last() == '\n' {
            (done.push(strip_cr(cur)), Seq::empty())
        } else {
            (done, cur.push(s.last()))
        }
    }
}

/// `str::lines`: the lines of `s`, split at `'\n'` with a `'\r'` before it
/// dropped; a final line ending adds no empty line.
pub open spec fn lines(s: Seq<char>) -> Seq<Seq<char>> {
    let (done, cur) = line_scan(s);
    if cur.len() > 0 {
        done.push(cur)
    } else {
        done
    }
}

/// A line contains no line break.
pub open spec fn no_newline(l: Seq<char>) -> bool {
    forall|j: int| 0 <= j < l.len() ==> #[trigger] l[j] != '\n'
}

/// No line of a scan contains a line break.
proof fn lemma_line_scan_no_newline(s: Seq<char>)
    ensures
        forall|k: int| 0 <= k < line_scan(s).0.len() ==> no_newline(#[trigger] line_scan(s).0[k]),
        no_newline(line_scan(s).1),
    decreases s.len(),
{
    if s.len() > 0 {
        lemma_line_scan_no_newline(s.drop_last());
        let (done, cur) = line_scan(s.drop_last());
        if s.last() == '\n' {
            let c = strip_cr(cur);
            assert(no_newline(c)) by {
                assert forall|j: int| 0 <= j < c.len() implies #[trigger] c[j] != '\n' by {
                    assert(c[j] == cur[j]);
                }
            }
            assert forall|k: int| 0 <= k < done.push(c).len() implies no_newline(#[trigger] done.push(c)[k]) by {
                if k < done.len() {
                    assert(done.push(c)[k] == done[k]);
                }
            }
        } else {
            let c = cur.push(s.last());
            assert forall|j: int| 0 <= j < c.len() implies #[trigger] c[j] != '\n' by {
                if j < cur.len() {
                    assert(c[j] == cur[j]);
                }
            }
        }
    }
}

/// No line of `s` contains a line break.
pub proof fn lemma_lines_no_newline(s: Seq<char>)
    ensures
        forall|k: int| 0 <= k < lines(s).len() ==> no_newline(#[trigger] lines(s)[k]),
{
    lemma_line_scan_no_newline(s);
    let (done, cur) = line_scan(s);
    assert forall|k: int| 0 <= k < lines(s).len() implies no_newline(#[trigger] lines(s)[k]) by {
        if k < done.len() {
            assert(lines(s)[k] == done[k]);
        }
    }
}

/// Scanning past text without line breaks only extends the open line.
proof fn lemma_line_scan_append(x: Seq<char>, y: Seq<char>)
    requires
        no_newline(y),
    ensures
        line_scan(x + y) == (line_scan(x).0, line_scan(x).1 + y),
    decreases y.len(),
{
    if y.len() == 0 {
        assert(x + y =~= x);
        assert(line_scan(x).1 + y =~= line_scan(x).1);
    } else {
        let z = y.drop_last();
        assert(no_newline(z)) by {
            assert forall|j: int| 0 <= j < z.len() implies #[trigger] z[j] != '\n' by {
                assert(z[j] == y[j]);
            }
        }
        lemma_line_scan_append(x, z);
        assert((x + y).drop_last() =~= x + z);
        assert((x + y).last() == y[y.len() - 1]);
        assert(line_scan(x).1 + z.push(y.last()) =~= line_scan(x).1 + y);
    }
}

/// Lines joined with line breaks split back into the same lines, when none
/// is empty, holds a line break or ends with a carriage return.
pub proof fn lemma_lines_of_join(ls: Seq<Seq<char>>)
    requires
        ls.len() > 0,
        forall|k: int|
            0 <= k < ls.len() ==> (#[trigger] ls[k]).len() > 0 && no_newline(ls[k]) && ls[k].last() != '\r',
    ensures
        line_scan(join(ls, "\n"@)) == (ls.drop_last(), ls.last()),
        lines(join(ls, "\n"@)) == ls,
    decreases ls.len(),
{
    reveal_strlit("\n");
    if ls.len() == 1 {
        lemma_line_scan_append(Seq::empty(), ls[0]);
        assert(Seq::<char>::empty() + ls[0] =~= ls[0]);
        assert(Seq::<char>::empty() + ls[0] =~= ls[0]);
        assert(ls.drop_last() =~= Seq::<Seq<char>>::empty());
    } else {
        let p = ls.drop_last();
        assert forall|k: int| 0 <= k < p.len() implies (#[trigger] p[k]).len() > 0 && no_newline(p[k])
            && p[k].last() != '\r' by {
            assert(p[k] == ls[k]);
        }
        lemma_line_scan_append(Seq::empty(), Seq::empty());
        lemma_lines_of_join(p);
        let jp = join(p, "\n"@);
        let x = jp + "\n"@;
        assert(x.drop_last() =~= jp);
        assert(x.last() == '\n');
        assert(p.last() == ls[ls.len() - 2]);
        assert(strip_cr(p.last()) == p.last());
        assert(line_scan(x) == (p.drop_last().push(p.last()), Seq::<char>::empty()));
        assert(p.drop_last().push(p.last()) =~= p);
        lemma_line_scan_append(x, ls.last());
        assert(join(ls, "\n"@) == x + ls.last());
        assert(Seq::<char>::empty() + ls.last() =~= ls.last());
        assert(ls.drop_last().push(ls.last()) =~= ls);
    }
}

proof fn lemma_deep_push(v: Vec<Vec<char>>, w: Vec<Vec<char>>, x: Vec<char>)
    requires
        w@ == v@.push(x),
    ensures
        w.deep_view() == v.deep_view().push(x@),
{
    assert(x.deep_view() =~= x@);
    assert forall|i: int| 0 <= i < v@.len() implies #[trigger] v@[i].deep_view() == v@[i]@ by {
        assert(v@[i].deep_view() =~= v@[i]@);
    }
    assert forall|i: int| 0 <= i < w@.len() implies #[trigger] w@[i].deep_view() == w@[i]@ by {
        assert(w@[i].deep_view() =~= w@[i]@);
    }
    assert(w.deep_view() =~= v.deep_view().push(x@));
}

/// Characters of `s` dropping a final `'\r'`.
fn strip_cr_vec(l: Vec<char>) -> (r: Vec<char>)
    ensures
        r@ == strip_cr(l@),
{
    let mut l = l;
    if l.len() > 0 && l[l.len() - 1] == '\r' {
        l.pop();
    }
    l
}

/// The lines of `s` (`str::lines`).
pub fn lines_of(s: &Vec<char>) -> (r: Vec<Vec<char>>)
    ensures
        r.deep_view() == lines(s@),
{
    let mut done: Vec<Vec<char>> = Vec::new();
    let mut cur: Vec<char> = Vec::new();
    for i in 0..s.len()
        invariant
            (done.deep_view(), cur@) == line_scan(s@.take(i as int)),
    {
        proof {
            assert(s@.take(i + 1).drop_last() =~= s@.take(i as int));
        }
        if s[i] == '\n' {
            let line = strip_cr_vec(cur);
            let ghost old_done = done;
            done.push(line);
            proof {
                lemma_deep_push(old_done, done, line);
            }
            cur = Vec::new();
        } else {
            cur.push(s[i]);
        }
    }
    assert(s@.take(s.len() as int) =~= s@);
    if cur.len() > 0 {
        let ghost old_done = done;
        done.push(cur);
        proof {
            lemma_deep_push(old_done, done, cur);
        }
    }
    done
}

/// Left-to-right scan of `s` splitting at whitespace: the finished words
/// and the word still open at the end.
pub open spec fn word_scan(s: Seq<char>) -> (Seq<Seq<char>>, Seq<char>)
    decreases s.len(),
{
    if s.len() == 0 {
        (Seq::empty(), Seq::empty())
    } else {
        let (done, cur) = word_scan(s.drop_last());
        if is_ws(s.last()) {
            if cur.len() > 0 {
                (done.push(cur), Seq::empty())
            } else {
                (done, Seq::empty())
            }
        } else {
            (done, cur.push(s.last()))
        }
    }
}

/// `str::split_whitespace`: the maximal runs of non-whitespace characters.
pub open spec fn words(s: Seq<char>) -> Seq<Seq<char>> {
    let (done, cur) = word_scan(s);
    if cur.len() > 0 {
        done.push(cur)
    } else {
        done
    }
}

/// The whitespace-separated words of `s` (`str::split_whitespace`).
pub fn words_of(s: &Vec<char>) -> (r: Vec<Vec<char>>)
    ensures
        r.deep_view() == words(s@),
{
    let mut done: Vec<Vec<char>> = Vec::new();
    let mut cur: Vec<char> = Vec::new();
    for i in 0..s.len()
        invariant
            (done.deep_view(), cur@) == word_scan(s@.take(i as int)),
    {
        proof {
            assert(s@.take(i + 1).drop_last() =~= s@.take(i as int));
        }
        if char_is_ws(s[i]) {
            if cur.len() > 0 {
                let ghost old_done = done;
                done.push(cur);
                proof {
                    lemma_deep_push(old_done, done, cur);
                }
            }
            cur = Vec::new();
        } else {
            cur.push(s[i]);
        }
    }
    assert(s@.take(s.len() as int) =~= s@);
    if cur.len() > 0 {
        let ghost old_done = done;
        done.push(cur);
        proof {
            lemma_deep_push(old_done, done, cur);
        }
    }
    done
}

/// Element-wise view of a vector of character vectors.
pub proof fn lemma_deep_index(v: Vec<Vec<char>>)
    ensures
        v.deep_view().len() == v@.len(),
        forall|i: int| 0 <= i < v@.len() ==> #[trigger] v.deep_view()[i] == v@[i]@,
{
    assert forall|i: int| 0 <= i < v@.len() implies #[trigger] v.deep_view()[i] == v@[i]@ by {
        assert(v@[i].deep_view() =~= v@[i]@);
    }
}

/// A parameter character of an ANSI control sequence (`[0-9;]`).
pub open spec fn is_csi_param(c: char) -> bool {
    ('0' <= c && c <= '9') || c == ';'
}

/// An ASCII letter, the final character of an ANSI control sequence.
pub open spec fn is_ascii_alpha(c: char) -> bool {
    ('a' <= c && c <= 'z') || ('A' <= c && c <= 'Z')
}

/// First index at or after `j` that does not hold a parameter character.
pub open spec fn params_end(s: Seq<char>, j: int) -> int
    decreases s.len() - j,
{
    if 0 <= j < s.len() && is_csi_param(s[j]) {
        params_end(s, j + 1)
    } else {
        j
    }
}

/// End of the ANSI control sequence `ESC [ [0-9;]* [A-Za-z]` that starts at `i`,
/// or `i` itself when none starts there.
pub open spec fn csi_end(s: Seq<char>, i: int) -> int {
    if 0 <= i && i + 1 < s.len() && s[i] == '\u{1b}' && s[i + 1] == '[' {
        let e = params_end(s, i + 2);
        if e < s.len() && is_ascii_alpha(s[e]) {
            e + 1
        } else {
            i
        }
    } else {
        i
    }
}

pub proof fn lemma_params_end(s: Seq<char>, j: int)
    requires
        0 <= j,
    ensures
        j <= params_end(s, j),
        params_end(s, j) <= s.len() || params_end(s, j) == j,
        forall|k: int| j <= k < params_end(s, j) ==> is_csi_param(#[trigger] s[k]),
        params_end(s, j) < s.len() ==> !is_csi_param(s[params_end(s, j)]),
    decreases s.len() - j,
{
    if 0 <= j < s.len() && is_csi_param(s[j]) {
        lemma_params_end(s, j + 1);
    }
}

/// `s` from index `i` on, with every ANSI control sequence removed, scanning
/// from the left.
pub open spec fn strip_from(s: Seq<char>, i: int) -> Seq<char>
    decreases s.len() - i,
{
    if i < 0 || i >= s.len() {
        Seq::empty()
    } else if csi_end(s, i) > i {
        proof {
            lemma_params_end(s, i + 2);
        }
        strip_from(s, csi_end(s, i))
    } else {
        seq![s[i]] + strip_from(s, i + 1)
    }
}

/// `s` with its ANSI escape sequences (`ESC [ [0-9;]* [A-Za-z]`) removed.
pub open spec fn strip_ansi(s: Seq<char>) -> Seq<char> {
    strip_from(s, 0)
}

proof fn lemma_strip_from(s: Seq<char>, i: int)
    requires
        0 <= i <= s.len(),
    ensures
        strip_from(s, i).len() <= s.len() - i,
        (forall|k: int| i <= k < s.len() ==> s[k] != '\u{1b}') ==> strip_from(s, i) == s.skip(i),
    decreases s.len() - i,
{
    if i < s.len() {
        if csi_end(s, i) > i {
            lemma_params_end(s, i + 2);
            lemma_strip_from(s, csi_end(s, i));
        } else {
            lemma_strip_from(s, i + 1);
            assert(seq![s[i]] + s.skip(i + 1) =~= s.skip(i));
        }
    }
}

proof fn lemma_strip_from_keeps_out(s: Seq<char>, i: int, c: char)
    requires
        0 <= i <= s.len(),
        forall|k: int| i <= k < s.len() ==> s[k] != c,
    ensures
        forall|j: int| 0 <= j < strip_from(s, i).len() ==> #[trigger] strip_from(s, i)[j] != c,
    decreases s.len() - i,
{
    if i < s.len() {
        if csi_end(s, i) > i {
            lemma_params_end(s, i + 2);
            lemma_strip_from_keeps_out(s, csi_end(s, i), c);
            assert(strip_from(s, i) == strip_from(s, csi_end(s, i)));
        } else {
            lemma_strip_from_keeps_out(s, i + 1, c);
            let r = strip_from(s, i);
            assert forall|j: int| 0 <= j < r.len() implies #[trigger] r[j] != c by {
                assert(r == seq![s[i]] + strip_from(s, i + 1));
                if j > 0 {
                    assert(r[j] == strip_from(s, i + 1)[j - 1]);
                } else {
                    assert(r[0] == s[i]);
                }
            }
        }
    }
}

/// Removing ANSI escape sequences brings in no character that was not there.
pub proof fn lemma_strip_ansi_keeps_out(s: Seq<char>, c: char)
    requires
        forall|k: int| 0 <= k < s.len() ==> s[k] != c,
    ensures
        forall|j: int| 0 <= j < strip_ansi(s).len() ==> #[trigger] strip_ansi(s)[j] != c,
{
    lemma_strip_from_keeps_out(s, 0, c);
}

/// Removing ANSI escape sequences never lengthens a line, and leaves a line
/// without escape characters as it was.
pub proof fn law_strip_ansi(s: Seq<char>)
    ensures
        strip_ansi(s).len() <= s.len(),
        (forall|k: int| 0 <= k < s.len() ==> s[k] != '\u{1b}') ==> strip_ansi(s) == s,
{
    lemma_strip_from(s, 0);
    assert(s.skip(0) =~= s);
}

/// A copy of `s` without ANSI escape sequences.
pub fn strip_ansi_chars(s: &Vec<char>) -> (r: Vec<char>)
    ensures
        r@ == strip_ansi(s@),
{
    let n = s.len();
    let mut out: Vec<char> = Vec::new();
    let mut i: usize = 0;
    while i < n
        invariant
            i <= n == s.len(),
            out@ + strip_from(s@, i as int) == strip_ansi(s@),
        decreases n - i,
    {
        if s[i] == '\u{1b}' && i + 1 < n && s[i + 1] == '[' {
            let mut j: usize = i + 2;
            while j < n && (('0' <= s[j] && s[j] <= '9') || s[j] == ';')
                invariant
                    i + 2 <= j <= n == s.len(),
                    params_end(s@, i + 2) == params_end(s@, j as int),
                decreases n - j,
            {
                j = j + 1;
            }
            if j < n && (('a' <= s[j] && s[j] <= 'z') || ('A' <= s[j] && s[j] <= 'Z')) {
                assert(csi_end(s@, i as int) == j + 1);
                i = j + 1;
                continue;
            }
        }
        assert(csi_end(s@, i as int) == i);
        proof {
            assert(out@ + strip_from(s@, i as int) =~= out@.push(s@[i as int]) + strip_from(s@, i + 1));
        }
        out.push(s[i]);
        i = i + 1;
    }
    assert(out@ =~= strip_ansi(s@));
    out
}

/// `slices.join(sep)`.
pub open spec fn join(ls: Seq<Seq<char>>, sep: Seq<char>) -> Seq<char>
    decreases ls.len(),
{
    if ls.len() == 0 {
        Seq::empty()
    } else if ls.len() == 1 {
        ls[0]
    } else {
        join(ls.drop_last(), sep) + sep + ls.last()
    }
}

/// A join is at least as long as its first part.
pub proof fn lemma_join_first(ls: Seq<Seq<char>>, sep: Seq<char>)
    requires
        ls.len() > 0,
    ensures
        join(ls, sep).len() >= ls[0].len(),
    decreases ls.len(),
{
    if ls.len() > 1 {
        lemma_join_first(ls.drop_last(), sep);
    }
}

/// A join starts with its first part.
pub proof fn lemma_join_prefix(ls: Seq<Seq<char>>, sep: Seq<char>)
    requires
        ls.len() > 0,
    ensures
        starts_with(join(ls, sep), ls[0]),
    decreases ls.len(),
{
    if ls.len() > 1 {
        let p = ls.drop_last();
        lemma_join_prefix(p, sep);
        let jp = join(p, sep);
        assert((jp + sep + ls.last()).take(ls[0].len() as int) =~= jp.take(ls[0].len() as int));
    } else {
        assert(ls[0].take(ls[0].len() as int) =~= ls[0]);
    }
}

/// Appends the characters of `src` to `dst`.
pub fn append_chars(dst: &mut Vec<char>, src: &Vec<char>)
    ensures
        final(dst)@ == old(dst)@ + src@,
{
    for k in 0..src.len()
        invariant
            dst@ == old(dst)@ + src@.take(k as int),
    {
        dst.push(src[k]);
        assert(dst@ =~= old(dst)@ + src@.take(k + 1));
    }
    assert(src@.take(src.len() as int) =~= src@);
}

/// Appends the characters of the literal `src` to `dst`.
pub fn append_str(dst: &mut Vec<char>, src: &str)
    ensures
        final(dst)@ == old(dst)@ + src@,
{
    let v = chars_of(src);
    append_chars(dst, &v);
}

/// The lines joined with `sep` between consecutive ones.
pub fn join_chars(ls: &Vec<Vec<char>>, sep: &str) -> (r: Vec<char>)
    ensures
        r@ == join(ls.deep_view(), sep@),
{
    let mut out: Vec<char> = Vec::new();
    proof {
        lemma_deep_index(*ls);
    }
    for k in 0..ls.len()
        invariant
            ls.deep_view().len() == ls@.len(),
            forall|i: int| 0 <= i < ls@.len() ==> #[trigger] ls.deep_view()[i] == ls@[i]@,
            out@ == join(ls.deep_view().take(k as int), sep@),
    {
        let ghost t = ls.deep_view().take(k + 1);
        assert(t.drop_last() =~= ls.deep_view().take(k as int));
        if k > 0 {
            append_str(&mut out, sep);
        } else {
            assert(out@ =~= Seq::<char>::empty());
        }
        append_chars(&mut out, &ls[k]);
        assert(out@ =~= join(t, sep@));
    }
    assert(ls.deep_view().take(ls.len() as int) =~= ls.deep_view());
    out
}

/// The ASCII digit for `d < 10`.
pub open spec fn digit_char(d: int) -> char {
    (d + 48) as char
}

/// Decimal representation of `n`, as `format!("{}", n)` writes it.
pub open spec fn decimal(n: nat) -> Seq<char>
    decreases n,
{
    if n < 10 {
        seq![digit_char(n as int)]
    } else {
        decimal(n / 10).push(digit_char((n % 10) as int))
    }
}

/// The decimal digits of `n`.
pub fn decimal_chars(n: usize) -> (r: Vec<char>)
    ensures
        r@ == decimal(n as nat),
    decreases n,
{
    let d = ((n % 10) as u8 + 48u8) as char;
    if n < 10 {
        let mut v: Vec<char> = Vec::new();
        v.push(d);
        v
    } else {
        let mut v = decimal_chars(n / 10);
        v.push(d);
        v
    }
}

/// An ASCII digit.
pub open spec fn is_digit(c: char) -> bool {
    '0' <= c && c <= '9'
}

/// Value of a sequence of decimal digits.
pub open spec fn digits_value(s: Seq<char>) -> nat
    decreases s.len(),
{
    if s.len() == 0 {
        0
    } else {
        digits_value(s.drop_last()) * 10 + ((s.last() as int - 48) as nat)
    }
}

/// The digits part of an unsigned number: `s` without one leading `'+'`.
pub open spec fn unsigned_digits(s: Seq<char>) -> Seq<char> {
    if s.len() > 0 && s[0] == '+' {
        s.drop_first()
    } else {
        s
    }
}

/// Every character is an ASCII digit.
pub open spec fn all_digits(d: Seq<char>) -> bool {
    forall|i: int| 0 <= i < d.len() ==> is_digit(#[trigger] d[i])
}

/// `str::parse::<usize>`: an optional `'+'`, then one or more ASCII digits
/// whose value fits in a `usize`.
pub open spec fn parse_usize(s: Seq<char>) -> Option<nat> {
    let d = unsigned_digits(s);
    if d.len() > 0 && all_digits(d) && digits_value(d) <= usize::MAX {
        Some(digits_value(d))
    } else {
        None
    }
}

/// `s.parse::<usize>().ok()`.
pub fn parse_usize_chars(s: &Vec<char>) -> (r: Option<usize>)
    ensures
        r matches Some(v) ==> parse_usize(s@) == Some(v as nat),
        r is None ==> parse_usize(s@) is None,
{
    let ghost d = unsigned_digits(s@);
    let start: usize = if s.len() > 0 && s[0] == '+' {
        1
    } else {
        0
    };
    assert(d =~= s@.skip(start as int));
    if start >= s.len() {
        return None;
    }
    let mut value: usize = 0;
    let mut overflow = false;
    let mut i: usize = start;
    while i < s.len()
        invariant
            start <= i <= s.len(),
            start < s.len(),
            d == unsigned_digits(s@),
            d =~= s@.skip(start as int),
            forall|j: int| 0 <= j < i - start ==> is_digit(#[trigger] d[j]),
            !overflow ==> value as nat == digits_value(d.take(i - start)),
            overflow ==> digits_value(d.take(i - start)) > usize::MAX,
        decreases s.len() - i,
    {
        let c = s[i];
        if !('0' <= c && c <= '9') {
            assert(d[i - start] == c);
            assert(!is_digit(d[i - start]));
            assert(!all_digits(d));
            return None;
        }
        let dv = (c as u32 - 48) as usize;
        assert(d.take(i - start + 1).drop_last() =~= d.take(i - start));
        assert(d.take(i - start + 1).last() == c);
        if !overflow {
            match value.checked_mul(10) {
                Some(m) => match m.checked_add(dv) {
                    Some(v) => {
                        value = v;
                    },
                    None => {
                        overflow = true;
                    },
                },
                None => {
                    overflow = true;
                },
            }
        }
        i = i + 1;
    }
    assert(d.take(d.len() as int) =~= d);
    if overflow {
        None
    } else {
        Some(value)
    }
}

/// A sequence of ASCII characters only.
pub open spec fn is_ascii(s: Seq<char>) -> bool {
    forall|i: int| 0 <= i < s.len() ==> (#[trigger] s[i] as int) < 128
}

/// The ASCII lowercase of a character: `A`..`Z` become `a`..`z`, others stay.
pub open spec fn ascii_lower_char(c: char) -> char {
    if 'A' <= c && c <= 'Z' {
        ((c as int) + 32) as char
    } else {
        c
    }
}

/// The ASCII lowercase of each character.
pub open spec fn ascii_lowercase(s: Seq<char>) -> Seq<char> {
    s.map_values(|c: char| ascii_lower_char(c))
}

/// Name for the result of `str::to_lowercase`: the lowercase form of a string,
/// as the Unicode `Lowercase` mapping defines it.
pub uninterp spec fn lowercase(s: Seq<char>) -> Seq<char>;

/// `str::to_lowercase`; its result is named `lowercase`. On an ASCII string the
/// Unicode mapping is the ASCII one, so the result is then the ASCII lowercase.
#[verifier::external_body]
fn str_to_lowercase(s: &str) -> (r: String)
    ensures
        r@ == lowercase(s@),
        is_ascii(s@) ==> r@ == ascii_lowercase(s@),
{
    s.to_lowercase()
}

/// The lowercase form of a line: its ASCII lowercase when it is ASCII, else
/// what `str::to_lowercase` gives.
pub open spec fn lowered(s: Seq<char>) -> Seq<char> {
    if is_ascii(s) {
        ascii_lowercase(s)
    } else {
        lowercase(s)
    }
}

/// The lowercase form of `s` (`str::to_lowercase`).
pub fn lowercase_chars(s: &Vec<char>) -> (r: Vec<char>)
    ensures
        r@ == lowered(s@),
{
    let st = string_of(s);
    let low = str_to_lowercase(st.as_str());
    chars_of(low.as_str())
}

/// The characters of `v` from index `a` to index `b`.
pub fn sub_chars(v: &Vec<char>, a: usize, b: usize) -> (r: Vec<char>)
    requires
        a <= b <= v@.len(),
    ensures
        r@ == v@.subrange(a as int, b as int),
{
    let mut r: Vec<char> = Vec::new();
    for k in a..b
        invariant
            a <= b <= v@.len(),
            r@ == v@.subrange(a as int, k as int),
    {
        r.push(v[k]);
        assert(r@ =~= v@.subrange(a as int, k + 1));
    }
    r
}

/// Whether two character vectors hold the same characters.
pub fn chars_eq(a: &Vec<char>, b: &Vec<char>) -> (r: bool)
    ensures
        r == (a@ == b@),
{
    if a.len() != b.len() {
        return false;
    }
    for i in 0..a.len()
        invariant
            a@.len() == b@.len(),
            forall|j: int| 0 <= j < i ==> a@[j] == b@[j],
    {
        if a[i] != b[i] {
            return false;
        }
    }
    assert(a@ =~= b@);
    true
}

} // verus!
