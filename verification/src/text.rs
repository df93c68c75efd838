//! Character-level helpers shared by every stage of the pipeline.
//!
//! Text is modelled as `Seq<char>`. Executable code works on `Vec<char>` and
//! converts at the boundary of the public functions.

use vstd::prelude::*;

verus! {

/// The characters that Unicode classifies as white space.
pub open spec fn is_space(c: char) -> bool {
    ||| ('\u{9}' <= c && c <= '\u{d}')
    ||| c == ' '
    ||| c == '\u{85}'
    ||| c == '\u{a0}'
    ||| c == '\u{1680}'
    ||| ('\u{2000}' <= c && c <= '\u{200a}')
    ||| c == '\u{2028}'
    ||| c == '\u{2029}'
    ||| c == '\u{202f}'
    ||| c == '\u{205f}'
    ||| c == '\u{3000}'
}

/// Tells whether `c` is white space.
pub fn char_is_space(c: char) -> (b: bool)
    ensures
        b == is_space(c),
{
    ('\u{9}' <= c && c <= '\u{d}') || c == ' ' || c == '\u{85}' || c == '\u{a0}' || c
        == '\u{1680}' || ('\u{2000}' <= c && c <= '\u{200a}') || c == '\u{2028}' || c
        == '\u{2029}' || c == '\u{202f}' || c == '\u{205f}' || c == '\u{3000}'
}

/// Appends one character to a string, as `String::push` does.
#[verifier::external_body]
fn push_char(s: &mut String, c: char)
    ensures
        final(s)@ == old(s)@.push(c),
{
    s.push(c)
}

/// The characters of `s`, in order.
pub fn chars_of(s: &str) -> (v: Vec<char>)
    ensures
        v@ == s@,
{
    let mut v: Vec<char> = Vec::new();
    for c in it: s.chars()
        invariant
            it.seq() == s@,
            v@ == it.seq().take(it.index()),
    {
        v.push(c);
    }
    v
}

/// The string made of the characters of `v`, in order.
pub fn string_of(v: &Vec<char>) -> (s: String)
    ensures
        s@ == v@,
{
    let mut s = String::new();
    let mut i: usize = 0;
    while i < v.len()
        invariant
            i <= v.len(),
            s@ == v@.take(i as int),
        decreases v.len() - i,
    {
        push_char(&mut s, v[i]);
        i += 1;
    }
    s
}

/// A copy of the characters of `v` from index `from` up to, not including, `to`.
pub(crate) fn sub_vec(v: &Vec<char>, from: usize, to: usize) -> (r: Vec<char>)
    requires
        from <= to <= v.len(),
    ensures
        r@ == v@.subrange(from as int, to as int),
{
    let mut r: Vec<char> = Vec::new();
    let mut i: usize = from;
    while i < to
        invariant
            from <= i <= to <= v.len(),
            r@ == v@.subrange(from as int, i as int),
        decreases to - i,
    {
        r.push(v[i]);
        i += 1;
    }
    r
}

/// Appends the characters of `src` to `dst`.
pub fn append_chars(dst: &mut Vec<char>, src: &Vec<char>)
    ensures
        final(dst)@ == old(dst)@ + src@,
{
    let mut i: usize = 0;
    while i < src.len()
        invariant
            i <= src.len(),
            dst@ == old(dst)@ + src@.take(i as int),
        decreases src.len() - i,
    {
        dst.push(src[i]);
        i += 1;
    }
}

/// Tells whether two character vectors hold the same text.
pub fn same_chars(a: &Vec<char>, b: &Vec<char>) -> (r: bool)
    ensures
        r == (a@ == b@),
{
    if a.len() != b.len() {
        return false;
    }
    let mut i: usize = 0;
    while i < a.len()
        invariant
            i <= a.len(),
            a.len() == b.len(),
            a@.take(i as int) == b@.take(i as int),
        decreases a.len() - i,
    {
        if a[i] != b[i] {
            return false;
        }
        assert(a@.take(i + 1) == a@.take(i as int).push(a@[i as int]));
        i += 1;
    }
    assert(a@ == a@.take(a.len() as int));
    assert(b@ == b@.take(b.len() as int));
    true
}

/// Index of the first occurrence of `c` in `s`, or `s.len()` when `c` does not occur.
pub open spec fn first_index(s: Seq<char>, c: char) -> nat
    decreases s.len(),
{
    if s.len() == 0 || s[0] == c {
        0
    } else {
        1 + first_index(s.drop_first(), c)
    }
}

/// `first_index` is the one position before which `c` does not occur and at which,
/// if it lies inside `s`, `c` stands.
pub proof fn lemma_first_index(s: Seq<char>, c: char, k: int)
    requires
        0 <= k <= s.len(),
        forall|j: int| 0 <= j < k ==> s[j] != c,
        k < s.len() ==> s[k] == c,
    ensures
        first_index(s, c) == k,
    decreases s.len(),
{
    if s.len() == 0 || s[0] == c {
    } else {
        lemma_first_index(s.drop_first(), c, k - 1);
    }
}

/// The position that `first_index` names lies inside or at the end of `s`, and no
/// earlier character is `c`.
pub proof fn lemma_first_index_bounds(s: Seq<char>, c: char)
    ensures
        0 <= first_index(s, c) <= s.len(),
        forall|j: int| 0 <= j < first_index(s, c) ==> s[j] != c,
        first_index(s, c) < s.len() ==> s[first_index(s, c) as int] == c,
    decreases s.len(),
{
    if s.len() == 0 || s[0] == c {
    } else {
        lemma_first_index_bounds(s.drop_first(), c);
        let k = first_index(s.drop_first(), c);
        assert forall|j: int| 0 <= j < k + 1 implies s[j] != c by {
            if j > 0 {
                assert(s.drop_first()[j - 1] == s[j]);
            }
        }
    }
}

/// Finds the first occurrence of `c` in `v` at or after `from`.
pub(crate) fn find_char_from(v: &Vec<char>, from: usize, c: char) -> (r: usize)
    requires
        from <= v.len(),
    ensures
        from <= r <= v.len(),
        r - from == first_index(v@.skip(from as int), c),
{
    let mut i: usize = from;
    while i < v.len() && v[i] != c
        invariant
            from <= i <= v.len(),
            forall|j: int| from <= j < i ==> v@[j] != c,
        decreases v.len() - i,
    {
        i += 1;
    }
    proof {
        lemma_first_index(v@.skip(from as int), c, i - from);
    }
    i
}

/// The text cut after every line feed: each piece but possibly the last ends with one,
/// and the pieces put together give the text back.
pub open spec fn segments(s: Seq<char>) -> Seq<Seq<char>>
    decreases s.len(),
{
    if s.len() == 0 {
        Seq::empty()
    } else {
        let k = first_index(s, '\n') as int;
        if k >= s.len() {
            seq![s]
        } else {
            seq![s.take(k + 1)] + segments(s.skip(k + 1))
        }
    }
}

/// A segment without its line ending: a final line feed is removed, and a carriage
/// return directly before that line feed too.
pub open spec fn line_of(segment: Seq<char>) -> Seq<char> {
    if segment.len() > 0 && segment.last() == '\n' {
        let t = segment.drop_last();
        if t.len() > 0 && t.last() == '\r' {
            t.drop_last()
        } else {
            t
        }
    } else {
        segment
    }
}

/// The lines of a text. A line ends at a line feed or at a carriage return followed by
/// a line feed; the ending is not part of the line, and the last line need not have one.
pub open spec fn lines(s: Seq<char>) -> Seq<Seq<char>> {
    Seq::new(segments(s).len(), |i: int| line_of(segments(s)[i]))
}

/// Tells whether a piece is a segment: not empty, with no line feed before its last
/// character.
pub open spec fn is_segment(g: Seq<char>) -> bool {
    g.len() > 0 && first_index(g, '\n') >= g.len() - 1
}

/// Tells whether the pieces are segments of which all but the last end with a line
/// feed.
pub open spec fn well_cut(gs: Seq<Seq<char>>) -> bool {
    forall|i: int|
        0 <= i < gs.len() ==> is_segment(#[trigger] gs[i]) && (i < gs.len() - 1 ==> gs[i].last()
            == '\n')
}

/// The segments of a text are well cut, and put together they give the text back.
pub proof fn lemma_segments_well_cut(s: Seq<char>)
    ensures
        well_cut(segments(s)),
        segments(s).flatten() == s,
    decreases s.len(),
{
    if s.len() == 0 {
    } else {
        lemma_first_index_bounds(s, '\n');
        let k = first_index(s, '\n') as int;
        if k >= s.len() {
            seq![s].lemma_flatten_one_element();
        } else {
            let head = s.take(k + 1);
            let tail = s.skip(k + 1);
            let rest = segments(tail);
            let all = seq![head] + rest;
            lemma_segments_well_cut(tail);
            lemma_first_index(head, '\n', k);
            assert(all.first() == head);
            assert(all.drop_first() == rest);
            assert(head + tail == s);
            assert forall|i: int| 0 <= i < all.len() implies is_segment(#[trigger] all[i]) && (i
                < all.len() - 1 ==> all[i].last() == '\n') by {
                if i > 0 {
                    assert(all[i] == rest[i - 1]);
                }
            }
        }
    }
}

/// Well-cut pieces are the segments of the text that they make up.
pub proof fn lemma_segments_of_flatten(gs: Seq<Seq<char>>)
    requires
        well_cut(gs),
    ensures
        segments(gs.flatten()) == gs,
    decreases gs.len(),
{
    if gs.len() == 0 {
    } else {
        let head = gs[0];
        let rest = gs.drop_first();
        let s = gs.flatten();
        assert(s == head + rest.flatten());
        lemma_segments_of_flatten(rest);
        lemma_first_index_bounds(head, '\n');
        assert(is_segment(gs[0]));
        if head.last() == '\n' {
            let k = head.len() - 1;
            assert(first_index(head, '\n') == k);
            assert forall|j: int| 0 <= j < k implies s[j] != '\n' by {
                assert(s[j] == head[j]);
            }
            lemma_first_index(s, '\n', k);
            assert(s.take(k + 1) == head);
            assert(s.skip(k + 1) == rest.flatten());
        } else {
            assert(gs.len() == 1);
        }
    }
}

/// The lines of the text that the segments from `a` up to `b` make up are the lines
/// from `a` up to `b` of the whole text.
pub proof fn lemma_lines_of_span(s: Seq<char>, a: int, b: int)
    requires
        0 <= a <= b <= segments(s).len(),
    ensures
        lines(segments(s).subrange(a, b).flatten()) == lines(s).subrange(a, b),
{
    let segs = segments(s);
    let part = segs.subrange(a, b);
    lemma_segments_well_cut(s);
    assert forall|i: int| 0 <= i < part.len() implies is_segment(#[trigger] part[i]) && (i
        < part.len() - 1 ==> part[i].last() == '\n') by {
        assert(part[i] == segs[a + i]);
    }
    lemma_segments_of_flatten(part);
    assert(lines(part.flatten()) =~= lines(s).subrange(a, b));
}

/// The texts that a vector of character vectors holds.
pub open spec fn rows(v: Seq<Vec<char>>) -> Seq<Seq<char>> {
    Seq::new(v.len(), |i: int| v[i]@)
}

/// Cuts `v` after every line feed.
pub fn split_segments(v: &Vec<char>) -> (out: Vec<Vec<char>>)
    ensures
        rows(out@) == segments(v@),
{
    let mut out: Vec<Vec<char>> = Vec::new();
    let mut start: usize = 0;
    assert(v@.skip(0) == v@);
    assert(rows(out@) + segments(v@) == segments(v@));
    while start < v.len()
        invariant
            start <= v.len(),
            segments(v@) == rows(out@) + segments(v@.skip(start as int)),
        decreases v.len() - start,
    {
        let found = find_char_from(v, start, '\n');
        let end = if found < v.len() { found + 1 } else { found };
        let piece = sub_vec(v, start, end);
        proof {
            let rest = v@.skip(start as int);
            assert(rest.take(end - start) == v@.subrange(start as int, end as int));
            assert(rest.skip(end - start) == v@.skip(end as int));
            if found >= v.len() {
                assert(rest.take(end - start) == rest);
            }
            assert(segments(rest) == seq![piece@] + segments(v@.skip(end as int)));
            assert(rows(out@.push(piece)) == rows(out@) + seq![piece@]);
        }
        out.push(piece);
        start = end;
    }
    out
}

/// Removes the line ending of a segment.
pub fn strip_line_ending(segment: &Vec<char>) -> (line: Vec<char>)
    ensures
        line@ == line_of(segment@),
{
    let n = segment.len();
    if n > 0 && segment[n - 1] == '\n' {
        if n > 1 && segment[n - 2] == '\r' {
            sub_vec(segment, 0, n - 2)
        } else {
            sub_vec(segment, 0, n - 1)
        }
    } else {
        sub_vec(segment, 0, n)
    }
}

/// Splits `v` into its lines.
pub fn split_lines(v: &Vec<char>) -> (out: Vec<Vec<char>>)
    ensures
        rows(out@) == lines(v@),
{
    let pieces = split_segments(v);
    let mut out: Vec<Vec<char>> = Vec::new();
    let mut i: usize = 0;
    while i < pieces.len()
        invariant
            i <= pieces.len(),
            rows(pieces@) == segments(v@),
            out.len() == i,
            forall|j: int| 0 <= j < i ==> out@[j]@ == line_of(#[trigger] pieces@[j]@),
        decreases pieces.len() - i,
    {
        let line = strip_line_ending(&pieces[i]);
        out.push(line);
        i += 1;
    }
    proof {
        assert(rows(out@).len() == lines(v@).len());
    }
    out
}

/// The number of white-space characters at the start of `s`.
pub open spec fn leading_spaces(s: Seq<char>) -> nat
    decreases s.len(),
{
    if s.len() > 0 && is_space(s[0]) {
        1 + leading_spaces(s.drop_first())
    } else {
        0
    }
}

/// The number of white-space characters at the end of `s`.
pub open spec fn trailing_spaces(s: Seq<char>) -> nat
    decreases s.len(),
{
    if s.len() > 0 && is_space(s.last()) {
        1 + trailing_spaces(s.drop_last())
    } else {
        0
    }
}

/// `s` without its leading white space.
pub open spec fn trim_start(s: Seq<char>) -> Seq<char> {
    s.skip(leading_spaces(s) as int)
}

/// `s` without its trailing white space.
pub open spec fn trim_end(s: Seq<char>) -> Seq<char> {
    s.take(s.len() - trailing_spaces(s))
}

/// `s` without its leading and trailing white space.
pub open spec fn trim(s: Seq<char>) -> Seq<char> {
    trim_end(trim_start(s))
}

/// `leading_spaces` is the length of the longest prefix made of white space.
pub proof fn lemma_leading_spaces(s: Seq<char>, k: int)
    requires
        0 <= k <= s.len(),
        forall|j: int| 0 <= j < k ==> is_space(s[j]),
        k < s.len() ==> !is_space(s[k]),
    ensures
        leading_spaces(s) == k,
    decreases s.len(),
{
    if s.len() > 0 && is_space(s[0]) {
        lemma_leading_spaces(s.drop_first(), k - 1);
    }
}

/// The prefix that `leading_spaces` measures lies inside `s`, is white space, and is
/// followed by a character that is not.
pub proof fn lemma_leading_spaces_bounds(s: Seq<char>)
    ensures
        leading_spaces(s) <= s.len(),
        forall|j: int| 0 <= j < leading_spaces(s) ==> is_space(s[j]),
        leading_spaces(s) < s.len() ==> !is_space(s[leading_spaces(s) as int]),
    decreases s.len(),
{
    if s.len() > 0 && is_space(s[0]) {
        lemma_leading_spaces_bounds(s.drop_first());
        let k = leading_spaces(s.drop_first());
        assert forall|j: int| 0 <= j < k + 1 implies is_space(s[j]) by {
            if j > 0 {
                assert(s.drop_first()[j - 1] == s[j]);
            }
        }
    }
}

/// `trailing_spaces` is the length of the longest suffix made of white space.
pub proof fn lemma_trailing_spaces(s: Seq<char>, k: int)
    requires
        0 <= k <= s.len(),
        forall|j: int| s.len() - k <= j < s.len() ==> is_space(s[j]),
        k < s.len() ==> !is_space(s[s.len() - k - 1]),
    ensures
        trailing_spaces(s) == k,
    decreases s.len(),
{
    if s.len() > 0 && is_space(s.last()) {
        lemma_trailing_spaces(s.drop_last(), k - 1);
    }
}

/// Counts the white-space characters at the start of `v`.
pub fn count_leading_spaces(v: &Vec<char>) -> (k: usize)
    ensures
        k == leading_spaces(v@),
        k <= v.len(),
{
    let mut i: usize = 0;
    while i < v.len() && char_is_space(v[i])
        invariant
            i <= v.len(),
            forall|j: int| 0 <= j < i ==> is_space(v@[j]),
        decreases v.len() - i,
    {
        i += 1;
    }
    proof {
        lemma_leading_spaces(v@, i as int);
    }
    i
}

/// Counts the white-space characters at the end of `v`.
pub fn count_trailing_spaces(v: &Vec<char>) -> (k: usize)
    ensures
        k == trailing_spaces(v@),
        k <= v.len(),
{
    let n = v.len();
    let mut k: usize = 0;
    while k < n && char_is_space(v[n - k - 1])
        invariant
            k <= n,
            n == v.len(),
            forall|j: int| n - k <= j < n ==> is_space(v@[j]),
        decreases n - k,
    {
        k += 1;
    }
    proof {
        lemma_trailing_spaces(v@, k as int);
    }
    k
}

/// A copy of `v` without its leading white space.
pub fn trim_start_chars(v: &Vec<char>) -> (r: Vec<char>)
    ensures
        r@ == trim_start(v@),
{
    let k = count_leading_spaces(v);
    sub_vec(v, k, v.len())
}

/// A copy of `v` without its leading and trailing white space.
pub fn trim_chars(v: &Vec<char>) -> (r: Vec<char>)
    ensures
        r@ == trim(v@),
{
    let t = trim_start_chars(v);
    let k = count_trailing_spaces(&t);
    sub_vec(&t, 0, t.len() - k)
}

/// Tells whether `p` stands in `s` at index `i`.
pub open spec fn occurs_at(s: Seq<char>, p: Seq<char>, i: int) -> bool {
    0 <= i <= s.len() && p.is_prefix_of(s.skip(i))
}

/// Tells whether `p` occurs somewhere in `s`.
pub open spec fn contains_text(s: Seq<char>, p: Seq<char>) -> bool {
    exists|i: int| occurs_at(s, p, i)
}

/// Tells whether `p` stands in `v` at index `at`.
pub(crate) fn has_prefix_at(v: &Vec<char>, at: usize, p: &Vec<char>) -> (b: bool)
    requires
        at <= v.len(),
    ensures
        b == occurs_at(v@, p@, at as int),
{
    if p.len() > v.len() - at {
        return false;
    }
    let ghost rest = v@.skip(at as int);
    let mut i: usize = 0;
    while i < p.len()
        invariant
            i <= p.len(),
            at + p.len() <= v.len(),
            rest == v@.skip(at as int),
            forall|j: int| 0 <= j < i ==> p@[j] == rest[j],
        decreases p.len() - i,
    {
        if p[i] != v[at + i] {
            assert(rest.subrange(0, p.len() as int)[i as int] == rest[i as int]);
            return false;
        }
        i += 1;
    }
    assert(p@ =~= rest.subrange(0, p.len() as int));
    true
}

/// Tells whether `p` occurs somewhere in `v`.
pub fn contains_chars(v: &Vec<char>, p: &Vec<char>) -> (b: bool)
    ensures
        b == contains_text(v@, p@),
{
    let mut i: usize = 0;
    while i <= v.len()
        invariant
            i <= v.len() + 1,
            forall|j: int| 0 <= j < i ==> !occurs_at(v@, p@, j),
        decreases v.len() + 1 - i,
    {
        if has_prefix_at(v, i, p) {
            return true;
        }
        if i == v.len() {
            return false;
        }
        i += 1;
    }
    false
}

/// `s` with every occurrence of `from` replaced by `to`, found from left to right
/// without overlap. An empty `from` matches before every character and at the end.
pub open spec fn replace_all(s: Seq<char>, from: Seq<char>, to: Seq<char>) -> Seq<char>
    decreases s.len(),
{
    if from.len() == 0 {
        if s.len() == 0 {
            to
        } else {
            to + seq![s[0]] + replace_all(s.drop_first(), from, to)
        }
    } else if s.len() == 0 {
        s
    } else if from.is_prefix_of(s) {
        to + replace_all(s.skip(from.len() as int), from, to)
    } else {
        seq![s[0]] + replace_all(s.drop_first(), from, to)
    }
}

/// Replaces every occurrence of `from` in `v` by `to`.
pub fn replace_chars(v: &Vec<char>, from: &Vec<char>, to: &Vec<char>) -> (out: Vec<char>)
    ensures
        out@ == replace_all(v@, from@, to@),
{
    let mut out: Vec<char> = Vec::new();
    let mut i: usize = 0;
    assert(v@.skip(0) == v@);
    while i < v.len()
        invariant
            i <= v.len(),
            replace_all(v@, from@, to@) == out@ + replace_all(v@.skip(i as int), from@, to@),
        decreases v.len() - i,
    {
        let ghost rest = v@.skip(i as int);
        let ghost before = out@;
        if from.len() == 0 {
            append_chars(&mut out, to);
            out.push(v[i]);
            assert(rest.drop_first() == v@.skip(i + 1));
            assert(out@ + replace_all(v@.skip(i + 1), from@, to@) == before + (to@ + seq![rest[0]]
                + replace_all(rest.drop_first(), from@, to@)));
            i += 1;
        } else if has_prefix_at(v, i, from) {
            append_chars(&mut out, to);
            assert(rest.skip(from.len() as int) == v@.skip(i + from.len()));
            assert(out@ + replace_all(v@.skip(i + from.len()), from@, to@) == before + (to@
                + replace_all(rest.skip(from.len() as int), from@, to@)));
            i += from.len();
        } else {
            out.push(v[i]);
            assert(rest.drop_first() == v@.skip(i + 1));
            assert(out@ + replace_all(v@.skip(i + 1), from@, to@) == before + (seq![rest[0]]
                + replace_all(rest.drop_first(), from@, to@)));
            i += 1;
        }
    }
    if from.len() == 0 {
        append_chars(&mut out, to);
    } else {
        assert(out@ + replace_all(v@.skip(i as int), from@, to@) == out@);
    }
    out
}

/// The lines put together with one line feed between each two of them.
pub open spec fn join_lines(ls: Seq<Seq<char>>) -> Seq<char>
    decreases ls.len(),
{
    if ls.len() == 0 {
        Seq::empty()
    } else if ls.len() == 1 {
        ls[0]
    } else {
        join_lines(ls.drop_last()) + seq!['\n'] + ls.last()
    }
}

/// Joins the lines of `ls` with line feeds.
pub fn join_chars(ls: &Vec<Vec<char>>) -> (out: Vec<char>)
    ensures
        out@ == join_lines(rows(ls@)),
{
    let mut out: Vec<char> = Vec::new();
    let mut i: usize = 0;
    assert(rows(ls@).take(0) == Seq::<Seq<char>>::empty());
    while i < ls.len()
        invariant
            i <= ls.len(),
            out@ == join_lines(rows(ls@).take(i as int)),
        decreases ls.len() - i,
    {
        if i > 0 {
            out.push('\n');
        }
        append_chars(&mut out, &ls[i]);
        proof {
            let next = rows(ls@).take(i + 1);
            assert(next.drop_last() == rows(ls@).take(i as int));
            assert(next.last() == ls@[i as int]@);
        }
        i += 1;
    }
    assert(rows(ls@).take(ls.len() as int) == rows(ls@));
    out
}

/// The character that writes the digit `d`.
pub open spec fn digit_char(d: nat) -> char {
    if d == 0 {
        '0'
    } else if d == 1 {
        '1'
    } else if d == 2 {
        '2'
    } else if d == 3 {
        '3'
    } else if d == 4 {
        '4'
    } else if d == 5 {
        '5'
    } else if d == 6 {
        '6'
    } else if d == 7 {
        '7'
    } else if d == 8 {
        '8'
    } else {
        '9'
    }
}

/// The decimal notation of `n`, without leading zeros.
pub open spec fn decimal(n: nat) -> Seq<char>
    decreases n,
{
    if n < 10 {
        seq![digit_char(n)]
    } else {
        decimal(n / 10).push(digit_char(n % 10))
    }
}

fn digit_of(d: usize) -> (c: char)
    requires
        d < 10,
    ensures
        c == digit_char(d as nat),
{
    if d == 0 {
        '0'
    } else if d == 1 {
        '1'
    } else if d == 2 {
        '2'
    } else if d == 3 {
        '3'
    } else if d == 4 {
        '4'
    } else if d == 5 {
        '5'
    } else if d == 6 {
        '6'
    } else if d == 7 {
        '7'
    } else if d == 8 {
        '8'
    } else {
        '9'
    }
}

/// Writes `n` in decimal notation.
pub fn decimal_chars(n: usize) -> (out: Vec<char>)
    ensures
        out@ == decimal(n as nat),
    decreases n,
{
    if n < 10 {
        let mut out: Vec<char> = Vec::new();
        out.push(digit_of(n));
        out
    } else {
        let mut out = decimal_chars(n / 10);
        out.push(digit_of(n % 10));
        out
    }
}

/// The texts that a vector of strings holds.
pub open spec fn texts(v: Seq<String>) -> Seq<Seq<char>> {
    Seq::new(v.len(), |i: int| v[i]@)
}

/// The strings of `v` as character vectors.
pub fn rows_of(v: &Vec<String>) -> (out: Vec<Vec<char>>)
    ensures
        rows(out@) == texts(v@),
{
    let mut out: Vec<Vec<char>> = Vec::new();
    let mut i: usize = 0;
    while i < v.len()
        invariant
            i <= v.len(),
            out.len() == i,
            forall|j: int| 0 <= j < i ==> out@[j]@ == v@[j]@,
        decreases v.len() - i,
    {
        out.push(chars_of(v[i].as_str()));
        i += 1;
    }
    assert(rows(out@) =~= texts(v@));
    out
}

/// The character vectors of `v` as strings.
pub fn strings_of(v: &Vec<Vec<char>>) -> (out: Vec<String>)
    ensures
        texts(out@) == rows(v@),
{
    let mut out: Vec<String> = Vec::new();
    let mut i: usize = 0;
    while i < v.len()
        invariant
            i <= v.len(),
            out.len() == i,
            forall|j: int| 0 <= j < i ==> out@[j]@ == v@[j]@,
        decreases v.len() - i,
    {
        out.push(string_of(&v[i]));
        i += 1;
    }
    assert(texts(out@) =~= rows(v@));
    out
}

/// Tells whether `x` is one of the texts of `list`.
pub fn holds_text(list: &Vec<Vec<char>>, x: &Vec<char>) -> (b: bool)
    ensures
        b == rows(list@).contains(x@),
{
    let mut i: usize = 0;
    while i < list.len()
        invariant
            i <= list.len(),
            forall|j: int| 0 <= j < i ==> rows(list@)[j] != x@,
        decreases list.len() - i,
    {
        if same_chars(&list[i], x) {
            assert(rows(list@)[i as int] == x@);
            return true;
        }
        i += 1;
    }
    false
}

/// The texts of `s` without repetitions, each at the place of its first occurrence.
pub open spec fn distinct(s: Seq<Seq<char>>) -> Seq<Seq<char>>
    decreases s.len(),
{
    if s.len() == 0 {
        s
    } else {
        let d = distinct(s.drop_last());
        if d.contains(s.last()) {
            d
        } else {
            d.push(s.last())
        }
    }
}

/// The texts of `xs`, in order, that occur in `ys` (for `present`) or that do not
/// (for `!present`).
pub open spec fn selected(xs: Seq<Seq<char>>, ys: Seq<Seq<char>>, present: bool) -> Seq<Seq<char>>
    decreases xs.len(),
{
    if xs.len() == 0 {
        xs
    } else {
        let rest = selected(xs.drop_last(), ys, present);
        if ys.contains(xs.last()) == present {
            rest.push(xs.last())
        } else {
            rest
        }
    }
}

/// `distinct(s)` holds the texts of `s`, no more and no fewer, and none twice.
pub proof fn lemma_distinct(s: Seq<Seq<char>>)
    ensures
        distinct(s).no_duplicates(),
        forall|y: Seq<char>| #[trigger] distinct(s).contains(y) <==> s.contains(y),
    decreases s.len(),
{
    if s.len() > 0 {
        let front = s.drop_last();
        let d = distinct(front);
        let r = distinct(s);
        lemma_distinct(front);
        assert forall|y: Seq<char>| #[trigger] r.contains(y) <==> s.contains(y) by {
            if r.contains(y) {
                let k = choose|k: int| 0 <= k < r.len() && r[k] == y;
                if k < d.len() {
                    assert(d[k] == y);
                    assert(d.contains(y));
                } else {
                    assert(s[s.len() - 1] == y);
                }
            }
            if s.contains(y) {
                let k = choose|k: int| 0 <= k < s.len() && s[k] == y;
                if k < front.len() {
                    assert(front[k] == y);
                    assert(d.contains(y));
                    let m = choose|m: int| 0 <= m < d.len() && d[m] == y;
                    assert(r[m] == y);
                } else if d.contains(y) {
                    let m = choose|m: int| 0 <= m < d.len() && d[m] == y;
                    assert(r[m] == y);
                } else {
                    assert(r[d.len() as int] == y);
                }
            }
        }
        assert forall|i: int, j: int| 0 <= i < r.len() && 0 <= j < r.len() && i != j implies r[i]
            != r[j] by {
            if i < d.len() && j < d.len() {
                assert(r[i] == d[i] && r[j] == d[j]);
            } else if i < d.len() {
                assert(d.contains(d[i]));
            } else if j < d.len() {
                assert(d.contains(d[j]));
            }
        }
    }
}

/// `selected` holds the texts of `xs` that occur in `ys`, or those that do not, no
/// more and no fewer.
pub proof fn lemma_selected(xs: Seq<Seq<char>>, ys: Seq<Seq<char>>, present: bool)
    ensures
        forall|y: Seq<char>| #[trigger]
            selected(xs, ys, present).contains(y) <==> xs.contains(y) && ys.contains(y)
                == present,
    decreases xs.len(),
{
    if xs.len() > 0 {
        let front = xs.drop_last();
        let inner = selected(front, ys, present);
        let r = selected(xs, ys, present);
        lemma_selected(front, ys, present);
        assert forall|y: Seq<char>| #[trigger]
            r.contains(y) <==> xs.contains(y) && ys.contains(y) == present by {
            if r.contains(y) {
                let k = choose|k: int| 0 <= k < r.len() && r[k] == y;
                if k < inner.len() {
                    assert(inner[k] == y);
                } else {
                    assert(xs.last() == y);
                }
            }
            if xs.contains(y) && ys.contains(y) == present {
                let k = choose|k: int| 0 <= k < xs.len() && xs[k] == y;
                if k < front.len() {
                    assert(front[k] == y);
                    assert(inner.contains(y));
                    let m = choose|m: int| 0 <= m < inner.len() && inner[m] == y;
                    assert(r[m] == y);
                } else {
                    assert(r[inner.len() as int] == y);
                }
            }
        }
    }
}

/// A selection from texts without repetitions has no repetitions.
pub proof fn lemma_selected_distinct(xs: Seq<Seq<char>>, ys: Seq<Seq<char>>, present: bool)
    requires
        xs.no_duplicates(),
    ensures
        selected(xs, ys, present).no_duplicates(),
    decreases xs.len(),
{
    if xs.len() > 0 {
        let front = xs.drop_last();
        let inner = selected(front, ys, present);
        let r = selected(xs, ys, present);
        lemma_selected_distinct(front, ys, present);
        lemma_selected(front, ys, present);
        assert forall|i: int, j: int| 0 <= i < r.len() && 0 <= j < r.len() && i != j implies r[i]
            != r[j] by {
            if i < inner.len() && j < inner.len() {
                assert(r[i] == inner[i] && r[j] == inner[j]);
            } else {
                let k = if i < inner.len() {
                    i
                } else {
                    j
                };
                assert(inner.contains(inner[k]));
                assert(front.contains(inner[k]));
            }
        }
    }
}

/// When every text of `xs` occurs in `ys`, none is selected as absent.
pub proof fn lemma_selected_none(xs: Seq<Seq<char>>, ys: Seq<Seq<char>>)
    requires
        forall|y: Seq<char>| xs.contains(y) ==> ys.contains(y),
    ensures
        selected(xs, ys, false) == Seq::<Seq<char>>::empty(),
{
    lemma_selected(xs, ys, false);
    let r = selected(xs, ys, false);
    if r.len() > 0 {
        assert(r.contains(r[0]));
    }
}

/// Removes the repetitions of `list`.
pub fn distinct_rows(list: &Vec<Vec<char>>) -> (out: Vec<Vec<char>>)
    ensures
        rows(out@) == distinct(rows(list@)),
{
    let mut out: Vec<Vec<char>> = Vec::new();
    let mut i: usize = 0;
    while i < list.len()
        invariant
            i <= list.len(),
            rows(out@) == distinct(rows(list@).take(i as int)),
        decreases list.len() - i,
    {
        proof {
            let next = rows(list@).take(i + 1);
            assert(next.drop_last() == rows(list@).take(i as int));
        }
        if !holds_text(&out, &list[i]) {
            let x = sub_vec(&list[i], 0, list[i].len());
            assert(x@ == list@[i as int]@);
            out.push(x);
        }
        i += 1;
    }
    assert(rows(list@).take(list.len() as int) == rows(list@));
    out
}

/// Keeps the texts of `xs` that occur in `ys`, or those that do not.
pub fn select_rows(xs: &Vec<Vec<char>>, ys: &Vec<Vec<char>>, present: bool) -> (out: Vec<
    Vec<char>,
>)
    ensures
        rows(out@) == selected(rows(xs@), rows(ys@), present),
{
    let mut out: Vec<Vec<char>> = Vec::new();
    let mut i: usize = 0;
    while i < xs.len()
        invariant
            i <= xs.len(),
            rows(out@) == selected(rows(xs@).take(i as int), rows(ys@), present),
        decreases xs.len() - i,
    {
        proof {
            let next = rows(xs@).take(i + 1);
            assert(next.drop_last() == rows(xs@).take(i as int));
        }
        if holds_text(ys, &xs[i]) == present {
            let x = sub_vec(&xs[i], 0, xs[i].len());
            assert(x@ == xs@[i as int]@);
            out.push(x);
        }
        i += 1;
    }
    assert(rows(xs@).take(xs.len() as int) == rows(xs@));
    out
}

} // verus!
