//! Merging of translated slices, in line order, under a new language header.

use crate::error::{text_result, ErrorView, PostprocessError, TranslationError};
use crate::text::{
    append_chars, chars_of, decimal, decimal_chars, join_chars, join_lines, lines, rows,
    split_lines, string_of,
};
use vstd::prelude::*;

verus! {

/// A contiguous range of lines of a document, with its text.
#[derive(Debug)]
pub struct TranslationSlice {
    /// The text of the lines.
    pub content: String,
    /// Number of the first line, counted from 1.
    pub start_line: usize,
    /// Number of the last line.
    pub end_line: usize,
}

/// The mathematical value of a slice.
pub struct SliceView {
    pub content: Seq<char>,
    pub start_line: nat,
    pub end_line: nat,
}

impl View for TranslationSlice {
    type V = SliceView;

    open spec fn view(&self) -> SliceView {
        SliceView {
            content: self.content@,
            start_line: self.start_line as nat,
            end_line: self.end_line as nat,
        }
    }
}

/// The values of a vector of slices.
pub open spec fn slice_views(v: Seq<TranslationSlice>) -> Seq<SliceView> {
    Seq::new(v.len(), |i: int| v[i]@)
}

/// `x` put into `sorted` behind every slice that does not start after it.
pub open spec fn insert_by_start(sorted: Seq<SliceView>, x: SliceView) -> Seq<SliceView>
    decreases sorted.len(),
{
    if sorted.len() == 0 {
        seq![x]
    } else if sorted.last().start_line <= x.start_line {
        sorted.push(x)
    } else {
        insert_by_start(sorted.drop_last(), x).push(sorted.last())
    }
}

/// The slices ordered by their first line; slices with the same first line keep
/// their order.
pub open spec fn sort_by_start(s: Seq<SliceView>) -> Seq<SliceView>
    decreases s.len(),
{
    if s.len() == 0 {
        s
    } else {
        insert_by_start(sort_by_start(s.drop_last()), s.last())
    }
}

/// Tells whether the slices are ordered by their first line.
pub open spec fn ordered_by_start(s: Seq<SliceView>) -> bool {
    forall|i: int, j: int| 0 <= i <= j < s.len() ==> s[i].start_line <= s[j].start_line
}

/// Tells whether slice `i` does not start on the line after the end of slice `i - 1`.
pub open spec fn gap_at(s: Seq<SliceView>, i: int) -> bool {
    1 <= i < s.len() && s[i].start_line != s[i - 1].end_line + 1
}

/// The first index at or after `from` with a gap before it, or `s.len()` when there
/// is none.
pub open spec fn first_gap_from(s: Seq<SliceView>, from: int) -> int
    decreases s.len() - from,
{
    if from >= s.len() {
        s.len() as int
    } else if gap_at(s, from) {
        from
    } else {
        first_gap_from(s, from + 1)
    }
}

/// Tells whether every slice starts on the line after the end of the one before it.
pub open spec fn contiguous(s: Seq<SliceView>) -> bool {
    forall|i: int| 1 <= i < s.len() ==> !gap_at(s, i)
}

/// What is put in front of every merged line.
pub open spec fn indent() -> Seq<char> {
    seq![' ', ' ', ' ', ' ']
}

/// The lines with four spaces put in front of each.
pub open spec fn indented(ls: Seq<Seq<char>>) -> Seq<Seq<char>> {
    Seq::new(ls.len(), |i: int| indent() + ls[i])
}

/// The lines of all the slices, slice after slice.
pub open spec fn slice_lines(s: Seq<SliceView>) -> Seq<Seq<char>>
    decreases s.len(),
{
    if s.len() == 0 {
        Seq::empty()
    } else {
        slice_lines(s.drop_last()) + lines(s.last().content)
    }
}

/// The message for a slice that starts at `start` behind one that ends at `prev_end`.
pub open spec fn gap_message(start: nat, prev_end: nat) -> Seq<char> {
    "Slices are not contiguous: "@ + decimal(start) + " != "@ + decimal(prev_end) + " + 1"@
}

/// What merging yields: an error for no slices, an error for the first gap in line
/// order, else the indented lines of the ordered slices.
pub open spec fn merge_spec(slices: Seq<SliceView>) -> Result<Seq<char>, ErrorView> {
    if slices.len() == 0 {
        Err(ErrorView::InconsistentSlices)
    } else {
        let sorted = sort_by_start(slices);
        let g = first_gap_from(sorted, 1);
        if g < sorted.len() {
            Err(ErrorView::MergeFailed(gap_message(sorted[g].start_line, sorted[g - 1].end_line)))
        } else {
            Ok(join_lines(indented(slice_lines(sorted))))
        }
    }
}

/// The line that declares the language of a document, with its line feed.
pub open spec fn header_line(lang: Seq<char>) -> Seq<char> {
    "l_"@ + lang + ":\n"@
}

/// What reconstruction yields: the header line followed by the merged slices.
pub open spec fn reconstruct_spec(slices: Seq<SliceView>, lang: Seq<char>) -> Result<
    Seq<char>,
    ErrorView,
> {
    match merge_spec(slices) {
        Ok(body) => Ok(header_line(lang) + body),
        Err(e) => Err(e),
    }
}

/// Putting a slice into ordered slices keeps them ordered and adds that slice alone.
pub proof fn lemma_insert_by_start(sorted: Seq<SliceView>, x: SliceView)
    requires
        ordered_by_start(sorted),
    ensures
        ordered_by_start(insert_by_start(sorted, x)),
        insert_by_start(sorted, x).to_multiset() == sorted.to_multiset().insert(x),
        insert_by_start(sorted, x).len() == sorted.len() + 1,
        forall|i: int|
            0 <= i < insert_by_start(sorted, x).len() ==> insert_by_start(sorted, x)[i] == x
                || sorted.contains(#[trigger] insert_by_start(sorted, x)[i]),
    decreases sorted.len(),
{
    broadcast use vstd::seq_lib::group_to_multiset_ensures;

    let r = insert_by_start(sorted, x);
    if sorted.len() == 0 {
    } else if sorted.last().start_line <= x.start_line {
    } else {
        let front = sorted.drop_last();
        let last = sorted.last();
        lemma_insert_by_start(front, x);
        assert(front.push(last) == sorted);
        assert(r.to_multiset() == sorted.to_multiset().insert(x)) by {
            assert(front.to_multiset().insert(x).insert(last) =~= front.to_multiset().insert(
                last,
            ).insert(x));
        }
    }
}

/// Ordering slices gives the same slices, each as often as before, ordered by their
/// first line.
pub proof fn lemma_sort_by_start(s: Seq<SliceView>)
    ensures
        ordered_by_start(sort_by_start(s)),
        sort_by_start(s).to_multiset() == s.to_multiset(),
        sort_by_start(s).len() == s.len(),
    decreases s.len(),
{
    broadcast use vstd::seq_lib::group_to_multiset_ensures;

    if s.len() > 0 {
        lemma_sort_by_start(s.drop_last());
        lemma_insert_by_start(sort_by_start(s.drop_last()), s.last());
        assert(s.drop_last().push(s.last()) == s);
    }
}

/// Tells whether each slice covers at least one line and begins on the line after the
/// end of the one before it.
pub open spec fn in_sequence(s: Seq<SliceView>) -> bool {
    &&& forall|k: int| 0 <= k < s.len() ==> (#[trigger] s[k]).start_line <= s[k].end_line
    &&& forall|k: int| 1 <= k < s.len() ==> (#[trigger] s[k]).start_line == s[k - 1].end_line + 1
}

/// Slices in sequence are ordered by their first line.
pub proof fn lemma_sequence_ordered(s: Seq<SliceView>, i: int, j: int)
    requires
        in_sequence(s),
        0 <= i <= j < s.len(),
    ensures
        s[i].start_line <= s[j].start_line,
    decreases j - i,
{
    if i < j {
        lemma_sequence_ordered(s, i, j - 1);
    }
}

/// Ordering slices that are ordered already changes nothing.
pub proof fn lemma_sort_ordered(s: Seq<SliceView>)
    requires
        ordered_by_start(s),
    ensures
        sort_by_start(s) == s,
    decreases s.len(),
{
    if s.len() > 0 {
        let front = s.drop_last();
        lemma_sort_ordered(front);
    }
}

/// Slices in sequence have no gap.
pub proof fn lemma_sequence_has_no_gap(s: Seq<SliceView>, from: int)
    requires
        in_sequence(s),
        1 <= from,
    ensures
        first_gap_from(s, from) >= s.len(),
    decreases s.len() - from,
{
    if from < s.len() {
        lemma_sequence_has_no_gap(s, from + 1);
    }
}

/// Merging slices that stand in sequence succeeds and gives their lines, in their
/// order, each indented.
pub proof fn lemma_merge_in_sequence(s: Seq<SliceView>)
    requires
        s.len() > 0,
        in_sequence(s),
    ensures
        merge_spec(s) == Ok::<Seq<char>, ErrorView>(join_lines(indented(slice_lines(s)))),
{
    assert forall|i: int, j: int| 0 <= i <= j < s.len() implies s[i].start_line
        <= s[j].start_line by {
        lemma_sequence_ordered(s, i, j);
    }
    lemma_sort_ordered(s);
    lemma_sequence_has_no_gap(s, 1);
}

/// Inserting behind the last slice that does not start after `x` is inserting at the
/// index from which on all slices start after `x`.
proof fn lemma_insert_position(sorted: Seq<SliceView>, x: SliceView, pos: int)
    requires
        0 <= pos <= sorted.len(),
        forall|j: int| pos <= j < sorted.len() ==> sorted[j].start_line > x.start_line,
        pos > 0 ==> sorted[pos - 1].start_line <= x.start_line,
    ensures
        insert_by_start(sorted, x) == sorted.insert(pos, x),
    decreases sorted.len(),
{
    if sorted.len() == 0 {
    } else if sorted.last().start_line <= x.start_line {
    } else {
        lemma_insert_position(sorted.drop_last(), x, pos);
    }
}

/// Orders the slices by their first line, keeping the order of equal ones.
fn sort_slices(slices: Vec<TranslationSlice>) -> (sorted: Vec<TranslationSlice>)
    ensures
        slice_views(sorted@) == sort_by_start(slice_views(slices@)),
{
    let ghost all = slice_views(slices@);
    let mut rest = slices;
    let mut sorted: Vec<TranslationSlice> = Vec::new();
    let ghost mut done: int = 0;
    assert(all.skip(0) == all);
    while rest.len() > 0
        invariant
            0 <= done <= all.len(),
            slice_views(rest@) == all.skip(done),
            slice_views(sorted@) == sort_by_start(all.take(done)),
        decreases rest.len(),
    {
        let ghost before = slice_views(sorted@);
        let ghost rest_before = slice_views(rest@);
        assert(rest_before.len() == rest.len());
        let x = rest.remove(0);
        let mut pos: usize = sorted.len();
        while pos > 0 && sorted[pos - 1].start_line > x.start_line
            invariant
                pos <= sorted.len(),
                before == slice_views(sorted@),
                forall|j: int| pos <= j < sorted.len() ==> before[j].start_line > x@.start_line,
            decreases pos,
        {
            pos -= 1;
        }
        proof {
            lemma_insert_position(before, x@, pos as int);
            assert(rest_before[0] == all[done]);
            assert(all.take(done + 1).drop_last() == all.take(done));
            assert forall|k: int| 0 <= k < rest.len() implies slice_views(rest@)[k] == all.skip(
                done + 1,
            )[k] by {
                assert(rest_before[k + 1] == all.skip(done)[k + 1]);
            }
        }
        sorted.insert(pos, x);
        proof {
            done = done + 1;
        }
    }
    sorted
}

/// Finds the first slice that does not continue the one before it.
fn find_gap(sorted: &Vec<TranslationSlice>) -> (g: usize)
    requires
        sorted.len() > 0,
    ensures
        g == first_gap_from(slice_views(sorted@), 1),
        1 <= g <= sorted.len(),
{
    let ghost s = slice_views(sorted@);
    let mut i: usize = 1;
    while i < sorted.len()
        invariant
            1 <= i <= sorted.len(),
            s == slice_views(sorted@),
            first_gap_from(s, 1) == first_gap_from(s, i as int),
        decreases sorted.len() - i,
    {
        let prev_end = sorted[i - 1].end_line;
        if prev_end == usize::MAX || sorted[i].start_line != prev_end + 1 {
            return i;
        }
        i += 1;
    }
    i
}

/// Writes the message for a gap.
fn write_gap_message(start: usize, prev_end: usize) -> (m: String)
    ensures
        m@ == gap_message(start as nat, prev_end as nat),
{
    let mut out = chars_of("Slices are not contiguous: ");
    append_chars(&mut out, &decimal_chars(start));
    append_chars(&mut out, &chars_of(" != "));
    append_chars(&mut out, &decimal_chars(prev_end));
    append_chars(&mut out, &chars_of(" + 1"));
    string_of(&out)
}

/// Collects the indented lines of the slices.
fn indented_lines(sorted: &Vec<TranslationSlice>) -> (out: Vec<Vec<char>>)
    ensures
        rows(out@) == indented(slice_lines(slice_views(sorted@))),
{
    let ghost s = slice_views(sorted@);
    let mut out: Vec<Vec<char>> = Vec::new();
    let mut i: usize = 0;
    while i < sorted.len()
        invariant
            i <= sorted.len(),
            s == slice_views(sorted@),
            rows(out@) == indented(slice_lines(s.take(i as int))),
        decreases sorted.len() - i,
    {
        let text = chars_of(sorted[i].content.as_str());
        let ls = split_lines(&text);
        let ghost base = slice_lines(s.take(i as int));
        let mut j: usize = 0;
        while j < ls.len()
            invariant
                j <= ls.len(),
                rows(out@) == indented(base + rows(ls@).take(j as int)),
            decreases ls.len() - j,
        {
            let mut line: Vec<char> = Vec::new();
            line.push(' ');
            line.push(' ');
            line.push(' ');
            line.push(' ');
            append_chars(&mut line, &ls[j]);
            proof {
                assert(line@ == indent() + ls@[j as int]@);
                assert(rows(out@.push(line)) == rows(out@).push(line@));
            }
            out.push(line);
            j += 1;
        }
        proof {
            assert(s.take(i + 1).drop_last() == s.take(i as int));
        }
        i += 1;
    }
    assert(s.take(sorted.len() as int) == s);
    out
}

/// Merges translated slices into one body.
///
/// The slices are ordered by their first line. Each must start on the line after the
/// end of the one before it. Every line of every slice is indented by four spaces,
/// and the lines are joined with line feeds.
pub fn merge_slices(slices: Vec<TranslationSlice>) -> (res: Result<String, TranslationError>)
    ensures
        text_result(res) == merge_spec(slice_views(slices@)),
{
    if slices.len() == 0 {
        return Err(TranslationError::Postprocess(PostprocessError::InconsistentSlices));
    }
    let sorted = sort_slices(slices);
    let g = find_gap(&sorted);
    if g < sorted.len() {
        let message = write_gap_message(sorted[g].start_line, sorted[g - 1].end_line);
        return Err(TranslationError::Postprocess(PostprocessError::MergeFailed(message)));
    }
    let out = indented_lines(&sorted);
    Ok(string_of(&join_chars(&out)))
}

/// Rebuilds a whole document: the header line of `target_lang`, then the merged slices.
pub fn reconstruct_yaml_file(slices: Vec<TranslationSlice>, target_lang: &str) -> (res: Result<
    String,
    TranslationError,
>)
    ensures
        text_result(res) == reconstruct_spec(slice_views(slices@), target_lang@),
{
    match merge_slices(slices) {
        Ok(merged) => {
            let mut out = chars_of("l_");
            append_chars(&mut out, &chars_of(target_lang));
            append_chars(&mut out, &chars_of(":\n"));
            append_chars(&mut out, &chars_of(merged.as_str()));
            Ok(string_of(&out))
        },
        Err(e) => Err(e),
    }
}

} // verus!
