//! Cutting of a document body into slices of bounded size, at entry boundaries.

use crate::postprocess::merger::{slice_lines, slice_views, SliceView, TranslationSlice};
use crate::text::{
    char_is_space, chars_of, find_char_from, first_index, is_space, line_of, lines, segments,
    string_of, strip_line_ending, sub_vec, trim_start, trim_start_chars,
};
use vstd::prelude::*;

verus! {

/// Tells whether a line opens an entry: behind its leading white space stands a key
/// and then a colon. A key is not empty, holds neither white space nor a quotation
/// mark, and does not begin with `#`.
pub open spec fn opens_entry(line: Seq<char>) -> bool {
    let t = trim_start(line);
    let k = first_index(t, ':') as int;
    &&& 0 < k < t.len()
    &&& t[0] != '#'
    &&& forall|j: int| 0 <= j < k ==> !is_space(#[trigger] t[j]) && t[j] != '"'
}

/// Tells whether `line` opens an entry.
pub fn line_opens_entry(line: &Vec<char>) -> (b: bool)
    ensures
        b == opens_entry(line@),
{
    let t = trim_start_chars(line);
    let k = find_char_from(&t, 0, ':');
    assert(t@.skip(0) == t@);
    if k == 0 || k >= t.len() || t[0] == '#' {
        return false;
    }
    let mut j: usize = 0;
    while j < k
        invariant
            j <= k < t.len(),
            t@ == trim_start(line@),
            k == first_index(t@, ':'),
            t@[0] != '#',
            forall|i: int| 0 <= i < j ==> !is_space(#[trigger] t@[i]) && t@[i] != '"',
        decreases k - j,
    {
        if char_is_space(t[j]) || t[j] == '"' {
            return false;
        }
        j += 1;
    }
    true
}

/// The pieces of `s` between consecutive offsets.
pub open spec fn pieces(s: Seq<char>, offsets: Seq<usize>) -> Seq<Seq<char>> {
    Seq::new(
        (offsets.len() - 1) as nat,
        |i: int| s.subrange(offsets[i] as int, offsets[i + 1] as int),
    )
}

/// Tells whether the offsets start at 0, never decrease and end at the end of `s`.
pub open spec fn offsets_cover(s: Seq<char>, offsets: Seq<usize>) -> bool {
    &&& offsets.len() > 0
    &&& offsets[0] == 0
    &&& offsets.last() == s.len()
    &&& forall|i: int, j: int| 0 <= i <= j < offsets.len() ==> offsets[i] <= offsets[j]
}

/// Finds where each segment of `v` starts and where the last one ends.
fn segment_offsets(v: &Vec<char>) -> (offsets: Vec<usize>)
    ensures
        offsets_cover(v@, offsets@),
        pieces(v@, offsets@) == segments(v@),
{
    let mut offsets: Vec<usize> = Vec::new();
    offsets.push(0);
    let mut start: usize = 0;
    assert(v@.skip(0) == v@);
    while start < v.len()
        invariant
            start <= v.len(),
            offsets.len() > 0,
            offsets@[0] == 0,
            offsets@.last() == start,
            forall|i: int, j: int| 0 <= i <= j < offsets.len() ==> offsets@[i] <= offsets@[j],
            segments(v@) == pieces(v@, offsets@) + segments(v@.skip(start as int)),
        decreases v.len() - start,
    {
        let found = find_char_from(v, start, '\n');
        let end = if found < v.len() { found + 1 } else { found };
        proof {
            let rest = v@.skip(start as int);
            let piece = v@.subrange(start as int, end as int);
            assert(rest.take(end - start) == piece);
            assert(rest.skip(end - start) == v@.skip(end as int));
        }
        offsets.push(end);
        start = end;
    }
    offsets
}

/// Index of the first line behind line `i` that opens an entry, or the number of lines
/// when there is none: the end of the entry that line `i` belongs to.
pub open spec fn entry_end(segs: Seq<Seq<char>>, i: int) -> int
    decreases segs.len() - i,
{
    if i + 1 >= segs.len() {
        segs.len() as int
    } else if opens_entry(line_of(segs[i + 1])) {
        i + 1
    } else {
        entry_end(segs, i + 1)
    }
}

/// The slice made of the segments from index `a` up to, not including, `b`.
pub open spec fn slice_between(segs: Seq<Seq<char>>, a: int, b: int) -> SliceView {
    SliceView {
        content: segs.subrange(a, b).flatten(),
        start_line: (a + 1) as nat,
        end_line: b as nat,
    }
}

/// Tells whether the slice that began at line `from` is closed before line `i`: line
/// `i` opens an entry, and with that entry the slice would hold more than `budget`
/// characters.
pub open spec fn closes_before(segs: Seq<Seq<char>>, budget: nat, from: int, i: int) -> bool {
    &&& opens_entry(line_of(segs[i]))
    &&& segs.subrange(from, entry_end(segs, i)).flatten().len() > budget
}

/// The slices cut from line `from` on, when the lines before `i` already belong to the
/// slice that began at `from`.
pub open spec fn chunks_from(segs: Seq<Seq<char>>, budget: nat, from: int, i: int) -> Seq<
    SliceView,
>
    decreases segs.len() - i,
{
    if i >= segs.len() {
        seq![slice_between(segs, from, segs.len() as int)]
    } else if closes_before(segs, budget, from, i) {
        seq![slice_between(segs, from, i)] + chunks_from(segs, budget, i, i + 1)
    } else {
        chunks_from(segs, budget, from, i + 1)
    }
}

/// The slices of a body: none for an empty body; else the lines are taken in order,
/// and a slice is closed before an entry with which it would exceed the budget.
pub open spec fn chunk_spec(body: Seq<char>, budget: nat) -> Seq<SliceView> {
    let segs = segments(body);
    if segs.len() == 0 {
        Seq::empty()
    } else {
        chunks_from(segs, budget, 0, 1)
    }
}

/// Tells whether the slices, in order, share out the lines `from + 1` to the last one
/// of `segs`: each covers a range of lines that is not empty and begins on the line
/// after the end of the one before it, and holds the text of its lines.
pub open spec fn shares_out(chunks: Seq<SliceView>, segs: Seq<Seq<char>>, from: int) -> bool {
    &&& chunks.len() > 0
    &&& chunks[0].start_line == from + 1
    &&& chunks.last().end_line == segs.len()
    &&& forall|k: int|
        0 <= k < chunks.len() ==> from < (#[trigger] chunks[k]).start_line <= chunks[k].end_line
            <= segs.len()
    &&& forall|k: int|
        1 <= k < chunks.len() ==> (#[trigger] chunks[k]).start_line == chunks[k - 1].end_line + 1
    &&& forall|k: int|
        0 <= k < chunks.len() ==> (#[trigger] chunks[k]).content == segs.subrange(
            chunks[k].start_line - 1,
            chunks[k].end_line as int,
        ).flatten()
}

/// Tells whether the slices respect the entries and the budget: each slice but the
/// first begins on a line that opens an entry; each slice either holds no more than
/// `budget` characters or ends where the entry of its first line ends; and no slice
/// could take the entry behind it without holding more than `budget` characters.
pub open spec fn respects_entries(chunks: Seq<SliceView>, segs: Seq<Seq<char>>, budget: nat) -> bool {
    &&& forall|k: int|
        1 <= k < chunks.len() ==> opens_entry(
            line_of(segs[(#[trigger] chunks[k]).start_line - 1]),
        )
    &&& forall|k: int|
        0 <= k < chunks.len() ==> (#[trigger] chunks[k]).content.len() <= budget
            || chunks[k].end_line == entry_end(segs, chunks[k].start_line - 1)
    &&& forall|k: int|
        1 <= k < chunks.len() ==> segs.subrange(
            chunks[k - 1].start_line - 1,
            entry_end(segs, (#[trigger] chunks[k]).start_line - 1),
        ).flatten().len() > budget
}

/// The slices cut from line `from` on share out the lines behind it and respect the
/// entries and the budget, provided that the slice in the making does so up to the
/// end of the entry of line `i - 1`.
proof fn lemma_chunks_from(segs: Seq<Seq<char>>, budget: nat, from: int, i: int)
    requires
        0 <= from < i <= segs.len(),
        segs.subrange(from, entry_end(segs, i - 1)).flatten().len() <= budget || entry_end(
            segs,
            i - 1,
        ) == entry_end(segs, from),
    ensures
        shares_out(chunks_from(segs, budget, from, i), segs, from),
        respects_entries(chunks_from(segs, budget, from, i), segs, budget),
        chunks_from(segs, budget, from, i)[0].end_line >= i,
    decreases segs.len() - i,
{
    let r = chunks_from(segs, budget, from, i);
    if i >= segs.len() {
    } else if closes_before(segs, budget, from, i) {
        let tail = chunks_from(segs, budget, i, i + 1);
        lemma_chunks_from(segs, budget, i, i + 1);
        assert forall|k: int| 1 <= k < r.len() implies r[k] == tail[k - 1] by {}
    } else {
        lemma_chunks_from(segs, budget, from, i + 1);
    }
}

/// Tells whether the slices tile the body: there is none for an empty body; else the
/// first begins on line 1, each begins on the line after the end of the one before
/// it, the last ends on the last line, and each holds exactly the lines of its range,
/// so that the lines of all slices, in order, are the lines of the body.
pub open spec fn tiles(chunks: Seq<SliceView>, body: Seq<char>) -> bool {
    &&& body.len() == 0 ==> chunks.len() == 0
    &&& body.len() > 0 ==> shares_out(chunks, segments(body), 0)
    &&& forall|k: int|
        0 <= k < chunks.len() ==> lines((#[trigger] chunks[k]).content) == lines(body).subrange(
            chunks[k].start_line - 1,
            chunks[k].end_line as int,
        )
    &&& slice_lines(chunks) == lines(body)
}

/// The lines of the first `k` slices are the lines of the body up to the end of the
/// last of them.
proof fn lemma_slice_lines_prefix(chunks: Seq<SliceView>, body: Seq<char>, k: int)
    requires
        shares_out(chunks, segments(body), 0),
        forall|j: int|
            0 <= j < chunks.len() ==> lines((#[trigger] chunks[j]).content) == lines(
                body,
            ).subrange(chunks[j].start_line - 1, chunks[j].end_line as int),
        1 <= k <= chunks.len(),
    ensures
        slice_lines(chunks.take(k)) == lines(body).take(chunks[k - 1].end_line as int),
    decreases k,
{
    let part = chunks.take(k);
    if k == 1 {
        assert(slice_lines(part.drop_last()) == Seq::<Seq<char>>::empty());
    } else {
        lemma_slice_lines_prefix(chunks, body, k - 1);
        assert(part.drop_last() == chunks.take(k - 1));
    }
}

/// The slices of a body tile it and respect its entries and the budget, for every
/// body and every budget.
pub proof fn lemma_chunks_tile(body: Seq<char>, budget: nat)
    ensures
        tiles(chunk_spec(body, budget), body),
        respects_entries(chunk_spec(body, budget), segments(body), budget),
{
    let segs = segments(body);
    let chunks = chunk_spec(body, budget);
    if segs.len() == 0 {
        assert(slice_lines(chunks) == lines(body));
    } else {
        lemma_chunks_from(segs, budget, 0, 1);
        assert forall|k: int| 0 <= k < chunks.len() implies lines((#[trigger] chunks[k]).content)
            == lines(body).subrange(chunks[k].start_line - 1, chunks[k].end_line as int) by {
            crate::text::lemma_lines_of_span(
                body,
                chunks[k].start_line - 1,
                chunks[k].end_line as int,
            );
        }
        lemma_slice_lines_prefix(chunks, body, chunks.len() as int);
        assert(chunks.take(chunks.len() as int) == chunks);
        assert(lines(body).take(segs.len() as int) == lines(body));
    }
}

/// The segments between two offsets, put together, are the text between them.
proof fn lemma_span(s: Seq<char>, offsets: Seq<usize>, a: int, b: int)
    requires
        offsets_cover(s, offsets),
        0 <= a <= b < offsets.len(),
    ensures
        pieces(s, offsets).subrange(a, b).flatten() == s.subrange(
            offsets[a] as int,
            offsets[b] as int,
        ),
    decreases b - a,
{
    let ps = pieces(s, offsets);
    if a == b {
    } else {
        lemma_span(s, offsets, a, b - 1);
        assert(ps.subrange(a, b) == ps.subrange(a, b - 1).push(ps[b - 1]));
        ps.subrange(a, b - 1).lemma_flatten_push(ps[b - 1]);
        assert(s.subrange(offsets[a] as int, offsets[b - 1] as int) + s.subrange(
            offsets[b - 1] as int,
            offsets[b] as int,
        ) == s.subrange(offsets[a] as int, offsets[b] as int));
    }
}

/// Tells for each segment whether its line opens an entry.
fn entry_marks(v: &Vec<char>, offsets: &Vec<usize>) -> (marks: Vec<bool>)
    requires
        offsets_cover(v@, offsets@),
    ensures
        marks.len() == offsets.len() - 1,
        forall|i: int|
            0 <= i < marks.len() ==> marks@[i] == opens_entry(
                line_of(#[trigger] pieces(v@, offsets@)[i]),
            ),
{
    let mut marks: Vec<bool> = Vec::new();
    let mut i: usize = 0;
    while i + 1 < offsets.len()
        invariant
            i < offsets.len(),
            offsets_cover(v@, offsets@),
            marks.len() == i,
            forall|j: int|
                0 <= j < i ==> marks@[j] == opens_entry(
                    line_of(#[trigger] pieces(v@, offsets@)[j]),
                ),
        decreases offsets.len() - i,
    {
        let segment = sub_vec(v, offsets[i], offsets[i + 1]);
        let line = strip_line_ending(&segment);
        marks.push(line_opens_entry(&line));
        i += 1;
    }
    marks
}

/// Finds the end of the entry that line `i` belongs to.
fn find_entry_end(marks: &Vec<bool>, i: usize, Ghost(segs): Ghost<Seq<Seq<char>>>) -> (e: usize)
    requires
        i < marks.len(),
        marks.len() == segs.len(),
        forall|j: int| 0 <= j < marks.len() ==> marks@[j] == opens_entry(line_of(segs[j])),
    ensures
        e == entry_end(segs, i as int),
        i < e <= marks.len(),
{
    let mut j: usize = i;
    while j + 1 < marks.len() && !marks[j + 1]
        invariant
            i <= j < marks.len(),
            marks.len() == segs.len(),
            forall|k: int| 0 <= k < marks.len() ==> marks@[k] == opens_entry(line_of(segs[k])),
            entry_end(segs, i as int) == entry_end(segs, j as int),
        decreases marks.len() - j,
    {
        j += 1;
    }
    j + 1
}

/// Cuts a document body into slices.
///
/// Lines are taken in order. A slice is closed before a line that opens an entry when,
/// with that entry, it would hold more than `max_chunk_size` characters; an entry
/// that is larger than the budget stands in a slice of its own. An empty body gives
/// no slice. Lines are counted from 1, and each slice holds the text of its lines
/// with their line endings.
///
/// The slices tile the body: their ranges follow each other from the first line to
/// the last, and their lines, in order, are the lines of the body.
pub fn split_yaml_content(content: &str, max_chunk_size: usize) -> (slices: Vec<TranslationSlice>)
    ensures
        slice_views(slices@) == chunk_spec(content@, max_chunk_size as nat),
        tiles(slice_views(slices@), content@),
        respects_entries(slice_views(slices@), segments(content@), max_chunk_size as nat),
{
    let slices = cut_slices(&chars_of(content), max_chunk_size);
    proof {
        lemma_chunks_tile(content@, max_chunk_size as nat);
    }
    slices
}

/// Cuts the body `v` into slices.
fn cut_slices(v: &Vec<char>, max_chunk_size: usize) -> (slices: Vec<TranslationSlice>)
    ensures
        slice_views(slices@) == chunk_spec(v@, max_chunk_size as nat),
{
    let offsets = segment_offsets(v);
    let marks = entry_marks(v, &offsets);
    let n = marks.len();
    let ghost segs = segments(v@);
    let ghost budget = max_chunk_size as nat;
    let mut slices: Vec<TranslationSlice> = Vec::new();
    if n == 0 {
        return slices;
    }
    let mut from: usize = 0;
    let mut i: usize = 1;
    while i < n
        invariant
            from < i <= n,
            n == marks.len(),
            n + 1 == offsets.len(),
            segs == segments(v@),
            segs == pieces(v@, offsets@),
            offsets_cover(v@, offsets@),
            budget == max_chunk_size as nat,
            forall|j: int| 0 <= j < n ==> marks@[j] == opens_entry(line_of(segs[j])),
            chunk_spec(v@, budget) == slice_views(slices@) + chunks_from(
                segs,
                budget,
                from as int,
                i as int,
            ),
        decreases n - i,
    {
        if marks[i] {
            let e = find_entry_end(&marks, i, Ghost(segs));
            proof {
                lemma_span(v@, offsets@, from as int, e as int);
            }
            if offsets[e] - offsets[from] > max_chunk_size {
                let text = sub_vec(v, offsets[from], offsets[i]);
                let slice = TranslationSlice {
                    content: string_of(&text),
                    start_line: from + 1,
                    end_line: i,
                };
                proof {
                    lemma_span(v@, offsets@, from as int, i as int);
                }
                slices.push(slice);
                from = i;
            }
        }
        i += 1;
    }
    let text = sub_vec(v, offsets[from], offsets[n]);
    let slice = TranslationSlice { content: string_of(&text), start_line: from + 1, end_line: n };
    proof {
        lemma_span(v@, offsets@, from as int, n as int);
    }
    slices.push(slice);
    slices
}

} // verus!
