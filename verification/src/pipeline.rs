//! Laws that tie the stages of the pipeline together.

use crate::error::ErrorView;
use crate::postprocess::merger::{
    header_line, indented, lemma_merge_in_sequence, merge_spec, reconstruct_spec, SliceView,
};
use crate::preprocess::yaml_fixer::{dedented, header_prefix, split_header_spec};
use crate::text::{join_lines, lemma_first_index, lines};
use crate::translate::splitter::{chunk_spec, lemma_chunks_tile};
use vstd::prelude::*;

verus! {

/// Cutting a body that is not empty and merging the slices as they are gives the
/// lines of the body, each indented, and reconstruction puts the header line of the
/// language in front: no line is lost, repeated or moved, whatever the budget.
pub proof fn lemma_merge_restores_body(body: Seq<char>, budget: nat, lang: Seq<char>)
    requires
        body.len() > 0,
    ensures
        merge_spec(chunk_spec(body, budget)) == Ok::<Seq<char>, ErrorView>(
            join_lines(indented(lines(body))),
        ),
        reconstruct_spec(chunk_spec(body, budget), lang) == Ok::<Seq<char>, ErrorView>(
            header_line(lang) + join_lines(indented(lines(body))),
        ),
{
    let chunks = chunk_spec(body, budget);
    lemma_chunks_tile(body, budget);
    lemma_merge_in_sequence(chunks);
}

/// A document that begins with the header line of a language, as reconstruction
/// writes it, is split into exactly that header and the lines that follow it, each
/// without its leading white space. This holds for every language tag without a line
/// feed and every text behind the header line.
pub proof fn lemma_header_round_trip(lang: Seq<char>, rest: Seq<char>)
    requires
        !lang.contains('\n'),
    ensures
        split_header_spec(lang, header_line(lang) + rest) == (
            header_prefix(lang),
            join_lines(dedented(lines(rest))),
        ),
{
    reveal_strlit("l_");
    reveal_strlit(":\n");
    reveal_strlit(":");
    let a = header_prefix(lang);
    let doc = header_line(lang) + rest;
    let k = a.len() as int;
    lemma_first_index(doc, '\n', k);
    assert(doc.skip(k + 1) == rest);
    assert(lines(doc).remove(0) == lines(rest));
}

/// The header of a reconstructed document is found again: splitting what
/// reconstruction yields gives back the header of the language and the merged lines
/// without their leading white space.
pub proof fn lemma_reconstructed_header_is_found(slices: Seq<SliceView>, lang: Seq<char>)
    requires
        !lang.contains('\n'),
        reconstruct_spec(slices, lang) is Ok,
    ensures
        split_header_spec(lang, reconstruct_spec(slices, lang)->Ok_0) == (
            header_prefix(lang),
            join_lines(dedented(lines(merge_spec(slices)->Ok_0))),
        ),
{
    lemma_header_round_trip(lang, merge_spec(slices)->Ok_0);
}

} // verus!
