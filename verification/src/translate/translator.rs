//! Building of the request for one slice and acceptance of the answer.

use crate::error::{ErrorView, TranslateError, TranslationError};
use crate::postprocess::merger::{SliceView, TranslationSlice};
use crate::text::{
    chars_of, contains_text, replace_all, replace_chars, rows, rows_of, same_chars, string_of,
    strings_of, sub_vec,
};
use crate::translate::glossary::{
    distinct_sources, found_terms, glossary_views, lemma_found_terms, lemma_position_of_bounds,
    lookup, merged, table, EntryView, Glossary,
};
use crate::translate::validator::{problem_views, validate_spec, FormatValidator, Problem};
use vstd::prelude::*;

verus! {

/// Who speaks in a message to the remote model.
#[derive(Debug, Clone, Copy, PartialEq, Eq, Structural)]
pub enum Role {
    /// The instructions.
    System,
    /// The text to translate.
    User,
}

/// One message to the remote model.
#[derive(Debug)]
pub struct Message {
    pub role: Role,
    pub content: String,
}

/// A translated slice with the problems found in it.
#[derive(Debug)]
pub struct Translation {
    /// The translation, covering the lines of its source.
    pub slice: TranslationSlice,
    /// What the validator found; reported, not corrected.
    pub problems: Vec<Problem>,
}

/// What stands in a prompt template where the term table belongs.
pub open spec fn placeholder() -> Seq<char> {
    "{{glossary_csv}}"@
}

/// What takes the place of the term table when no term occurs in the text.
pub open spec fn no_terms_marker() -> Seq<char> {
    "（无相关术语）"@
}

/// The message of the error for an answer without candidates.
pub open spec fn no_choice_message() -> Seq<char> {
    "No choices in API response"@
}

/// The order of texts: character by character, a proper prefix first.
pub open spec fn text_lt(a: Seq<char>, b: Seq<char>) -> bool
    decreases a.len(),
{
    if b.len() == 0 {
        false
    } else if a.len() == 0 {
        true
    } else if a[0] == b[0] {
        text_lt(a.drop_first(), b.drop_first())
    } else {
        a[0] < b[0]
    }
}

/// `x` put into the ordered texts `s` at its place, unless it is there already.
pub open spec fn insert_sorted(s: Seq<Seq<char>>, x: Seq<char>) -> Seq<Seq<char>>
    decreases s.len(),
{
    if s.len() == 0 {
        seq![x]
    } else if s.last() == x {
        s
    } else if text_lt(s.last(), x) {
        s.push(x)
    } else {
        insert_sorted(s.drop_last(), x).push(s.last())
    }
}

/// The texts of `s` in increasing order, each once.
pub open spec fn sorted_terms(s: Seq<Seq<char>>) -> Seq<Seq<char>>
    decreases s.len(),
{
    if s.len() == 0 {
        s
    } else {
        insert_sorted(sorted_terms(s.drop_last()), s.last())
    }
}

/// What replaces the placeholder: the marker when no term of the glossary occurs in
/// the text; else the term table of the glossary for the terms that occur, in
/// increasing order: a header row with the two languages and one row for each term.
pub open spec fn glossary_excerpt(
    glossary: Seq<EntryView>,
    source_lang: Seq<char>,
    target_lang: Seq<char>,
    text: Seq<char>,
) -> Seq<char> {
    let terms = sorted_terms(found_terms(glossary, text));
    if terms.len() == 0 {
        no_terms_marker()
    } else {
        table(glossary, source_lang, target_lang, terms)
    }
}

/// The system prompt: the template with every placeholder replaced by the excerpt.
pub open spec fn prompt_spec(
    glossary: Seq<EntryView>,
    template: Seq<char>,
    source_lang: Seq<char>,
    target_lang: Seq<char>,
    text: Seq<char>,
) -> Seq<char> {
    replace_all(template, placeholder(), glossary_excerpt(glossary, source_lang, target_lang, text))
}

/// Tells whether each text comes before all the texts behind it.
pub open spec fn increasing(s: Seq<Seq<char>>) -> bool {
    forall|i: int, j: int| 0 <= i < j < s.len() ==> text_lt(s[i], s[j])
}

/// No text comes before itself.
pub proof fn lemma_text_lt_irreflexive(a: Seq<char>)
    ensures
        !text_lt(a, a),
    decreases a.len(),
{
    if a.len() > 0 {
        lemma_text_lt_irreflexive(a.drop_first());
    }
}

/// Of two different texts one comes before the other.
pub proof fn lemma_text_lt_total(a: Seq<char>, b: Seq<char>)
    ensures
        a == b || text_lt(a, b) || text_lt(b, a),
    decreases a.len(),
{
    if a.len() > 0 && b.len() > 0 && a[0] == b[0] {
        lemma_text_lt_total(a.drop_first(), b.drop_first());
        if a.drop_first() == b.drop_first() {
            assert(a == seq![a[0]] + a.drop_first());
            assert(b == seq![b[0]] + b.drop_first());
        }
    } else if a.len() == 0 && b.len() == 0 {
        assert(a == b);
    }
}

/// The order of texts is transitive.
pub proof fn lemma_text_lt_transitive(a: Seq<char>, b: Seq<char>, c: Seq<char>)
    requires
        text_lt(a, b),
        text_lt(b, c),
    ensures
        text_lt(a, c),
    decreases a.len(),
{
    if a.len() > 0 && b.len() > 0 && c.len() > 0 && a[0] == b[0] && b[0] == c[0] {
        lemma_text_lt_transitive(a.drop_first(), b.drop_first(), c.drop_first());
    }
}

/// Putting a text into increasing texts keeps them increasing and adds that text
/// alone.
pub proof fn lemma_insert_sorted(s: Seq<Seq<char>>, x: Seq<char>)
    requires
        increasing(s),
    ensures
        increasing(insert_sorted(s, x)),
        forall|y: Seq<char>| #[trigger]
            insert_sorted(s, x).contains(y) <==> s.contains(y) || y == x,
    decreases s.len(),
{
    let r = insert_sorted(s, x);
    if s.len() == 0 {
        assert(r[0] == x);
    } else if s.last() == x {
    } else if text_lt(s.last(), x) {
        assert forall|i: int, j: int| 0 <= i < j < r.len() implies text_lt(r[i], r[j]) by {
            if j == s.len() {
                if i < s.len() - 1 {
                    lemma_text_lt_transitive(s[i], s.last(), x);
                }
            }
        }
        assert forall|y: Seq<char>| #[trigger] r.contains(y) <==> s.contains(y) || y == x by {
            if s.contains(y) {
                let k = choose|k: int| 0 <= k < s.len() && s[k] == y;
                assert(r[k] == y);
            }
            if y == x {
                assert(r[s.len() as int] == y);
            }
        }
    } else {
        let front = s.drop_last();
        let last = s.last();
        let inner = insert_sorted(front, x);
        lemma_insert_sorted(front, x);
        lemma_text_lt_total(last, x);
        assert forall|i: int| 0 <= i < inner.len() implies text_lt(#[trigger] inner[i], last) by {
            assert(inner.contains(inner[i]));
        }
        assert forall|y: Seq<char>| #[trigger] r.contains(y) <==> s.contains(y) || y == x by {
            if r.contains(y) {
                let k = choose|k: int| 0 <= k < r.len() && r[k] == y;
                if k < inner.len() {
                    assert(inner.contains(y));
                    if front.contains(y) {
                        let m = choose|m: int| 0 <= m < front.len() && front[m] == y;
                        assert(s[m] == y);
                    }
                }
            }
            if s.contains(y) {
                let k = choose|k: int| 0 <= k < s.len() && s[k] == y;
                if k < front.len() {
                    assert(front[k] == y);
                    assert(front.contains(y));
                    assert(inner.contains(y));
                    let m = choose|m: int| 0 <= m < inner.len() && inner[m] == y;
                    assert(r[m] == y);
                } else {
                    assert(r[inner.len() as int] == y);
                }
            }
            if y == x {
                assert(inner.contains(x));
            }
        }
    }
}

/// The ordered terms are increasing, so that none occurs twice, and they are the
/// texts that were given, no more and no fewer.
pub proof fn lemma_sorted_terms(s: Seq<Seq<char>>)
    ensures
        increasing(sorted_terms(s)),
        sorted_terms(s).no_duplicates(),
        forall|y: Seq<char>| #[trigger] sorted_terms(s).contains(y) <==> s.contains(y),
    decreases s.len(),
{
    assert forall|i: int, j: int|
        increasing(sorted_terms(s)) && 0 <= i < j < sorted_terms(s).len() implies sorted_terms(
        s,
    )[i] != sorted_terms(s)[j] by {
        lemma_text_lt_irreflexive(sorted_terms(s)[i]);
    }
    if s.len() > 0 {
        let front = s.drop_last();
        lemma_sorted_terms(front);
        lemma_insert_sorted(sorted_terms(front), s.last());
        let r = sorted_terms(s);
        assert forall|y: Seq<char>| #[trigger] r.contains(y) <==> s.contains(y) by {
            if s.contains(y) {
                let k = choose|k: int| 0 <= k < s.len() && s[k] == y;
                if k < front.len() {
                    assert(front[k] == y);
                }
            }
        }
    }
}

/// The terms of an excerpt are the source terms of the glossary that occur in the
/// text, no more and no fewer; each stands once, in increasing order, and has its
/// entry in the glossary, so that the table has exactly one row for it.
pub proof fn lemma_excerpt_terms(glossary: Seq<EntryView>, text: Seq<char>)
    ensures
        increasing(sorted_terms(found_terms(glossary, text))),
        sorted_terms(found_terms(glossary, text)).no_duplicates(),
        forall|y: Seq<char>| #[trigger]
            sorted_terms(found_terms(glossary, text)).contains(y) <==> lookup(glossary, y) is Some
                && contains_text(text, y),
{
    let found = found_terms(glossary, text);
    let terms = sorted_terms(found);
    lemma_sorted_terms(found);
    lemma_found_terms(glossary, text);
    assert forall|y: Seq<char>| #[trigger]
        terms.contains(y) <==> lookup(glossary, y) is Some && contains_text(text, y) by {
        lemma_position_of_bounds(glossary, y);
        assert(terms.contains(y) <==> found.contains(y));
    }
}

/// Tells whether `a` comes before `b` in the order of texts.
fn text_less(a: &Vec<char>, b: &Vec<char>) -> (r: bool)
    ensures
        r == text_lt(a@, b@),
{
    let mut i: usize = 0;
    assert(a@.skip(0) == a@ && b@.skip(0) == b@);
    while i < a.len() && i < b.len() && a[i] == b[i]
        invariant
            i <= a.len(),
            i <= b.len(),
            text_lt(a@, b@) == text_lt(a@.skip(i as int), b@.skip(i as int)),
        decreases a.len() - i,
    {
        proof {
            let x = a@.skip(i as int);
            let y = b@.skip(i as int);
            assert(x.drop_first() == a@.skip(i + 1));
            assert(y.drop_first() == b@.skip(i + 1));
        }
        i += 1;
    }
    if i >= b.len() {
        false
    } else if i >= a.len() {
        true
    } else {
        a[i] < b[i]
    }
}

/// When `x` stands at index `pos - 1` and every later text follows it, putting `x` in
/// changes nothing.
proof fn lemma_insert_present(s: Seq<Seq<char>>, x: Seq<char>, pos: int)
    requires
        0 < pos <= s.len(),
        s[pos - 1] == x,
        forall|j: int| pos <= j < s.len() ==> s[j] != x && !text_lt(s[j], x),
    ensures
        insert_sorted(s, x) == s,
    decreases s.len(),
{
    if s.last() == x {
    } else {
        lemma_insert_present(s.drop_last(), x, pos);
    }
}

/// When every text from index `pos` on follows `x` and the one before comes before
/// it, `x` is put in at `pos`.
proof fn lemma_insert_absent(s: Seq<Seq<char>>, x: Seq<char>, pos: int)
    requires
        0 <= pos <= s.len(),
        forall|j: int| pos <= j < s.len() ==> s[j] != x && !text_lt(s[j], x),
        pos > 0 ==> s[pos - 1] != x && text_lt(s[pos - 1], x),
    ensures
        insert_sorted(s, x) == s.insert(pos, x),
    decreases s.len(),
{
    if s.len() == 0 {
    } else if pos == s.len() {
    } else {
        lemma_insert_absent(s.drop_last(), x, pos);
    }
}

/// Puts `x` into the ordered texts at its place, unless it is there already.
fn insert_term(sorted: &mut Vec<Vec<char>>, x: Vec<char>)
    ensures
        rows(final(sorted)@) == insert_sorted(rows(old(sorted)@), x@),
{
    let ghost s = rows(sorted@);
    let mut pos: usize = sorted.len();
    while pos > 0
        invariant
            pos <= sorted.len(),
            sorted@ == old(sorted)@,
            s == rows(sorted@),
            forall|j: int| pos <= j < s.len() ==> s[j] != x@ && !text_lt(s[j], x@),
        decreases pos,
    {
        if same_chars(&sorted[pos - 1], &x) {
            proof {
                lemma_insert_present(s, x@, pos as int);
            }
            return ;
        }
        if text_less(&sorted[pos - 1], &x) {
            proof {
                lemma_insert_absent(s, x@, pos as int);
            }
            sorted.insert(pos, x);
            return ;
        }
        pos -= 1;
    }
    proof {
        lemma_insert_absent(s, x@, 0);
    }
    sorted.insert(0, x);
}

/// Orders the texts and drops the repetitions.
fn sort_terms(terms: Vec<Vec<char>>) -> (sorted: Vec<Vec<char>>)
    ensures
        rows(sorted@) == sorted_terms(rows(terms@)),
{
    let ghost all = rows(terms@);
    let mut sorted: Vec<Vec<char>> = Vec::new();
    let mut i: usize = 0;
    while i < terms.len()
        invariant
            i <= terms.len(),
            all == rows(terms@),
            rows(sorted@) == sorted_terms(all.take(i as int)),
        decreases terms.len() - i,
    {
        proof {
            assert(all.take(i + 1).drop_last() == all.take(i as int));
        }
        let term = sub_vec(&terms[i], 0, terms[i].len());
        assert(term@ == terms@[i as int]@);
        insert_term(&mut sorted, term);
        i += 1;
    }
    assert(all.take(terms.len() as int) == all);
    sorted
}

/// Builds requests for the remote model and judges its answers.
pub struct Translator {
    glossary: Glossary,
    validator: FormatValidator,
}

impl Translator {
    /// The glossary that the translator consults.
    pub closed spec fn glossary(&self) -> Seq<EntryView> {
        self.glossary@
    }

    /// A translator that consults `glossaries` as one: on a term that several of them
    /// hold, the one loaded last wins.
    pub fn new(glossaries: Vec<Glossary>) -> (t: Self)
        ensures
            t.glossary() == merged(glossary_views(glossaries@)),
            distinct_sources(t.glossary()),
    {
        let glossary = Glossary::merge_glossaries(&glossaries);
        Translator { glossary, validator: FormatValidator::new() }
    }

    /// Writes the system prompt for one source text.
    ///
    /// Every placeholder of `template` is replaced by an excerpt of the glossary: a
    /// header row with the two languages and one row for each term that occurs in
    /// `source_text`, the terms in increasing order and each once. When no term
    /// occurs, the placeholder is replaced by a fixed marker.
    pub fn system_prompt(
        &self,
        template: &str,
        source_lang: &str,
        target_lang: &str,
        source_text: &str,
    ) -> (prompt: String)
        ensures
            prompt@ == prompt_spec(
                self.glossary(),
                template@,
                source_lang@,
                target_lang@,
                source_text@,
            ),
    {
        let found = self.glossary.find_terms_in_text(source_text, source_lang);
        let terms = sort_terms(rows_of(&found));
        let excerpt = if terms.len() == 0 {
            chars_of("（无相关术语）")
        } else {
            let table = self.glossary.to_csv(source_lang, target_lang, &strings_of(&terms));
            chars_of(table.as_str())
        };
        string_of(&replace_chars(&chars_of(template), &chars_of("{{glossary_csv}}"), &excerpt))
    }

    /// The two messages of a request: the system prompt, then the source text.
    pub fn messages(system_prompt: String, source_text: &str) -> (request: Vec<Message>)
        ensures
            request@.len() == 2,
            request@[0].role == Role::System,
            request@[0].content@ == system_prompt@,
            request@[1].role == Role::User,
            request@[1].content@ == source_text@,
    {
        let mut request: Vec<Message> = Vec::new();
        request.push(Message { role: Role::System, content: system_prompt });
        request.push(Message { role: Role::User, content: source_text.to_owned() });
        request
    }

    /// Judges the answer of the remote model to the request for `source`.
    ///
    /// An answer without candidates is an error. Otherwise the first candidate is the
    /// translation: it covers the lines of `source`, and it comes with every problem
    /// that the validator finds between the source and it.
    pub fn accept_response(&self, source: &TranslationSlice, choices: Vec<String>) -> (res: Result<
        Translation,
        TranslationError,
    >)
        ensures
            match res {
                Ok(t) => {
                    &&& choices@.len() > 0
                    &&& t.slice@ == SliceView {
                        content: choices@[0]@,
                        start_line: source@.start_line,
                        end_line: source@.end_line,
                    }
                    &&& problem_views(t.problems@) == validate_spec(
                        source@.content,
                        choices@[0]@,
                    )
                },
                Err(e) => choices@.len() == 0 && e@ == ErrorView::InvalidResponse(
                    no_choice_message(),
                ),
            },
    {
        if choices.len() == 0 {
            return Err(
                TranslationError::Translate(
                    TranslateError::InvalidResponse("No choices in API response".to_owned()),
                ),
            );
        }
        let content = choices[0].clone();
        let problems = self.validator.validate(source.content.as_str(), content.as_str());
        Ok(
            Translation {
                slice: TranslationSlice {
                    content,
                    start_line: source.start_line,
                    end_line: source.end_line,
                },
                problems,
            },
        )
    }
}

} // verus!
