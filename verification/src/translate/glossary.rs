//! Glossaries: term mappings that steer the translation.

use crate::error::{TranslateError, TranslationError};
use crate::json::{
    error_message, json_members, member_views, parse_members, Member, MemberView,
};
use crate::text::{
    append_chars, chars_of, contains_chars, contains_text, replace_all, replace_chars, rows,
    same_chars, string_of, texts,
};
use vstd::prelude::*;

verus! {

/// One term of a glossary.
#[derive(Debug, Clone)]
pub struct GlossaryEntry {
    /// The term in the source language.
    pub source: String,
    /// The term in the target language.
    pub target: String,
    /// Whether the term must appear verbatim in the output.
    pub force: bool,
}

/// The mathematical value of a glossary entry.
pub struct EntryView {
    pub source: Seq<char>,
    pub target: Seq<char>,
    pub force: bool,
}

impl View for GlossaryEntry {
    type V = EntryView;

    open spec fn view(&self) -> EntryView {
        EntryView { source: self.source@, target: self.target@, force: self.force }
    }
}

/// The values of a vector of entries.
pub open spec fn entry_views(v: Seq<GlossaryEntry>) -> Seq<EntryView> {
    Seq::new(v.len(), |i: int| v[i]@)
}

/// Tells whether no source term occurs twice.
pub open spec fn distinct_sources(es: Seq<EntryView>) -> bool {
    forall|i: int, j: int| 0 <= i < j < es.len() ==> es[i].source != es[j].source
}

/// Index of the entry of `source`, or the number of entries when there is none.
pub open spec fn position_of(es: Seq<EntryView>, source: Seq<char>) -> nat
    decreases es.len(),
{
    if es.len() == 0 || es[0].source == source {
        0
    } else {
        1 + position_of(es.drop_first(), source)
    }
}

/// The entry of `source`, if there is one.
pub open spec fn lookup(es: Seq<EntryView>, source: Seq<char>) -> Option<EntryView> {
    let i = position_of(es, source) as int;
    if i < es.len() {
        Some(es[i])
    } else {
        None
    }
}

/// The entries with `e` put in: in place of the entry with the same source term, or
/// at the end when there is none.
pub open spec fn inserted(es: Seq<EntryView>, e: EntryView) -> Seq<EntryView> {
    let i = position_of(es, e.source) as int;
    if i < es.len() {
        es.update(i, e)
    } else {
        es.push(e)
    }
}

/// The entries of `base` with those of `more` put in, one after the other.
pub open spec fn inserted_all(base: Seq<EntryView>, more: Seq<EntryView>) -> Seq<EntryView>
    decreases more.len(),
{
    if more.len() == 0 {
        base
    } else {
        inserted(inserted_all(base, more.drop_last()), more.last())
    }
}

/// Several glossaries as one: on a term that several of them hold, the last wins.
pub open spec fn merged(gs: Seq<Seq<EntryView>>) -> Seq<EntryView>
    decreases gs.len(),
{
    if gs.len() == 0 {
        Seq::empty()
    } else {
        inserted_all(merged(gs.drop_last()), gs.last())
    }
}

/// `text` with each source term replaced by its target term, entry after entry.
pub open spec fn applied(es: Seq<EntryView>, text: Seq<char>) -> Seq<char>
    decreases es.len(),
{
    if es.len() == 0 {
        text
    } else {
        replace_all(applied(es.drop_last(), text), es.last().source, es.last().target)
    }
}

/// The source terms that occur in `text`, in the order of the entries.
pub open spec fn found_terms(es: Seq<EntryView>, text: Seq<char>) -> Seq<Seq<char>>
    decreases es.len(),
{
    if es.len() == 0 {
        Seq::empty()
    } else if contains_text(text, es.last().source) {
        found_terms(es.drop_last(), text).push(es.last().source)
    } else {
        found_terms(es.drop_last(), text)
    }
}

/// The rows of the term table: for each term that the glossary holds, a line feed,
/// the term, a comma and its target term.
pub open spec fn table_rows(es: Seq<EntryView>, terms: Seq<Seq<char>>) -> Seq<char>
    decreases terms.len(),
{
    if terms.len() == 0 {
        Seq::empty()
    } else {
        let before = table_rows(es, terms.drop_last());
        match lookup(es, terms.last()) {
            Some(e) => before + seq!['\n'] + terms.last() + seq![','] + e.target,
            None => before,
        }
    }
}

/// The term table: a header row with the two languages, then the rows of the terms.
pub open spec fn table(
    es: Seq<EntryView>,
    source_lang: Seq<char>,
    target_lang: Seq<char>,
    terms: Seq<Seq<char>>,
) -> Seq<char> {
    source_lang + seq![','] + target_lang + table_rows(es, terms)
}

/// The glossary that the members of a JSON object give: each member whose value is a
/// string is an entry from its name to that string, not forced; other members are
/// passed over.
pub open spec fn entries_of_members(ms: Seq<MemberView>) -> Seq<EntryView>
    decreases ms.len(),
{
    if ms.len() == 0 {
        Seq::empty()
    } else {
        let before = entries_of_members(ms.drop_last());
        match ms.last().1 {
            Some(target) => inserted(
                before,
                EntryView { source: ms.last().0, target, force: false },
            ),
            None => before,
        }
    }
}

/// The glossary that a JSON text gives: the entries of its members if it holds an
/// object, none if it holds another value, and nothing if it is not JSON.
pub open spec fn entries_of_json(text: Seq<char>) -> Option<Seq<EntryView>> {
    match json_members(text) {
        Some(Some(ms)) => Some(entries_of_members(ms)),
        Some(None) => Some(Seq::empty()),
        None => None,
    }
}

/// `position_of` is the one index before which no entry has the source term and at
/// which, if it lies among the entries, stands one that has it.
pub proof fn lemma_position_of(es: Seq<EntryView>, source: Seq<char>, k: int)
    requires
        0 <= k <= es.len(),
        forall|j: int| 0 <= j < k ==> es[j].source != source,
        k < es.len() ==> es[k].source == source,
    ensures
        position_of(es, source) == k,
    decreases es.len(),
{
    if es.len() == 0 || es[0].source == source {
    } else {
        lemma_position_of(es.drop_first(), source, k - 1);
    }
}

/// The index that `position_of` names lies among the entries or at their end, and no
/// earlier entry has the source term.
pub proof fn lemma_position_of_bounds(es: Seq<EntryView>, source: Seq<char>)
    ensures
        position_of(es, source) <= es.len(),
        forall|j: int| 0 <= j < position_of(es, source) ==> es[j].source != source,
        position_of(es, source) < es.len() ==> es[position_of(es, source) as int].source == source,
    decreases es.len(),
{
    if es.len() == 0 || es[0].source == source {
    } else {
        lemma_position_of_bounds(es.drop_first(), source);
        let k = position_of(es.drop_first(), source);
        assert forall|j: int| 0 <= j < k + 1 implies es[j].source != source by {
            if j > 0 {
                assert(es.drop_first()[j - 1] == es[j]);
            }
        }
    }
}

/// The found terms are the source terms of the entries that occur in the text, no
/// more and no fewer.
pub proof fn lemma_found_terms(es: Seq<EntryView>, text: Seq<char>)
    ensures
        forall|y: Seq<char>| #[trigger]
            found_terms(es, text).contains(y) <==> contains_text(text, y) && exists|i: int|
                0 <= i < es.len() && (#[trigger] es[i]).source == y,
    decreases es.len(),
{
    if es.len() > 0 {
        let front = es.drop_last();
        let inner = found_terms(front, text);
        let r = found_terms(es, text);
        lemma_found_terms(front, text);
        assert forall|y: Seq<char>| #[trigger]
            r.contains(y) <==> contains_text(text, y) && exists|i: int|
                0 <= i < es.len() && (#[trigger] es[i]).source == y by {
            if r.contains(y) {
                let k = choose|k: int| 0 <= k < r.len() && r[k] == y;
                if k < inner.len() {
                    assert(inner[k] == y);
                    assert(inner.contains(y));
                    let i = choose|i: int| 0 <= i < front.len() && (#[trigger] front[i]).source == y;
                    assert(es[i] == front[i]);
                } else {
                    assert(es[es.len() - 1].source == y);
                }
            }
            if contains_text(text, y) && exists|i: int|
                0 <= i < es.len() && (#[trigger] es[i]).source == y {
                let i = choose|i: int| 0 <= i < es.len() && (#[trigger] es[i]).source == y;
                if i < front.len() {
                    assert(front[i] == es[i]);
                    assert(inner.contains(y));
                    let m = choose|m: int| 0 <= m < inner.len() && inner[m] == y;
                    assert(r[m] == y);
                } else {
                    assert(r[inner.len() as int] == y);
                }
            }
        }
    }
}

/// Putting an entry in keeps the source terms distinct.
pub proof fn lemma_inserted_distinct(es: Seq<EntryView>, e: EntryView)
    requires
        distinct_sources(es),
    ensures
        distinct_sources(inserted(es, e)),
{
    lemma_position_of_bounds(es, e.source);
}

/// After an entry is put in, its source term leads to it, and every other term leads
/// where it led before.
pub proof fn lemma_lookup_inserted(es: Seq<EntryView>, e: EntryView, source: Seq<char>)
    ensures
        lookup(inserted(es, e), source) == if source == e.source {
            Some(e)
        } else {
            lookup(es, source)
        },
{
    let r = inserted(es, e);
    let i = position_of(es, e.source) as int;
    let j = position_of(es, source) as int;
    lemma_position_of_bounds(es, e.source);
    lemma_position_of_bounds(es, source);
    if source == e.source {
        lemma_position_of(r, source, i);
    } else if j < es.len() {
        lemma_position_of(r, source, j);
    } else {
        lemma_position_of(r, source, r.len() as int);
    }
}

/// After the entries of `more` are put into `base`, a source term of `more` leads to
/// its entry there, and every other term leads where it led in `base`.
pub proof fn lemma_lookup_inserted_all(
    base: Seq<EntryView>,
    more: Seq<EntryView>,
    source: Seq<char>,
)
    requires
        distinct_sources(more),
    ensures
        lookup(inserted_all(base, more), source) == match lookup(more, source) {
            Some(e) => Some(e),
            None => lookup(base, source),
        },
    decreases more.len(),
{
    if more.len() > 0 {
        let front = more.drop_last();
        let last = more.last();
        lemma_lookup_inserted_all(base, front, source);
        lemma_lookup_inserted(inserted_all(base, front), last, source);
        lemma_position_of_bounds(front, source);
        let j = position_of(front, source) as int;
        if source == last.source {
            assert forall|k: int| 0 <= k < more.len() - 1 implies more[k].source != source by {}
            lemma_position_of(more, source, more.len() - 1);
        } else if j < front.len() {
            lemma_position_of(more, source, j);
        } else {
            assert forall|k: int| 0 <= k < more.len() implies more[k].source != source by {
                if k < front.len() {
                    assert(front[k] == more[k]);
                }
            }
            lemma_position_of(more, source, more.len() as int);
        }
    }
}

/// In merged glossaries the last one wins: a term leads to its entry in the last
/// glossary that holds it.
pub proof fn lemma_lookup_merged(gs: Seq<Seq<EntryView>>, source: Seq<char>)
    requires
        gs.len() > 0,
        distinct_sources(gs.last()),
    ensures
        lookup(merged(gs), source) == match lookup(gs.last(), source) {
            Some(e) => Some(e),
            None => lookup(merged(gs.drop_last()), source),
        },
{
    lemma_lookup_inserted_all(merged(gs.drop_last()), gs.last(), source);
}

/// Putting distinct entries into an empty glossary gives these entries.
pub proof fn lemma_inserted_all_distinct(es: Seq<EntryView>)
    requires
        distinct_sources(es),
    ensures
        inserted_all(Seq::empty(), es) == es,
    decreases es.len(),
{
    if es.len() > 0 {
        let front = es.drop_last();
        lemma_inserted_all_distinct(front);
        lemma_position_of(front, es.last().source, front.len() as int);
    }
}

/// A copy of `e`.
fn copy_entry(e: &GlossaryEntry) -> (r: GlossaryEntry)
    ensures
        r@ == e@,
{
    GlossaryEntry { source: e.source.clone(), target: e.target.clone(), force: e.force }
}

/// A set of terms with their translations; no source term occurs twice.
#[derive(Debug)]
pub struct Glossary {
    entries: Vec<GlossaryEntry>,
}

impl View for Glossary {
    type V = Seq<EntryView>;

    closed spec fn view(&self) -> Seq<EntryView> {
        entry_views(self.entries@)
    }
}

/// The values of a vector of glossaries.
pub open spec fn glossary_views(v: Seq<Glossary>) -> Seq<Seq<EntryView>> {
    Seq::new(v.len(), |i: int| v[i]@)
}

impl Glossary {
    #[verifier::type_invariant]
    spec fn well_formed(self) -> bool {
        distinct_sources(entry_views(self.entries@))
    }

    /// A glossary without entries.
    pub fn new() -> (g: Self)
        ensures
            g@ == Seq::<EntryView>::empty(),
            distinct_sources(g@),
    {
        let g = Glossary { entries: Vec::new() };
        g
    }

    /// Finds the entry of `source`.
    fn position(&self, source: &Vec<char>) -> (i: usize)
        ensures
            i == position_of(self@, source@),
            i <= self.entries.len(),
    {
        let mut i: usize = 0;
        while i < self.entries.len()
            invariant
                i <= self.entries.len(),
                forall|j: int| 0 <= j < i ==> self@[j].source != source@,
            decreases self.entries.len() - i,
        {
            if same_chars(&chars_of(self.entries[i].source.as_str()), source) {
                proof {
                    lemma_position_of(self@, source@, i as int);
                }
                return i;
            }
            i += 1;
        }
        proof {
            lemma_position_of(self@, source@, i as int);
        }
        i
    }

    /// Puts `entry` in: in place of the entry with the same source term, or at the end
    /// when there is none.
    pub fn insert(&mut self, entry: GlossaryEntry)
        ensures
            final(self)@ == inserted(old(self)@, entry@),
            distinct_sources(final(self)@),
    {
        proof {
            use_type_invariant(&*self);
            lemma_inserted_distinct(self@, entry@);
        }
        let i = self.position(&chars_of(entry.source.as_str()));
        let ghost before = self@;
        let mut entries: Vec<GlossaryEntry> = Vec::new();
        std::mem::swap(&mut entries, &mut self.entries);
        if i < entries.len() {
            entries.set(i, entry);
        } else {
            entries.push(entry);
        }
        assert(entry_views(entries@) == inserted(before, entry@));
        self.entries = entries;
    }

    /// The number of entries.
    pub fn len(&self) -> (n: usize)
        ensures
            n == self@.len(),
            distinct_sources(self@),
    {
        proof {
            use_type_invariant(self);
        }
        self.entries.len()
    }

    /// Tells whether the glossary has no entry.
    pub fn is_empty(&self) -> (b: bool)
        ensures
            b == (self@.len() == 0),
    {
        self.entries.len() == 0
    }

    /// Replaces in `text` each source term by its target term, entry after entry.
    pub fn apply(&self, text: &str) -> (out: String)
        ensures
            out@ == applied(self@, text@),
    {
        let mut out = chars_of(text);
        let mut i: usize = 0;
        while i < self.entries.len()
            invariant
                i <= self.entries.len(),
                out@ == applied(self@.take(i as int), text@),
            decreases self.entries.len() - i,
        {
            let e = &self.entries[i];
            proof {
                assert(self@.take(i + 1).drop_last() == self@.take(i as int));
            }
            out = replace_chars(&out, &chars_of(e.source.as_str()), &chars_of(e.target.as_str()));
            i += 1;
        }
        assert(self@.take(self.entries.len() as int) == self@);
        string_of(&out)
    }

    /// The source terms of the glossary that occur somewhere in `text`, in the order of
    /// the entries. A term counts wherever its characters stand, inside longer words
    /// too.
    pub fn find_terms_in_text(&self, text: &str, source_lang: &str) -> (terms: Vec<String>)
        ensures
            texts(terms@) == found_terms(self@, text@),
    {
        let t = chars_of(text);
        let mut terms: Vec<String> = Vec::new();
        let mut i: usize = 0;
        while i < self.entries.len()
            invariant
                i <= self.entries.len(),
                t@ == text@,
                texts(terms@) == found_terms(self@.take(i as int), text@),
            decreases self.entries.len() - i,
        {
            let e = &self.entries[i];
            proof {
                assert(self@.take(i + 1).drop_last() == self@.take(i as int));
            }
            if contains_chars(&t, &chars_of(e.source.as_str())) {
                let term = e.source.clone();
                terms.push(term);
            }
            i += 1;
        }
        assert(self@.take(self.entries.len() as int) == self@);
        terms
    }

    /// Writes the term table for `terms`: a header row with the two languages, then,
    /// for each term that the glossary holds, a row with the term and its target
    /// term. Terms that the glossary does not hold are left out.
    pub fn to_csv(&self, source_lang: &str, target_lang: &str, terms: &Vec<String>) -> (csv: String)
        ensures
            csv@ == table(self@, source_lang@, target_lang@, texts(terms@)),
    {
        let mut out = chars_of(source_lang);
        out.push(',');
        append_chars(&mut out, &chars_of(target_lang));
        let ghost head = out@;
        let ghost ts = texts(terms@);
        let mut i: usize = 0;
        while i < terms.len()
            invariant
                i <= terms.len(),
                ts == texts(terms@),
                out@ == head + table_rows(self@, ts.take(i as int)),
            decreases terms.len() - i,
        {
            let term = chars_of(terms[i].as_str());
            let at = self.position(&term);
            proof {
                assert(ts.take(i + 1).drop_last() == ts.take(i as int));
            }
            if at < self.entries.len() {
                out.push('\n');
                append_chars(&mut out, &term);
                out.push(',');
                append_chars(&mut out, &chars_of(self.entries[at].target.as_str()));
                assert(out@ == head + (table_rows(self@, ts.take(i as int)) + seq!['\n'] + term@
                    + seq![','] + self@[at as int].target));
            }
            i += 1;
        }
        assert(ts.take(terms.len() as int) == ts);
        string_of(&out)
    }

    /// Makes a glossary of the members of a JSON object: each member whose value is a
    /// string becomes an entry from its name to that string; the others are passed
    /// over.
    pub fn from_members(members: Vec<Member>) -> (g: Self)
        ensures
            g@ == entries_of_members(member_views(members@)),
            distinct_sources(g@),
    {
        let mut g = Glossary::new();
        let ghost ms = member_views(members@);
        let mut i: usize = 0;
        while i < members.len()
            invariant
                i <= members.len(),
                ms == member_views(members@),
                g@ == entries_of_members(ms.take(i as int)),
                distinct_sources(g@),
            decreases members.len() - i,
        {
            proof {
                assert(ms.take(i + 1).drop_last() == ms.take(i as int));
            }
            match &members[i].1 {
                Some(target) => {
                    g.insert(
                        GlossaryEntry {
                            source: members[i].0.clone(),
                            target: target.clone(),
                            force: false,
                        },
                    );
                },
                None => {},
            }
            i += 1;
        }
        assert(ms.take(members.len() as int) == ms);
        g
    }

    /// Reads a glossary from a JSON text.
    ///
    /// A text that is not JSON is refused with a glossary error. A JSON object gives
    /// the entries of its members with string values; any other JSON value gives an
    /// empty glossary.
    pub fn from_json_str(content: &str) -> (res: Result<Glossary, TranslationError>)
        ensures
            match res {
                Ok(g) => entries_of_json(content@) == Some(g@),
                Err(e) => entries_of_json(content@) is None && e@ is GlossaryError,
            },
    {
        match parse_members(content) {
            Ok(Some(members)) => Ok(Glossary::from_members(members)),
            Ok(None) => Ok(Glossary::new()),
            Err(e) => Err(
                TranslationError::Translate(TranslateError::GlossaryError(error_message(&e))),
            ),
        }
    }

    /// Puts every entry of `other` into this glossary, in order.
    pub fn extend(&mut self, other: &Glossary)
        ensures
            final(self)@ == inserted_all(old(self)@, other@),
    {
        let mut i: usize = 0;
        while i < other.entries.len()
            invariant
                i <= other.entries.len(),
                self@ == inserted_all(old(self)@, other@.take(i as int)),
            decreases other.entries.len() - i,
        {
            let e = copy_entry(&other.entries[i]);
            proof {
                assert(other@.take(i + 1).drop_last() == other@.take(i as int));
            }
            self.insert(e);
            i += 1;
        }
        assert(other@.take(other.entries.len() as int) == other@);
    }

    /// Makes one glossary of several: on a term that several of them hold, the one
    /// loaded last wins.
    pub fn merge_glossaries(glossaries: &Vec<Glossary>) -> (all: Glossary)
        ensures
            all@ == merged(glossary_views(glossaries@)),
            distinct_sources(all@),
    {
        let mut all = Glossary::new();
        let ghost gs = glossary_views(glossaries@);
        let mut i: usize = 0;
        while i < glossaries.len()
            invariant
                i <= glossaries.len(),
                gs == glossary_views(glossaries@),
                all@ == merged(gs.take(i as int)),
            decreases glossaries.len() - i,
        {
            proof {
                assert(gs.take(i + 1).drop_last() == gs.take(i as int));
            }
            all.extend(&glossaries[i]);
            i += 1;
        }
        assert(gs.take(glossaries.len() as int) == gs);
        proof {
            use_type_invariant(&all);
        }
        all
    }
}

impl Clone for Glossary {
    fn clone(&self) -> (g: Self)
        ensures
            g@ == self@,
    {
        let mut g = Glossary::new();
        g.extend(self);
        proof {
            use_type_invariant(self);
            lemma_inserted_all_distinct(self@);
        }
        g
    }
}

impl Default for Glossary {
    fn default() -> (g: Self)
        ensures
            g@ == Seq::<EntryView>::empty(),
    {
        Glossary::new()
    }
}

} // verus!
