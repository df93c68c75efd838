//! Comparison of a source slice with its translation: same keys, same markup tokens.

use crate::pattern::{find_matches, regex_matches};
use crate::text::{
    append_chars, chars_of, distinct, distinct_rows, find_char_from, first_index, lemma_distinct,
    lemma_selected, lemma_selected_distinct, lemma_selected_none, lines, rows, rows_of, same_chars, select_rows, selected,
    split_lines, string_of, sub_vec, texts, trim, trim_chars,
};
use vstd::prelude::*;

verus! {

/// One discrepancy between a source text and its translation.
#[derive(Debug)]
pub enum Problem {
    /// A key of the source does not occur in the translation.
    MissingKey { key: String },
    /// A key of the translation does not occur in the source.
    ExtraKey { key: String },
    /// A markup token of the source does not occur in the translation.
    PatternNotFound { key: String, original: String },
    /// A markup token stands where the source has another one.
    PatternMismatch { key: String, original: String, translated: String },
}

/// The mathematical value of a problem.
pub enum ProblemView {
    MissingKey { key: Seq<char> },
    ExtraKey { key: Seq<char> },
    PatternNotFound { key: Seq<char>, original: Seq<char> },
    PatternMismatch { key: Seq<char>, original: Seq<char>, translated: Seq<char> },
}

impl View for Problem {
    type V = ProblemView;

    open spec fn view(&self) -> ProblemView {
        match self {
            Problem::MissingKey { key } => ProblemView::MissingKey { key: key@ },
            Problem::ExtraKey { key } => ProblemView::ExtraKey { key: key@ },
            Problem::PatternNotFound { key, original } => ProblemView::PatternNotFound {
                key: key@,
                original: original@,
            },
            Problem::PatternMismatch { key, original, translated } => ProblemView::PatternMismatch {
                key: key@,
                original: original@,
                translated: translated@,
            },
        }
    }
}

/// The values of a vector of problems.
pub open spec fn problem_views(v: Seq<Problem>) -> Seq<ProblemView> {
    Seq::new(v.len(), |i: int| v[i]@)
}

/// The sentence that reports a problem.
pub open spec fn problem_message(p: ProblemView) -> Seq<char> {
    match p {
        ProblemView::MissingKey { key } => "Missing key '"@ + key + "'"@,
        ProblemView::ExtraKey { key } => "Extra key '"@ + key + "'"@,
        ProblemView::PatternNotFound { key, original } => "Pattern not found for key '"@ + key
            + "' in '"@ + original + "'"@,
        ProblemView::PatternMismatch { key, original, translated } => "Pattern mismatch for key '"@
            + key + "': '"@ + original + "' => '"@ + translated + "'"@,
    }
}

impl Problem {
    /// Writes the sentence that reports this problem.
    pub fn message(&self) -> (m: String)
        ensures
            m@ == problem_message(self@),
    {
        let quote = chars_of("'");
        match self {
            Problem::MissingKey { key } => {
                let mut out = chars_of("Missing key '");
                append_chars(&mut out, &chars_of(key.as_str()));
                append_chars(&mut out, &quote);
                string_of(&out)
            },
            Problem::ExtraKey { key } => {
                let mut out = chars_of("Extra key '");
                append_chars(&mut out, &chars_of(key.as_str()));
                append_chars(&mut out, &quote);
                string_of(&out)
            },
            Problem::PatternNotFound { key, original } => {
                let mut out = chars_of("Pattern not found for key '");
                append_chars(&mut out, &chars_of(key.as_str()));
                append_chars(&mut out, &chars_of("' in '"));
                append_chars(&mut out, &chars_of(original.as_str()));
                append_chars(&mut out, &quote);
                string_of(&out)
            },
            Problem::PatternMismatch { key, original, translated } => {
                let mut out = chars_of("Pattern mismatch for key '");
                append_chars(&mut out, &chars_of(key.as_str()));
                append_chars(&mut out, &chars_of("': '"));
                append_chars(&mut out, &chars_of(original.as_str()));
                append_chars(&mut out, &chars_of("' => '"));
                append_chars(&mut out, &chars_of(translated.as_str()));
                append_chars(&mut out, &quote);
                string_of(&out)
            },
        }
    }
}

/// Pattern of an icon token: a pound sign, one or more other characters, a pound sign.
pub open spec fn icon_pattern() -> Seq<char> {
    "£[^£]+£"@
}

/// Pattern of a variable token: a dollar sign, one or more other characters, a dollar
/// sign.
pub open spec fn variable_pattern() -> Seq<char> {
    "\\$[^$]+\\$"@
}

/// Pattern of a color code: a section sign and one character that is not one.
pub open spec fn color_pattern() -> Seq<char> {
    "§[^§]"@
}

/// Pattern of a command token: an opening bracket, one or more characters other than a
/// closing bracket, a closing bracket.
pub open spec fn command_pattern() -> Seq<char> {
    "\\[[^\\]]+\\]"@
}

/// The patterns of the four classes, in the order in which they are checked.
pub open spec fn class_patterns() -> Seq<Seq<char>> {
    seq![icon_pattern(), variable_pattern(), color_pattern(), command_pattern()]
}

/// The tokens of one class in a text, in order of appearance. A pattern that does not
/// compile finds none.
pub open spec fn tokens(pattern: Seq<char>, text: Seq<char>) -> Seq<Seq<char>> {
    match regex_matches(pattern, text) {
        Some(found) => found,
        None => Seq::empty(),
    }
}

/// The key of a line: what stands before its first colon, trimmed. Lines without a
/// colon have none.
pub open spec fn line_key(line: Seq<char>) -> Option<Seq<char>> {
    let k = first_index(line, ':') as int;
    if k < line.len() {
        Some(trim(line.take(k)))
    } else {
        None
    }
}

/// The value of a line: what stands behind its first colon, trimmed.
pub open spec fn line_value(line: Seq<char>) -> Seq<char> {
    trim(line.skip(first_index(line, ':') as int + 1))
}

/// The keys of the lines that have one, in order.
pub open spec fn keys_of(ls: Seq<Seq<char>>) -> Seq<Seq<char>>
    decreases ls.len(),
{
    if ls.len() == 0 {
        ls
    } else {
        match line_key(ls.last()) {
            Some(key) => keys_of(ls.drop_last()).push(key),
            None => keys_of(ls.drop_last()),
        }
    }
}

/// The values of the lines that have a key, in order.
pub open spec fn values_of(ls: Seq<Seq<char>>) -> Seq<Seq<char>>
    decreases ls.len(),
{
    if ls.len() == 0 {
        ls
    } else {
        match line_key(ls.last()) {
            Some(key) => values_of(ls.drop_last()).push(line_value(ls.last())),
            None => values_of(ls.drop_last()),
        }
    }
}

/// The value that `key` has: that of the last line with this key.
pub open spec fn value_for(keys: Seq<Seq<char>>, values: Seq<Seq<char>>, key: Seq<char>) -> Option<
    Seq<char>,
>
    decreases keys.len(),
{
    if keys.len() == 0 || values.len() != keys.len() {
        None
    } else if keys.last() == key {
        Some(values.last())
    } else {
        value_for(keys.drop_last(), values.drop_last(), key)
    }
}

/// A `MissingKey` problem for each key.
pub open spec fn missing_problems(keys: Seq<Seq<char>>) -> Seq<ProblemView> {
    Seq::new(keys.len(), |i: int| ProblemView::MissingKey { key: keys[i] })
}

/// An `ExtraKey` problem for each key.
pub open spec fn extra_problems(keys: Seq<Seq<char>>) -> Seq<ProblemView> {
    Seq::new(keys.len(), |i: int| ProblemView::ExtraKey { key: keys[i] })
}

/// The problems of the key sets: the keys of the source that the translation lacks,
/// then the keys of the translation that the source lacks, each key once, in order
/// of first appearance.
pub open spec fn key_problems(original: Seq<Seq<char>>, translated: Seq<Seq<char>>) -> Seq<
    ProblemView,
> {
    missing_problems(selected(distinct(original), translated, false)) + extra_problems(
        selected(distinct(translated), original, false),
    )
}

/// A `PatternNotFound` problem of `key` for each token.
pub open spec fn not_found_problems(key: Seq<char>, found: Seq<Seq<char>>) -> Seq<ProblemView> {
    Seq::new(found.len(), |i: int| ProblemView::PatternNotFound { key, original: found[i] })
}

/// The tokens of the source that are not found: none when both sides have as many
/// tokens; else each token that the translation lacks, once, in order of first
/// appearance.
pub open spec fn lost_tokens(original: Seq<Seq<char>>, translated: Seq<Seq<char>>) -> Seq<
    Seq<char>,
> {
    if original.len() != translated.len() {
        selected(distinct(original), translated, false)
    } else {
        Seq::empty()
    }
}

/// The tokens of the source that are compared by position: all of them when both
/// sides have as many tokens; else those that the translation has too.
pub open spec fn kept_tokens(original: Seq<Seq<char>>, translated: Seq<Seq<char>>) -> Seq<
    Seq<char>,
> {
    if original.len() != translated.len() {
        selected(original, translated, true)
    } else {
        original
    }
}

/// A `PatternMismatch` problem of `key` for each of the first `n` positions at which
/// the two sides differ.
pub open spec fn mismatch_problems(
    key: Seq<char>,
    original: Seq<Seq<char>>,
    translated: Seq<Seq<char>>,
    n: nat,
) -> Seq<ProblemView>
    decreases n,
{
    if n == 0 {
        Seq::empty()
    } else {
        let before = mismatch_problems(key, original, translated, (n - 1) as nat);
        if original[n - 1] != translated[n - 1] {
            before.push(
                ProblemView::PatternMismatch {
                    key,
                    original: original[n - 1],
                    translated: translated[n - 1],
                },
            )
        } else {
            before
        }
    }
}

/// The smaller of two lengths.
pub open spec fn shorter(a: nat, b: nat) -> nat {
    if a <= b {
        a
    } else {
        b
    }
}

/// The problems of one class of tokens under `key`: the tokens not found, then the
/// mismatches of the kept tokens against the translation's, position by position.
pub open spec fn token_problems(
    key: Seq<char>,
    original: Seq<Seq<char>>,
    translated: Seq<Seq<char>>,
) -> Seq<ProblemView> {
    let kept = kept_tokens(original, translated);
    not_found_problems(key, lost_tokens(original, translated)) + mismatch_problems(
        key,
        kept,
        translated,
        shorter(kept.len(), translated.len()),
    )
}

/// The problems of one class, found with `pattern`, between two values of `key`.
pub open spec fn class_problems(
    pattern: Seq<char>,
    key: Seq<char>,
    original: Seq<char>,
    translated: Seq<char>,
) -> Seq<ProblemView> {
    token_problems(key, tokens(pattern, original), tokens(pattern, translated))
}

/// The problems between two values of `key`: icons, then variables, then color codes,
/// then commands.
pub open spec fn pattern_problems(key: Seq<char>, original: Seq<char>, translated: Seq<char>) -> Seq<
    ProblemView,
> {
    class_problems(icon_pattern(), key, original, translated) + class_problems(
        variable_pattern(),
        key,
        original,
        translated,
    ) + class_problems(color_pattern(), key, original, translated) + class_problems(
        command_pattern(),
        key,
        original,
        translated,
    )
}

/// The pattern problems of the keys `ks`, key after key; a key without a value on
/// one of the sides gives none.
pub open spec fn value_problems(
    ks: Seq<Seq<char>>,
    okeys: Seq<Seq<char>>,
    ovalues: Seq<Seq<char>>,
    tkeys: Seq<Seq<char>>,
    tvalues: Seq<Seq<char>>,
) -> Seq<ProblemView>
    decreases ks.len(),
{
    if ks.len() == 0 {
        Seq::empty()
    } else {
        let before = value_problems(ks.drop_last(), okeys, ovalues, tkeys, tvalues);
        match (value_for(okeys, ovalues, ks.last()), value_for(tkeys, tvalues, ks.last())) {
            (Some(o), Some(t)) => before + pattern_problems(ks.last(), o, t),
            _ => before,
        }
    }
}

/// What validation reports: the problems of the key sets, then the pattern problems
/// of each key of the source, in order of first appearance.
pub open spec fn validate_spec(original: Seq<char>, translated: Seq<char>) -> Seq<ProblemView> {
    let okeys = keys_of(lines(original));
    let ovalues = values_of(lines(original));
    let tkeys = keys_of(lines(translated));
    let tvalues = values_of(lines(translated));
    key_problems(okeys, tkeys) + value_problems(distinct(okeys), okeys, ovalues, tkeys, tvalues)
}

/// The markers of a text: its icons, then its variables, then its color codes.
pub open spec fn markers_spec(text: Seq<char>) -> Seq<Seq<char>> {
    tokens(icon_pattern(), text) + tokens(variable_pattern(), text) + tokens(
        color_pattern(),
        text,
    )
}

/// Checks that a translation keeps the keys and the markup tokens of its source.
pub struct FormatValidator {
    icon_pattern: String,
    variable_pattern: String,
    color_pattern: String,
    command_pattern: String,
}

/// Reads the keys and values of the lines of `text`.
fn read_pairs(text: &str) -> (pairs: (Vec<Vec<char>>, Vec<Vec<char>>))
    ensures
        rows(pairs.0@) == keys_of(lines(text@)),
        rows(pairs.1@) == values_of(lines(text@)),
{
    let v = chars_of(text);
    let ls = split_lines(&v);
    let mut keys: Vec<Vec<char>> = Vec::new();
    let mut values: Vec<Vec<char>> = Vec::new();
    let mut i: usize = 0;
    let ghost all = rows(ls@);
    while i < ls.len()
        invariant
            i <= ls.len(),
            all == rows(ls@),
            rows(keys@) == keys_of(all.take(i as int)),
            rows(values@) == values_of(all.take(i as int)),
        decreases ls.len() - i,
    {
        let line = &ls[i];
        let k = find_char_from(line, 0, ':');
        proof {
            assert(line@.skip(0) == line@);
            assert(all.take(i + 1).drop_last() == all.take(i as int));
        }
        if k < line.len() {
            let key = trim_chars(&sub_vec(line, 0, k));
            let value = trim_chars(&sub_vec(line, k + 1, line.len()));
            keys.push(key);
            values.push(value);
        }
        i += 1;
    }
    assert(all.take(ls.len() as int) == all);
    (keys, values)
}

/// Looks up the value of the last line with `key`.
fn find_value<'a>(keys: &Vec<Vec<char>>, values: &'a Vec<Vec<char>>, key: &Vec<char>) -> (found:
    Option<&'a Vec<char>>)
    requires
        keys.len() == values.len(),
    ensures
        match found {
            Some(v) => value_for(rows(keys@), rows(values@), key@) == Some(v@),
            None => value_for(rows(keys@), rows(values@), key@) is None,
        },
{
    let mut n: usize = keys.len();
    assert(rows(keys@).take(n as int) == rows(keys@));
    assert(rows(values@).take(n as int) == rows(values@));
    while n > 0
        invariant
            n <= keys.len(),
            keys.len() == values.len(),
            value_for(rows(keys@), rows(values@), key@) == value_for(
                rows(keys@).take(n as int),
                rows(values@).take(n as int),
                key@,
            ),
        decreases n,
    {
        proof {
            let ks = rows(keys@).take(n as int);
            let vs = rows(values@).take(n as int);
            assert(ks.drop_last() == rows(keys@).take(n - 1));
            assert(vs.drop_last() == rows(values@).take(n - 1));
        }
        if same_chars(&keys[n - 1], key) {
            return Some(&values[n - 1]);
        }
        n -= 1;
    }
    None
}

/// Compares the tokens of one class under `key`.
///
/// When the two sides do not have as many tokens, each token of the source that the
/// translation lacks is reported as not found and left out of what follows. The
/// remaining tokens are compared with the translation's, position by position, and
/// each difference is reported as a mismatch.
pub fn compare_tokens(key: &str, original: &Vec<String>, translated: &Vec<String>) -> (problems:
    Vec<Problem>)
    ensures
        problem_views(problems@) == token_problems(key@, texts(original@), texts(translated@)),
{
    let o = rows_of(original);
    let t = rows_of(translated);
    let ghost ts = texts(translated@);
    let mut problems: Vec<Problem> = Vec::new();
    let mut kept: Vec<Vec<char>> = o;
    let mut lost: Vec<Vec<char>> = Vec::new();
    if original.len() != translated.len() {
        lost = select_rows(&distinct_rows(&kept), &t, false);
        kept = select_rows(&kept, &t, true);
    }
    let mut i: usize = 0;
    while i < lost.len()
        invariant
            i <= lost.len(),
            problem_views(problems@) == not_found_problems(key@, rows(lost@).take(i as int)),
        decreases lost.len() - i,
    {
        let p = Problem::PatternNotFound { key: key.to_owned(), original: string_of(&lost[i]) };
        proof {
            assert(not_found_problems(key@, rows(lost@).take(i + 1)) == not_found_problems(
                key@,
                rows(lost@).take(i as int),
            ).push(p@));
        }
        problems.push(p);
        i += 1;
    }
    let ghost middle = problem_views(problems@);
    let n = if kept.len() <= t.len() {
        kept.len()
    } else {
        t.len()
    };
    let mut j: usize = 0;
    while j < n
        invariant
            j <= n,
            n <= kept.len(),
            n <= t.len(),
            ts == rows(t@),
            problem_views(problems@) == middle + mismatch_problems(
                key@,
                rows(kept@),
                ts,
                j as nat,
            ),
        decreases n - j,
    {
        if !same_chars(&kept[j], &t[j]) {
            let p = Problem::PatternMismatch {
                key: key.to_owned(),
                original: string_of(&kept[j]),
                translated: string_of(&t[j]),
            };
            proof {
                assert(problem_views(problems@.push(p)) == problem_views(problems@).push(p@));
            }
            problems.push(p);
        }
        j += 1;
    }
    problems
}

/// Finds the tokens of one class in `text`.
fn find_tokens(pattern: &str, text: &str) -> (found: Vec<String>)
    ensures
        texts(found@) == tokens(pattern@, text@),
{
    match find_matches(pattern, text) {
        Some(found) => found,
        None => {
            let none: Vec<String> = Vec::new();
            none
        },
    }
}

/// Moves the problems of `more` to the end of `problems`.
fn add_problems(problems: &mut Vec<Problem>, more: Vec<Problem>)
    ensures
        problem_views(final(problems)@) == problem_views(old(problems)@) + problem_views(more@),
{
    let mut more = more;
    problems.append(&mut more);
}

impl FormatValidator {
    #[verifier::type_invariant]
    spec fn holds_patterns(self) -> bool {
        &&& self.icon_pattern@ == icon_pattern()
        &&& self.variable_pattern@ == variable_pattern()
        &&& self.color_pattern@ == color_pattern()
        &&& self.command_pattern@ == command_pattern()
    }

    /// The patterns that the validator searches with, in the order of its checks.
    pub closed spec fn patterns(&self) -> Seq<Seq<char>> {
        seq![
            self.icon_pattern@,
            self.variable_pattern@,
            self.color_pattern@,
            self.command_pattern@,
        ]
    }

    /// A validator for the four classes of markup tokens.
    pub fn new() -> (validator: Self)
        ensures
            validator.patterns() == class_patterns(),
    {
        FormatValidator {
            icon_pattern: "£[^£]+£".to_owned(),
            variable_pattern: "\\$[^$]+\\$".to_owned(),
            color_pattern: "§[^§]".to_owned(),
            command_pattern: "\\[[^\\]]+\\]".to_owned(),
        }
    }

    /// Compares a source text with its translation.
    ///
    /// Both texts are read line by line; a line with a colon gives a key, the text
    /// before the first colon, and a value, the text behind it, both trimmed. A key
    /// that occurs on several lines has the value of the last of them. Reported are
    /// the keys that only one side has, then, for each key with a value on both
    /// sides, the differences between the markup tokens of the two values.
    pub fn validate(&self, original: &str, translated: &str) -> (problems: Vec<Problem>)
        ensures
            problem_views(problems@) == validate_spec(original@, translated@),
    {
        let (okeys, ovalues) = read_pairs(original);
        let (tkeys, tvalues) = read_pairs(translated);
        let mut problems: Vec<Problem> = Vec::new();
        self.validate_keys(&okeys, &tkeys, &mut problems);
        let ks = distinct_rows(&okeys);
        let ghost head = problem_views(problems@);
        proof {
            lemma_same_length(lines(original@));
            lemma_same_length(lines(translated@));
        }
        let mut i: usize = 0;
        while i < ks.len()
            invariant
                i <= ks.len(),
                okeys.len() == ovalues.len(),
                tkeys.len() == tvalues.len(),
                problem_views(problems@) == head + value_problems(
                    rows(ks@).take(i as int),
                    rows(okeys@),
                    rows(ovalues@),
                    rows(tkeys@),
                    rows(tvalues@),
                ),
            decreases ks.len() - i,
        {
            let ghost before = value_problems(
                rows(ks@).take(i as int),
                rows(okeys@),
                rows(ovalues@),
                rows(tkeys@),
                rows(tvalues@),
            );
            proof {
                let next = rows(ks@).take(i + 1);
                assert(next.drop_last() == rows(ks@).take(i as int));
            }
            match (find_value(&okeys, &ovalues, &ks[i]), find_value(&tkeys, &tvalues, &ks[i])) {
                (Some(o), Some(t)) => {
                    let key = string_of(&ks[i]);
                    let o = string_of(o);
                    let t = string_of(t);
                    self.validate_patterns(key.as_str(), o.as_str(), t.as_str(), &mut problems);
                    assert(problem_views(problems@) == head + (before + pattern_problems(
                        key@,
                        o@,
                        t@,
                    )));
                },
                _ => {},
            }
            i += 1;
        }
        assert(rows(ks@).take(ks.len() as int) == rows(ks@));
        problems
    }

    /// Adds the problems of the key sets to `problems` and returns how many they are.
    fn validate_keys(
        &self,
        original: &Vec<Vec<char>>,
        translated: &Vec<Vec<char>>,
        problems: &mut Vec<Problem>,
    ) -> (added: usize)
        ensures
            problem_views(final(problems)@) == problem_views(old(problems)@) + key_problems(
                rows(original@),
                rows(translated@),
            ),
            added == key_problems(rows(original@), rows(translated@)).len(),
    {
        let ghost start = problem_views(problems@);
        let count = problems.len();
        let missing = select_rows(&distinct_rows(original), translated, false);
        let extra = select_rows(&distinct_rows(translated), original, false);
        let mut i: usize = 0;
        while i < missing.len()
            invariant
                i <= missing.len(),
                problem_views(problems@) == start + missing_problems(rows(missing@).take(i as int)),
            decreases missing.len() - i,
        {
            let p = Problem::MissingKey { key: string_of(&missing[i]) };
            proof {
                assert(problem_views(problems@.push(p)) == problem_views(problems@).push(p@));
                assert(missing_problems(rows(missing@).take(i + 1)) == missing_problems(
                    rows(missing@).take(i as int),
                ).push(p@));
            }
            problems.push(p);
            i += 1;
        }
        let ghost middle = problem_views(problems@);
        let mut j: usize = 0;
        while j < extra.len()
            invariant
                j <= extra.len(),
                problem_views(problems@) == middle + extra_problems(rows(extra@).take(j as int)),
            decreases extra.len() - j,
        {
            let p = Problem::ExtraKey { key: string_of(&extra[j]) };
            proof {
                assert(problem_views(problems@.push(p)) == problem_views(problems@).push(p@));
                assert(extra_problems(rows(extra@).take(j + 1)) == extra_problems(
                    rows(extra@).take(j as int),
                ).push(p@));
            }
            problems.push(p);
            j += 1;
        }
        problems.len() - count
    }

    /// Adds the pattern problems between two values of `key` to `problems` and returns
    /// how many they are.
    fn validate_patterns(
        &self,
        key: &str,
        original: &str,
        translated: &str,
        problems: &mut Vec<Problem>,
    ) -> (added: usize)
        ensures
            problem_views(final(problems)@) == problem_views(old(problems)@) + pattern_problems(
                key@,
                original@,
                translated@,
            ),
            added == pattern_problems(key@, original@, translated@).len(),
    {
        proof {
            use_type_invariant(self);
        }
        let ghost start = problem_views(problems@);
        let count = problems.len();
        let icons = compare_tokens(
            key,
            &find_tokens(self.icon_pattern.as_str(), original),
            &find_tokens(self.icon_pattern.as_str(), translated),
        );
        add_problems(problems, icons);
        let variables = compare_tokens(
            key,
            &find_tokens(self.variable_pattern.as_str(), original),
            &find_tokens(self.variable_pattern.as_str(), translated),
        );
        add_problems(problems, variables);
        let colors = compare_tokens(
            key,
            &find_tokens(self.color_pattern.as_str(), original),
            &find_tokens(self.color_pattern.as_str(), translated),
        );
        add_problems(problems, colors);
        let commands = compare_tokens(
            key,
            &find_tokens(self.command_pattern.as_str(), original),
            &find_tokens(self.command_pattern.as_str(), translated),
        );
        add_problems(problems, commands);
        assert(problem_views(problems@) == start + pattern_problems(key@, original@, translated@));
        problems.len() - count
    }

    /// The markers of `text`: its icons, then its variables, then its color codes.
    pub fn extract_markers(&self, text: &str) -> (markers: Vec<String>)
        ensures
            texts(markers@) == markers_spec(text@),
    {
        proof {
            use_type_invariant(self);
        }
        let mut markers = find_tokens(self.icon_pattern.as_str(), text);
        let mut variables = find_tokens(self.variable_pattern.as_str(), text);
        let mut colors = find_tokens(self.color_pattern.as_str(), text);
        markers.append(&mut variables);
        markers.append(&mut colors);
        markers
    }
}

impl Default for FormatValidator {
    fn default() -> (validator: Self)
        ensures
            validator.patterns() == class_patterns(),
    {
        FormatValidator::new()
    }
}

/// A key is reported as missing exactly when the source has it and the translation
/// has not, and as extra exactly when the translation has it and the source has not;
/// no key is reported twice.
pub proof fn lemma_key_problems(original: Seq<Seq<char>>, translated: Seq<Seq<char>>)
    ensures
        forall|key: Seq<char>| #[trigger]
            key_problems(original, translated).contains(ProblemView::MissingKey { key })
                <==> original.contains(key) && !translated.contains(key),
        forall|key: Seq<char>| #[trigger]
            key_problems(original, translated).contains(ProblemView::ExtraKey { key })
                <==> translated.contains(key) && !original.contains(key),
        key_problems(original, translated).no_duplicates(),
{
    let missing = selected(distinct(original), translated, false);
    let extra = selected(distinct(translated), original, false);
    let m = missing_problems(missing);
    let r = key_problems(original, translated);
    lemma_distinct(original);
    lemma_distinct(translated);
    lemma_selected(distinct(original), translated, false);
    lemma_selected(distinct(translated), original, false);
    lemma_selected_distinct(distinct(original), translated, false);
    lemma_selected_distinct(distinct(translated), original, false);
    assert forall|key: Seq<char>| #[trigger]
        r.contains(ProblemView::MissingKey { key }) <==> original.contains(key)
            && !translated.contains(key) by {
        let p = ProblemView::MissingKey { key };
        if r.contains(p) {
            let k = choose|k: int| 0 <= k < r.len() && r[k] == p;
            if k < m.len() {
                assert(missing.contains(key));
            }
        }
        if original.contains(key) && !translated.contains(key) {
            assert(missing.contains(key));
            let k = choose|k: int| 0 <= k < missing.len() && missing[k] == key;
            assert(r[k] == p);
        }
    }
    assert forall|key: Seq<char>| #[trigger]
        r.contains(ProblemView::ExtraKey { key }) <==> translated.contains(key)
            && !original.contains(key) by {
        let p = ProblemView::ExtraKey { key };
        if r.contains(p) {
            let k = choose|k: int| 0 <= k < r.len() && r[k] == p;
            if k >= m.len() {
                assert(extra.contains(key));
            }
        }
        if translated.contains(key) && !original.contains(key) {
            assert(extra.contains(key));
            let k = choose|k: int| 0 <= k < extra.len() && extra[k] == key;
            assert(r[m.len() + k] == p);
        }
    }
}

/// Tokens compared with themselves show no mismatch.
proof fn lemma_no_mismatch(key: Seq<char>, found: Seq<Seq<char>>, n: nat)
    ensures
        mismatch_problems(key, found, found, n) == Seq::<ProblemView>::empty(),
    decreases n,
{
    if n > 0 {
        lemma_no_mismatch(key, found, (n - 1) as nat);
    }
}

/// A value compared with itself has no pattern problem.
proof fn lemma_same_value(key: Seq<char>, value: Seq<char>)
    ensures
        pattern_problems(key, value, value) == Seq::<ProblemView>::empty(),
{
    let icons = tokens(icon_pattern(), value);
    let variables = tokens(variable_pattern(), value);
    let colors = tokens(color_pattern(), value);
    let commands = tokens(command_pattern(), value);
    lemma_no_mismatch(key, icons, icons.len());
    lemma_no_mismatch(key, variables, variables.len());
    lemma_no_mismatch(key, colors, colors.len());
    lemma_no_mismatch(key, commands, commands.len());
}

/// Keys with the same values on both sides have no pattern problem.
proof fn lemma_same_values(ks: Seq<Seq<char>>, keys: Seq<Seq<char>>, values: Seq<Seq<char>>)
    ensures
        value_problems(ks, keys, values, keys, values) == Seq::<ProblemView>::empty(),
    decreases ks.len(),
{
    if ks.len() > 0 {
        lemma_same_values(ks.drop_last(), keys, values);
        match value_for(keys, values, ks.last()) {
            Some(v) => {
                lemma_same_value(ks.last(), v);
            },
            None => {},
        }
    }
}

/// A text validated against itself has no problem, whatever the text.
pub proof fn lemma_identical_texts_have_no_problem(text: Seq<char>)
    ensures
        validate_spec(text, text) == Seq::<ProblemView>::empty(),
{
    let keys = keys_of(lines(text));
    let values = values_of(lines(text));
    lemma_distinct(keys);
    lemma_selected_none(distinct(keys), keys);
    lemma_same_values(distinct(keys), keys, values);
}

/// Every line with a key has a value: the two lists are equally long.
pub proof fn lemma_same_length(ls: Seq<Seq<char>>)
    ensures
        keys_of(ls).len() == values_of(ls).len(),
    decreases ls.len(),
{
    if ls.len() > 0 {
        lemma_same_length(ls.drop_last());
    }
}

} // verus!
