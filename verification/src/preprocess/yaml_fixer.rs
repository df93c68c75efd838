//! Repair of malformed lines and removal of the language header.

use crate::error::TranslationError;
use crate::pattern::{regex_replaced, replace_first};
use crate::text::{
    append_chars, chars_of, count_leading_spaces, has_prefix_at, is_space, join_chars,
    join_lines, lines, rows, split_lines, string_of, sub_vec, trim,
    trim_chars, trim_start, trim_start_chars,
};
use vstd::prelude::*;

verus! {

/// Pattern of a line whose key carries a number: key, colon, digits, white space, rest.
pub open spec fn numbered_key_pattern() -> Seq<char> {
    "^(\\w+):\\d+\\s+(.*)$"@
}

/// What a line with a numbered key becomes: key, colon, one space, rest.
pub open spec fn numbered_key_replacement() -> Seq<char> {
    "$1: $2"@
}

/// Pattern of a line whose value may lack quotation marks: key, colon, white space,
/// an optional quotation mark, a value without quotation marks, an optional
/// quotation mark.
pub open spec fn loose_value_pattern() -> Seq<char> {
    "^(\\w+):\\s+\"?([^\"]*)\"?$"@
}

/// What a line with a loosely quoted value becomes: key, colon, one space, the value
/// between quotation marks.
pub open spec fn loose_value_replacement() -> Seq<char> {
    "$1: \"$2\""@
}

/// `text` with the first match of `pattern` replaced; unchanged when the pattern does
/// not compile.
pub open spec fn repaired(pattern: Seq<char>, text: Seq<char>, replacement: Seq<char>) -> Seq<char> {
    match regex_replaced(pattern, text, replacement) {
        Some(r) => r,
        None => text,
    }
}

/// The number of bytes that `c` takes in UTF-8.
pub open spec fn utf8_len(c: char) -> nat {
    if '\u{80}' > c {
        1
    } else if '\u{800}' > c {
        2
    } else if '\u{10000}' > c {
        3
    } else {
        4
    }
}

/// The width of the indentation of `s`: the number of bytes that its leading white
/// space takes in UTF-8.
pub open spec fn indent_width(s: Seq<char>) -> nat
    decreases s.len(),
{
    if s.len() > 0 && is_space(s[0]) {
        utf8_len(s[0]) + indent_width(s.drop_first())
    } else {
        0
    }
}

/// `n` spaces.
pub open spec fn spaces(n: nat) -> Seq<char> {
    Seq::new(n, |i: int| ' ')
}

/// `text` behind the indentation that `line` is given: spaces, as many as the width
/// of the indentation of `line` rounded down to an even number.
pub open spec fn indented_like(line: Seq<char>, text: Seq<char>) -> Seq<char> {
    spaces(indent_width(line) / 2 * 2) + text
}

/// Tells whether a line is blank or a comment.
pub open spec fn is_skipped(line: Seq<char>) -> bool {
    trim(line).len() == 0 || trim_start(line)[0] == '#'
}

/// A line after repair: blank lines and comments stay as they are. Of another line
/// the text behind the indentation is repaired, whatever the indentation: a number
/// behind the key is dropped and the value is put between quotation marks. The
/// repaired text then stands behind an indentation of even width.
pub open spec fn normalize_line(line: Seq<char>) -> Seq<char> {
    if is_skipped(line) {
        line
    } else {
        indented_like(
            line,
            repaired(
                loose_value_pattern(),
                repaired(numbered_key_pattern(), trim_start(line), numbered_key_replacement()),
                loose_value_replacement(),
            ),
        )
    }
}

/// The lines after repair.
pub open spec fn normalized_lines(ls: Seq<Seq<char>>) -> Seq<Seq<char>> {
    Seq::new(ls.len(), |i: int| normalize_line(ls[i]))
}

/// A document after repair: each of its lines repaired, joined with line feeds.
pub open spec fn normalize_spec(content: Seq<char>) -> Seq<char> {
    join_lines(normalized_lines(lines(content)))
}

/// Replaces the first match of `pattern` in `text`.
fn repair(pattern: &str, text: String, replacement: &str) -> (out: String)
    ensures
        out@ == repaired(pattern@, text@, replacement@),
{
    match replace_first(pattern, text.as_str(), replacement) {
        Some(r) => r,
        None => text,
    }
}

/// The number of bytes that `c` takes in UTF-8.
fn char_width(c: char) -> (n: u128)
    ensures
        n == utf8_len(c),
        1 <= n <= 4,
{
    if '\u{80}' > c {
        1
    } else if '\u{800}' > c {
        2
    } else if '\u{10000}' > c {
        3
    } else {
        4
    }
}

/// Puts `text` behind the indentation that `line` is given: spaces, as many as the
/// width in bytes of the indentation of `line` rounded down to an even number.
pub fn indent_like(line: &Vec<char>, text: &Vec<char>) -> (out: Vec<char>)
    ensures
        out@ == indented_like(line@, text@),
{
    let k = count_leading_spaces(line);
    let mut width: u128 = 0;
    let mut i: usize = 0;
    proof {
        crate::text::lemma_leading_spaces_bounds(line@);
        assert(line@.skip(0) == line@);
    }
    while i < k
        invariant
            i <= k <= line.len(),
            forall|j: int| 0 <= j < k ==> is_space(line@[j]),
            k < line.len() ==> !is_space(line@[k as int]),
            width <= 4 * i,
            width + indent_width(line@.skip(i as int)) == indent_width(line@),
        decreases k - i,
    {
        let w = char_width(line[i]);
        proof {
            let rest = line@.skip(i as int);
            assert(rest.drop_first() == line@.skip(i + 1));
        }
        width = width + w;
        i += 1;
    }
    let even: u128 = width / 2 * 2;
    let mut out: Vec<char> = Vec::new();
    let mut n: u128 = 0;
    while n < even
        invariant
            n <= even,
            out@ == spaces(n as nat),
        decreases even - n,
    {
        out.push(' ');
        n += 1;
    }
    append_chars(&mut out, text);
    out
}

/// Tells whether `line` is blank or a comment.
fn line_is_skipped(line: &Vec<char>) -> (b: bool)
    ensures
        b == is_skipped(line@),
{
    let t = trim_chars(line);
    if t.len() == 0 {
        return true;
    }
    let s = trim_start_chars(line);
    proof {
        crate::text::lemma_leading_spaces_bounds(line@);
    }
    s[0] == '#'
}

/// Repairs one line.
fn fix_line(line: &Vec<char>) -> (out: Vec<char>)
    ensures
        out@ == normalize_line(line@),
{
    if line_is_skipped(line) {
        return sub_vec(line, 0, line.len());
    }
    let text = string_of(&trim_start_chars(line));
    let first = repair("^(\\w+):\\d+\\s+(.*)$", text, "$1: $2");
    let second = repair("^(\\w+):\\s+\"?([^\"]*)\"?$", first, "$1: \"$2\"");
    indent_like(line, &chars_of(second.as_str()))
}

/// Repairs the malformed lines of a document.
///
/// Blank lines and comments are left as they are. On every other line, indented or
/// not, a number that follows the key's colon is dropped, a value without quotation
/// marks is put between them, and the indentation is replaced by spaces, as many as
/// its width rounded down to an even number. A line that fits none of the patterns
/// only has its indentation made even. The result has one line for each line of
/// `content`, joined with line feeds. The function always succeeds.
pub fn fix_yaml_content(content: &str) -> (res: Result<String, TranslationError>)
    ensures
        res matches Ok(fixed) && fixed@ == normalize_spec(content@),
{
    let ls = split_lines(&chars_of(content));
    let mut out: Vec<Vec<char>> = Vec::new();
    let mut i: usize = 0;
    while i < ls.len()
        invariant
            i <= ls.len(),
            out.len() == i,
            forall|j: int| 0 <= j < i ==> out@[j]@ == normalize_line(#[trigger] ls@[j]@),
        decreases ls.len() - i,
    {
        out.push(fix_line(&ls[i]));
        i += 1;
    }
    assert(rows(out@) == normalized_lines(rows(ls@)));
    Ok(string_of(&join_chars(&out)))
}

/// What a language header starts with: the tag of the language and a colon.
pub open spec fn header_prefix(lang: Seq<char>) -> Seq<char> {
    "l_"@ + lang + ":"@
}

/// Index of the first line that is neither blank nor a comment, or the number of lines
/// when there is none.
pub open spec fn first_meaningful(ls: Seq<Seq<char>>) -> nat
    decreases ls.len(),
{
    if ls.len() == 0 || !is_skipped(ls[0]) {
        0
    } else {
        1 + first_meaningful(ls.drop_first())
    }
}

/// Index of the header of language `lang` among the lines: the first line that is
/// neither blank nor a comment, if it starts, once trimmed, with the header prefix.
pub open spec fn header_index(lang: Seq<char>, ls: Seq<Seq<char>>) -> Option<int> {
    let i = first_meaningful(ls) as int;
    if i < ls.len() && header_prefix(lang).is_prefix_of(trim(ls[i])) {
        Some(i)
    } else {
        None
    }
}

/// The lines without their leading white space.
pub open spec fn dedented(ls: Seq<Seq<char>>) -> Seq<Seq<char>> {
    Seq::new(ls.len(), |i: int| trim_start(ls[i]))
}

/// The header line of a document, empty when it has none, and the other lines,
/// without their leading white space, joined with line feeds.
pub open spec fn split_header_spec(lang: Seq<char>, content: Seq<char>) -> (Seq<char>, Seq<char>) {
    let ls = lines(content);
    match header_index(lang, ls) {
        Some(i) => (ls[i], join_lines(dedented(ls.remove(i)))),
        None => (Seq::empty(), join_lines(dedented(ls))),
    }
}

/// `first_meaningful` is the one index before which all lines are blank or comments
/// and at which, if it lies among the lines, stands one that is neither.
pub proof fn lemma_first_meaningful(ls: Seq<Seq<char>>, k: int)
    requires
        0 <= k <= ls.len(),
        forall|j: int| 0 <= j < k ==> is_skipped(ls[j]),
        k < ls.len() ==> !is_skipped(ls[k]),
    ensures
        first_meaningful(ls) == k,
    decreases ls.len(),
{
    if ls.len() == 0 || !is_skipped(ls[0]) {
    } else {
        lemma_first_meaningful(ls.drop_first(), k - 1);
    }
}

/// Takes the language header off a document.
///
/// The header is looked for on the first line that is neither blank nor a comment: it
/// is that line if, once trimmed, it starts with `l_`, the language and a colon. The
/// first part of the result is the header line as it stands, or empty when there is
/// none; the second is the remaining lines, each without its leading white space,
/// joined with line feeds.
pub fn trim_lang_header(lang: &str, fixed_content: &str) -> (parts: (String, String))
    ensures
        (parts.0@, parts.1@) == split_header_spec(lang@, fixed_content@),
{
    let mut ls = split_lines(&chars_of(fixed_content));
    let ghost all = rows(ls@);
    let mut prefix = chars_of("l_");
    append_chars(&mut prefix, &chars_of(lang));
    append_chars(&mut prefix, &chars_of(":"));
    let mut i: usize = 0;
    while i < ls.len() && line_is_skipped(&ls[i])
        invariant
            i <= ls.len(),
            all == rows(ls@),
            forall|j: int| 0 <= j < i ==> is_skipped(all[j]),
        decreases ls.len() - i,
    {
        i += 1;
    }
    proof {
        lemma_first_meaningful(all, i as int);
    }
    let mut header: Vec<char> = Vec::new();
    let mut found = false;
    if i < ls.len() {
        let t = trim_chars(&ls[i]);
        if has_prefix_at(&t, 0, &prefix) {
            found = true;
        }
    }
    if found {
        header = ls.remove(i);
        assert(rows(ls@) == all.remove(i as int));
    }
    let ghost rest = rows(ls@);
    let mut out: Vec<Vec<char>> = Vec::new();
    let mut j: usize = 0;
    while j < ls.len()
        invariant
            j <= ls.len(),
            out.len() == j,
            forall|k: int| 0 <= k < j ==> out@[k]@ == trim_start(#[trigger] ls@[k]@),
        decreases ls.len() - j,
    {
        out.push(trim_start_chars(&ls[j]));
        j += 1;
    }
    assert(rows(out@) == dedented(rest));
    (string_of(&header), string_of(&join_chars(&out)))
}

} // verus!
