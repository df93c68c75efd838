//! Rules for finding and reading files: which names are documents, where resources
//! are looked for, what a file's text is.

use crate::postprocess::writer::bom;
use crate::text::{append_chars, chars_of, same_chars, string_of, sub_vec, texts};
use vstd::prelude::*;

verus! {

/// Index of the last occurrence of `c` in `s`, or -1 when `c` does not occur.
pub open spec fn last_index(s: Seq<char>, c: char) -> int
    decreases s.len(),
{
    if s.len() == 0 {
        -1
    } else if s.last() == c {
        s.len() - 1
    } else {
        last_index(s.drop_last(), c)
    }
}

/// The extension of a file name: what stands behind its last dot. A name without a
/// dot has none, nor has a name whose only dot is its first character.
pub open spec fn extension(name: Seq<char>) -> Option<Seq<char>> {
    let d = last_index(name, '.');
    if d <= 0 {
        None
    } else {
        Some(name.skip(d + 1))
    }
}

/// Tells whether a file name has the extension `yml` or `yaml`.
pub open spec fn is_yaml_name(name: Seq<char>) -> bool {
    extension(name) == Some("yml"@) || extension(name) == Some("yaml"@)
}

/// Tells whether the file with this name is a document to translate.
pub fn has_yaml_extension(file_name: &str) -> (b: bool)
    ensures
        b == is_yaml_name(file_name@),
{
    let v = chars_of(file_name);
    let mut n: usize = v.len();
    assert(v@.take(n as int) == v@);
    while n > 0 && v[n - 1] != '.'
        invariant
            n <= v.len(),
            last_index(v@, '.') == last_index(v@.take(n as int), '.'),
        decreases n,
    {
        assert(v@.take(n as int).drop_last() == v@.take(n - 1));
        n -= 1;
    }
    if n <= 1 {
        return false;
    }
    let ext = sub_vec(&v, n, v.len());
    same_chars(&ext, &chars_of("yml")) || same_chars(&ext, &chars_of("yaml"))
}

/// `content` without the byte-order mark that it may begin with.
pub open spec fn unmarked(content: Seq<char>) -> Seq<char> {
    if content.len() > 0 && content[0] == bom() {
        content.skip(1)
    } else {
        content
    }
}

/// The text of a file that was read: its content without a leading byte-order mark.
pub fn strip_bom(content: &str) -> (out: String)
    ensures
        out@ == unmarked(content@),
{
    let v = chars_of(content);
    if v.len() > 0 && v[0] == '\u{feff}' {
        string_of(&sub_vec(&v, 1, v.len()))
    } else {
        string_of(&v)
    }
}

/// The places, below a data directory, where the glossary `name` is looked for: the
/// user's own glossaries first, then the ones that come with the program.
pub open spec fn glossary_places(name: Seq<char>) -> Seq<Seq<char>> {
    seq!["glossary_custom/"@ + name + ".json"@, "glossary/"@ + name + ".json"@]
}

/// Lists the places where the glossary `name` is looked for, in order.
pub fn glossary_candidates(name: &str) -> (places: Vec<String>)
    ensures
        texts(places@) == glossary_places(name@),
{
    let n = chars_of(name);
    let mut custom = chars_of("glossary_custom/");
    append_chars(&mut custom, &n);
    append_chars(&mut custom, &chars_of(".json"));
    let mut default = chars_of("glossary/");
    append_chars(&mut default, &n);
    append_chars(&mut default, &chars_of(".json"));
    let mut places: Vec<String> = Vec::new();
    places.push(string_of(&custom));
    places.push(string_of(&default));
    places
}

/// Chooses among candidates, given for each whether it exists: the first that does.
pub fn first_existing(exists: &Vec<bool>) -> (chosen: Option<usize>)
    ensures
        match chosen {
            Some(i) => i < exists.len() && exists@[i as int] && forall|j: int|
                0 <= j < i ==> !exists@[j],
            None => forall|j: int| 0 <= j < exists.len() ==> !exists@[j],
        },
{
    let mut i: usize = 0;
    while i < exists.len()
        invariant
            i <= exists.len(),
            forall|j: int| 0 <= j < i ==> !exists@[j],
        decreases exists.len() - i,
    {
        if exists[i] {
            return Some(i);
        }
        i += 1;
    }
    None
}

/// The message for a data file that was found in neither data directory.
pub open spec fn missing_message(relative_path: Seq<char>, user_data_dir: Seq<char>) -> Seq<char> {
    "Data file not found: '"@ + relative_path + "'. Searched in:\n1. ./data/"@ + relative_path
        + "\n2. "@ + user_data_dir + "/"@ + relative_path
}

/// Writes the message for a data file that was found in neither data directory.
pub fn data_file_missing_message(relative_path: &str, user_data_dir: &str) -> (m: String)
    ensures
        m@ == missing_message(relative_path@, user_data_dir@),
{
    let path = chars_of(relative_path);
    let mut out = chars_of("Data file not found: '");
    append_chars(&mut out, &path);
    append_chars(&mut out, &chars_of("'. Searched in:\n1. ./data/"));
    append_chars(&mut out, &path);
    append_chars(&mut out, &chars_of("\n2. "));
    append_chars(&mut out, &chars_of(user_data_dir));
    append_chars(&mut out, &chars_of("/"));
    append_chars(&mut out, &path);
    string_of(&out)
}

} // verus!
