//! Preparation of the text of a translated file.

use crate::text::{append_chars, chars_of, string_of};
use vstd::prelude::*;

verus! {

/// The byte-order mark.
pub open spec fn bom() -> char {
    '\u{feff}'
}

/// `content` behind a byte-order mark, unless it begins with one already.
pub open spec fn marked(content: Seq<char>) -> Seq<char> {
    if content.len() > 0 && content[0] == bom() {
        content
    } else {
        seq![bom()] + content
    }
}

/// The text that is written to a translated file: `content` behind a byte-order mark.
pub fn with_bom(content: &str) -> (out: String)
    ensures
        out@ == marked(content@),
{
    let v = chars_of(content);
    if v.len() > 0 && v[0] == '\u{feff}' {
        return string_of(&v);
    }
    let mut out: Vec<char> = Vec::new();
    out.push('\u{feff}');
    append_chars(&mut out, &v);
    string_of(&out)
}

} // verus!
