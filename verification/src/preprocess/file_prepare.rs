//! Naming of translated files.

use crate::text::{
    append_chars, chars_of, has_prefix_at, replace_all, replace_chars, string_of, sub_vec,
};
use vstd::prelude::*;

verus! {

/// The tag that marks the language `lang` in file names and headers.
pub open spec fn language_tag(lang: Seq<char>) -> Seq<char> {
    "l_"@ + lang
}

/// `name` with the ending `.yaml` replaced by `.yml`; other names stay as they are.
pub open spec fn with_yml_extension(name: Seq<char>) -> Seq<char> {
    if ".yaml"@.is_suffix_of(name) {
        name.take(name.len() - ".yaml"@.len()) + ".yml"@
    } else {
        name
    }
}

/// The name of the translation of a file: every tag of the source language replaced
/// by the tag of the target language, and the extension `.yaml` made `.yml`.
pub open spec fn target_filename(name: Seq<char>, source_lang: Seq<char>, target_lang: Seq<char>) -> Seq<
    char,
> {
    with_yml_extension(replace_all(name, language_tag(source_lang), language_tag(target_lang)))
}

/// Names the file that receives the translation of `source_filename`.
pub fn generate_target_filename(source_filename: &str, source_lang: &str, target_lang: &str) -> (name:
    String)
    ensures
        name@ == target_filename(source_filename@, source_lang@, target_lang@),
{
    let mut from = chars_of("l_");
    append_chars(&mut from, &chars_of(source_lang));
    let mut to = chars_of("l_");
    append_chars(&mut to, &chars_of(target_lang));
    let renamed = replace_chars(&chars_of(source_filename), &from, &to);
    let long = chars_of(".yaml");
    if long.len() <= renamed.len() && has_prefix_at(&renamed, renamed.len() - long.len(), &long) {
        let mut out = sub_vec(&renamed, 0, renamed.len() - long.len());
        append_chars(&mut out, &chars_of(".yml"));
        assert(renamed@.skip(renamed.len() - long.len()) == renamed@.subrange(
            renamed.len() - long.len(),
            renamed.len() as int,
        ));
        string_of(&out)
    } else {
        string_of(&renamed)
    }
}

} // verus!
