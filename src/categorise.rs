//! The per-file decisions of sorting files by extension.
use vstd::prelude::*;
use crate::placement::stem_and_extension;
use crate::text::{
    chars_of, contains_chars, has_substring, lower_of, rfind_char, string_from_chars, to_lowercase,
};
use crate::tokens::views;

verus! {

/// The name contains one of `patterns`.
pub open spec fn matches_any(f: Seq<char>, patterns: Seq<Seq<char>>) -> bool {
    exists|k: int| 0 <= k < patterns.len() && has_substring(f, patterns[k])
}

/// Tells whether a filename contains one of the configured skip patterns.
pub fn matches_skip_pattern(filename: &str, patterns: &[String]) -> (r: bool)
    ensures
        r == matches_any(filename@, views(patterns@)),
{
    let chars = chars_of(filename);
    for k in 0..patterns.len()
        invariant
            chars@ == filename@,
            forall|m: int| 0 <= m < k ==> !has_substring(filename@, #[trigger] views(patterns@)[m]),
    {
        let pattern = chars_of(patterns[k].as_str());
        assert(views(patterns@)[k as int] == pattern@);
        if contains_chars(&chars, &pattern) {
            return true;
        }
    }
    false
}

/// The key a file is sorted by: its extension (as `Path::extension` finds it)
/// lower-cased, or `unknown` when it has none.
pub open spec fn extension_key_of(f: Seq<char>) -> Seq<char> {
    let ext = stem_and_extension(f).1;
    if ext.len() == 0 {
        "unknown"@
    } else {
        lower_of(ext.drop_first())
    }
}

/// The key a file is sorted by, as `extension_key_of` states.
pub fn extension_key(filename: &str) -> (r: String)
    ensures
        r@ == extension_key_of(filename@),
{
    let f = chars_of(filename);
    let len = f.len();
    let dot = rfind_char(&f, '.');
    assert(f@ == seq!['.', '.'] <==> (len == 2 && f@[0] == '.' && f@[1] == '.')) by {
        if len == 2 && f@[0] == '.' && f@[1] == '.' {
            assert(f@ =~= seq!['.', '.']);
        }
    }
    let start: usize = match dot {
        Some(p) => if p == 0 || (len == 2 && f[0] == '.' && f[1] == '.') {
            return string_from_chars(&chars_of("unknown"));
        } else {
            p + 1
        },
        None => {
            return string_from_chars(&chars_of("unknown"));
        },
    };
    let ghost ext = stem_and_extension(f@).1;
    let mut rest: Vec<char> = Vec::new();
    for i in start..len
        invariant
            start <= len == f@.len(),
            rest@ == f@.subrange(start as int, i as int),
    {
        rest.push(f[i]);
        assert(rest@ =~= f@.subrange(start as int, i + 1));
    }
    assert(ext.drop_first() =~= rest@);
    to_lowercase(string_from_chars(&rest).as_str())
}

} // verus!
