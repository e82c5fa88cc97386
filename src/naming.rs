//! Representative names of groups and the folder names derived from them.
use vstd::prelude::*;
use crate::cluster::FileGroup;
use crate::text::{
    alphanumeric, char_to_uppercase, chars_of, contains_chars, has_substring, is_alphanumeric,
    is_numeric, last_index, lower_of, numeric, rfind_char, string_from_chars, to_lowercase, trim,
    trim_chars, upper_of,
};
use crate::tokens::views;

verus! {

/// Every name in `fs` has the character `fs[0][i]` at position `i`.
pub open spec fn agree_at(fs: Seq<Seq<char>>, i: int) -> bool {
    forall|j: int| 0 <= j < fs.len() ==> i < fs[j].len() && fs[j][i] == fs[0][i]
}

/// The length of the longest prefix that all names in `fs` share, counting from `i`.
pub open spec fn shared_len_from(fs: Seq<Seq<char>>, i: nat) -> nat
    decreases fs[0].len() - i,
{
    if fs.len() > 0 && i < fs[0].len() && agree_at(fs, i as int) {
        shared_len_from(fs, i + 1)
    } else {
        i
    }
}

/// The characters that a shared prefix sheds from its end.
pub open spec fn prefix_delimiter(c: char) -> bool {
    c == '-' || c == '_' || c == ' ' || c == '.' || c == '(' || c == '[' || c == '{'
}

/// `s` without the prefix delimiters at its end.
pub open spec fn trim_delimiters(s: Seq<char>) -> Seq<char>
    decreases s.len(),
{
    if s.len() > 0 && prefix_delimiter(s.last()) {
        trim_delimiters(s.drop_last())
    } else {
        s
    }
}

/// The name that stands for a group of filenames: nothing for no files, the name
/// itself for one, and otherwise the prefix that all share, without trailing
/// delimiters.
pub open spec fn representative(fs: Seq<Seq<char>>) -> Seq<char> {
    if fs.len() == 0 {
        seq![]
    } else if fs.len() == 1 {
        fs[0]
    } else {
        trim_delimiters(fs[0].take(shared_len_from(fs, 0) as int))
    }
}

proof fn lemma_shared_len_bound(fs: Seq<Seq<char>>, i: nat)
    requires
        fs.len() > 0,
        i <= fs[0].len(),
    ensures
        i <= shared_len_from(fs, i) <= fs[0].len(),
    decreases fs[0].len() - i,
{
    if i < fs[0].len() && agree_at(fs, i as int) {
        lemma_shared_len_bound(fs, i + 1);
    }
}

/// The common prefix of a group of filenames, as `representative` states.
pub fn extract_common_prefix(filenames: &[String]) -> (r: String)
    ensures
        r@ == representative(views(filenames@)),
{
    let ghost fs = views(filenames@);
    if filenames.len() == 0 {
        return String::new();
    }
    if filenames.len() == 1 {
        return filenames[0].clone();
    }
    let mut all: Vec<Vec<char>> = Vec::new();
    for j in 0..filenames.len()
        invariant
            fs == views(filenames@),
            all@.len() == j,
            forall|k: int| 0 <= k < j ==> all@[k]@ == fs[k],
    {
        all.push(chars_of(filenames[j].as_str()));
    }
    let first = &all[0];
    let mut i: usize = 0;
    proof {
        lemma_shared_len_bound(fs, 0);
    }
    loop
        invariant
            fs.len() == all@.len() >= 2,
            forall|k: int| 0 <= k < fs.len() ==> all@[k]@ == fs[k],
            first@ == fs[0],
            i <= first@.len(),
            shared_len_from(fs, 0) == shared_len_from(fs, i as nat),
        ensures
            i <= first@.len(),
            shared_len_from(fs, 0) == i,
        decreases first@.len() - i,
    {
        if i == first.len() {
            break;
        }
        let c = first[i];
        let mut agree = true;
        let mut j: usize = 0;
        while j < all.len()
            invariant
                fs.len() == all@.len(),
                forall|k: int| 0 <= k < fs.len() ==> all@[k]@ == fs[k],
                first@ == fs[0],
                i < first@.len(),
                c == fs[0][i as int],
                j <= all@.len(),
                agree == forall|k: int| 0 <= k < j ==> i < fs[k].len() && fs[k][i as int] == c,
            decreases all@.len() - j,
        {
            assert(all@[j as int]@ == fs[j as int]);
            if i >= all[j].len() || all[j][i] != c {
                agree = false;
            }
            j += 1;
        }
        assert(agree == agree_at(fs, i as int));
        if !agree {
            break;
        }
        i += 1;
    }
    let mut end = i;
    assert(first@.take(i as int).take(end as int) =~= first@.take(i as int));
    while end > 0 && (first[end - 1] == '-' || first[end - 1] == '_' || first[end - 1] == ' '
        || first[end - 1] == '.' || first[end - 1] == '(' || first[end - 1] == '['
        || first[end - 1] == '{')
        invariant
            end <= i <= first@.len(),
            trim_delimiters(first@.take(i as int)) == trim_delimiters(first@.take(end as int)),
        decreases end,
    {
        assert(first@.take(end as int).drop_last() =~= first@.take(end - 1));
        end -= 1;
    }
    let mut kept: Vec<char> = Vec::new();
    for k in 0..end
        invariant
            end <= first@.len(),
            kept@ == first@.take(k as int),
    {
        kept.push(first[k]);
        assert(kept@ =~= first@.take(k + 1));
    }
    string_from_chars(&kept)
}

/// How many rules `naming_rule` lists.
pub const RULE_COUNT: usize = 22;

/// The naming rules, in the order they are tried: a substring to look for in the
/// lower-cased name, and the folder name it gives.
pub open spec fn naming_rule(k: int) -> (Seq<char>, Seq<char>) {
    if k == 0 {
        ("whatsapp chat"@, "WhatsAppChats"@)
    } else if k == 1 {
        ("whatsapp image"@, "WhatsAppImages"@)
    } else if k == 2 {
        ("whatsapp"@, "WhatsApp"@)
    } else if k == 3 {
        ("screenshot"@, "Screenshots"@)
    } else if k == 4 {
        ("screen shot"@, "Screenshots"@)
    } else if k == 5 {
        ("screencapture"@, "Screenshots"@)
    } else if k == 6 {
        ("chatgpt"@, "ChatGPTImages"@)
    } else if k == 7 {
        ("document"@, "Documents"@)
    } else if k == 8 {
        ("report"@, "Reports"@)
    } else if k == 9 {
        ("invoice"@, "Invoices"@)
    } else if k == 10 {
        ("receipt"@, "Receipts"@)
    } else if k == 11 {
        ("img_"@, "Images"@)
    } else if k == 12 {
        ("dsc"@, "CameraPhotos"@)
    } else if k == 13 {
        ("dcim"@, "CameraPhotos"@)
    } else if k == 14 {
        ("photo"@, "Photos"@)
    } else if k == 15 {
        ("pic"@, "Pictures"@)
    } else if k == 16 {
        ("vid_"@, "Videos"@)
    } else if k == 17 {
        ("video"@, "Videos"@)
    } else if k == 18 {
        ("mov_"@, "Videos"@)
    } else if k == 19 {
        ("download"@, "Downloads"@)
    } else if k == 20 {
        ("backup"@, "Backups"@)
    } else {
        ("archive"@, "Archives"@)
    }
}

fn naming_rule_text(k: usize) -> (r: (&'static str, &'static str))
    requires
        k < RULE_COUNT,
    ensures
        r.0@ == naming_rule(k as int).0,
        r.1@ == naming_rule(k as int).1,
{
    if k == 0 {
        ("whatsapp chat", "WhatsAppChats")
    } else if k == 1 {
        ("whatsapp image", "WhatsAppImages")
    } else if k == 2 {
        ("whatsapp", "WhatsApp")
    } else if k == 3 {
        ("screenshot", "Screenshots")
    } else if k == 4 {
        ("screen shot", "Screenshots")
    } else if k == 5 {
        ("screencapture", "Screenshots")
    } else if k == 6 {
        ("chatgpt", "ChatGPTImages")
    } else if k == 7 {
        ("document", "Documents")
    } else if k == 8 {
        ("report", "Reports")
    } else if k == 9 {
        ("invoice", "Invoices")
    } else if k == 10 {
        ("receipt", "Receipts")
    } else if k == 11 {
        ("img_", "Images")
    } else if k == 12 {
        ("dsc", "CameraPhotos")
    } else if k == 13 {
        ("dcim", "CameraPhotos")
    } else if k == 14 {
        ("photo", "Photos")
    } else if k == 15 {
        ("pic", "Pictures")
    } else if k == 16 {
        ("vid_", "Videos")
    } else if k == 17 {
        ("video", "Videos")
    } else if k == 18 {
        ("mov_", "Videos")
    } else if k == 19 {
        ("download", "Downloads")
    } else if k == 20 {
        ("backup", "Backups")
    } else {
        ("archive", "Archives")
    }
}

/// The first rule, from the `k`-th on, whose substring occurs in `lower`; -1 if none.
pub open spec fn first_rule(lower: Seq<char>, k: int) -> int
    decreases RULE_COUNT - k,
{
    if k < 0 || k >= RULE_COUNT {
        -1
    } else if has_substring(lower, naming_rule(k).0) {
        k
    } else {
        first_rule(lower, k + 1)
    }
}

/// A character that starts a date when it and the next three are digits.
pub open spec fn date_starts_at(s: Seq<char>, i: int) -> bool {
    0 <= i && i + 7 < s.len() && numeric(s[i]) && numeric(s[i + 1]) && numeric(s[i + 2]) && numeric(
        s[i + 3],
    )
}

/// A character that a date run goes on consuming after its first eight.
pub open spec fn date_tail(c: char) -> bool {
    numeric(c) || c == '-' || c == '_'
}

/// `s` from position `i` on, with its date-like runs removed: four digits and the four
/// characters after them, and then every digit, `-` and `_` that follows.
pub open spec fn without_dates_from(s: Seq<char>, i: int) -> Seq<char>
    decreases s.len() - i, 0int,
{
    if i < 0 || i >= s.len() {
        seq![]
    } else if date_starts_at(s, i) {
        skip_date_tail(s, i + 8)
    } else {
        seq![s[i]] + without_dates_from(s, i + 1)
    }
}

/// Goes on past the digits, `-` and `_` at `j`, then removes dates from what follows.
pub open spec fn skip_date_tail(s: Seq<char>, j: int) -> Seq<char>
    decreases s.len() - j, 1int,
{
    if 0 <= j < s.len() && date_tail(s[j]) {
        skip_date_tail(s, j + 1)
    } else {
        without_dates_from(s, j)
    }
}

/// Removes date-like runs, as `without_dates_from` describes from the start.
pub fn remove_date_patterns(s: &str) -> (r: String)
    ensures
        r@ == without_dates_from(s@, 0),
{
    let chars = chars_of(s);
    let n = chars.len();
    let mut out: Vec<char> = Vec::new();
    let mut i: usize = 0;
    while i < n
        invariant
            n == chars@.len(),
            chars@ == s@,
            i <= n,
            out@ + without_dates_from(s@, i as int) == without_dates_from(s@, 0),
        decreases n - i,
    {
        if n - i > 7 && is_numeric(chars[i]) && is_numeric(chars[i + 1]) && is_numeric(chars[i + 2])
            && is_numeric(chars[i + 3]) {
            let mut j: usize = i + 8;
            while j < n && (is_numeric(chars[j]) || chars[j] == '-' || chars[j] == '_')
                invariant
                    n == chars@.len(),
                    chars@ == s@,
                    i + 8 <= j <= n,
                    skip_date_tail(s@, i + 8) == skip_date_tail(s@, j as int),
                decreases n - j,
            {
                j += 1;
            }
            i = j;
        } else {
            let ghost before = out@;
            out.push(chars[i]);
            assert(before + without_dates_from(s@, i as int) =~= out@ + without_dates_from(
                s@,
                i + 1,
            ));
            i += 1;
        }
    }
    assert(out@ + without_dates_from(s@, n as int) =~= out@);
    string_from_chars(&out)
}

/// A character that may follow the `v` of a version marker.
pub open spec fn version_char(c: char) -> bool {
    numeric(c) || c == '.' || c == '_' || c == '-'
}

/// `s` without a trailing version marker: the last `v`, when it is not the first
/// character and only digits, `.`, `_` and `-` follow it, and all that follows.
pub open spec fn without_version(s: Seq<char>) -> Seq<char> {
    let p = last_index(s, 'v');
    if p > 0 && (forall|k: int| p < k < s.len() ==> version_char(#[trigger] s[k])) {
        s.take(p)
    } else {
        s
    }
}

/// Removes a trailing version marker, as `without_version` states.
pub fn remove_version_patterns(s: &str) -> (r: String)
    ensures
        r@ == without_version(s@),
{
    let chars = chars_of(s);
    let n = chars.len();
    match rfind_char(&chars, 'v') {
        Some(p) => {
            if p > 0 {
                let mut all = true;
                let mut k: usize = p + 1;
                while k < chars.len()
                    invariant
                        chars@ == s@,
                        p < k <= chars@.len(),
                        all == forall|m: int| p < m < k ==> version_char(#[trigger] s@[m]),
                    decreases chars@.len() - k,
                {
                    let c = chars[k];
                    if !(is_numeric(c) || c == '.' || c == '_' || c == '-') {
                        all = false;
                    }
                    k += 1;
                }
                if all {
                    let mut kept: Vec<char> = Vec::new();
                    for m in 0..p
                        invariant
                            chars@ == s@,
                            p < chars@.len(),
                            kept@ == s@.take(m as int),
                    {
                        kept.push(chars[m]);
                        assert(kept@ =~= s@.take(m + 1));
                    }
                    return string_from_chars(&kept);
                }
            }
            string_from_chars(&chars)
        },
        None => string_from_chars(&chars),
    }
}

/// A character of a trailing sequence number.
pub open spec fn suffix_char(c: char) -> bool {
    numeric(c) || c == '_' || c == '-' || c == ' '
}

/// `s` without the digits, `_`, `-` and spaces at its end.
pub open spec fn without_number_suffix(s: Seq<char>) -> Seq<char>
    decreases s.len(),
{
    if s.len() > 0 && suffix_char(s.last()) {
        without_number_suffix(s.drop_last())
    } else {
        s
    }
}

/// Removes a trailing sequence number, as `without_number_suffix` states.
pub fn remove_number_suffixes(s: &str) -> (r: String)
    ensures
        r@ == without_number_suffix(s@),
{
    let chars = chars_of(s);
    let mut end: usize = chars.len();
    assert(s@.take(end as int) =~= s@);
    while end > 0 && (is_numeric(chars[end - 1]) || chars[end - 1] == '_' || chars[end - 1] == '-'
        || chars[end - 1] == ' ')
        invariant
            chars@ == s@,
            end <= chars@.len(),
            without_number_suffix(s@) == without_number_suffix(s@.take(end as int)),
        decreases end,
    {
        assert(s@.take(end as int).drop_last() =~= s@.take(end - 1));
        end -= 1;
    }
    let mut kept: Vec<char> = Vec::new();
    for m in 0..end
        invariant
            chars@ == s@,
            end <= chars@.len(),
            kept@ == s@.take(m as int),
    {
        kept.push(chars[m]);
        assert(kept@ =~= s@.take(m + 1));
    }
    string_from_chars(&kept)
}

/// The characters of `s` that are alphanumeric or a space.
pub open spec fn word_chars(s: Seq<char>) -> Seq<char>
    decreases s.len(),
{
    if s.len() == 0 {
        s
    } else if alphanumeric(s.last()) || s.last() == ' ' {
        word_chars(s.drop_last()).push(s.last())
    } else {
        word_chars(s.drop_last())
    }
}

/// A character that a folder name may not hold on common file systems.
pub open spec fn illegal_char(c: char) -> bool {
    c == '/' || c == '\\' || c == ':' || c == '*' || c == '?' || c == '"' || c == '<' || c == '>'
        || c == '|'
}

/// The characters of `s` that a folder name may hold.
pub open spec fn legal_chars(s: Seq<char>) -> Seq<char>
    decreases s.len(),
{
    if s.len() == 0 {
        s
    } else if illegal_char(s.last()) {
        legal_chars(s.drop_last())
    } else {
        legal_chars(s.drop_last()).push(s.last())
    }
}

/// `s` with its first character upper-cased.
pub open spec fn capitalized(s: Seq<char>) -> Seq<char> {
    if s.len() == 0 {
        s
    } else {
        upper_of(s[0]) + s.drop_first()
    }
}

/// A folder name made from `name` itself: its word characters, without dates, version
/// marker and sequence number, capitalized, without illegal characters, trimmed.
pub open spec fn plain_folder_name(name: Seq<char>) -> Seq<char> {
    trim(
        legal_chars(
            capitalized(without_number_suffix(without_version(without_dates_from(word_chars(name), 0)))),
        ),
    )
}

/// The folder name for a base name: the first naming rule that matches, else a name
/// made from the base name itself.
pub open spec fn smart_name(name: Seq<char>) -> Seq<char> {
    let k = first_rule(lower_of(name), 0);
    if k >= 0 {
        naming_rule(k).1
    } else {
        plain_folder_name(name)
    }
}

/// The folder name for a group with the given representative name; never empty.
pub open spec fn suggested_folder_name(representative_name: Seq<char>) -> Seq<char> {
    let name = if representative_name.len() == 0 {
        "SimilarFiles"@
    } else {
        representative_name
    };
    let cleaned = smart_name(name);
    if cleaned.len() == 0 {
        "SimilarFiles"@
    } else {
        cleaned
    }
}

fn keep_word_chars(s: &[char]) -> (r: Vec<char>)
    ensures
        r@ == word_chars(s@),
{
    let mut r: Vec<char> = Vec::new();
    for i in 0..s.len()
        invariant
            r@ == word_chars(s@.take(i as int)),
    {
        assert(s@.take(i + 1).drop_last() =~= s@.take(i as int));
        if is_alphanumeric(s[i]) || s[i] == ' ' {
            r.push(s[i]);
        }
    }
    assert(s@.take(s@.len() as int) =~= s@);
    r
}

fn drop_illegal(s: &[char]) -> (r: Vec<char>)
    ensures
        r@ == legal_chars(s@),
{
    let mut r: Vec<char> = Vec::new();
    for i in 0..s.len()
        invariant
            r@ == legal_chars(s@.take(i as int)),
    {
        assert(s@.take(i + 1).drop_last() =~= s@.take(i as int));
        let c = s[i];
        if !(c == '/' || c == '\\' || c == ':' || c == '*' || c == '?' || c == '"' || c == '<' || c
            == '>' || c == '|') {
            r.push(c);
        }
    }
    assert(s@.take(s@.len() as int) =~= s@);
    r
}

fn capitalize(s: &[char]) -> (r: Vec<char>)
    ensures
        r@ == capitalized(s@),
{
    if s.len() == 0 {
        return Vec::new();
    }
    let upper = char_to_uppercase(s[0]);
    let mut r = chars_of(upper.as_str());
    for i in 1..s.len()
        invariant
            s@.len() > 0,
            r@ == upper_of(s@[0]) + s@.subrange(1, i as int),
    {
        r.push(s[i]);
        assert(r@ =~= upper_of(s@[0]) + s@.subrange(1, i + 1));
    }
    assert(s@.subrange(1, s@.len() as int) =~= s@.drop_first());
    r
}

/// Applies the naming rules to a base name, as `smart_name` states.
pub fn smart_folder_naming(name: &str) -> (r: String)
    ensures
        r@ == smart_name(name@),
{
    let lower = to_lowercase(name);
    let lc = chars_of(lower.as_str());
    for k in 0..RULE_COUNT
        invariant
            lc@ == lower_of(name@),
            first_rule(lc@, 0) == first_rule(lc@, k as int),
    {
        let rule = naming_rule_text(k);
        let pattern = chars_of(rule.0);
        if contains_chars(&lc, &pattern) {
            let replacement = chars_of(rule.1);
            return string_from_chars(&replacement);
        }
    }
    let chars = chars_of(name);
    let base = string_from_chars(&keep_word_chars(&chars));
    let without_dates = remove_date_patterns(base.as_str());
    let without_version = remove_version_patterns(without_dates.as_str());
    let trimmed = remove_number_suffixes(without_version.as_str());
    let capital = capitalize(&chars_of(trimmed.as_str()));
    let legal = drop_illegal(&capital);
    string_from_chars(&trim_chars(&legal))
}

/// The folder name for a group, as `suggested_folder_name` states; never empty.
pub fn suggest_folder_name(group: &FileGroup) -> (r: String)
    ensures
        r@ == suggested_folder_name(group.representative_name@),
        r@.len() > 0,
{
    proof {
        reveal_strlit("SimilarFiles");
    }
    let fallback = chars_of("SimilarFiles");
    let cleaned = if group.representative_name.as_str().is_empty() {
        smart_folder_naming("SimilarFiles")
    } else {
        smart_folder_naming(group.representative_name.as_str())
    };
    if cleaned.as_str().is_empty() {
        string_from_chars(&fallback)
    } else {
        cleaned
    }
}

/// Folder naming depends on nothing but the representative name: groups whose
/// representative names agree get the same folder name.
pub proof fn lemma_folder_name_depends_on_name_only(g1: FileGroup, g2: FileGroup)
    requires
        g1.representative_name@ == g2.representative_name@,
    ensures
        suggested_folder_name(g1.representative_name@) == suggested_folder_name(
            g2.representative_name@,
        ),
{
}

} // verus!
