//! Character-level building blocks shared by the tokenizer and the folder namer.
use vstd::prelude::*;

verus! {

/// What `char::is_alphanumeric` answers for a character (Unicode tables).
pub uninterp spec fn alphanumeric(c: char) -> bool;

/// What `char::is_numeric` answers for a character (Unicode tables).
pub uninterp spec fn numeric(c: char) -> bool;

/// What `str::to_lowercase` returns for a string (Unicode case mapping).
pub uninterp spec fn lower_of(s: Seq<char>) -> Seq<char>;

/// What `char::to_uppercase` yields for a character (Unicode case mapping).
pub uninterp spec fn upper_of(c: char) -> Seq<char>;

/// Relies on `char::is_alphanumeric`.
#[verifier::external_body]
pub(crate) fn is_alphanumeric(c: char) -> (r: bool)
    ensures
        r == alphanumeric(c),
{
    c.is_alphanumeric()
}

/// Relies on `char::is_numeric`.
#[verifier::external_body]
pub(crate) fn is_numeric(c: char) -> (r: bool)
    ensures
        r == numeric(c),
{
    c.is_numeric()
}

/// Relies on `str::to_lowercase`: the result depends on the characters alone.
#[verifier::external_body]
pub(crate) fn to_lowercase(s: &str) -> (r: String)
    ensures
        r@ == lower_of(s@),
{
    s.to_lowercase()
}

/// Relies on `char::to_uppercase`, collected into a `String`.
#[verifier::external_body]
pub(crate) fn char_to_uppercase(c: char) -> (r: String)
    ensures
        r@ == upper_of(c),
{
    c.to_uppercase().collect()
}

/// Relies on `String`'s `FromIterator<&char>`: the characters, in order.
#[verifier::external_body]
pub(crate) fn string_from_chars(v: &[char]) -> (r: String)
    ensures
        r@ == v@,
{
    v.iter().collect()
}

/// Unicode's `White_Space` property, the set that `char::is_whitespace` documents.
pub open spec fn white_space(c: char) -> bool {
    let u = c as u32;
    (0x9 <= u && u <= 0xd) || u == 0x20 || u == 0x85 || u == 0xa0 || u == 0x1680
        || (0x2000 <= u && u <= 0x200a) || u == 0x2028 || u == 0x2029 || u == 0x202f
        || u == 0x205f || u == 0x3000
}

pub fn is_whitespace(c: char) -> (r: bool)
    ensures
        r == white_space(c),
{
    let u = c as u32;
    (0x9 <= u && u <= 0xd) || u == 0x20 || u == 0x85 || u == 0xa0 || u == 0x1680
        || (0x2000 <= u && u <= 0x200a) || u == 0x2028 || u == 0x2029 || u == 0x202f
        || u == 0x205f || u == 0x3000
}

/// The characters of `s`, in order.
pub fn chars_of(s: &str) -> (r: Vec<char>)
    ensures
        r@ == s@,
{
    let mut r: Vec<char> = Vec::new();
    for c in it: s.chars()
        invariant
            r@ == it.seq().take(it.index() as int),
    {
        r.push(c);
    }
    r
}

/// `needle` occurs in `hay` starting at position `i`.
pub open spec fn occurs_at(hay: Seq<char>, needle: Seq<char>, i: int) -> bool {
    0 <= i && i + needle.len() <= hay.len() && hay.subrange(i, i + needle.len()) == needle
}

/// `needle` is a substring of `hay` (the empty string is a substring of every string).
pub open spec fn has_substring(hay: Seq<char>, needle: Seq<char>) -> bool {
    exists|i: int| occurs_at(hay, needle, i)
}

fn matches_at(hay: &[char], needle: &[char], i: usize) -> (r: bool)
    requires
        i + needle@.len() <= hay@.len(),
    ensures
        r == occurs_at(hay@, needle@, i as int),
{
    let n = hay.len();
    let mut j: usize = 0;
    while j < needle.len()
        invariant
            n == hay@.len(),
            i + needle@.len() <= hay@.len(),
            j <= needle@.len(),
            forall|m: int| 0 <= m < j ==> hay@[i + m] == needle@[m],
        decreases needle@.len() - j,
    {
        if hay[i + j] != needle[j] {
            assert(hay@.subrange(i as int, i + needle@.len())[j as int] != needle@[j as int]);
            return false;
        }
        j += 1;
    }
    assert(hay@.subrange(i as int, i + needle@.len()) =~= needle@);
    true
}

pub fn contains_chars(hay: &[char], needle: &[char]) -> (r: bool)
    ensures
        r == has_substring(hay@, needle@),
{
    if needle.len() > hay.len() {
        return false;
    }
    let last = hay.len() - needle.len();
    let mut i: usize = 0;
    loop
        invariant
            last == hay@.len() - needle@.len(),
            i <= last,
            forall|k: int| 0 <= k < i ==> !occurs_at(hay@, needle@, k),
        decreases last - i,
    {
        if matches_at(hay, needle, i) {
            return true;
        }
        if i == last {
            return false;
        }
        i += 1;
    }
}

/// Position of the last `c` in `s`, or -1 when there is none.
pub open spec fn last_index(s: Seq<char>, c: char) -> int
    decreases s.len(),
{
    if s.len() == 0 {
        -1
    } else if s.last() == c {
        s.len() - 1
    } else {
        last_index(s.drop_last(), c)
    }
}

pub fn rfind_char(s: &[char], c: char) -> (r: Option<usize>)
    ensures
        match r {
            Some(p) => p < s@.len() && p == last_index(s@, c),
            None => last_index(s@, c) == -1,
        },
{
    let n = s.len();
    let mut i: usize = n;
    assert(s@.take(n as int) =~= s@);
    while i > 0 && s[i - 1] != c
        invariant
            i <= n == s@.len(),
            last_index(s@, c) == last_index(s@.take(i as int), c),
        decreases i,
    {
        assert(s@.take(i as int).drop_last() =~= s@.take(i - 1));
        i -= 1;
    }
    if i == 0 {
        None
    } else {
        Some(i - 1)
    }
}

/// `s` with its leading white space removed.
pub open spec fn trim_start(s: Seq<char>) -> Seq<char>
    decreases s.len(),
{
    if s.len() > 0 && white_space(s[0]) {
        trim_start(s.drop_first())
    } else {
        s
    }
}

/// `s` with its trailing white space removed.
pub open spec fn trim_end(s: Seq<char>) -> Seq<char>
    decreases s.len(),
{
    if s.len() > 0 && white_space(s.last()) {
        trim_end(s.drop_last())
    } else {
        s
    }
}

/// `s` with white space removed at both ends, as `str::trim` does.
pub open spec fn trim(s: Seq<char>) -> Seq<char> {
    trim_end(trim_start(s))
}

pub fn trim_chars(s: &[char]) -> (r: Vec<char>)
    ensures
        r@ == trim(s@),
{
    let n = s.len();
    let mut a: usize = 0;
    assert(s@.subrange(0, n as int) =~= s@);
    while a < n && is_whitespace(s[a])
        invariant
            a <= n == s@.len(),
            trim_start(s@) == trim_start(s@.subrange(a as int, n as int)),
        decreases n - a,
    {
        assert(s@.subrange(a as int, n as int).drop_first() =~= s@.subrange(a + 1, n as int));
        a += 1;
    }
    let ghost t = s@.subrange(a as int, n as int);
    assert(trim_start(s@) == t);
    let mut b: usize = n;
    while b > a && is_whitespace(s[b - 1])
        invariant
            a <= b <= n == s@.len(),
            t == s@.subrange(a as int, n as int),
            trim_end(t) == trim_end(s@.subrange(a as int, b as int)),
        decreases b - a,
    {
        assert(s@.subrange(a as int, b as int).drop_last() =~= s@.subrange(a as int, b - 1));
        b -= 1;
    }
    let mut r: Vec<char> = Vec::new();
    let mut k: usize = a;
    while k < b
        invariant
            a <= k <= b <= n == s@.len(),
            r@ == s@.subrange(a as int, k as int),
        decreases b - k,
    {
        r.push(s[k]);
        k += 1;
    }
    r
}

} // verus!
