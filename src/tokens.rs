//! Turning a filename into the set of tokens that the overlap score compares.
use vstd::prelude::*;
use crate::similarity::{byte_len, byte_length};
use crate::text::{
    alphanumeric, chars_of, contains_chars, has_substring, is_alphanumeric, is_numeric,
    is_whitespace, last_index, lower_of, numeric, rfind_char, string_from_chars, to_lowercase,
    trim, trim_chars, white_space,
};

verus! {

/// The characters of each string, in order.
pub open spec fn views(v: Seq<String>) -> Seq<Seq<char>> {
    v.map_values(|s: String| s@)
}

/// The characters of each piece, in order.
pub open spec fn piece_views(v: Seq<Vec<char>>) -> Seq<Seq<char>> {
    v.map_values(|p: Vec<char>| p@)
}

/// A filename without its extension: everything before the last `'.'`.
pub open spec fn name_part(f: Seq<char>) -> Seq<char> {
    if last_index(f, '.') < 0 {
        f
    } else {
        f.take(last_index(f, '.'))
    }
}

/// The characters of `s` that are alphanumeric or white space.
pub open spec fn clean_chars(s: Seq<char>) -> Seq<char>
    decreases s.len(),
{
    if s.len() == 0 {
        s
    } else if alphanumeric(s.last()) || white_space(s.last()) {
        clean_chars(s.drop_last()).push(s.last())
    } else {
        clean_chars(s.drop_last())
    }
}

/// The whole lower-cased name, cleaned and trimmed, when anything is left of it.
pub open spec fn whole_name_tokens(lower: Seq<char>) -> Seq<Seq<char>> {
    let t = trim(clean_chars(lower));
    if t.len() > 0 {
        seq![t]
    } else {
        seq![]
    }
}

/// How many phrases `phrase` lists.
pub const PHRASE_COUNT: usize = 11;

/// The phrases that are kept together as tokens when a name contains them.
pub open spec fn phrase(k: int) -> Seq<char> {
    if k == 0 {
        "whatsapp chat"@
    } else if k == 1 {
        "whatsapp chats"@
    } else if k == 2 {
        "whatsapp image"@
    } else if k == 3 {
        "screenshot"@
    } else if k == 4 {
        "screen shot"@
    } else if k == 5 {
        "chatgpt"@
    } else if k == 6 {
        "img_"@
    } else if k == 7 {
        "photo"@
    } else if k == 8 {
        "picture"@
    } else if k == 9 {
        "document"@
    } else {
        "download"@
    }
}

fn phrase_text(k: usize) -> (r: &'static str)
    requires
        k < PHRASE_COUNT,
    ensures
        r@ == phrase(k as int),
{
    if k == 0 {
        "whatsapp chat"
    } else if k == 1 {
        "whatsapp chats"
    } else if k == 2 {
        "whatsapp image"
    } else if k == 3 {
        "screenshot"
    } else if k == 4 {
        "screen shot"
    } else if k == 5 {
        "chatgpt"
    } else if k == 6 {
        "img_"
    } else if k == 7 {
        "photo"
    } else if k == 8 {
        "picture"
    } else if k == 9 {
        "document"
    } else {
        "download"
    }
}

/// The first `k` phrases that occur in `lower`, in list order.
pub open spec fn phrase_tokens(lower: Seq<char>, k: nat) -> Seq<Seq<char>>
    decreases k,
{
    if k == 0 {
        seq![]
    } else if has_substring(lower, phrase(k - 1)) {
        phrase_tokens(lower, (k - 1) as nat).push(phrase(k - 1))
    } else {
        phrase_tokens(lower, (k - 1) as nat)
    }
}

/// The two ways a name is cut into pieces.
#[derive(Clone, Copy, PartialEq, Eq, Debug)]
pub enum Breaks {
    /// At `- _ . ( ) [ ] { }` and at spaces.
    Delimiters,
    /// At every character that is neither alphanumeric nor a space.
    NonWord,
}

pub open spec fn breaks(kind: Breaks, c: char) -> bool {
    match kind {
        Breaks::Delimiters => c == '-' || c == '_' || c == '.' || c == '(' || c == ')' || c == '['
            || c == ']' || c == '{' || c == '}' || c == ' ',
        Breaks::NonWord => !alphanumeric(c) && c != ' ',
    }
}

fn breaks_at(kind: Breaks, c: char) -> (r: bool)
    ensures
        r == breaks(kind, c),
{
    match kind {
        Breaks::Delimiters => c == '-' || c == '_' || c == '.' || c == '(' || c == ')' || c == '['
            || c == ']' || c == '{' || c == '}' || c == ' ',
        Breaks::NonWord => !is_alphanumeric(c) && c != ' ',
    }
}

/// Scanning `s` left to right: the pieces closed by a break so far, and the open one.
pub open spec fn split_state(s: Seq<char>, kind: Breaks) -> (Seq<Seq<char>>, Seq<char>)
    decreases s.len(),
{
    if s.len() == 0 {
        (seq![], seq![])
    } else {
        let (done, cur) = split_state(s.drop_last(), kind);
        if breaks(kind, s.last()) {
            (done.push(cur), seq![])
        } else {
            (done, cur.push(s.last()))
        }
    }
}

/// The pieces between breaks, as `str::split` yields them, empty pieces included.
pub open spec fn pieces(s: Seq<char>, kind: Breaks) -> Seq<Seq<char>> {
    split_state(s, kind).0.push(split_state(s, kind).1)
}

pub fn split_pieces(s: &[char], kind: Breaks) -> (r: Vec<Vec<char>>)
    ensures
        piece_views(r@) == pieces(s@, kind),
{
    let mut done: Vec<Vec<char>> = Vec::new();
    let mut cur: Vec<char> = Vec::new();
    for i in 0..s.len()
        invariant
            piece_views(done@) == split_state(s@.take(i as int), kind).0,
            cur@ == split_state(s@.take(i as int), kind).1,
    {
        assert(s@.take(i + 1).drop_last() =~= s@.take(i as int));
        if breaks_at(kind, s[i]) {
            let ghost before = done@;
            done.push(cur);
            assert(piece_views(done@) =~= piece_views(before).push(cur@));
            cur = Vec::new();
        } else {
            cur.push(s[i]);
        }
    }
    assert(s@.take(s@.len() as int) =~= s@);
    let ghost before = done@;
    done.push(cur);
    assert(piece_views(done@) =~= piece_views(before).push(cur@));
    done
}

/// A lower-cased word is a token when it is longer than one byte and not all digits.
pub open spec fn word_token_ok(w: Seq<char>) -> bool {
    byte_len(w) > 1 && exists|i: int| 0 <= i < w.len() && !numeric(w[i])
}

/// The lower-cased non-empty pieces that qualify as word tokens, in order.
pub open spec fn word_tokens(ps: Seq<Seq<char>>) -> Seq<Seq<char>>
    decreases ps.len(),
{
    if ps.len() == 0 {
        seq![]
    } else if ps.last().len() > 0 && word_token_ok(lower_of(ps.last())) {
        word_tokens(ps.drop_last()).push(lower_of(ps.last()))
    } else {
        word_tokens(ps.drop_last())
    }
}

/// The lower-cased pieces that hold more than white space, in order.
pub open spec fn words(ps: Seq<Seq<char>>) -> Seq<Seq<char>>
    decreases ps.len(),
{
    if ps.len() == 0 {
        seq![]
    } else if trim(ps.last()).len() > 0 {
        words(ps.drop_last()).push(lower_of(ps.last()))
    } else {
        words(ps.drop_last())
    }
}

/// Each two neighbouring words, joined by a space.
pub open spec fn bigrams(ws: Seq<Seq<char>>) -> Seq<Seq<char>>
    decreases ws.len(),
{
    if ws.len() < 2 {
        seq![]
    } else {
        bigrams(ws.drop_last()).push(ws[ws.len() - 2] + seq![' '] + ws.last())
    }
}

/// Every token of a filename, in the order they are found (duplicates included).
pub open spec fn token_list(f: Seq<char>) -> Seq<Seq<char>> {
    let name = name_part(f);
    let lower = lower_of(name);
    whole_name_tokens(lower) + phrase_tokens(lower, PHRASE_COUNT as nat) + word_tokens(
        pieces(name, Breaks::Delimiters),
    ) + bigrams(words(pieces(name, Breaks::NonWord)))
}

/// The token set of a filename.
pub open spec fn token_set(f: Seq<char>) -> Set<Seq<char>> {
    token_list(f).to_set()
}

proof fn lemma_push_to_set(s: Seq<Seq<char>>, x: Seq<char>)
    ensures
        s.push(x).to_set() == s.to_set().insert(x),
{
    assert(s.push(x) =~= s + seq![x]);
    Seq::<Seq<char>>::lemma_to_set_insert_commutes(s, x);
}

/// Adds `t` to `tokens` unless a token with the same characters is there already.
fn insert_token(tokens: &mut Vec<String>, t: String)
    requires
        views(old(tokens)@).no_duplicates(),
    ensures
        views(final(tokens)@).no_duplicates(),
        views(final(tokens)@).to_set() == views(old(tokens)@).to_set().insert(t@),
{
    let mut i: usize = 0;
    while i < tokens.len()
        invariant
            i <= tokens@.len(),
            tokens@ == old(tokens)@,
            views(tokens@).no_duplicates(),
            forall|k: int| 0 <= k < i ==> tokens@[k]@ != t@,
        decreases tokens@.len() - i,
    {
        if tokens[i] == t {
            proof {
                assert(views(tokens@)[i as int] == t@);
                assert(views(tokens@).to_set().contains(t@));
                assert(views(tokens@).to_set().insert(t@) =~= views(tokens@).to_set());
            }
            return;
        }
        i += 1;
    }
    let ghost before = views(tokens@);
    tokens.push(t);
    proof {
        assert(views(tokens@) =~= before.push(t@));
        lemma_push_to_set(before, t@);
        assert forall|a: int, b: int|
            0 <= a < views(tokens@).len() && 0 <= b < views(tokens@).len() && a != b implies
            views(tokens@)[a] != views(tokens@)[b] by {
            if a < before.len() && b < before.len() {
            } else if a == before.len() {
                assert(views(tokens@)[b] == tokens@[b]@);
            } else {
                assert(views(tokens@)[a] == tokens@[a]@);
            }
        }
    }
}

fn name_end(chars: &[char]) -> (r: usize)
    ensures
        r <= chars@.len(),
        chars@.take(r as int) == name_part(chars@),
{
    match rfind_char(chars, '.') {
        Some(p) => p,
        None => {
            assert(chars@.take(chars@.len() as int) =~= chars@);
            chars.len()
        },
    }
}

fn prefix_of(v: &[char], n: usize) -> (r: Vec<char>)
    requires
        n <= v@.len(),
    ensures
        r@ == v@.take(n as int),
{
    let mut r: Vec<char> = Vec::new();
    for i in 0..n
        invariant
            n <= v@.len(),
            r@ == v@.take(i as int),
    {
        r.push(v[i]);
        assert(r@ =~= v@.take(i + 1));
    }
    r
}

fn clean(s: &[char]) -> (r: Vec<char>)
    ensures
        r@ == clean_chars(s@),
{
    let mut r: Vec<char> = Vec::new();
    for i in 0..s.len()
        invariant
            r@ == clean_chars(s@.take(i as int)),
    {
        assert(s@.take(i + 1).drop_last() =~= s@.take(i as int));
        if is_alphanumeric(s[i]) || is_whitespace(s[i]) {
            r.push(s[i]);
        }
    }
    assert(s@.take(s@.len() as int) =~= s@);
    r
}

fn has_non_numeric(s: &[char]) -> (r: bool)
    ensures
        r == exists|i: int| 0 <= i < s@.len() && !numeric(s@[i]),
{
    for i in 0..s.len()
        invariant
            forall|k: int| 0 <= k < i ==> numeric(s@[k]),
    {
        if !is_numeric(s[i]) {
            return true;
        }
    }
    false
}

fn join_with_space(a: &[char], b: &[char]) -> (r: Vec<char>)
    ensures
        r@ == a@ + seq![' '] + b@,
{
    let mut r: Vec<char> = Vec::new();
    for i in 0..a.len()
        invariant
            r@ == a@.take(i as int),
    {
        r.push(a[i]);
        assert(r@ =~= a@.take(i + 1));
    }
    r.push(' ');
    assert(r@ =~= a@ + seq![' ']);
    for i in 0..b.len()
        invariant
            r@ == a@ + seq![' '] + b@.take(i as int),
    {
        r.push(b[i]);
        assert(r@ =~= a@ + seq![' '] + b@.take(i + 1));
    }
    assert(b@.take(b@.len() as int) =~= b@);
    r
}

fn lowercase_chars(p: &[char]) -> (r: String)
    ensures
        r@ == lower_of(p@),
{
    let s = string_from_chars(p);
    to_lowercase(s.as_str())
}

/// The distinct tokens of a filename: its cleaned whole name, the known phrases it
/// contains, its words and its word pairs, all lower-cased.
pub fn tokenize_filename(filename: &str) -> (r: Vec<String>)
    ensures
        views(r@).no_duplicates(),
        views(r@).to_set() == token_set(filename@),
{
    let chars = chars_of(filename);
    let end = name_end(&chars);
    let name = prefix_of(&chars, end);
    let lower = lowercase_chars(&name);
    let lower_chars = chars_of(lower.as_str());
    let mut tokens: Vec<String> = Vec::new();
    let ghost mut acc: Seq<Seq<char>> = seq![];
    assert(views(tokens@) =~= seq![]);

    let cleaned = clean(&lower_chars);
    let whole = trim_chars(&cleaned);
    if whole.len() > 0 {
        let t = string_from_chars(&whole);
        insert_token(&mut tokens, t);
        proof {
            lemma_push_to_set(acc, whole@);
            acc = acc.push(whole@);
        }
    }
    assert(acc =~= whole_name_tokens(lower_chars@));
    let ghost base1 = acc;

    for k in 0..PHRASE_COUNT
        invariant
            views(tokens@).no_duplicates(),
            views(tokens@).to_set() == acc.to_set(),
            acc == base1 + phrase_tokens(lower_chars@, k as nat),
    {
        let p = phrase_text(k);
        let pc = chars_of(p);
        if contains_chars(&lower_chars, &pc) {
            let t = string_from_chars(&pc);
            insert_token(&mut tokens, t);
            proof {
                lemma_push_to_set(acc, pc@);
                acc = acc.push(pc@);
            }
        }
        assert(acc =~= base1 + phrase_tokens(lower_chars@, (k + 1) as nat));
    }
    let ghost base2 = acc;

    let parts = split_pieces(&name, Breaks::Delimiters);
    for k in 0..parts.len()
        invariant
            views(tokens@).no_duplicates(),
            views(tokens@).to_set() == acc.to_set(),
            piece_views(parts@) == pieces(name@, Breaks::Delimiters),
            acc == base2 + word_tokens(piece_views(parts@).take(k as int)),
    {
        let ghost ps = piece_views(parts@).take(k + 1);
        assert(ps.drop_last() =~= piece_views(parts@).take(k as int));
        assert(ps.last() == parts@[k as int]@);
        if parts[k].len() > 0 {
            let lw = lowercase_chars(&parts[k]);
            let lwc = chars_of(lw.as_str());
            if byte_length(&lwc) > 1 && has_non_numeric(&lwc) {
                insert_token(&mut tokens, lw);
                proof {
                    lemma_push_to_set(acc, lwc@);
                    acc = acc.push(lwc@);
                }
            }
        }
        assert(acc =~= base2 + word_tokens(ps));
    }
    assert(piece_views(parts@).take(parts@.len() as int) =~= piece_views(parts@));
    let ghost base3 = acc;

    let chunks = split_pieces(&name, Breaks::NonWord);
    let mut found: Vec<Vec<char>> = Vec::new();
    for k in 0..chunks.len()
        invariant
            piece_views(chunks@) == pieces(name@, Breaks::NonWord),
            piece_views(found@) == words(piece_views(chunks@).take(k as int)),
    {
        let ghost ps = piece_views(chunks@).take(k + 1);
        assert(ps.drop_last() =~= piece_views(chunks@).take(k as int));
        assert(ps.last() == chunks@[k as int]@);
        let t = trim_chars(&chunks[k]);
        if t.len() > 0 {
            let lw = lowercase_chars(&chunks[k]);
            let lwc = chars_of(lw.as_str());
            let ghost before = found@;
            found.push(lwc);
            assert(piece_views(found@) =~= piece_views(before).push(lwc@));
        }
        assert(piece_views(found@) =~= words(ps));
    }
    assert(piece_views(chunks@).take(chunks@.len() as int) =~= piece_views(chunks@));
    let ghost ws = piece_views(found@);
    let n = found.len();
    if n >= 2 {
        assert(ws.take(1) =~= seq![ws[0]]);
        for k in 1..n
            invariant
                n == found@.len(),
                ws == piece_views(found@),
                views(tokens@).no_duplicates(),
                views(tokens@).to_set() == acc.to_set(),
                acc == base3 + bigrams(ws.take(k as int)),
        {
            let ghost wk = ws.take(k + 1);
            assert(wk.drop_last() =~= ws.take(k as int));
            let joined = join_with_space(&found[k - 1], &found[k]);
            let t = string_from_chars(&joined);
            insert_token(&mut tokens, t);
            proof {
                lemma_push_to_set(acc, joined@);
                acc = acc.push(joined@);
            }
            assert(acc =~= base3 + bigrams(wk));
        }
        assert(ws.take(n as int) =~= ws);
    } else {
        assert(acc =~= base3 + bigrams(ws));
    }
    assert(acc =~= token_list(filename@));
    tokens
}

} // verus!
