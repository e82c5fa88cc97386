//! Edit distance and the scores built on it.
use vstd::prelude::*;
use vstd::utf8::{encode_scalar, encode_utf8};
use vstd::arithmetic::div_mod::{lemma_div_by_multiple, lemma_div_is_ordered};
use vstd::arithmetic::mul::lemma_mul_is_commutative;
use crate::text::chars_of;
use crate::tokens::{token_set, tokenize_filename, views};

verus! {

pub open spec fn min3(x: nat, y: nat, z: nat) -> nat {
    if x <= y && x <= z {
        x
    } else if y <= z {
        y
    } else {
        z
    }
}

/// The least number of single-character insertions, deletions and substitutions
/// that turn `a` into `b`.
pub open spec fn edit_distance(a: Seq<char>, b: Seq<char>) -> nat
    decreases a.len() + b.len(),
{
    if a.len() == 0 {
        b.len()
    } else if b.len() == 0 {
        a.len()
    } else {
        min3(
            edit_distance(a.drop_last(), b) + 1,
            edit_distance(a, b.drop_last()) + 1,
            edit_distance(a.drop_last(), b.drop_last()) + if a.last() == b.last() {
                0nat
            } else {
                1nat
            },
        )
    }
}

pub proof fn lemma_edit_distance_bound(a: Seq<char>, b: Seq<char>)
    ensures
        edit_distance(a, b) <= if a.len() >= b.len() {
            a.len()
        } else {
            b.len()
        },
    decreases a.len() + b.len(),
{
    if a.len() > 0 && b.len() > 0 {
        lemma_edit_distance_bound(a.drop_last(), b.drop_last());
    }
}

/// Edit distance does not depend on the order of its arguments.
pub proof fn lemma_edit_distance_symmetric(a: Seq<char>, b: Seq<char>)
    ensures
        edit_distance(a, b) == edit_distance(b, a),
    decreases a.len() + b.len(),
{
    if a.len() > 0 && b.len() > 0 {
        lemma_edit_distance_symmetric(a.drop_last(), b);
        lemma_edit_distance_symmetric(a, b.drop_last());
        lemma_edit_distance_symmetric(a.drop_last(), b.drop_last());
    }
}

/// A string is at distance zero from itself.
pub proof fn lemma_edit_distance_zero(a: Seq<char>)
    ensures
        edit_distance(a, a) == 0,
    decreases a.len(),
{
    if a.len() > 0 {
        lemma_edit_distance_zero(a.drop_last());
    }
}

/// Computes the edit distance between two strings, counting characters.
pub fn levenshtein_distance(s1: &str, s2: &str) -> (r: usize)
    ensures
        r == edit_distance(s1@, s2@),
{
    let a = chars_of(s1);
    let b = chars_of(s2);
    distance_of_chars(&a, &b)
}

fn distance_of_chars(a: &[char], b: &[char]) -> (r: usize)
    ensures
        r == edit_distance(a@, b@),
{
    let n = a.len();
    let m = b.len();
    if n == 0 {
        return m;
    }
    if m == 0 {
        return n;
    }
    let mut prev: Vec<usize> = Vec::new();
    prev.push(0);
    assert(a@.take(0).len() == 0);
    for j0 in 0..m
        invariant
            m == b@.len(),
            prev@.len() == j0 + 1,
            forall|k: int| 0 <= k <= j0 ==> prev@[k] == edit_distance(a@.take(0), b@.take(k)),
    {
        prev.push(j0 + 1);
    }
    assert(prev.len() == m + 1);
    for i0 in 0..n
        invariant
            n == a@.len(),
            m == b@.len(),
            0 < m < usize::MAX,
            prev@.len() == m + 1,
            forall|k: int| 0 <= k <= m ==> prev@[k] == edit_distance(a@.take(i0 as int), b@.take(k)),
    {
        let i = i0 + 1;
        let ghost ai = a@.take(i as int);
        assert(ai.drop_last() =~= a@.take(i0 as int));
        assert(b@.take(0).len() == 0);
        let mut cur: Vec<usize> = Vec::new();
        cur.push(i);
        for j0 in 0..m
            invariant
                i == i0 + 1,
                i <= n,
                n == a@.len(),
                m == b@.len(),
                0 < m < usize::MAX,
                ai == a@.take(i as int),
                ai.drop_last() == a@.take(i0 as int),
                prev@.len() == m + 1,
                forall|k: int| 0 <= k <= m ==> prev@[k] == edit_distance(a@.take(i0 as int), b@.take(k)),
                cur@.len() == j0 + 1,
                forall|k: int| 0 <= k <= j0 ==> cur@[k] == edit_distance(ai, b@.take(k)),
        {
            let j = j0 + 1;
            let ghost bj = b@.take(j as int);
            assert(bj.drop_last() =~= b@.take(j0 as int));
            proof {
                lemma_edit_distance_bound(a@.take(i0 as int), bj);
                lemma_edit_distance_bound(a@.take(i0 as int), b@.take(j0 as int));
            }
            let cost: usize = if a[i0] == b[j0] {
                0
            } else {
                1
            };
            let shorter = if prev[j] <= cur[j0] {
                prev[j]
            } else {
                cur[j0]
            };
            let grow = shorter + 1;
            let sub = prev[j0] + cost;
            let best = if grow <= sub {
                grow
            } else {
                sub
            };
            cur.push(best);
        }
        prev = cur;
    }
    assert(a@.take(n as int) =~= a@);
    assert(b@.take(m as int) =~= b@);
    prev[m]
}

/// The score of a perfect match. Scores are fixed-point numbers counted in
/// millionths, so that a score of one half is `SCORE_ONE / 2`.
pub const SCORE_ONE: u64 = 1_000_000;

/// The score of `part` out of `whole`, rounded down; a whole of nothing scores as a
/// perfect match.
pub open spec fn score_of(part: nat, whole: nat) -> nat {
    if whole == 0 {
        SCORE_ONE as nat
    } else {
        part * (SCORE_ONE as nat) / whole
    }
}

pub proof fn lemma_score_of_bounded(part: nat, whole: nat)
    requires
        part <= whole,
    ensures
        score_of(part, whole) <= SCORE_ONE,
{
    if whole > 0 {
        let one = SCORE_ONE as int;
        assert(part * one <= whole * one) by (nonlinear_arith)
            requires
                part <= whole,
                one >= 0,
        ;
        lemma_div_is_ordered(part * one, whole * one, whole as int);
        lemma_mul_is_commutative(whole as int, one);
        lemma_div_by_multiple(one, whole as int);
    }
}

/// All of a whole scores as a perfect match.
pub proof fn lemma_score_of_all(whole: nat)
    ensures
        score_of(whole, whole) == SCORE_ONE,
{
    if whole > 0 {
        lemma_mul_is_commutative(whole as int, SCORE_ONE as int);
        lemma_div_by_multiple(SCORE_ONE as int, whole as int);
    }
}

pub fn score_from(part: u128, whole: u128) -> (r: u64)
    requires
        part <= whole <= 4 * (u64::MAX as u128),
    ensures
        r == score_of(part as nat, whole as nat),
        r <= SCORE_ONE,
{
    proof {
        lemma_score_of_bounded(part as nat, whole as nat);
    }
    if whole == 0 {
        return SCORE_ONE;
    }
    assert(part * 1_000_000 <= 4 * (u64::MAX as u128) * 1_000_000) by (nonlinear_arith)
        requires
            part <= 4 * (u64::MAX as u128),
    ;
    let scaled: u128 = part * 1_000_000u128;
    (scaled / whole) as u64
}

/// The length of the UTF-8 encoding of `s`, which is what `str::len` counts.
pub open spec fn byte_len(s: Seq<char>) -> nat {
    encode_utf8(s).len()
}

pub proof fn lemma_byte_len_at_least_chars(s: Seq<char>)
    ensures
        byte_len(s) >= s.len(),
    decreases s.len(),
{
    if s.len() > 0 {
        lemma_byte_len_at_least_chars(s.drop_first());
    }
}

/// How close two strings are by edit distance: one minus the distance over the
/// longer byte length, as a score; two empty strings match perfectly.
pub open spec fn edit_similarity(a: Seq<char>, b: Seq<char>) -> nat {
    let longest = if byte_len(a) >= byte_len(b) {
        byte_len(a)
    } else {
        byte_len(b)
    };
    score_of((longest - edit_distance(a, b)) as nat, longest)
}

fn utf8_width(c: char) -> (r: u128)
    ensures
        r == encode_scalar(c as u32).len(),
{
    let u = c as u32;
    if u <= 0x7f {
        1
    } else if u <= 0x7ff {
        2
    } else if u <= 0xffff && !(0xd800 <= u && u <= 0xdfff) {
        3
    } else {
        4
    }
}

/// The number of bytes that `s` takes in UTF-8.
pub fn byte_length(s: &[char]) -> (r: u128)
    ensures
        r == byte_len(s@),
        r <= 4 * s@.len(),
        r <= 4 * (u64::MAX as u128),
{
    let n = s.len();
    let mut total: u128 = 0;
    let mut i: usize = n;
    assert(s@.subrange(n as int, n as int).len() == 0);
    while i > 0
        invariant
            i <= n == s@.len(),
            total == byte_len(s@.subrange(i as int, n as int)),
            total <= 4 * (n - i),
        decreases i,
    {
        let w = utf8_width(s[i - 1]);
        assert(s@.subrange(i - 1, n as int).drop_first() =~= s@.subrange(i as int, n as int));
        total = total + w;
        i -= 1;
    }
    assert(s@.subrange(0, n as int) =~= s@);
    total
}

/// Scores two strings by edit distance, as `edit_similarity` states.
pub fn levenshtein_similarity(s1: &str, s2: &str) -> (r: u64)
    ensures
        r == edit_similarity(s1@, s2@),
        r <= SCORE_ONE,
{
    let a = chars_of(s1);
    let b = chars_of(s2);
    let distance = distance_of_chars(&a, &b);
    let l1 = byte_length(&a);
    let l2 = byte_length(&b);
    let longest = if l1 >= l2 {
        l1
    } else {
        l2
    };
    proof {
        lemma_edit_distance_bound(s1@, s2@);
        lemma_byte_len_at_least_chars(s1@);
        lemma_byte_len_at_least_chars(s2@);
    }
    score_from(longest - distance as u128, longest)
}

/// A string scores as a perfect match with itself by edit distance.
pub proof fn lemma_edit_similarity_reflexive(a: Seq<char>)
    ensures
        edit_similarity(a, a) == SCORE_ONE,
{
    lemma_edit_distance_zero(a);
    lemma_score_of_all(byte_len(a));
}

/// The edit-distance score does not depend on the order of its arguments.
pub proof fn lemma_edit_similarity_symmetric(a: Seq<char>, b: Seq<char>)
    ensures
        edit_similarity(a, b) == edit_similarity(b, a),
{
    lemma_edit_distance_symmetric(a, b);
}

/// The overlap of two token sets: the size of their intersection over the size of
/// their union, as a score; two empty sets match perfectly.
pub open spec fn overlap_score(a: Set<Seq<char>>, b: Set<Seq<char>>) -> nat {
    score_of(a.intersect(b).len(), a.union(b).len())
}

/// How close two filenames are by the tokens they share.
pub open spec fn token_similarity(x: Seq<char>, y: Seq<char>) -> nat {
    overlap_score(token_set(x), token_set(y))
}

fn holds_token(tokens: &Vec<String>, t: &String) -> (r: bool)
    ensures
        r == views(tokens@).contains(t@),
{
    for i in 0..tokens.len()
        invariant
            forall|k: int| 0 <= k < i ==> views(tokens@)[k] != t@,
    {
        if tokens[i] == *t {
            assert(views(tokens@)[i as int] == t@);
            return true;
        }
    }
    false
}

/// Scores two filenames by the overlap of their token sets, as `token_similarity`
/// states.
pub fn jaccard_similarity(s1: &str, s2: &str) -> (r: u64)
    ensures
        r == token_similarity(s1@, s2@),
        r <= SCORE_ONE,
{
    let t1 = tokenize_filename(s1);
    let t2 = tokenize_filename(s2);
    let ghost a = views(t1@);
    let ghost bs = views(t2@).to_set();
    let mut common: usize = 0;
    assert(a.take(0).to_set() =~= Set::<Seq<char>>::empty());
    assert(a.take(0).to_set().intersect(bs) =~= Set::<Seq<char>>::empty());
    for i in 0..t1.len()
        invariant
            a == views(t1@),
            a.no_duplicates(),
            bs == views(t2@).to_set(),
            common <= i,
            common == a.take(i as int).to_set().intersect(bs).len(),
    {
        let found = holds_token(&t2, &t1[i]);
        proof {
            let s0 = a.take(i as int).to_set();
            let x = a[i as int];
            assert(a.take(i + 1) =~= a.take(i as int).push(x));
            Seq::<Seq<char>>::lemma_to_set_insert_commutes(a.take(i as int), x);
            assert(a.take(i as int).push(x) =~= a.take(i as int) + seq![x]);
            assert(!s0.contains(x)) by {
                if s0.contains(x) {
                    let k = choose|k: int| 0 <= k < i && a.take(i as int)[k] == x;
                    assert(a[k] == a[i as int]);
                }
            }
            vstd::seq_lib::seq_to_set_is_finite(a.take(i as int));
            if found {
                assert(s0.insert(x).intersect(bs) =~= s0.intersect(bs).insert(x));
            } else {
                assert(s0.insert(x).intersect(bs) =~= s0.intersect(bs));
            }
        }
        if found {
            common += 1;
        }
    }
    proof {
        assert(a.take(a.len() as int) =~= a);
        a.unique_seq_to_set();
        views(t2@).unique_seq_to_set();
        vstd::seq_lib::seq_to_set_is_finite(a);
        vstd::seq_lib::seq_to_set_is_finite(views(t2@));
        vstd::set_lib::lemma_set_intersect_union_lens(a.to_set(), bs);
        vstd::set_lib::lemma_len_intersect(bs, a.to_set());
        assert(bs.intersect(a.to_set()) =~= a.to_set().intersect(bs));
        assert(common <= t2@.len());
    }
    let whole: u128 = t1.len() as u128 + t2.len() as u128 - common as u128;
    score_from(common as u128, whole)
}

/// A filename scores as a perfect match with itself by token overlap.
pub proof fn lemma_token_similarity_reflexive(a: Seq<char>)
    ensures
        token_similarity(a, a) == SCORE_ONE,
{
    let s = token_set(a);
    assert(s.intersect(s) =~= s);
    assert(s.union(s) =~= s);
    lemma_score_of_all(s.len());
}

/// The token-overlap score does not depend on the order of its arguments.
pub proof fn lemma_token_similarity_symmetric(a: Seq<char>, b: Seq<char>)
    ensures
        token_similarity(a, b) == token_similarity(b, a),
{
    assert(token_set(a).intersect(token_set(b)) =~= token_set(b).intersect(token_set(a)));
    assert(token_set(a).union(token_set(b)) =~= token_set(b).union(token_set(a)));
}

/// How the two scores are weighed and where grouping draws the line. Every value is a
/// score in millionths, like `SCORE_ONE`.
#[derive(Clone, Copy, Debug)]
pub struct SimilarityConfig {
    /// Reserved for a per-score gate; grouping does not read it.
    pub levenshtein_threshold: u32,
    /// Reserved for a per-score gate; grouping does not read it.
    pub jaccard_threshold: u32,
    /// The weight of the edit-distance score.
    pub levenshtein_weight: u32,
    /// The weight of the token-overlap score.
    pub jaccard_weight: u32,
    /// The least combined score at which a file joins a group.
    pub min_similarity_score: u32,
}

impl Default for SimilarityConfig {
    fn default() -> (r: Self)
        ensures
            r.levenshtein_threshold == 700_000,
            r.jaccard_threshold == 500_000,
            r.levenshtein_weight == 600_000,
            r.jaccard_weight == 400_000,
            r.min_similarity_score == 650_000,
    {
        SimilarityConfig {
            levenshtein_threshold: 700_000,
            jaccard_threshold: 500_000,
            levenshtein_weight: 600_000,
            jaccard_weight: 400_000,
            min_similarity_score: 650_000,
        }
    }
}

/// The weighted sum of the two scores, rounded down; with weights that add up to
/// more than one it may exceed `SCORE_ONE`.
pub open spec fn combined_score(a: Seq<char>, b: Seq<char>, config: SimilarityConfig) -> nat {
    let weighed = edit_similarity(a, b) * (config.levenshtein_weight as nat) + token_similarity(
        a,
        b,
    ) * (config.jaccard_weight as nat);
    weighed / (SCORE_ONE as nat)
}

/// Scores two filenames by both measures at once, as `combined_score` states.
pub fn combined_similarity(s1: &str, s2: &str, config: &SimilarityConfig) -> (r: u64)
    ensures
        r == combined_score(s1@, s2@, *config),
        r <= 2 * 0xffff_ffff,
{
    let lev = levenshtein_similarity(s1, s2);
    let jac = jaccard_similarity(s1, s2);
    let wl = config.levenshtein_weight as u64;
    let wj = config.jaccard_weight as u64;
    assert(lev * wl <= 1_000_000 * 0xffff_ffff && jac * wj <= 1_000_000 * 0xffff_ffff)
        by (nonlinear_arith)
        requires
            lev <= 1_000_000,
            jac <= 1_000_000,
            wl <= 0xffff_ffff,
            wj <= 0xffff_ffff,
    ;
    let weighed = lev * wl + jac * wj;
    proof {
        let top: int = 0x1_ffff_fffe;
        lemma_div_is_ordered(weighed as int, 1_000_000 * top, 1_000_000);
        lemma_div_by_multiple(top, 1_000_000);
        lemma_mul_is_commutative(1_000_000, top);
    }
    weighed / SCORE_ONE
}

} // verus!
