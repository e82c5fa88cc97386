//! Greedy, anchor-based grouping of filenames.
use vstd::prelude::*;
use vstd::seq_lib::{lemma_multiset_commutative, to_multiset_build};
use crate::naming::{extract_common_prefix, representative};
use crate::similarity::{combined_score, combined_similarity, SimilarityConfig, SCORE_ONE};
use crate::tokens::views;

verus! {

/// A group of related files.
#[derive(Clone, Debug)]
pub struct FileGroup {
    /// The shared prefix of the member names (the name itself for a single file).
    pub representative_name: String,
    /// The members in input order, the anchor first.
    pub files: Vec<String>,
    /// The mean combined score of the anchor with each other member, rounded down;
    /// `SCORE_ONE` for a group of one.
    pub avg_similarity: u64,
}

/// File `j` reaches the grouping threshold against file `i`.
pub open spec fn joins(names: Seq<Seq<char>>, config: SimilarityConfig, i: int, j: int) -> bool {
    combined_score(names[i], names[j], config) >= config.min_similarity_score
}

/// The group that file `j` lands in, named by its anchor: the first anchor before `j`
/// that it joins, or `j` itself when there is none (then `j` anchors a new group).
pub open spec fn anchor_of(names: Seq<Seq<char>>, config: SimilarityConfig, j: int) -> int
    decreases j, 1int, 0int,
{
    if j <= 0 {
        0
    } else {
        first_anchor(names, config, 0, j)
    }
}

/// The first anchor at or after `s` and before `j` that file `j` joins, else `j`.
pub open spec fn first_anchor(names: Seq<Seq<char>>, config: SimilarityConfig, s: int, j: int) -> int
    decreases j, 0int, j - s,
{
    if s < 0 || s >= j {
        j
    } else if anchor_of(names, config, s) == s && joins(names, config, s, j) {
        s
    } else {
        first_anchor(names, config, s + 1, j)
    }
}

/// File `i` anchors a group.
pub open spec fn is_anchor(names: Seq<Seq<char>>, config: SimilarityConfig, i: int) -> bool {
    anchor_of(names, config, i) == i
}

/// The anchors among the first `n` files, in input order.
pub open spec fn anchors(names: Seq<Seq<char>>, config: SimilarityConfig, n: int) -> Seq<int>
    decreases n,
{
    if n <= 0 {
        seq![]
    } else if is_anchor(names, config, n - 1) {
        anchors(names, config, n - 1).push(n - 1)
    } else {
        anchors(names, config, n - 1)
    }
}

/// The files among the first `n` that land in the group anchored at `a`, in input
/// order.
pub open spec fn members(names: Seq<Seq<char>>, config: SimilarityConfig, a: int, n: int) -> Seq<
    Seq<char>,
>
    decreases n,
{
    if n <= 0 {
        seq![]
    } else if anchor_of(names, config, n - 1) == a {
        members(names, config, a, n - 1).push(names[n - 1])
    } else {
        members(names, config, a, n - 1)
    }
}

/// The sum of the anchor's scores with the other members among the first `n` files.
pub open spec fn score_total(names: Seq<Seq<char>>, config: SimilarityConfig, a: int, n: int) -> nat
    decreases n,
{
    if n <= 0 {
        0
    } else if anchor_of(names, config, n - 1) == a && n - 1 != a {
        score_total(names, config, a, n - 1) + combined_score(names[a], names[n - 1], config)
    } else {
        score_total(names, config, a, n - 1)
    }
}

/// The mean score of the anchor with the other members, rounded down; `SCORE_ONE` when
/// the anchor is alone.
pub open spec fn average_score(names: Seq<Seq<char>>, config: SimilarityConfig, a: int) -> nat {
    let k = members(names, config, a, names.len() as int).len();
    if k <= 1 {
        SCORE_ONE as nat
    } else {
        score_total(names, config, a, names.len() as int) / (k - 1) as nat
    }
}

/// `g` is the group that the anchor `a` gathers from `names`.
pub open spec fn is_group_of(g: FileGroup, names: Seq<Seq<char>>, config: SimilarityConfig, a: int) -> bool {
    let fs = members(names, config, a, names.len() as int);
    &&& views(g.files@) == fs
    &&& g.representative_name@ == representative(fs)
    &&& g.avg_similarity == average_score(names, config, a)
}

/// What `first_anchor` finds: the least anchor in `[s, j)` that `j` joins, or `j`.
pub proof fn lemma_first_anchor(names: Seq<Seq<char>>, config: SimilarityConfig, s: int, j: int)
    requires
        0 <= s <= j,
    ensures
        s <= first_anchor(names, config, s, j) <= j,
        first_anchor(names, config, s, j) < j ==> is_anchor(
            names,
            config,
            first_anchor(names, config, s, j),
        ) && joins(names, config, first_anchor(names, config, s, j), j),
        forall|t: int|
            s <= t < first_anchor(names, config, s, j) ==> !(is_anchor(names, config, t) && joins(
                names,
                config,
                t,
                j,
            )),
    decreases j - s,
{
    if s < j && !(anchor_of(names, config, s) == s && joins(names, config, s, j)) {
        lemma_first_anchor(names, config, s + 1, j);
    }
}

/// Every file lands in a group whose anchor comes no later than the file, and that
/// anchor does anchor a group.
pub proof fn lemma_anchor_of(names: Seq<Seq<char>>, config: SimilarityConfig, j: int)
    requires
        0 <= j,
    ensures
        0 <= anchor_of(names, config, j) <= j,
        is_anchor(names, config, anchor_of(names, config, j)),
        anchor_of(names, config, j) < j ==> joins(names, config, anchor_of(names, config, j), j),
        forall|t: int|
            0 <= t < anchor_of(names, config, j) ==> !(is_anchor(names, config, t) && joins(
                names,
                config,
                t,
                j,
            )),
{
    if j > 0 {
        lemma_first_anchor(names, config, 0, j);
        if anchor_of(names, config, j) == j {
        }
    }
}

proof fn lemma_members_before_anchor(names: Seq<Seq<char>>, config: SimilarityConfig, a: int, n: int)
    requires
        0 <= n <= a,
    ensures
        members(names, config, a, n) == Seq::<Seq<char>>::empty(),
        score_total(names, config, a, n) == 0,
    decreases n,
{
    if n > 0 {
        lemma_anchor_of(names, config, n - 1);
        lemma_members_before_anchor(names, config, a, n - 1);
    }
}

/// The files of the groups anchored at `anchor_list`, among the first `n` files, one
/// group after another.
pub open spec fn gathered(
    names: Seq<Seq<char>>,
    config: SimilarityConfig,
    anchor_list: Seq<int>,
    n: int,
) -> Seq<Seq<char>>
    decreases anchor_list.len(),
{
    if anchor_list.len() == 0 {
        seq![]
    } else {
        gathered(names, config, anchor_list.drop_last(), n) + members(
            names,
            config,
            anchor_list.last(),
            n,
        )
    }
}

proof fn lemma_gathered_step(
    names: Seq<Seq<char>>,
    config: SimilarityConfig,
    anchor_list: Seq<int>,
    n: int,
)
    requires
        0 <= n,
        anchor_list.no_duplicates(),
    ensures
        gathered(names, config, anchor_list, n + 1).to_multiset() == if anchor_list.contains(
            anchor_of(names, config, n),
        ) {
            gathered(names, config, anchor_list, n).to_multiset().insert(names[n])
        } else {
            gathered(names, config, anchor_list, n).to_multiset()
        },
    decreases anchor_list.len(),
{
    if anchor_list.len() > 0 {
        let init = anchor_list.drop_last();
        let a = anchor_list.last();
        let x = anchor_of(names, config, n);
        assert(init.no_duplicates());
        lemma_gathered_step(names, config, init, n);
        let g0 = gathered(names, config, init, n);
        let g1 = gathered(names, config, init, n + 1);
        let m0 = members(names, config, a, n);
        let m1 = members(names, config, a, n + 1);
        lemma_multiset_commutative(g1, m1);
        lemma_multiset_commutative(g0, m0);
        to_multiset_build(m0, names[n]);
        assert(anchor_list.contains(x) <==> init.contains(x) || a == x) by {
            if anchor_list.contains(x) && a != x {
                let k = choose|k: int| 0 <= k < anchor_list.len() && anchor_list[k] == x;
                assert(init[k] == x);
            }
            if init.contains(x) {
                let k = choose|k: int| 0 <= k < init.len() && init[k] == x;
                assert(anchor_list[k] == x);
            }
        }
        if a == x {
            assert(!init.contains(x)) by {
                if init.contains(x) {
                    let k = choose|k: int| 0 <= k < init.len() && init[k] == x;
                    assert(anchor_list[k] == anchor_list[anchor_list.len() - 1]);
                }
            }
            assert(g0.to_multiset().add(m0.to_multiset().insert(names[n])) =~= g0.to_multiset().add(
                m0.to_multiset(),
            ).insert(names[n]));
        } else if init.contains(x) {
            assert(g0.to_multiset().insert(names[n]).add(m0.to_multiset()) =~= g0.to_multiset().add(
                m0.to_multiset(),
            ).insert(names[n]));
        }
    }
}

proof fn lemma_anchors_shape(names: Seq<Seq<char>>, config: SimilarityConfig, n: int)
    requires
        0 <= n,
    ensures
        anchors(names, config, n).no_duplicates(),
        forall|a: int|
            #[trigger] anchors(names, config, n).contains(a) <==> 0 <= a < n && is_anchor(
                names,
                config,
                a,
            ),
    decreases n,
{
    if n > 0 {
        lemma_anchors_shape(names, config, n - 1);
        let prev = anchors(names, config, n - 1);
        if is_anchor(names, config, n - 1) {
            let cur = prev.push(n - 1);
            assert forall|a: int| cur.contains(a) <==> 0 <= a < n && is_anchor(names, config, a) by {
                if cur.contains(a) && a != n - 1 {
                    let k = choose|k: int| 0 <= k < cur.len() && cur[k] == a;
                    assert(prev[k] == a);
                    assert(prev.contains(a));
                    assert(0 <= a < n - 1 && is_anchor(names, config, a));
                }
                if 0 <= a < n - 1 && is_anchor(names, config, a) {
                    assert(prev.contains(a));
                    let k = choose|k: int| 0 <= k < prev.len() && prev[k] == a;
                    assert(cur[k] == a);
                }
                if a == n - 1 {
                    assert(cur[cur.len() - 1] == a);
                }
            }
            assert forall|p: int, q: int| 0 <= p < q < cur.len() implies cur[p] != cur[q] by {
                if q == cur.len() - 1 {
                    assert(prev[p] == cur[p]);
                    assert(prev.contains(cur[p]));
                }
            }
        } else {
            assert forall|a: int| prev.contains(a) <==> 0 <= a < n && is_anchor(names, config, a) by {
            }
        }
    }
}

/// Grouping loses no file and repeats none: the groups' files, one group after another,
/// hold every input filename exactly as often as the input does.
pub proof fn lemma_groups_partition(names: Seq<Seq<char>>, config: SimilarityConfig)
    ensures
        gathered(names, config, anchors(names, config, names.len() as int), names.len() as int).to_multiset()
            == names.to_multiset(),
{
    lemma_gathered_prefix(names, config, names.len() as int);
    assert(names.take(names.len() as int) =~= names);
}

proof fn lemma_gathered_prefix(names: Seq<Seq<char>>, config: SimilarityConfig, n: int)
    requires
        0 <= n <= names.len(),
    ensures
        gathered(names, config, anchors(names, config, n), n).to_multiset() == names.take(
            n,
        ).to_multiset(),
    decreases n,
{
    if n == 0 {
        assert(names.take(0) =~= Seq::<Seq<char>>::empty());
        assert(gathered(names, config, anchors(names, config, 0), 0) =~= Seq::<Seq<char>>::empty());
    } else {
        let k = n - 1;
        lemma_gathered_prefix(names, config, k);
        lemma_anchors_shape(names, config, n);
        lemma_anchor_of(names, config, k);
        let all = anchors(names, config, n);
        lemma_gathered_step(names, config, all, k);
        assert(all.contains(anchor_of(names, config, k)));
        if is_anchor(names, config, k) {
            lemma_members_before_anchor(names, config, k, k);
            let prev = anchors(names, config, k);
            assert(all.drop_last() =~= prev);
            assert(gathered(names, config, all, k) =~= gathered(names, config, prev, k));
        }
        assert(names.take(n) =~= names.take(k).push(names[k]));
        to_multiset_build(names.take(k), names[k]);
    }
}

/// Groups filenames: each file, in input order, either joins the group of the first
/// earlier anchor whose combined score with it reaches the threshold, or anchors a new
/// group. Groups come in the order of their anchors.
#[verifier::rlimit(40)]
pub fn group_similar_files(filenames: &[String], config: &SimilarityConfig) -> (r: Vec<FileGroup>)
    ensures
        r@.len() == anchors(views(filenames@), *config, filenames@.len() as int).len(),
        forall|g: int|
            0 <= g < r@.len() ==> is_group_of(
                #[trigger] r@[g],
                views(filenames@),
                *config,
                anchors(views(filenames@), *config, filenames@.len() as int)[g],
            ),
{
    let ghost names = views(filenames@);
    let n = filenames.len();
    let mut groups: Vec<FileGroup> = Vec::new();
    if n == 0 {
        return groups;
    }
    let mut assigned: Vec<bool> = Vec::new();
    for k in 0..n
        invariant
            assigned@.len() == k,
            forall|t: int| 0 <= t < k ==> !assigned@[t],
    {
        assigned.push(false);
    }
    assert forall|t: int| 0 <= t < n implies anchor_of(names, *config, t) >= 0 by {
        lemma_anchor_of(names, *config, t);
    }
    for i in 0..n
        invariant
            n == filenames@.len(),
            names == views(filenames@),
            assigned@.len() == n,
            forall|t: int| 0 <= t < i ==> assigned@[t],
            forall|t: int| i <= t < n ==> (assigned@[t] <==> anchor_of(names, *config, t) < i),
            groups@.len() == anchors(names, *config, i as int).len(),
            forall|g: int|
                0 <= g < groups@.len() ==> is_group_of(
                    #[trigger] groups@[g],
                    names,
                    *config,
                    anchors(names, *config, i as int)[g],
                ),
    {
        proof {
            lemma_anchor_of(names, *config, i as int);
        }
        if !assigned[i] {
            assert(is_anchor(names, *config, i as int));
            let mut files: Vec<String> = Vec::new();
            files.push(filenames[i].clone());
            let mut total: u128 = 0;
            assigned.set(i, true);
            proof {
                lemma_members_before_anchor(names, *config, i as int, i as int);
                assert(views(files@) =~= members(names, *config, i as int, i + 1));
            }
            for j in i + 1..n
                invariant
                    n == filenames@.len(),
                    i < n,
                    names == views(filenames@),
                    is_anchor(names, *config, i as int),
                    assigned@.len() == n,
                    forall|t: int| 0 <= t <= i ==> assigned@[t],
                    forall|t: int| i < t < j ==> (assigned@[t] <==> anchor_of(names, *config, t) <= i),
                    forall|t: int| j <= t < n ==> (assigned@[t] <==> anchor_of(names, *config, t) < i),
                    views(files@) == members(names, *config, i as int, j as int),
                    1 <= files@.len() <= j,
                    total == score_total(names, *config, i as int, j as int),
                    total <= (files@.len() - 1) * 0x1_ffff_fffe,
            {
                proof {
                    lemma_anchor_of(names, *config, j as int);
                }
                let ghost before = files@;
                if !assigned[j] {
                    let score = combined_similarity(&filenames[i], &filenames[j], config);
                    if score >= config.min_similarity_score as u64 {
                        assert(total + score <= files@.len() * 0x1_ffff_fffe) by (nonlinear_arith)
                            requires
                                total <= (files@.len() - 1) * 0x1_ffff_fffe,
                                score <= 0x1_ffff_fffe,
                                files@.len() >= 1,
                        ;
                        assert(files@.len() * 0x1_ffff_fffe <= 0xffff_ffff_ffff_ffff * 0x1_ffff_fffe)
                            by (nonlinear_arith)
                            requires
                                files@.len() <= 0xffff_ffff_ffff_ffff,
                        ;
                        files.push(filenames[j].clone());
                        total = total + score as u128;
                        assigned.set(j, true);
                        assert(anchor_of(names, *config, j as int) == i);
                        assert(views(files@) =~= views(before).push(names[j as int]));
                    } else {
                        assert(anchor_of(names, *config, j as int) != i);
                    }
                }
            }
            let count = files.len();
            let avg: u64 = if count <= 1 {
                SCORE_ONE
            } else {
                proof {
                    let m: int = 0x1_ffff_fffe;
                    vstd::arithmetic::div_mod::lemma_div_is_ordered(
                        total as int,
                        (count - 1) * m,
                        count - 1,
                    );
                    vstd::arithmetic::mul::lemma_mul_is_commutative(count - 1, m);
                    vstd::arithmetic::div_mod::lemma_div_by_multiple(m, count - 1);
                }
                (total / (count - 1) as u128) as u64
            };
            let rep = extract_common_prefix(&files);
            let ghost before_groups = groups@;
            groups.push(FileGroup { representative_name: rep, files, avg_similarity: avg });
            proof {
                assert(anchors(names, *config, i + 1) == anchors(names, *config, i as int).push(
                    i as int,
                ));
                assert forall|g: int| 0 <= g < groups@.len() implies is_group_of(
                    #[trigger] groups@[g],
                    names,
                    *config,
                    anchors(names, *config, i + 1)[g],
                ) by {
                    if g < before_groups.len() {
                        assert(groups@[g] == before_groups[g]);
                    }
                }
            }
        } else {
            assert(!is_anchor(names, *config, i as int));
            assert forall|t: int| i < t < n implies (assigned@[t] <==> anchor_of(names, *config, t)
                < i + 1) by {
                lemma_anchor_of(names, *config, t);
            }
        }
    }
    groups
}

} // verus!
