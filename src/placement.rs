//! The decisions of placing groups into folders: which files are skipped and why,
//! where a group goes, how a clashing name is resolved, and what a run adds up to.
use vstd::prelude::*;
use crate::cluster::FileGroup;
use crate::naming::{suggest_folder_name, suggested_folder_name};
use crate::text::{
    chars_of, contains_chars, has_substring, last_index, rfind_char, string_from_chars,
};
use crate::tokens::views;

verus! {

/// How many patterns `skip_pattern` lists.
pub const SKIP_PATTERN_COUNT: usize = 7;

/// Substrings that mark a file as belonging to the system or to a tool.
pub open spec fn skip_pattern(k: int) -> Seq<char> {
    if k == 0 {
        ".DS_Store"@
    } else if k == 1 {
        "Thumbs.db"@
    } else if k == 2 {
        ".git"@
    } else if k == 3 {
        ".gitignore"@
    } else if k == 4 {
        "desktop.ini"@
    } else if k == 5 {
        ".localized"@
    } else {
        "~$"@
    }
}

fn skip_pattern_text(k: usize) -> (r: &'static str)
    requires
        k < SKIP_PATTERN_COUNT,
    ensures
        r@ == skip_pattern(k as int),
{
    if k == 0 {
        ".DS_Store"
    } else if k == 1 {
        "Thumbs.db"
    } else if k == 2 {
        ".git"
    } else if k == 3 {
        ".gitignore"
    } else if k == 4 {
        "desktop.ini"
    } else if k == 5 {
        ".localized"
    } else {
        "~$"
    }
}

/// The name contains one of the skip patterns.
pub open spec fn is_system_file(f: Seq<char>) -> bool {
    exists|k: int| 0 <= k < SKIP_PATTERN_COUNT && has_substring(f, skip_pattern(k))
}

/// Tells whether a file is a system file that is left alone.
pub fn should_skip_file(filename: &str) -> (r: bool)
    ensures
        r == is_system_file(filename@),
{
    let chars = chars_of(filename);
    for k in 0..SKIP_PATTERN_COUNT
        invariant
            chars@ == filename@,
            forall|m: int| 0 <= m < k ==> !has_substring(filename@, skip_pattern(m)),
    {
        let pattern = chars_of(skip_pattern_text(k));
        if contains_chars(&chars, &pattern) {
            return true;
        }
    }
    false
}

/// Why a file was not moved into a group folder.
#[derive(PartialEq, Eq, Structural, Clone, Copy, Debug)]
pub enum SkipReason {
    /// It is alone in its group.
    SingleFile,
    /// It matches a system-file pattern.
    SystemFile,
    /// It sits in a subfolder already.
    AlreadyOrganized,
}

/// A file that was skipped, and why.
#[derive(Clone, Debug)]
pub struct SkippedFile {
    pub filename: String,
    pub reason: SkipReason,
}

/// The reason a lone file is skipped.
pub open spec fn skip_reason_of(f: Seq<char>) -> SkipReason {
    if is_system_file(f) {
        SkipReason::SystemFile
    } else {
        SkipReason::SingleFile
    }
}

/// Classifies a file that is alone in its group.
pub fn classify_single(filename: &str) -> (r: SkipReason)
    ensures
        r == skip_reason_of(filename@),
{
    if should_skip_file(filename) {
        SkipReason::SystemFile
    } else {
        SkipReason::SingleFile
    }
}

/// What becomes of one group.
pub enum GroupPlan {
    /// The group is too small for a folder: its files are skipped, with their reasons.
    Skip(Vec<SkippedFile>),
    /// The group's files move into the named folder.
    MoveInto { folder_name: String, files: Vec<String> },
}

/// `p` is the plan for `g`: a group of fewer than two files is skipped file by file,
/// a larger one moves into the folder that its representative name suggests.
pub open spec fn is_plan_for(p: GroupPlan, g: FileGroup) -> bool {
    match p {
        GroupPlan::Skip(skips) => {
            &&& g.files@.len() < 2
            &&& skips@.len() == g.files@.len()
            &&& forall|i: int|
                0 <= i < skips@.len() ==> (#[trigger] skips@[i]).filename@ == g.files@[i]@
                    && skips@[i].reason == skip_reason_of(g.files@[i]@)
        },
        GroupPlan::MoveInto { folder_name, files } => {
            &&& g.files@.len() >= 2
            &&& folder_name@ == suggested_folder_name(g.representative_name@)
            &&& views(files@) == views(g.files@)
        },
    }
}

/// Decides what becomes of one group, as `is_plan_for` states.
pub fn plan_group(group: &FileGroup) -> (r: GroupPlan)
    ensures
        is_plan_for(r, *group),
{
    if group.files.len() < 2 {
        let mut skips: Vec<SkippedFile> = Vec::new();
        for i in 0..group.files.len()
            invariant
                group.files@.len() < 2,
                skips@.len() == i,
                forall|k: int|
                    0 <= k < i ==> (#[trigger] skips@[k]).filename@ == group.files@[k]@
                        && skips@[k].reason == skip_reason_of(group.files@[k]@),
        {
            let name = &group.files[i];
            let reason = classify_single(name.as_str());
            skips.push(SkippedFile { filename: name.clone(), reason });
        }
        GroupPlan::Skip(skips)
    } else {
        let folder_name = suggest_folder_name(group);
        let mut files: Vec<String> = Vec::new();
        for i in 0..group.files.len()
            invariant
                files@.len() == i,
                forall|k: int| 0 <= k < i ==> (#[trigger] files@[k])@ == group.files@[k]@,
        {
            files.push(group.files[i].clone());
        }
        assert(views(files@) =~= views(group.files@));
        GroupPlan::MoveInto { folder_name, files }
    }
}

/// The stem and the extension (with its dot) of a file name, split as `Path::file_stem`
/// and `Path::extension` split it: at the last `.`, unless that is the first character
/// or the name is `..`.
pub open spec fn stem_and_extension(f: Seq<char>) -> (Seq<char>, Seq<char>) {
    let p = last_index(f, '.');
    if p <= 0 || f == seq!['.', '.'] {
        (f, seq![])
    } else {
        (f.take(p), f.subrange(p, f.len() as int))
    }
}

pub open spec fn digit_char(d: nat) -> char {
    if d == 0 {
        '0'
    } else if d == 1 {
        '1'
    } else if d == 2 {
        '2'
    } else if d == 3 {
        '3'
    } else if d == 4 {
        '4'
    } else if d == 5 {
        '5'
    } else if d == 6 {
        '6'
    } else if d == 7 {
        '7'
    } else if d == 8 {
        '8'
    } else {
        '9'
    }
}

/// The decimal digits of `n`, without leading zeros.
pub open spec fn decimal(n: nat) -> Seq<char>
    decreases n,
{
    if n < 10 {
        seq![digit_char(n)]
    } else {
        decimal(n / 10).push(digit_char(n % 10))
    }
}

/// The `n`-th alternative name for `f`: its stem, `_`, `n` and its extension.
pub open spec fn numbered_name(f: Seq<char>, n: nat) -> Seq<char> {
    stem_and_extension(f).0 + seq!['_'] + decimal(n) + stem_and_extension(f).1
}

/// How many numbered names are tried before giving up.
pub const MAX_ATTEMPTS: usize = 999;

/// The first alternative name for `f`, from the `n`-th up to the last one tried, that
/// `taken` does not hold.
pub open spec fn first_free_name(f: Seq<char>, taken: Set<Seq<char>>, n: nat) -> Option<Seq<char>>
    decreases MAX_ATTEMPTS + 1 - n,
{
    if n < 1 || n > MAX_ATTEMPTS {
        None
    } else if !taken.contains(numbered_name(f, n)) {
        Some(numbered_name(f, n))
    } else {
        first_free_name(f, taken, n + 1)
    }
}

fn digit_of(d: u32) -> (r: char)
    requires
        d < 10,
    ensures
        r == digit_char(d as nat),
{
    if d == 0 {
        '0'
    } else if d == 1 {
        '1'
    } else if d == 2 {
        '2'
    } else if d == 3 {
        '3'
    } else if d == 4 {
        '4'
    } else if d == 5 {
        '5'
    } else if d == 6 {
        '6'
    } else if d == 7 {
        '7'
    } else if d == 8 {
        '8'
    } else {
        '9'
    }
}

fn push_decimal(out: &mut Vec<char>, n: u32)
    ensures
        final(out)@ == old(out)@ + decimal(n as nat),
    decreases n,
{
    if n >= 10 {
        push_decimal(out, n / 10);
        out.push(digit_of(n % 10));
        assert(decimal(n as nat) == decimal((n / 10) as nat).push(digit_char((n % 10) as nat)));
        assert(final(out)@ =~= old(out)@ + decimal(n as nat));
    } else {
        out.push(digit_of(n));
        assert(decimal(n as nat) == seq![digit_char(n as nat)]);
        assert(final(out)@ =~= old(out)@ + decimal(n as nat));
    }
}

fn numbered_name_of(f: &[char], n: u32) -> (r: Vec<char>)
    ensures
        r@ == numbered_name(f@, n as nat),
{
    let len = f.len();
    let split: usize = match rfind_char(f, '.') {
        Some(p) => if p == 0 || (len == 2 && f[0] == '.' && f[1] == '.') {
            len
        } else {
            p
        },
        None => len,
    };
    assert(f@ == seq!['.', '.'] <==> (len == 2 && f@[0] == '.' && f@[1] == '.')) by {
        if len == 2 && f@[0] == '.' && f@[1] == '.' {
            assert(f@ =~= seq!['.', '.']);
        }
    }
    let mut out: Vec<char> = Vec::new();
    for i in 0..split
        invariant
            split <= len == f@.len(),
            out@ == f@.take(i as int),
    {
        out.push(f[i]);
        assert(out@ =~= f@.take(i + 1));
    }
    assert(f@.take(len as int) =~= f@);
    assert(out@ == stem_and_extension(f@).0);
    out.push('_');
    push_decimal(&mut out, n);
    let ghost head = out@;
    for i in split..len
        invariant
            split <= len == f@.len(),
            out@ == head + f@.subrange(split as int, i as int),
    {
        out.push(f[i]);
        assert(out@ =~= head + f@.subrange(split as int, i + 1));
    }
    assert(stem_and_extension(f@).1 =~= f@.subrange(split as int, len as int));
    out
}

/// A free name for `filename` in a folder that already holds the names in `taken`:
/// the first of `stem_1.ext` up to `stem_999.ext` that is not there, or `None` when
/// all are taken.
pub fn conflict_free_name(filename: &str, taken: &[String]) -> (r: Option<String>)
    ensures
        match r {
            Some(name) => first_free_name(filename@, views(taken@).to_set(), 1) == Some(name@),
            None => first_free_name(filename@, views(taken@).to_set(), 1) is None,
        },
{
    let f = chars_of(filename);
    let ghost t = views(taken@).to_set();
    let mut n: u32 = 1;
    while n <= 999
        invariant
            1 <= n <= 1000,
            f@ == filename@,
            t == views(taken@).to_set(),
            first_free_name(filename@, t, 1) == first_free_name(filename@, t, n as nat),
        decreases 1000 - n,
    {
        let candidate = string_from_chars(&numbered_name_of(&f, n));
        let mut present = false;
        for k in 0..taken.len()
            invariant
                present == exists|m: int| 0 <= m < k && taken@[m]@ == candidate@,
        {
            if taken[k] == candidate {
                present = true;
            }
        }
        proof {
            if present {
                let m = choose|m: int| 0 <= m < taken@.len() && taken@[m]@ == candidate@;
                assert(views(taken@)[m] == candidate@);
                assert(t.contains(candidate@));
            } else {
                assert forall|m: int| 0 <= m < views(taken@).len() implies views(taken@)[m]
                    != candidate@ by {
                    assert(views(taken@)[m] == taken@[m]@);
                }
                assert(!t.contains(candidate@));
            }
        }
        if !present {
            return Some(candidate);
        }
        n += 1;
    }
    None
}

/// What happened to one file or folder during a run.
pub enum Outcome {
    /// A group folder was created.
    FolderCreated,
    /// A file was moved into its group folder.
    Moved,
    /// A file was skipped.
    Skipped(SkippedFile),
    /// An operation failed; the message says which and why.
    Failed(String),
}

/// The result of a run: counts, the skipped files and the error messages.
pub struct OrganizeResult {
    pub files_moved: usize,
    pub folders_created: usize,
    pub files_skipped: usize,
    pub skipped_details: Vec<SkippedFile>,
    pub errors: Vec<String>,
}

/// How many files were moved.
pub open spec fn count_moved(os: Seq<Outcome>) -> nat
    decreases os.len(),
{
    if os.len() == 0 {
        0
    } else {
        count_moved(os.drop_last()) + if os.last() is Moved {
            1nat
        } else {
            0nat
        }
    }
}

/// How many folders were created.
pub open spec fn count_created(os: Seq<Outcome>) -> nat
    decreases os.len(),
{
    if os.len() == 0 {
        0
    } else {
        count_created(os.drop_last()) + if os.last() is FolderCreated {
            1nat
        } else {
            0nat
        }
    }
}

/// The skipped files among the outcomes, in order.
pub open spec fn skipped_of(os: Seq<Outcome>) -> Seq<SkippedFile>
    decreases os.len(),
{
    if os.len() == 0 {
        seq![]
    } else if os.last() is Skipped {
        skipped_of(os.drop_last()).push(os.last()->Skipped_0)
    } else {
        skipped_of(os.drop_last())
    }
}

/// The error messages among the outcomes, in order.
pub open spec fn errors_of(os: Seq<Outcome>) -> Seq<Seq<char>>
    decreases os.len(),
{
    if os.len() == 0 {
        seq![]
    } else if os.last() is Failed {
        errors_of(os.drop_last()).push(os.last()->Failed_0@)
    } else {
        errors_of(os.drop_last())
    }
}

proof fn lemma_counts_bounded(os: Seq<Outcome>)
    ensures
        count_moved(os) <= os.len(),
        count_created(os) <= os.len(),
        skipped_of(os).len() <= os.len(),
    decreases os.len(),
{
    if os.len() > 0 {
        lemma_counts_bounded(os.drop_last());
    }
}

impl OrganizeResult {
    /// Adds up the outcomes of a run, in the order they happened.
    pub fn from_outcomes(outcomes: &[Outcome]) -> (r: OrganizeResult)
        ensures
            r.files_moved == count_moved(outcomes@),
            r.folders_created == count_created(outcomes@),
            r.files_skipped == skipped_of(outcomes@).len(),
            r.skipped_details@.len() == skipped_of(outcomes@).len(),
            forall|i: int|
                0 <= i < r.skipped_details@.len() ==> (#[trigger] r.skipped_details@[i]).filename@
                    == skipped_of(outcomes@)[i].filename@ && r.skipped_details@[i].reason
                    == skipped_of(outcomes@)[i].reason,
            views(r.errors@) == errors_of(outcomes@),
    {
        let mut r = OrganizeResult {
            files_moved: 0,
            folders_created: 0,
            files_skipped: 0,
            skipped_details: Vec::new(),
            errors: Vec::new(),
        };
        for i in 0..outcomes.len()
            invariant
                r.files_moved == count_moved(outcomes@.take(i as int)),
                r.folders_created == count_created(outcomes@.take(i as int)),
                r.files_skipped == skipped_of(outcomes@.take(i as int)).len(),
                r.skipped_details@.len() == skipped_of(outcomes@.take(i as int)).len(),
                forall|k: int|
                    0 <= k < r.skipped_details@.len() ==> (#[trigger] r.skipped_details@[k]).filename@
                        == skipped_of(outcomes@.take(i as int))[k].filename@
                        && r.skipped_details@[k].reason == skipped_of(
                        outcomes@.take(i as int),
                    )[k].reason,
                views(r.errors@) == errors_of(outcomes@.take(i as int)),
        {
            let ghost prefix = outcomes@.take(i + 1);
            assert(prefix.drop_last() =~= outcomes@.take(i as int));
            proof {
                lemma_counts_bounded(prefix);
            }
            match &outcomes[i] {
                Outcome::FolderCreated => {
                    r.folders_created = r.folders_created + 1;
                },
                Outcome::Moved => {
                    r.files_moved = r.files_moved + 1;
                },
                Outcome::Skipped(s) => {
                    r.skipped_details.push(
                        SkippedFile { filename: s.filename.clone(), reason: s.reason },
                    );
                    r.files_skipped = r.files_skipped + 1;
                },
                Outcome::Failed(e) => {
                    let ghost before = r.errors@;
                    r.errors.push(e.clone());
                    assert(views(r.errors@) =~= views(before).push(e@));
                },
            }
        }
        assert(outcomes@.take(outcomes@.len() as int) =~= outcomes@);
        r
    }
}

} // verus!
