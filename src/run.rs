//! The placement of groups as a sequence of file-system steps: the library says what
//! to do next, the caller does it and reports back, and the library keeps the record.
use vstd::prelude::*;
use crate::cluster::FileGroup;
use crate::placement::{plan_group, is_plan_for, GroupPlan, Outcome, SkipReason, SkippedFile};

verus! {

/// The next file-system step of a placement run.
pub enum Action {
    /// Create the skip folder (or find it already there).
    CreateSkipFolder,
    /// Record a skipped file; move it into the skip folder when `to_skip_folder` holds.
    SkipFile { filename: String, reason: SkipReason, to_skip_folder: bool },
    /// Create the group folder unless it exists.
    EnsureFolder { folder_name: String },
    /// Move a file into its group folder, under a free name.
    MoveIntoFolder { filename: String, folder_name: String },
    /// Nothing is left to do.
    Finish,
}

/// What became of the last step.
pub enum Event {
    /// The step succeeded; for `EnsureFolder`, `created` tells whether a folder was made.
    Done { created: bool },
    /// The step failed, for the reason given.
    Failed(String),
}

/// A placement run in progress.
pub struct Placement {
    /// What becomes of each group, in group order.
    pub plans: Vec<GroupPlan>,
    /// The skip folder is still to be created.
    pub skip_folder_pending: bool,
    /// Skipped files go into the skip folder.
    pub skip_folder_ready: bool,
    /// The group being placed.
    pub group: usize,
    /// The file of that group being placed.
    pub item: usize,
    /// The folder of the current group exists.
    pub folder_ready: bool,
    /// What has happened so far, in order.
    pub outcomes: Vec<Outcome>,
}

/// The number of files a plan handles.
pub open spec fn plan_len(p: GroupPlan) -> nat {
    match p {
        GroupPlan::Skip(skips) => skips@.len(),
        GroupPlan::MoveInto { files, .. } => files@.len(),
    }
}

/// The first group from `g` on that has a file to handle, or the number of groups.
pub open spec fn next_group(plans: Seq<GroupPlan>, g: int) -> int
    decreases plans.len() - g,
{
    if g < 0 || g >= plans.len() {
        plans.len() as int
    } else if plan_len(plans[g]) > 0 {
        g
    } else {
        next_group(plans, g + 1)
    }
}

/// The run's position is consistent with its plans.
pub open spec fn well_formed(p: Placement) -> bool {
    &&& p.group <= p.plans@.len()
    &&& p.group < p.plans@.len() ==> p.item < plan_len(p.plans@[p.group as int])
    &&& p.group < p.plans@.len() ==> next_group(p.plans@, p.group as int) == p.group
    &&& p.folder_ready ==> p.group < p.plans@.len() && p.plans@[p.group as int] is MoveInto
    &&& p.skip_folder_pending ==> !p.skip_folder_ready
}

/// The step a run asks for.
pub open spec fn is_next_action(p: Placement, a: Action) -> bool {
    if p.skip_folder_pending {
        a is CreateSkipFolder
    } else if p.group >= p.plans@.len() {
        a is Finish
    } else {
        match p.plans@[p.group as int] {
            GroupPlan::Skip(skips) => match a {
                Action::SkipFile { filename, reason, to_skip_folder } => filename@
                    == skips@[p.item as int].filename@ && reason == skips@[p.item as int].reason
                    && to_skip_folder == p.skip_folder_ready,
                _ => false,
            },
            GroupPlan::MoveInto { folder_name, files } => if p.folder_ready {
                match a {
                    Action::MoveIntoFolder { filename: f, folder_name: d } => f@ == files@[p.item as int]@
                        && d@ == folder_name@,
                    _ => false,
                }
            } else {
                match a {
                    Action::EnsureFolder { folder_name: d } => d@ == folder_name@,
                    _ => false,
                }
            },
        }
    }
}

/// The outcomes that the last step adds to the record.
pub open spec fn recorded(p: Placement, e: Event) -> Seq<Outcome> {
    let failure = match e {
        Event::Failed(m) => seq![Outcome::Failed(m)],
        Event::Done { .. } => seq![],
    };
    if p.skip_folder_pending {
        failure
    } else {
        match p.plans@[p.group as int] {
            GroupPlan::Skip(skips) => seq![Outcome::Skipped(skips@[p.item as int])] + failure,
            GroupPlan::MoveInto { .. } => if p.folder_ready {
                if e is Done {
                    seq![Outcome::Moved]
                } else {
                    failure
                }
            } else {
                match e {
                    Event::Done { created } => if created {
                        seq![Outcome::FolderCreated]
                    } else {
                        seq![]
                    },
                    Event::Failed(m) => failure,
                }
            },
        }
    }
}

/// Where a run stands after the last step: (group, item, folder ready).
pub open spec fn position_after(p: Placement, e: Event) -> (int, int, bool) {
    let next_of_group = (next_group(p.plans@, p.group + 1), 0int, false);
    let next_of_item = if p.item + 1 < plan_len(p.plans@[p.group as int]) {
        (p.group as int, p.item + 1, p.folder_ready)
    } else {
        next_of_group
    };
    if p.skip_folder_pending {
        (p.group as int, p.item as int, p.folder_ready)
    } else {
        match p.plans@[p.group as int] {
            GroupPlan::Skip(_) => next_of_item,
            GroupPlan::MoveInto { .. } => if p.folder_ready {
                next_of_item
            } else if e is Done {
                (p.group as int, p.item as int, true)
            } else {
                next_of_group
            },
        }
    }
}

/// The steps left in a run, counting each folder as one step.
pub open spec fn steps_left(p: Placement) -> int {
    (if p.skip_folder_pending { 1int } else { 0int }) + remaining_from(p.plans@, p.group as int) - p.item
        - (if p.folder_ready { 1int } else { 0int })
}

/// The steps of the groups from `g` on: one per file, and one per folder to make.
pub open spec fn remaining_from(plans: Seq<GroupPlan>, g: int) -> int
    decreases plans.len() - g,
{
    if g < 0 || g >= plans.len() {
        0
    } else {
        remaining_from(plans, g + 1) + plan_len(plans[g]) + if plans[g] is MoveInto && plan_len(
            plans[g],
        ) > 0 {
            1int
        } else {
            0int
        }
    }
}

proof fn lemma_next_group(plans: Seq<GroupPlan>, g: int)
    requires
        0 <= g <= plans.len(),
    ensures
        g <= next_group(plans, g) <= plans.len(),
        next_group(plans, g) < plans.len() ==> plan_len(plans[next_group(plans, g)]) > 0,
        next_group(plans, g) < plans.len() ==> next_group(plans, next_group(plans, g))
            == next_group(plans, g),
        remaining_from(plans, g) == remaining_from(plans, next_group(plans, g)),
    decreases plans.len() - g,
{
    if g < plans.len() && plan_len(plans[g]) == 0 {
        lemma_next_group(plans, g + 1);
    }
}

proof fn lemma_remaining_nonneg(plans: Seq<GroupPlan>, g: int)
    ensures
        remaining_from(plans, g) >= 0,
    decreases plans.len() - g,
{
    if 0 <= g < plans.len() {
        lemma_remaining_nonneg(plans, g + 1);
    }
}

fn plan_size(p: &GroupPlan) -> (r: usize)
    ensures
        r == plan_len(*p),
{
    match p {
        GroupPlan::Skip(skips) => skips.len(),
        GroupPlan::MoveInto { files, .. } => files.len(),
    }
}

fn first_group_from(plans: &Vec<GroupPlan>, g: usize) -> (r: usize)
    requires
        g <= plans@.len(),
    ensures
        r == next_group(plans@, g as int),
{
    let mut k = g;
    while k < plans.len() && plan_size(&plans[k]) == 0
        invariant
            g <= k <= plans@.len(),
            next_group(plans@, g as int) == next_group(plans@, k as int),
        decreases plans@.len() - k,
    {
        k += 1;
    }
    k
}

impl Placement {
    /// Starts a run over `groups`; with `move_skipped`, skipped files go into a skip
    /// folder, which is made first.
    pub fn new(groups: &[FileGroup], move_skipped: bool) -> (r: Placement)
        ensures
            well_formed(r),
            r.plans@.len() == groups@.len(),
            forall|g: int| 0 <= g < groups@.len() ==> is_plan_for(#[trigger] r.plans@[g], groups@[g]),
            r.skip_folder_pending == move_skipped,
            !r.skip_folder_ready,
            r.group == next_group(r.plans@, 0),
            r.item == 0,
            !r.folder_ready,
            r.outcomes@.len() == 0,
    {
        let mut plans: Vec<GroupPlan> = Vec::new();
        for g in 0..groups.len()
            invariant
                plans@.len() == g,
                forall|k: int| 0 <= k < g ==> is_plan_for(#[trigger] plans@[k], groups@[k]),
        {
            plans.push(plan_group(&groups[g]));
        }
        let first = first_group_from(&plans, 0);
        proof {
            lemma_next_group(plans@, 0);
        }
        Placement {
            plans,
            skip_folder_pending: move_skipped,
            skip_folder_ready: false,
            group: first,
            item: 0,
            folder_ready: false,
            outcomes: Vec::new(),
        }
    }

    /// The step to take next.
    pub fn next_action(&self) -> (r: Action)
        requires
            well_formed(*self),
        ensures
            is_next_action(*self, r),
    {
        if self.skip_folder_pending {
            return Action::CreateSkipFolder;
        }
        if self.group >= self.plans.len() {
            return Action::Finish;
        }
        match &self.plans[self.group] {
            GroupPlan::Skip(skips) => {
                let s = &skips[self.item];
                Action::SkipFile {
                    filename: s.filename.clone(),
                    reason: s.reason,
                    to_skip_folder: self.skip_folder_ready,
                }
            },
            GroupPlan::MoveInto { folder_name, files } => {
                if self.folder_ready {
                    Action::MoveIntoFolder {
                        filename: files[self.item].clone(),
                        folder_name: folder_name.clone(),
                    }
                } else {
                    Action::EnsureFolder { folder_name: folder_name.clone() }
                }
            },
        }
    }

    /// The run is over.
    pub fn is_finished(&self) -> (r: bool)
        ensures
            r == (!self.skip_folder_pending && self.group >= self.plans@.len()),
    {
        !self.skip_folder_pending && self.group >= self.plans.len()
    }

    /// Takes in what became of the step that `next_action` asked for: records it and
    /// moves on. A failed skip folder leaves skipped files where they are; a failed
    /// group folder abandons that group's moves; any other failure abandons one file.
    pub fn report(&mut self, event: Event)
        requires
            well_formed(*old(self)),
            !(!old(self).skip_folder_pending && old(self).group >= old(self).plans@.len()),
        ensures
            well_formed(*final(self)),
            final(self).plans@ == old(self).plans@,
            final(self).outcomes@ == old(self).outcomes@ + recorded(*old(self), event),
            !final(self).skip_folder_pending,
            final(self).skip_folder_ready == if old(self).skip_folder_pending {
                event is Done
            } else {
                old(self).skip_folder_ready
            },
            (final(self).group as int, final(self).item as int, final(self).folder_ready)
                == position_after(*old(self), event),
            steps_left(*final(self)) < steps_left(*old(self)),
    {
        let ghost before = *self;
        let ghost rec = recorded(before, event);
        if self.skip_folder_pending {
            self.skip_folder_pending = false;
            match event {
                Event::Done { .. } => {
                    self.skip_folder_ready = true;
                },
                Event::Failed(m) => {
                    self.outcomes.push(Outcome::Failed(m));
                },
            }
            assert(self.outcomes@ =~= before.outcomes@ + rec);
            return;
        }
        proof {
            lemma_next_group(self.plans@, self.group + 1);
            lemma_remaining_nonneg(self.plans@, self.group + 1);
        }
        let n = self.plans.len();
        let g = self.group;
        let size = plan_size(&self.plans[g]);
        let skipped = match &self.plans[g] {
            GroupPlan::Skip(skips) => Some(
                SkippedFile {
                    filename: skips[self.item].filename.clone(),
                    reason: skips[self.item].reason,
                },
            ),
            GroupPlan::MoveInto { .. } => None,
        };
        let mut next_group_now = false;
        if let Some(s) = skipped {
            self.outcomes.push(Outcome::Skipped(s));
            if let Event::Failed(m) = event {
                self.outcomes.push(Outcome::Failed(m));
            }
            if self.item + 1 < size {
                self.item = self.item + 1;
            } else {
                next_group_now = true;
            }
        } else if self.folder_ready {
            match event {
                Event::Done { .. } => self.outcomes.push(Outcome::Moved),
                Event::Failed(m) => self.outcomes.push(Outcome::Failed(m)),
            }
            if self.item + 1 < size {
                self.item = self.item + 1;
            } else {
                next_group_now = true;
            }
        } else {
            match event {
                Event::Done { created } => {
                    if created {
                        self.outcomes.push(Outcome::FolderCreated);
                    }
                    self.folder_ready = true;
                },
                Event::Failed(m) => {
                    self.outcomes.push(Outcome::Failed(m));
                    next_group_now = true;
                },
            }
        }
        if next_group_now {
            self.group = if g < n {
                first_group_from(&self.plans, g + 1)
            } else {
                n
            };
            self.item = 0;
            self.folder_ready = false;
        }
        assert(self.outcomes@ =~= before.outcomes@ + rec);
    }

    /// What has happened so far, in order.
    pub fn outcomes(&self) -> (r: &[Outcome])
        ensures
            r@ == self.outcomes@,
    {
        self.outcomes.as_slice()
    }
}

} // verus!
