//! Groups the files of a directory by how alike their names are, and names a folder
//! for each group.
//!
//! Names are compared by two scores: one from their edit distance, one from the
//! overlap of their token sets. A greedy pass over the names, in the order given,
//! lets each name join the first earlier anchor it scores high enough against.
//! Scores are fixed-point numbers in millionths (`SCORE_ONE` is a perfect match).
//!
//! Placing the groups on disk is left to the caller: `run::Placement` says which
//! file-system step comes next, takes in how it went, and keeps the record from which
//! `OrganizeResult::from_outcomes` adds up the run.
pub mod categorise;
pub mod cluster;
pub mod naming;
pub mod placement;
pub mod run;
pub mod similarity;
pub mod text;
pub mod tokens;

pub use cluster::{group_similar_files, FileGroup};
pub use naming::{extract_common_prefix, suggest_folder_name};
pub use placement::{
    conflict_free_name, plan_group, should_skip_file, GroupPlan, OrganizeResult, Outcome,
    SkipReason, SkippedFile,
};
pub use similarity::{
    combined_similarity, jaccard_similarity, levenshtein_distance, levenshtein_similarity,
    SimilarityConfig, SCORE_ONE,
};
pub use tokens::tokenize_filename;
