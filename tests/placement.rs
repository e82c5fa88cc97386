use kondo::placement::classify_single;
use kondo::{
    conflict_free_name, group_similar_files, plan_group, should_skip_file, GroupPlan,
    OrganizeResult, Outcome, SimilarityConfig, SkipReason, SkippedFile,
};

fn names(list: &[&str]) -> Vec<String> {
    list.iter().map(|s| s.to_string()).collect()
}

#[test]
fn system_files_are_recognised() {
    assert!(should_skip_file(".DS_Store"));
    assert!(should_skip_file("Thumbs.db"));
    assert!(should_skip_file("~$report.docx"));
    assert!(should_skip_file("project.gitignore"));
    assert!(should_skip_file("desktop.ini"));
    assert!(!should_skip_file("notes.txt"));
    assert!(!should_skip_file(""));
}

#[test]
fn lone_files_are_classified() {
    assert_eq!(classify_single(".localized"), SkipReason::SystemFile);
    assert_eq!(classify_single("report.pdf"), SkipReason::SingleFile);
}

#[test]
fn clashing_name_gets_first_free_number() {
    let taken = names(&["photo.jpg"]);
    assert_eq!(conflict_free_name("photo.jpg", &taken), Some("photo_1.jpg".to_string()));
    let taken = names(&["photo.jpg", "photo_1.jpg", "photo_2.jpg"]);
    assert_eq!(conflict_free_name("photo.jpg", &taken), Some("photo_3.jpg".to_string()));
}

#[test]
fn clashing_name_keeps_path_stem_rules() {
    assert_eq!(conflict_free_name(".bashrc", &[]), Some(".bashrc_1".to_string()));
    assert_eq!(conflict_free_name("archive.tar.gz", &[]), Some("archive.tar_1.gz".to_string()));
    assert_eq!(conflict_free_name("noext", &[]), Some("noext_1".to_string()));
    assert_eq!(conflict_free_name("trail.", &[]), Some("trail_1.".to_string()));
}

#[test]
fn exhausted_attempts_give_no_name() {
    let mut taken = names(&["photo.jpg"]);
    for i in 1..1000 {
        taken.push(format!("photo_{}.jpg", i));
    }
    assert_eq!(conflict_free_name("photo.jpg", &taken), None);
    taken.pop();
    assert_eq!(conflict_free_name("photo.jpg", &taken), Some("photo_999.jpg".to_string()));
}

#[test]
fn lone_system_file_is_skipped_and_counted() {
    let groups = group_similar_files(&names(&[".DS_Store"]), &SimilarityConfig::default());
    assert_eq!(groups.len(), 1);
    let mut outcomes = Vec::new();
    match plan_group(&groups[0]) {
        GroupPlan::Skip(skips) => {
            assert_eq!(skips.len(), 1);
            assert_eq!(skips[0].reason, SkipReason::SystemFile);
            for s in skips {
                outcomes.push(Outcome::Skipped(s));
            }
        }
        GroupPlan::MoveInto { .. } => panic!("a lone file is skipped"),
    }
    let result = OrganizeResult::from_outcomes(&outcomes);
    assert_eq!(result.files_skipped, 1);
    assert_eq!(result.folders_created, 0);
    assert_eq!(result.files_moved, 0);
    assert_eq!(result.skipped_details.len(), 1);
    assert_eq!(result.skipped_details[0].filename, ".DS_Store");
    assert_eq!(result.skipped_details[0].reason, SkipReason::SystemFile);
    assert!(result.errors.is_empty());
}

#[test]
fn outcomes_add_up() {
    let outcomes = vec![
        Outcome::FolderCreated,
        Outcome::Moved,
        Outcome::Failed("Naming conflict for 'a.jpg'".to_string()),
        Outcome::Moved,
        Outcome::Skipped(SkippedFile { filename: "x".to_string(), reason: SkipReason::SingleFile }),
    ];
    let r = OrganizeResult::from_outcomes(&outcomes);
    assert_eq!(r.folders_created, 1);
    assert_eq!(r.files_moved, 2);
    assert_eq!(r.files_skipped, 1);
    assert_eq!(r.errors, vec!["Naming conflict for 'a.jpg'".to_string()]);
}
