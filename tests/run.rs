use kondo::run::{Action, Event, Placement};
use kondo::{group_similar_files, OrganizeResult, SimilarityConfig, SkipReason};

fn names(list: &[&str]) -> Vec<String> {
    list.iter().map(|s| s.to_string()).collect()
}

fn done() -> Event {
    Event::Done { created: false }
}

#[test]
fn lone_system_file_run_skips_it() {
    let groups = group_similar_files(&names(&[".DS_Store"]), &SimilarityConfig::default());
    let mut run = Placement::new(&groups, false);
    match run.next_action() {
        Action::SkipFile { filename, reason, to_skip_folder } => {
            assert_eq!(filename, ".DS_Store");
            assert_eq!(reason, SkipReason::SystemFile);
            assert!(!to_skip_folder);
        }
        _ => panic!("the file is skipped"),
    }
    run.report(done());
    assert!(matches!(run.next_action(), Action::Finish));
    assert!(run.is_finished());
    let result = OrganizeResult::from_outcomes(run.outcomes());
    assert_eq!(result.files_skipped, 1);
    assert_eq!(result.folders_created, 0);
    assert_eq!(result.files_moved, 0);
    assert_eq!(result.skipped_details[0].reason, SkipReason::SystemFile);
}

#[test]
fn group_run_creates_folder_then_moves_each_file() {
    let files = names(&["IMG_0001.jpg", "IMG_0002.jpg", "report.pdf"]);
    let groups = group_similar_files(&files, &SimilarityConfig::default());
    let mut run = Placement::new(&groups, true);
    assert!(matches!(run.next_action(), Action::CreateSkipFolder));
    run.report(Event::Done { created: true });
    match run.next_action() {
        Action::EnsureFolder { folder_name } => assert_eq!(folder_name, "Images"),
        _ => panic!("the group folder comes first"),
    }
    run.report(Event::Done { created: true });
    for expected in ["IMG_0001.jpg", "IMG_0002.jpg"] {
        match run.next_action() {
            Action::MoveIntoFolder { filename, folder_name } => {
                assert_eq!(filename, expected);
                assert_eq!(folder_name, "Images");
            }
            _ => panic!("each member moves"),
        }
        run.report(done());
    }
    match run.next_action() {
        Action::SkipFile { filename, reason, to_skip_folder } => {
            assert_eq!(filename, "report.pdf");
            assert_eq!(reason, SkipReason::SingleFile);
            assert!(to_skip_folder);
        }
        _ => panic!("the lone file is skipped"),
    }
    run.report(done());
    assert!(run.is_finished());
    let result = OrganizeResult::from_outcomes(run.outcomes());
    assert_eq!(result.folders_created, 1);
    assert_eq!(result.files_moved, 2);
    assert_eq!(result.files_skipped, 1);
    assert!(result.errors.is_empty());
}

#[test]
fn failed_folder_abandons_its_group() {
    let files = names(&["IMG_0001.jpg", "IMG_0002.jpg", "notes.txt"]);
    let groups = group_similar_files(&files, &SimilarityConfig::default());
    let mut run = Placement::new(&groups, false);
    assert!(matches!(run.next_action(), Action::EnsureFolder { .. }));
    run.report(Event::Failed("Failed to create folder 'Images'".to_string()));
    match run.next_action() {
        Action::SkipFile { filename, .. } => assert_eq!(filename, "notes.txt"),
        _ => panic!("the next group follows"),
    }
    run.report(done());
    assert!(run.is_finished());
    let result = OrganizeResult::from_outcomes(run.outcomes());
    assert_eq!(result.files_moved, 0);
    assert_eq!(result.folders_created, 0);
    assert_eq!(result.errors, vec!["Failed to create folder 'Images'".to_string()]);
}

#[test]
fn failed_move_is_recorded_and_the_run_goes_on() {
    let files = names(&["IMG_0001.jpg", "IMG_0002.jpg"]);
    let groups = group_similar_files(&files, &SimilarityConfig::default());
    let mut run = Placement::new(&groups, false);
    run.report(Event::Done { created: false });
    run.report(Event::Failed(
        "Naming conflict for 'IMG_0001.jpg': Could not find available filename".to_string(),
    ));
    match run.next_action() {
        Action::MoveIntoFolder { filename, .. } => assert_eq!(filename, "IMG_0002.jpg"),
        _ => panic!("the second file still moves"),
    }
    run.report(done());
    assert!(run.is_finished());
    let result = OrganizeResult::from_outcomes(run.outcomes());
    assert_eq!(result.files_moved, 1);
    assert_eq!(result.folders_created, 0);
    assert_eq!(result.errors.len(), 1);
}

#[test]
fn failed_skip_folder_leaves_skipped_files_in_place() {
    let groups = group_similar_files(&names(&["lonely.txt"]), &SimilarityConfig::default());
    let mut run = Placement::new(&groups, true);
    run.report(Event::Failed("Failed to create skip folder: denied".to_string()));
    match run.next_action() {
        Action::SkipFile { to_skip_folder, .. } => assert!(!to_skip_folder),
        _ => panic!("the file is skipped"),
    }
    run.report(done());
    let result = OrganizeResult::from_outcomes(run.outcomes());
    assert_eq!(result.files_skipped, 1);
    assert_eq!(result.errors.len(), 1);
}

#[test]
fn empty_run_finishes_at_once() {
    let run = Placement::new(&[], false);
    assert!(run.is_finished());
    assert!(matches!(run.next_action(), Action::Finish));
}
