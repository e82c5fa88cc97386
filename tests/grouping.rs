use kondo::{
    extract_common_prefix, group_similar_files, plan_group, suggest_folder_name, FileGroup,
    GroupPlan, SimilarityConfig, SkipReason, SCORE_ONE,
};

fn names(list: &[&str]) -> Vec<String> {
    list.iter().map(|s| s.to_string()).collect()
}

#[test]
fn grouping_nothing_gives_no_groups() {
    let groups = group_similar_files(&[], &SimilarityConfig::default());
    assert!(groups.is_empty());
}

#[test]
fn numbered_images_group_apart_from_report() {
    let files = names(&["IMG_0001.jpg", "IMG_0002.jpg", "report.pdf"]);
    let groups = group_similar_files(&files, &SimilarityConfig::default());
    assert_eq!(groups.len(), 2);
    assert_eq!(groups[0].files, names(&["IMG_0001.jpg", "IMG_0002.jpg"]));
    assert_eq!(groups[0].representative_name, "IMG_000");
    assert_eq!(groups[0].avg_similarity, 683_332);
    assert_eq!(groups[1].files, names(&["report.pdf"]));
    assert_eq!(groups[1].representative_name, "report.pdf");
    assert_eq!(groups[1].avg_similarity, SCORE_ONE);
    match plan_group(&groups[1]) {
        GroupPlan::Skip(skips) => {
            assert_eq!(skips.len(), 1);
            assert_eq!(skips[0].filename, "report.pdf");
            assert_eq!(skips[0].reason, SkipReason::SingleFile);
        }
        GroupPlan::MoveInto { .. } => panic!("a lone file is skipped"),
    }
    assert_eq!(suggest_folder_name(&groups[0]), "Images");
}

#[test]
fn chat_exports_group_into_whatsapp_chats() {
    let files = names(&["WhatsApp Chat with Alice.txt", "WhatsApp Chat with Bob.txt"]);
    let groups = group_similar_files(&files, &SimilarityConfig::default());
    assert_eq!(groups.len(), 1);
    assert_eq!(groups[0].files, files);
    assert_eq!(groups[0].representative_name, "WhatsApp Chat with");
    assert_eq!(suggest_folder_name(&groups[0]), "WhatsAppChats");
    match plan_group(&groups[0]) {
        GroupPlan::MoveInto { folder_name, files: moved } => {
            assert_eq!(folder_name, "WhatsAppChats");
            assert_eq!(moved, files);
        }
        GroupPlan::Skip(_) => panic!("a group of two moves"),
    }
}

#[test]
fn every_file_lands_in_exactly_one_group() {
    let files = names(&[
        "IMG_0001.jpg",
        "notes.txt",
        "IMG_0002.jpg",
        "Screenshot 2024-01-01.png",
        "IMG_0003.jpg",
        "Screenshot 2024-01-02.png",
        "budget.xlsx",
    ]);
    let groups = group_similar_files(&files, &SimilarityConfig::default());
    let mut all: Vec<String> = groups.iter().flat_map(|g| g.files.clone()).collect();
    all.sort();
    let mut expected = files.clone();
    expected.sort();
    assert_eq!(all, expected);
    for g in &groups {
        assert!(!g.files.is_empty());
    }
}

#[test]
fn anchors_only_compare_with_later_files() {
    // a threshold of zero puts everything with the first anchor
    let mut c = SimilarityConfig::default();
    c.min_similarity_score = 0;
    let files = names(&["a", "b", "c"]);
    let groups = group_similar_files(&files, &c);
    assert_eq!(groups.len(), 1);
    assert_eq!(groups[0].files, files);
}

#[test]
fn unreachable_threshold_gives_singletons() {
    let mut c = SimilarityConfig::default();
    c.min_similarity_score = u32::MAX;
    let files = names(&["same.txt", "same.txt"]);
    let groups = group_similar_files(&files, &c);
    assert_eq!(groups.len(), 2);
    assert_eq!(groups[0].avg_similarity, SCORE_ONE);
}

#[test]
fn common_prefix_drops_trailing_delimiters() {
    assert_eq!(extract_common_prefix(&names(&["trip - day1.jpg", "trip - day2.jpg"])), "trip - day");
    assert_eq!(extract_common_prefix(&names(&["abc_1", "abc_2"])), "abc");
    assert_eq!(extract_common_prefix(&names(&["x (1).txt", "x (2).txt"])), "x");
    assert_eq!(extract_common_prefix(&names(&["only.txt"])), "only.txt");
    assert_eq!(extract_common_prefix(&[]), "");
    assert_eq!(extract_common_prefix(&names(&["abc", "xyz"])), "");
}

fn group_named(rep: &str) -> FileGroup {
    FileGroup {
        representative_name: rep.to_string(),
        files: names(&["a", "b"]),
        avg_similarity: SCORE_ONE,
    }
}

#[test]
fn folder_name_falls_back_when_empty() {
    assert_eq!(suggest_folder_name(&group_named("")), "SimilarFiles");
    assert_eq!(suggest_folder_name(&group_named("2024-")), "SimilarFiles");
}

#[test]
fn folder_name_is_the_same_for_the_same_group() {
    let g = group_named("Holiday trip");
    assert_eq!(suggest_folder_name(&g), suggest_folder_name(&g.clone()));
    assert_eq!(suggest_folder_name(&g), "Holiday trip");
}
