use kondo::naming::{
    remove_date_patterns, remove_number_suffixes, remove_version_patterns, smart_folder_naming,
};

#[test]
fn rules_pick_the_first_matching_pattern() {
    assert_eq!(smart_folder_naming("WhatsApp Image 2024"), "WhatsAppImages");
    assert_eq!(smart_folder_naming("whatsapp voice"), "WhatsApp");
    assert_eq!(smart_folder_naming("Screen Shot 2020"), "Screenshots");
    assert_eq!(smart_folder_naming("Project Report 2023-01-15"), "Reports");
    assert_eq!(smart_folder_naming("DSC_"), "CameraPhotos");
    assert_eq!(smart_folder_naming("My Backup"), "Backups");
}

#[test]
fn plain_names_are_cleaned() {
    assert_eq!(smart_folder_naming("My Trip 2023-05-01 v2 (1)"), "My Trip  v");
    assert_eq!(smart_folder_naming("holiday_2023"), "Holiday");
    assert_eq!(smart_folder_naming("notes-v3"), "Notes");
    assert_eq!(smart_folder_naming("éclair"), "Éclair");
    assert_eq!(smart_folder_naming("___"), "");
}

#[test]
fn dates_are_removed() {
    assert_eq!(remove_date_patterns("report20230115final"), "reportfinal");
    assert_eq!(remove_date_patterns("a2023-01-15_b"), "ab");
    assert_eq!(remove_date_patterns("1234567"), "1234567");
    assert_eq!(remove_date_patterns("12345678"), "");
}

#[test]
fn version_markers_are_removed() {
    assert_eq!(remove_version_patterns("design_v2"), "design_");
    assert_eq!(remove_version_patterns("v2"), "v2");
    assert_eq!(remove_version_patterns("naive"), "naive");
    assert_eq!(remove_version_patterns("Mov"), "Mo");
    assert_eq!(remove_version_patterns("draft v1.2-3"), "draft ");
}

#[test]
fn number_suffixes_are_removed() {
    assert_eq!(remove_number_suffixes("photo_001"), "photo");
    assert_eq!(remove_number_suffixes("scan - 12 "), "scan");
    assert_eq!(remove_number_suffixes("123"), "");
    assert_eq!(remove_number_suffixes("plain"), "plain");
}
