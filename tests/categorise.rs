use kondo::categorise::{extension_key, matches_skip_pattern};

#[test]
fn extension_keys_are_lower_cased() {
    assert_eq!(extension_key("Photo.JPG"), "jpg");
    assert_eq!(extension_key("archive.tar.gz"), "gz");
}

#[test]
fn names_without_extension_are_unknown() {
    assert_eq!(extension_key("README"), "unknown");
    assert_eq!(extension_key(".bashrc"), "unknown");
    assert_eq!(extension_key(".."), "unknown");
    assert_eq!(extension_key("trail."), "");
}

#[test]
fn configured_skip_patterns_match_substrings() {
    let patterns = vec![".DS_Store".to_string(), "Thumbs.db".to_string()];
    assert!(matches_skip_pattern("._.DS_Store", &patterns));
    assert!(matches_skip_pattern("Thumbs.db", &patterns));
    assert!(!matches_skip_pattern("thumbs.db", &patterns));
    assert!(!matches_skip_pattern("anything", &[]));
}
