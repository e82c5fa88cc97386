use kondo::{
    combined_similarity, jaccard_similarity, levenshtein_distance, levenshtein_similarity,
    tokenize_filename, SimilarityConfig, SCORE_ONE,
};

fn sorted_tokens(name: &str) -> Vec<String> {
    let mut t = tokenize_filename(name);
    t.sort();
    t
}

#[test]
fn distance_of_classic_pair() {
    assert_eq!(levenshtein_distance("kitten", "sitting"), 3);
    assert_eq!(levenshtein_distance("sitting", "kitten"), 3);
}

#[test]
fn distance_with_empty_side() {
    assert_eq!(levenshtein_distance("", "abc"), 3);
    assert_eq!(levenshtein_distance("abc", ""), 3);
    assert_eq!(levenshtein_distance("", ""), 0);
}

#[test]
fn distance_counts_characters_not_bytes() {
    assert_eq!(levenshtein_distance("café", "cafe"), 1);
    assert_eq!(levenshtein_distance("日本", "日本語"), 1);
}

#[test]
fn edit_similarity_of_empty_strings_is_one() {
    assert_eq!(levenshtein_similarity("", ""), SCORE_ONE);
}

#[test]
fn edit_similarity_against_empty_is_zero() {
    assert_eq!(levenshtein_similarity("abc", ""), 0);
    assert_eq!(levenshtein_similarity("", "abc"), 0);
}

#[test]
fn edit_similarity_of_equal_strings_is_one() {
    assert_eq!(levenshtein_similarity("report.pdf", "report.pdf"), SCORE_ONE);
    assert_eq!(levenshtein_similarity("é", "é"), SCORE_ONE);
}

#[test]
fn edit_similarity_is_symmetric_on_example() {
    assert_eq!(levenshtein_similarity("kitten", "sitting"), 571_428);
    assert_eq!(levenshtein_similarity("sitting", "kitten"), 571_428);
}

#[test]
fn edit_similarity_divides_by_byte_length() {
    // one substitution over the two bytes of "é"
    assert_eq!(levenshtein_similarity("é", "e"), 500_000);
}

#[test]
fn edit_similarity_of_numbered_images() {
    assert_eq!(levenshtein_similarity("IMG_0001.jpg", "IMG_0002.jpg"), 916_666);
}

#[test]
fn tokens_of_numbered_image() {
    assert_eq!(
        sorted_tokens("IMG_0001.jpg"),
        vec!["img", "img 0001", "img0001", "img_"]
    );
}

#[test]
fn tokens_of_chat_export() {
    assert_eq!(
        sorted_tokens("WhatsApp Chat with Alice.txt"),
        vec![
            "alice",
            "chat",
            "whatsapp",
            "whatsapp chat",
            "whatsapp chat with alice",
            "with"
        ]
    );
}

#[test]
fn tokens_skip_short_and_numeric_words() {
    assert_eq!(sorted_tokens("a-1-22.txt"), vec!["1 22", "a 1", "a122"]);
}

#[test]
fn tokens_of_name_without_extension_dot() {
    assert_eq!(sorted_tokens("notes"), vec!["notes"]);
    assert!(tokenize_filename(".hidden").is_empty());
}

#[test]
fn token_similarity_of_equal_names_is_one() {
    assert_eq!(jaccard_similarity("report.pdf", "report.pdf"), SCORE_ONE);
    assert_eq!(jaccard_similarity("", ""), SCORE_ONE);
}

#[test]
fn token_similarity_is_symmetric_on_example() {
    let a = jaccard_similarity("IMG_0001.jpg", "IMG_0002.jpg");
    let b = jaccard_similarity("IMG_0002.jpg", "IMG_0001.jpg");
    assert_eq!(a, 333_333);
    assert_eq!(a, b);
}

#[test]
fn token_similarity_of_chat_exports() {
    assert_eq!(
        jaccard_similarity("WhatsApp Chat with Alice.txt", "WhatsApp Chat with Bob.txt"),
        500_000
    );
}

#[test]
fn token_similarity_of_disjoint_names_is_zero() {
    assert_eq!(jaccard_similarity("alpha.txt", "omega.txt"), 0);
}

#[test]
fn default_config_values() {
    let c = SimilarityConfig::default();
    assert_eq!(c.levenshtein_threshold, 700_000);
    assert_eq!(c.jaccard_threshold, 500_000);
    assert_eq!(c.levenshtein_weight, 600_000);
    assert_eq!(c.jaccard_weight, 400_000);
    assert_eq!(c.min_similarity_score, 650_000);
}

#[test]
fn combined_score_of_numbered_images() {
    let c = SimilarityConfig::default();
    assert_eq!(combined_similarity("IMG_0001.jpg", "IMG_0002.jpg", &c), 683_332);
}

#[test]
fn combined_score_is_not_clamped() {
    let c = SimilarityConfig {
        levenshtein_threshold: 0,
        jaccard_threshold: 0,
        levenshtein_weight: 1_000_000,
        jaccard_weight: 1_000_000,
        min_similarity_score: 0,
    };
    assert_eq!(combined_similarity("same", "same", &c), 2_000_000);
}
