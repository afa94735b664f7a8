use healthkube::tags::tag_string;
use healthkube::tags::tags_of;
use healthkube::vocabulary::collect_segments;
use healthkube::vocabulary::TagVocabulary;
use healthkube::vocabulary::ThresholdPolicy;

fn strings(items: &[&str]) -> Vec<String> {
    items.iter().map(|s| s.to_string()).collect()
}

fn two_jobs() -> Vec<String> {
    strings(&[
        "sales-au-job-cleanup-shared-products-job",
        "sales-au-job-cleanup-other-products-job",
    ])
}

#[test]
fn loose_rank_two_over_two_names_keeps_nothing() {
    let names = two_jobs();
    let vocab = TagVocabulary::build(&names, 2, ThresholdPolicy::Loose);
    assert!(vocab.is_empty());
    assert_eq!(vocab.len(), 0);
    assert_eq!(tag_string(&names[0], &vocab), "");
    assert_eq!(tag_string(&names[1], &vocab), "");
}

#[test]
fn strict_rank_zero_keeps_all_but_the_noise_word() {
    let names = two_jobs();
    let vocab = TagVocabulary::build(&names, 0, ThresholdPolicy::Strict);
    assert_eq!(vocab.len(), 6);
    for segment in ["sales", "au", "cleanup", "shared", "other", "products"] {
        assert!(vocab.contains(segment));
    }
    assert!(!vocab.contains("job"));
    assert_eq!(tag_string(&names[0], &vocab), "sales au cleanup shared products");
    assert_eq!(tag_string(&names[1], &vocab), "sales au cleanup other products");
}

#[test]
fn counts_run_over_the_whole_namespace() {
    let names = two_jobs();
    let vocab = TagVocabulary::build(&names, 0, ThresholdPolicy::Strict);
    assert_eq!(vocab.count("sales"), Some(2));
    assert_eq!(vocab.count("products"), Some(2));
    assert_eq!(vocab.count("shared"), Some(1));
    assert_eq!(vocab.count("other"), Some(1));
    assert_eq!(vocab.count("job"), None);
    assert_eq!(vocab.count("absent"), None);
}

#[test]
fn the_noise_word_is_left_out_however_frequent() {
    let names = two_jobs();
    for rank in [0u8, 1, 2, 3, 4] {
        for policy in [ThresholdPolicy::Loose, ThresholdPolicy::Strict] {
            let vocab = TagVocabulary::build(&names, rank, policy);
            assert!(!vocab.contains("job"));
            for name in &names {
                assert!(!tags_of(name, &vocab).contains(&"job".to_string()));
            }
        }
    }
}

#[test]
fn strict_keeps_a_count_equal_to_the_rank() {
    let names = two_jobs();
    let vocab = TagVocabulary::build(&names, 2, ThresholdPolicy::Strict);
    assert_eq!(vocab.len(), 4);
    assert!(vocab.contains("sales"));
    assert!(vocab.contains("au"));
    assert!(vocab.contains("cleanup"));
    assert!(vocab.contains("products"));
    assert!(!vocab.contains("shared"));
    assert_eq!(tag_string(&names[0], &vocab), "sales au cleanup products");
}

#[test]
fn loose_drops_a_count_equal_to_the_rank() {
    let names = two_jobs();
    let vocab = TagVocabulary::build(&names, 1, ThresholdPolicy::Loose);
    assert_eq!(vocab.len(), 4);
    assert!(vocab.contains("sales"));
    assert!(!vocab.contains("shared"));
    assert!(!vocab.contains("other"));
}

#[test]
fn loose_rank_zero_keeps_every_segment_that_occurs() {
    let names = two_jobs();
    let vocab = TagVocabulary::build(&names, 0, ThresholdPolicy::Loose);
    assert_eq!(vocab.len(), 6);
}

#[test]
fn a_rank_above_every_count_keeps_nothing() {
    let names = two_jobs();
    assert!(TagVocabulary::build(&names, 3, ThresholdPolicy::Strict).is_empty());
    assert!(TagVocabulary::build(&names, 255, ThresholdPolicy::Loose).is_empty());
}

#[test]
fn no_names_give_an_empty_vocabulary() {
    let vocab = TagVocabulary::build(&Vec::new(), 0, ThresholdPolicy::Strict);
    assert!(vocab.is_empty());
    assert_eq!(tag_string("any-name", &vocab), "");
}

#[test]
fn empty_segments_are_counted_like_any_other() {
    let names = strings(&["a--b", "-a"]);
    assert_eq!(collect_segments(&names), strings(&["a", "", "b", "", "a"]));
    let vocab = TagVocabulary::build(&names, 2, ThresholdPolicy::Strict);
    assert_eq!(vocab.count(""), Some(2));
    assert_eq!(vocab.count("a"), Some(2));
    assert_eq!(vocab.count("b"), None);
}

#[test]
fn a_segment_repeated_in_one_name_counts_each_time() {
    let names = strings(&["db-db-db"]);
    let vocab = TagVocabulary::build(&names, 3, ThresholdPolicy::Strict);
    assert_eq!(vocab.count("db"), Some(3));
    assert_eq!(tag_string("db-x-db", &vocab), "db db");
}

#[test]
fn tags_follow_the_order_of_the_name() {
    let names = strings(&["a-b-c", "c-b-a"]);
    let vocab = TagVocabulary::build(&names, 2, ThresholdPolicy::Strict);
    assert_eq!(tags_of("c-x-a-b", &vocab), strings(&["c", "a", "b"]));
    assert_eq!(tag_string("c-x-a-b", &vocab), "c a b");
}

#[test]
fn more_than_two_hundred_and_fifty_five_occurrences_are_counted() {
    let names: Vec<String> = (0..300).map(|_| "nightly-job".to_string()).collect();
    let vocab = TagVocabulary::build(&names, 255, ThresholdPolicy::Loose);
    assert_eq!(vocab.count("nightly"), Some(300));
    assert!(!vocab.contains("job"));
}
