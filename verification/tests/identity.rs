//! Identities and where things are kept.
use differential::plan::identity::{grouping_cache_dir, review_dir, review_id};

#[test]
fn a_review_survives_its_head_moving_but_not_a_different_branch() {
    // The reason identity uses the spec rather than the resolved sha.
    // Two spellings of one commit are joined by adoption, not here.
    assert_eq!(review_id("abc", "feature"), review_id("abc", "feature"));
    assert_ne!(review_id("abc", "feature"), review_id("abc", "other"));
    assert_ne!(review_id("abc", "feature"), review_id("def", "feature"));
}

#[test]
fn state_lives_under_the_common_dir_not_the_tracked_tree() {
    let common = "/repo/.git";
    assert!(
        grouping_cache_dir(common).ends_with("differential/cache/grouping"),
        "{:?}",
        grouping_cache_dir(common)
    );
    assert!(
        review_dir(common, "abc123").ends_with("differential/reviews/abc123"),
        "{:?}",
        review_dir(common, "abc123")
    );
}
