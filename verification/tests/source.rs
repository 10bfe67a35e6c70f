//! What a review is of.
use differential::plan::source::{parse_range, RangeSpec};
use differential::EngineError;

#[test]
fn every_spelling_of_a_range_agrees_on_which_side_is_the_head() {
    // Whatever the spelling, `head_spec` is the right-hand side.
    for spec in [
        vec!["a..b"],
        vec!["a...b"],
        vec!["a", "b"],
        vec!["refs/heads/a..b"],
    ] {
        assert_eq!(parse_range(&spec).unwrap().head_spec(), "b", "{spec:?}");
    }
}

#[test]
fn three_dots_means_merge_base() {
    assert_eq!(
        parse_range(&["main...feature"]).unwrap(),
        RangeSpec::MergeBase {
            a: "main".into(),
            b: "feature".into()
        }
    );
    assert_eq!(
        parse_range(&["main..feature"]).unwrap(),
        RangeSpec::Direct {
            base: "main".into(),
            head: "feature".into()
        }
    );
}

#[test]
fn a_bare_rev_is_not_a_range() {
    assert!(matches!(parse_range(&["main"]), Err(EngineError::Range(_))));
    assert!(matches!(parse_range(&[]), Err(EngineError::Range(_))));
    assert!(matches!(
        parse_range(&["a", "b", "c"]),
        Err(EngineError::Range(_))
    ));
}
