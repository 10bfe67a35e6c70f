//! What is kept on disk, and what a command line asks for.
use differential::cli::{
    backend_from, range_line, review_base, start_of, typed_range, Start, Task, RANGE_REQUIRED,
};
use differential::config::GroupingConfig;
use differential::forge::ReviewIdentity;
use differential::plan::short_oid;
use differential::store::{
    alias_target, count, entry_name, filed_reviews, records, CacheUsage, DirEntry, ReviewDir,
};

fn file(bytes: u64) -> DirEntry {
    DirEntry { is_file: true, bytes }
}

#[test]
fn only_files_are_counted() {
    assert_eq!(count(&vec![]), Some((0, 0)));
    let dir = DirEntry { is_file: false, bytes: 4096 };
    assert_eq!(count(&vec![file(3), dir, file(4)]), Some((2, 7)));
    assert_eq!(count(&vec![file(u64::MAX), file(1)]), None);
    let usage = CacheUsage::of((2, 7), (1, 10));
    assert_eq!((usage.groupings, usage.documents, usage.bytes), (2, 1, 17));
    assert!(!usage.is_empty());
    assert!(CacheUsage::of((0, 0), (0, 0)).is_empty());
}

#[test]
fn an_entry_is_named_by_its_key() {
    assert_eq!(entry_name("abc"), "abc.json");
}

#[test]
fn an_empty_redirect_leads_nowhere() {
    assert_eq!(alias_target(" r1 \n"), Some("r1".to_string()));
    assert_eq!(alias_target(" \n"), None);
}

#[test]
fn blank_lines_hold_no_record() {
    assert_eq!(
        records("{a}\n\n  \n{b}\n"),
        vec![(1, "{a}".to_string()), (4, "{b}".to_string())]
    );
    assert!(records("").is_empty());
}

#[test]
fn redirects_are_not_listed_and_the_rest_is_in_order() {
    let dir = |id: &str, redirects: bool| ReviewDir {
        id: id.to_string(),
        redirects,
        opened_as: Some(ReviewIdentity::Named(id.to_string())),
    };
    let got = filed_reviews(vec![dir("c", false), dir("a", false), dir("b", true)]);
    let ids: Vec<&str> = got.iter().map(|f| f.id.as_str()).collect();
    assert_eq!(ids, ["a", "c"]);
    assert_eq!(got[1].opened_as, Some(ReviewIdentity::Named("c".into())));
}

#[test]
fn only_a_review_may_leave_the_range_out() {
    let none: Vec<String> = vec![];
    for task in [Task::Check, Task::Findings] {
        assert_eq!(start_of(task, &none), Start::Refused);
    }
    assert_eq!(start_of(Task::Review, &none), Start::Pick);
    assert_eq!(start_of(Task::Agent, &none), Start::Document);
    assert!(RANGE_REQUIRED.contains("revision range is required"));
    let given = vec!["a..b".to_string()];
    for task in [Task::Check, Task::Findings, Task::Review] {
        assert_eq!(start_of(task, &given), Start::Range);
    }
    assert_eq!(start_of(Task::Agent, &given), Start::Document);
}

#[test]
fn a_range_is_handed_back_as_typed() {
    assert_eq!(typed_range(&vec![]), None);
    let two = vec!["main".to_string(), "topic".to_string()];
    assert_eq!(typed_range(&two), Some("main topic".to_string()));
}

#[test]
fn ids_are_shown_short() {
    assert_eq!(short_oid("0123456789"), "0123456");
    assert_eq!(short_oid("012"), "012");
    assert_eq!(range_line("0123456789", "abcdefghij"), "range      0123456..abcdefg");
}

#[test]
fn a_review_is_filed_under_its_own_base() {
    assert_eq!(review_base(Some("own".into()), "base"), "own");
    assert_eq!(review_base(None, "base"), "base");
}

#[test]
fn the_configuration_names_the_agent() {
    let own = GroupingConfig {
        command: Some(vec!["my-llm".into(), "--flag".into()]),
        timeout_secs: Some(60),
    };
    let b = backend_from(&own, "agent", "Agent", "dfr");
    assert_eq!(b.argv, ["my-llm", "--flag"]);
    assert_eq!(b.name(), "my-llm --flag");
    assert_eq!(b.timeout_millis, 60_000);
    let b = backend_from(&GroupingConfig::default(), "agent", "Agent", "/bin/dfr");
    assert_eq!(b.argv[0], "agent");
    assert!(b.argv[5].starts_with("Bash(/bin/dfr agent:*)"));
    assert_eq!(b.name(), "Agent");
    assert_eq!(b.timeout_millis, 1_200_000);
    let endless = GroupingConfig { command: None, timeout_secs: Some(u64::MAX) };
    assert_eq!(backend_from(&endless, "a", "A", "f").timeout_millis, u64::MAX);
}
