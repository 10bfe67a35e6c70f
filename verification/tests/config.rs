//! What a repository and a user may configure.
use differential::config::{
    compose, decide_generated, repo_config_path, resolve, user_config_path, Config,
    GroupingConfig, Lookup, RawConfig, ReviewConfig, UserConfig,
};
use differential::model::GeneratedBy;

fn raw(generated: &[&str], not_generated: &[&str], attributes: Option<&[&str]>) -> RawConfig {
    let owned = |list: &[&str]| list.iter().map(|s| s.to_string()).collect::<Vec<String>>();
    RawConfig {
        generated: owned(generated),
        not_generated: owned(not_generated),
        attributes: attributes.map(owned),
        has_grouping: false,
    }
}

#[test]
fn defaults_when_empty() {
    let c = Config::from_raw(raw(&[], &[], None), "test").unwrap();
    assert_eq!(c.attributes, vec!["linguist-generated"]);
    assert!(!c.generated.is_match("anything"));
}

#[test]
fn globs_and_overrides() {
    let c = Config::from_raw(
        raw(
            &["**/__snapshots__/**", "migrations/**"],
            &["important.lock"],
            Some(&["linguist-generated", "custom-generated"]),
        ),
        "test",
    )
    .unwrap();
    assert!(c.generated.is_match("ui/__snapshots__/x.snap"));
    assert!(c.generated.is_match("migrations/0001_init.sql"));
    assert!(!c.generated.is_match("src/main.rs"));
    assert!(c.not_generated.is_match("important.lock"));
    assert_eq!(c.attributes.len(), 2);
}

#[test]
fn grouping_in_repo_config_errors_with_migration_hint() {
    let mut r = raw(&[], &[], None);
    r.has_grouping = true;
    let err = match Config::from_raw(r, "test") {
        Err(e) => e.message(),
        Ok(_) => panic!("a repository's file may not hold [grouping]"),
    };
    assert!(err.contains("user config"), "{err}");
}

#[test]
fn a_bad_glob_is_named() {
    let err = match Config::from_raw(raw(&["ok/**", "bad[" ], &[], None), "c.toml") {
        Err(e) => e.message(),
        Ok(_) => panic!("the pattern does not parse"),
    };
    assert!(err.starts_with("config error in c.toml: bad glob \"bad[\": "), "{err}");
}

#[test]
fn an_override_wins_over_every_declaration() {
    let c = Config::from_raw(raw(&["gen/**"], &["gen/kept.rs"], None), "test").unwrap();
    assert_eq!(c.generated_by("gen/kept.rs", true, true), None);
    assert_eq!(c.generated_by("gen/x.rs", true, true), Some(GeneratedBy::Builtin));
    assert_eq!(c.generated_by("gen/x.rs", false, true), Some(GeneratedBy::Attr));
    assert_eq!(c.generated_by("gen/x.rs", false, false), Some(GeneratedBy::Config));
    assert_eq!(c.generated_by("src/x.rs", false, false), None);
    assert_eq!(decide_generated(true, true, true, true), None);
}

#[test]
fn an_explicit_path_must_exist_and_a_default_need_not() {
    assert_eq!(resolve(Some("a"), Some("b")), Lookup::Required("a".into()));
    assert_eq!(resolve(None, Some("b")), Lookup::Optional("b".into()));
    assert_eq!(resolve(None, None), Lookup::Nowhere);
    assert_eq!(
        user_config_path(Some("/home/me/.config")).as_deref(),
        Some("/home/me/.config/differential/config.toml")
    );
    assert_eq!(user_config_path(None), None);
    assert_eq!(repo_config_path("/repo"), "/repo/.differential.toml");
}

#[test]
fn the_users_choices_come_from_the_users_file() {
    let repo = Config::from_raw(raw(&["gen/**"], &[], None), "test").unwrap();
    let user = UserConfig {
        grouping: GroupingConfig { command: Some(vec!["agent".into()]), timeout_secs: Some(60) },
        review: ReviewConfig { context: 8, context_step: 10 },
    };
    let c = compose(Some(repo), Some(user));
    assert!(c.generated.is_match("gen/x"));
    assert_eq!(c.grouping.command.as_deref(), Some(&["agent".to_string()][..]));
    assert_eq!(c.grouping.timeout_secs, Some(60));
    assert_eq!(c.review.context, 8);

    let c = compose(None, None);
    assert_eq!(c.attributes, vec!["linguist-generated"]);
    assert_eq!((c.review.context, c.review.context_step), (3, 10));
    assert!(c.grouping.command.is_none());
}
