//! Git's formats, child processes, and what is asked of a working copy.
use std::cell::RefCell;

use differential::gitio::{
    answer_line, canonical_patch_args, check_merged, command_error, common_dir, describe,
    index_record, parse_attrs, raw_records_args, recount_patch_args, rename_records_args,
    spec_bytes, trim_newline, AttrValue, IndexEntry,
};
use differential::hash::{sha1_hex, sha1_short};
use differential::llm::{CommandBackend, LlmError};
use differential::pipeline::{
    is_listed, marked_paths, resolve_picked, resolve_range, resolve_staged,
};
use differential::ports::{IndexSession, RangeResolver, TreeBuilder, WorkingCopy};
use differential::schema::SourceKind;
use differential::store::CacheUsage;
use differential::subprocess::{excerpt, stderr_excerpt, watch, Failure, Watch};
use differential::tree::{index_entry, index_feed, removal_entry};
use differential::worktree::{index_tree, worktree_tree};
use differential::{subprocess, EngineError};

fn owned(parts: &[&str]) -> Vec<String> {
    parts.iter().map(|s| s.to_string()).collect()
}

#[test]
fn hashes_are_those_of_sha1() {
    assert_eq!(sha1_hex(b""), "da39a3ee5e6b4b0d3255bfef95601890afd80709");
    assert_eq!(sha1_hex(b"abc"), "a9993e364706816aba3e25717850c26c9cd0d89d");
    assert_eq!(sha1_short(b"abc", 16), "a9993e364706816a");
}

#[test]
fn a_command_line_is_cut_where_it_gets_long() {
    assert_eq!(describe(&owned(&["show", "HEAD"])), "git show HEAD");
    let long = "x".repeat(300);
    let shown = describe(&owned(&["show", &long, "behind"]));
    assert_eq!(shown, format!("git show {long} …"));
}

#[test]
fn a_failed_command_shows_the_start_of_what_it_printed() {
    let e = command_error(&owned(&["show"]), Some(128), &vec![b'e'; 1000]);
    match e {
        EngineError::GitCommand { command, code, stderr } => {
            assert_eq!(command, "git show");
            assert_eq!(code, Some(128));
            assert_eq!(stderr, "e".repeat(800));
        }
        other => panic!("expected a command error, got {other:?}"),
    }
}

#[test]
fn answers_lose_their_line_ends() {
    assert_eq!(trim_newline(b"abc\r\n\n"), b"abc");
    assert_eq!(answer_line(b"\xffx\n"), "\u{fffd}x");
    assert_eq!(common_dir("/repo", b".git\n"), "/repo/.git");
    assert_eq!(common_dir("/repo", b"/elsewhere/.git\n"), "/elsewhere/.git");
    assert_eq!(spec_bytes("HEAD", b"a b"), b"HEAD:a b");
}

#[test]
fn attributes_come_in_threes() {
    let got = parse_attrs(b"a.rs\0gen\0set\0b.rs\0gen\0unset\0rest");
    assert_eq!(
        got,
        vec![
            AttrValue { path: b"a.rs".to_vec(), value: b"set".to_vec() },
            AttrValue { path: b"b.rs".to_vec(), value: b"unset".to_vec() },
        ]
    );
    assert_eq!(marked_paths(&got), vec![b"a.rs".to_vec()]);
    assert!(is_listed(&vec![b"a.rs".to_vec()], b"a.rs"));
    assert!(!is_listed(&vec![b"a.rs".to_vec()], b"b.rs"));
}

#[test]
fn index_records_are_quoting_proof() {
    let put = IndexEntry::Put { mode: "100644".into(), oid: "ab".into(), path: b"a\tb".to_vec() };
    assert_eq!(index_record(&put), b"100644 ab\ta\tb");
    let gone = IndexEntry::Remove { path: b"x".to_vec() };
    assert_eq!(index_record(&gone), removal_entry(b"x"));
    assert_eq!(removal_entry(b"x"), b"0 0000000000000000000000000000000000000000\tx");
    let feed = index_feed(&vec![index_entry("100644", "ab", b"f"), removal_entry(b"g")]);
    assert!(feed.starts_with(b"100644 ab\tf\0") && feed.ends_with(b"\tg\0"));
}

#[test]
fn an_unmerged_index_is_refused() {
    assert!(check_merged(b"100644 abc 0\tf\0").is_ok());
    assert!(check_merged(b"").is_ok());
    for stage in [b'1', b'2', b'3'] {
        let record = [b"100644 abc 0\tf\0".to_vec(), b"100644 abc ".to_vec(), vec![stage], b"\tf\0".to_vec()]
            .concat();
        assert!(matches!(check_merged(&record), Err(EngineError::Range(_))));
    }
}

#[test]
fn the_argument_lists_are_frozen() {
    assert_eq!(raw_records_args("a", "b").last().unwrap(), "b");
    assert!(raw_records_args("a", "b").contains(&"--no-renames".to_string()));
    assert!(canonical_patch_args("a", "b").contains(&"-U0".to_string()));
    assert!(!rename_records_args("a", "b").contains(&"--no-renames".to_string()));
    assert_eq!(
        recount_patch_args("a", "b"),
        owned(&["diff-tree", "-r", "-U0", "--no-renames", "a", "b"])
    );
}

#[test]
fn the_watchdog_prefers_the_output_then_the_cancellation() {
    assert_eq!(watch(true, true, true), Watch::Finish);
    assert_eq!(watch(false, true, true), Watch::GiveUp(Failure::Cancelled));
    assert_eq!(watch(false, false, true), Watch::GiveUp(Failure::Timeout));
    assert_eq!(watch(false, false, false), Watch::Wait);
    assert_eq!(subprocess::describe(&owned(&["a", "-b"])), "a -b");
    assert_eq!(excerpt(b"abcdef", 3), "abc");
    assert_eq!(stderr_excerpt(b"  abc  \n", 100), "abc");
}

#[test]
fn a_childs_output_is_judged_once() {
    let b = CommandBackend::new(owned(&["agent", "-p"]), 5_000);
    assert_eq!(b.judge(true, Some(0), b"answer\n", b""), Ok("answer\n".to_string()));
    assert_eq!(
        b.judge(false, Some(3), b"answer", b"went wrong"),
        Err(LlmError::Failed {
            command: "agent -p".into(),
            code: Some(3),
            stderr: "went wrong".into()
        })
    );
    assert_eq!(
        b.judge(true, Some(0), b" \n\t", b""),
        Err(LlmError::Empty { command: "agent -p".into() })
    );
    assert_eq!(
        b.failure(Failure::Timeout),
        LlmError::Timeout { command: "agent -p".into(), timeout_millis: 5_000 }
    );
    assert_eq!(
        b.failure(Failure::Spawn("gone".into())),
        LlmError::Spawn { command: "agent -p".into(), msg: "gone".into() }
    );
    assert_eq!(
        b.failure(Failure::Io("pipe".into())),
        LlmError::Io { command: "agent -p".into(), msg: "pipe".into() }
    );
    assert_eq!(
        b.failure(Failure::Cancelled),
        LlmError::Cancelled { command: "agent -p".into() }
    );
}

/// A repository that records what it was asked.
struct Asked(RefCell<Vec<String>>);

struct Staging {
    paths: Vec<u8>,
}

impl IndexSession for Staging {
    fn stage(self, entries: &Vec<IndexEntry>) -> Result<Self, EngineError> {
        Ok(Staging { paths: format!("{} entries", entries.len()).into_bytes() })
    }
    fn stage_from_worktree(self, nul_paths: &[u8]) -> Result<Self, EngineError> {
        Ok(Staging { paths: nul_paths.to_vec() })
    }
    fn write_tree(&self) -> Result<String, EngineError> {
        Ok(format!("tree of {}", String::from_utf8_lossy(&self.paths).replace('\0', ",")))
    }
}

impl TreeBuilder for Asked {
    type Session = Staging;
    fn begin_from_tree(&self, tree_ish: &str) -> Result<Staging, EngineError> {
        self.0.borrow_mut().push(format!("begin from {tree_ish}"));
        Ok(Staging { paths: vec![] })
    }
    fn begin_from_current_index(&self) -> Result<Staging, EngineError> {
        self.0.borrow_mut().push("begin".into());
        Ok(Staging { paths: b"index".to_vec() })
    }
}

impl WorkingCopy for Asked {
    fn tracked_paths(&self) -> Result<Vec<u8>, EngineError> {
        self.0.borrow_mut().push("tracked".into());
        Ok(b"a\0b\0".to_vec())
    }
    fn untracked_paths(&self) -> Result<Vec<u8>, EngineError> {
        self.0.borrow_mut().push("untracked".into());
        Ok(b"c\0".to_vec())
    }
}

impl RangeResolver for Asked {
    fn merge_base(&self, a: &str, b: &str) -> Result<String, EngineError> {
        self.0.borrow_mut().push(format!("merge-base {a} {b}"));
        Ok("base-sha".into())
    }
    fn resolve_endpoint(&self, rev: &str) -> Result<String, EngineError> {
        Ok(format!("{rev}-sha"))
    }
}

#[test]
fn a_snapshot_stages_followed_paths_before_new_ones() {
    let git = Asked(RefCell::new(vec![]));
    assert_eq!(index_tree(&git).unwrap(), "tree of index");
    assert_eq!(worktree_tree(&git).unwrap(), "tree of a,b,c,");
}

#[test]
fn only_three_dots_ask_for_a_merge_base() {
    let git = Asked(RefCell::new(vec![]));
    let direct = resolve_range(&git, &["main..feature"]).unwrap();
    assert_eq!((direct.base.as_str(), direct.head.as_str()), ("main", "feature"));
    assert!(git.0.borrow().is_empty());

    let merged = resolve_range(&git, &["main...feature"]).unwrap();
    assert_eq!(git.0.borrow()[0], "merge-base main feature");
    assert_eq!((merged.base.as_str(), merged.head.as_str()), ("base-sha", "feature"));
    assert_eq!(merged.head_spec, "feature");
    assert_eq!(merged.kind, SourceKind::Range);
    assert!(merged.identity_base.is_none());

    assert!(matches!(resolve_range(&git, &["main"]), Err(EngineError::Range(_))));
}

#[test]
fn a_picked_review_of_uncommitted_work_keeps_its_identity() {
    let git = Asked(RefCell::new(vec![]));
    let committed = resolve_picked(&git, "abc".into(), false).unwrap();
    assert_eq!(committed.head, "HEAD");
    assert!(git.0.borrow().is_empty());

    let with = resolve_picked(&git, "abc".into(), true).unwrap();
    assert_eq!(with.head, "tree of a,b,c,");
    assert_eq!(with.head_spec, "WORKTREE");
    assert_eq!(with.kind, SourceKind::Worktree);
    assert_eq!(with.identity_base.as_deref(), Some("abc"));
}

#[test]
fn a_review_of_the_staged_state_keeps_its_identity() {
    let git = Asked(RefCell::new(vec![]));
    let staged = resolve_staged(&git, "abc".into()).unwrap();
    assert_eq!(staged.base, "abc");
    assert_eq!(staged.head, "tree of index");
    assert_eq!(staged.head_spec, "STAGED");
    assert_eq!(staged.kind, SourceKind::Staged);
    assert_eq!(staged.identity_base.as_deref(), Some("abc"));
}

#[test]
fn cache_usage_adds_up() {
    let u = CacheUsage::of((2, 100), (3, 50));
    assert_eq!((u.groupings, u.documents, u.bytes), (2, 3, 150));
    assert!(!u.is_empty());
    assert!(CacheUsage::of((0, 0), (0, 0)).is_empty());
}
