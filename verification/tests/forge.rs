//! Threads, findings, and what a publish sends.
use differential::forge::{
    head_matches, in_request_diff, place, publish_plan, Batch, ForgeKind, NewReply,
    RemoteComment, RemoteThread, Request, ReviewIdentity,
};
use differential::forgeio::{
    graph_answer, name_threads, parse_integer, parse_request, parse_threads_page, pulls,
    reply_body, reply_published, request_args, request_error, resolve_mutation, review_id,
    thread_scope, GhForge,
};
use differential::forge::{ForgeError, Published};
use differential::json::{as_bool, as_integer, as_list, as_natural, as_text, get_in, Json};
use differential::model::{DiffView, Hunk};
use differential::review_state::{Anchor, Finding, FindingStatus, Upstream};
use differential::schema::{
    Audit, ClassEntry, Disposition, FileEntry, ForgePosition, Generator, HunkEntry, PlanDocument,
    Source, SourceKind, Stats,
};

/// A document with these classes (id, members, exemplar) and files (path, hunks). Each
/// hunk lies in a file of its own, adds two lines and removes one.
fn doc_with(classes: &[(&str, &[&str], &str)], files: &[(&str, &[&str])]) -> PlanDocument {
    let mut top = 0usize;
    for (_, members, _) in classes {
        for m in *members {
            top = top.max(m[1..].parse::<usize>().unwrap() + 1);
        }
    }
    PlanDocument {
        schema_version: 1,
        generator: Generator { tool: "t".into(), version: "0".into(), stages: vec![] },
        source: Source {
            kind: SourceKind::Range,
            base: "b".into(),
            head: "h".into(),
            remote: None,
        },
        stats: Stats { files: 0, hunks: 0, classes: 0, binary_files: 0, submodules: 0 },
        files: files
            .iter()
            .map(|(path, hunks)| FileEntry {
                path: path.to_string(),
                disposition: Disposition::M,
                mode: None,
                old_mode: None,
                old_path: None,
                new_path: None,
                rename_similarity: None,
                binary: false,
                submodule: None,
                generated: false,
                generated_by: None,
                hunk_ids: hunks.iter().map(|h| h.to_string()).collect(),
            })
            .collect(),
        hunks: (0..top)
            .map(|n| HunkEntry {
                id: format!("h{n}"),
                file: format!("src/f{n}.rs"),
                old_start: 1,
                old_count: 1,
                new_start: 1,
                new_count: 2,
                class: classes
                    .iter()
                    .find(|(_, members, _)| members.contains(&format!("h{n}").as_str()))
                    .map_or("C0", |(id, _, _)| id)
                    .to_string(),
                digest: format!("digest{n}"),
                nonl_old: false,
                nonl_new: false,
                forge_position: ForgePosition { new_line: Some(1), old_line: Some(1) },
            })
            .collect(),
        classes: classes
            .iter()
            .map(|(id, members, exemplar)| ClassEntry {
                id: id.to_string(),
                hunk_ids: members.iter().map(|m| m.to_string()).collect(),
                exemplar: exemplar.to_string(),
                pure_substitution: false,
                defines: vec![],
                depends_on: vec![],
            })
            .collect(),
        groups: None,
        reading_plan: None,
        audit: Audit {
            applier_exact: "0/0".into(),
            tree_assertion: "pass".into(),
            hunks_carried: 0,
            recount: 0,
            coverage: None,
            classes_missing: None,
            classes_duplicated: None,
            classes_hallucinated: None,
            read_hunks: None,
            skipped_hunks: None,
        },
    }
}

fn text(s: &str) -> Json {
    Json::Text(s.to_string())
}

fn object(fields: Vec<(&str, Json)>) -> Json {
    Json::Object(fields.into_iter().map(|(k, v)| (k.to_string(), v)).collect())
}

/// One file with a hunk at lines 10 and 11 (old: 10), and one at 50 and 51.
fn plan() -> (PlanDocument, DiffView) {
    let mut doc = doc_with(
        &[("C0", &["h0", "h1"], "h0")],
        &[("src/a.rs", &["h0", "h1"])],
    );
    for (i, start) in [(0usize, 10u32), (1, 50)] {
        doc.hunks[i].file = "src/a.rs".into();
        doc.hunks[i].old_start = start;
        doc.hunks[i].new_start = start;
    }
    let hunk = |start: u32, n: usize| Hunk {
        file: 0,
        old_start: start,
        old_count: 1,
        new_start: start,
        new_count: 2,
        removed: vec![format!("old line {n}").into_bytes()],
        added: vec![format!("new line {n}").into_bytes(), format!("second {n}").into_bytes()],
        nonl_old: false,
        nonl_new: false,
    };
    let view = DiffView { files: vec![], hunks: vec![hunk(10, 0), hunk(50, 1)] };
    (doc, view)
}

fn thread(line: Option<u32>, line_text: Option<&str>) -> RemoteThread {
    RemoteThread {
        id: "T".into(),
        resolved: false,
        outdated: false,
        path: "src/a.rs".into(),
        side: "new".into(),
        line,
        start_line: None,
        line_text: line_text.map(str::to_string),
        anchor: None,
        comments: vec![RemoteComment {
            id: "1".into(),
            author: "alice".into(),
            created: "2026-01-01".into(),
            body: "b".into(),
            reply_to: None,
        }],
    }
}

fn anchor(line: u32, end_line: u32) -> Anchor {
    Anchor {
        file: "src/a.rs".into(),
        side: "new".into(),
        line,
        end_line,
        offset: 0,
        span: 0,
        hunk_digest: "digest0".into(),
        line_text: "".into(),
        end_line_text: "".into(),
    }
}

fn finding(id: &str, anchor: Anchor) -> Finding {
    Finding {
        id: id.into(),
        created: 1,
        body: format!("body of {id}"),
        status: FindingStatus::Open,
        moved: false,
        plan_hash: "p".into(),
        anchor,
        upstream: None,
        reply_to: None,
    }
}

fn request() -> Request {
    Request {
        kind: ForgeKind::Github,
        project: "owner/repo".into(),
        id: "84".into(),
        base_ref: "main".into(),
        base_tip: "b".into(),
        head: "h".into(),
        url: "https://github.com/owner/repo/pull/84".into(),
    }
}

#[test]
fn a_thread_lands_on_its_line_else_near_it_else_by_its_text() {
    let (doc, view) = plan();
    let landed = |t: RemoteThread| {
        let mut t = t;
        place(&doc, &view, &mut t);
        t.anchor
    };
    let exact = landed(thread(Some(11), None)).unwrap();
    assert_eq!((exact.hunk_digest.as_str(), exact.line, exact.offset), ("digest0", 11, 1));
    assert_eq!(exact.line_text, "second 0");

    let near = landed(thread(Some(48), None)).unwrap();
    assert_eq!((near.hunk_digest.as_str(), near.line, near.offset), ("digest1", 48, -2));

    let by_text = landed(thread(None, Some("old line 1"))).unwrap();
    assert_eq!((by_text.hunk_digest.as_str(), by_text.side.as_str()), ("digest1", "old"));
    assert_eq!(by_text.line, 50);

    assert!(landed(thread(None, Some("nowhere"))).is_none());
    assert!(landed(thread(None, None)).is_none());
    let mut elsewhere = thread(Some(11), None);
    elsewhere.path = "src/b.rs".into();
    assert!(landed(elsewhere).is_none());
}

#[test]
fn a_comment_must_lie_within_the_context_of_a_hunk() {
    let (doc, _) = plan();
    assert!(in_request_diff(&doc, &anchor(7, 7)));
    assert!(in_request_diff(&doc, &anchor(10, 14)));
    assert!(!in_request_diff(&doc, &anchor(6, 6)));
    assert!(!in_request_diff(&doc, &anchor(10, 50)), "both ends on one hunk");
    let mut other = anchor(10, 10);
    other.file = "src/b.rs".into();
    assert!(!in_request_diff(&doc, &other));
}

#[test]
fn every_open_finding_goes_one_way() {
    let (mut doc, _) = plan();
    doc.files[0].old_path = Some("src/old.rs".into());
    let here = finding("here", anchor(10, 11));
    let far = finding("far", anchor(30, 30));
    let mut reply = finding("reply", anchor(10, 10));
    reply.reply_to = Some("T".into());
    let mut lost = finding("lost", anchor(10, 10));
    lost.reply_to = Some("gone".into());
    let mut sent = finding("sent", anchor(10, 10));
    sent.upstream = Some(Upstream { thread: "T".into(), comment: "1".into() });
    let mut done = finding("done", anchor(10, 10));
    done.status = FindingStatus::Resolved;

    let plan = publish_plan(
        &doc,
        &[here, far, reply, lost, sent, done],
        &[thread(Some(10), None)],
    );
    assert_eq!(plan.batch.len(), 2);
    assert!(!plan.batch.is_empty());
    let c = &plan.batch.comments[0];
    assert_eq!((c.finding.as_str(), c.line, c.start_line), ("here", 11, Some(10)));
    assert_eq!(c.old_path.as_deref(), Some("src/old.rs"));
    assert_eq!(c.body, "body of here");
    let r = &plan.batch.replies[0];
    assert_eq!(
        (r.finding.as_str(), r.thread.as_str(), r.root_comment.as_str()),
        ("reply", "T", "1")
    );
    let left: Vec<&str> = plan.excluded.iter().map(|e| e.finding.as_str()).collect();
    assert_eq!(left, ["far", "lost"]);
    assert!(Batch { comments: vec![], replies: vec![] }.is_empty());
}

#[test]
fn a_published_finding_is_its_threads_twin() {
    let mut f = finding("f", anchor(10, 10));
    assert!(!thread(Some(10), None).is_twin_of(&f));
    f.upstream = Some(Upstream { thread: "T".into(), comment: "9".into() });
    assert!(thread(Some(10), None).is_twin_of(&f));
    f.upstream = Some(Upstream { thread: "".into(), comment: "1".into() });
    assert!(thread(Some(10), None).is_twin_of(&f));
}

#[test]
fn a_request_names_itself() {
    let req = request();
    assert_eq!(req.kind.name(), "github");
    assert_eq!(ForgeKind::Gitlab.name(), "gitlab");
    assert_eq!(req.kind.source_kind(), SourceKind::Pr);
    assert_eq!(ForgeKind::Gitlab.source_kind(), SourceKind::Mr);
    assert_eq!(req.kind.head_ref("84"), "pull/84/head");
    assert_eq!(ForgeKind::Gitlab.head_ref("84"), "merge-requests/84/head");
    assert_eq!(req.remote().project, "owner/repo");
    assert!(matches!(req.identity(), ReviewIdentity::Remote(r) if r.id == "84"));
    assert!(head_matches(&req, "h"));
    assert!(!head_matches(&req, "other"));
}

#[test]
fn what_gh_is_asked() {
    let args = request_args(Some("84"));
    assert_eq!(args[..3], ["pr", "view", "84"]);
    assert_eq!(request_args(None)[..2], ["pr", "view"]);
    assert_eq!(pulls(&request(), "/reviews"), "repos/owner/repo/pulls/84/reviews");
    assert_eq!(
        thread_scope(&request()).unwrap(),
        ("owner".to_string(), "repo".to_string(), 84)
    );
    let mut odd = request();
    odd.project = "norepo".into();
    assert!(matches!(thread_scope(&odd), Err(ForgeError::Parse { .. })));
    odd.project = "o/r".into();
    odd.id = "x".into();
    assert!(matches!(thread_scope(&odd), Err(ForgeError::Parse { .. })));
    assert!(resolve_mutation(true).contains("resolveReviewThread"));
    assert!(resolve_mutation(false).contains("unresolveReviewThread"));
    let gh = GhForge::new("/repo").with_timeout(5);
    assert_eq!((gh.working_dir.as_str(), gh.timeout_millis), ("/repo", 5));
    assert_eq!(GhForge::new("/repo").timeout_millis, 60_000);
}

#[test]
fn a_missing_request_is_told_as_one() {
    let failed = || ForgeError::Failed {
        command: "gh pr view".into(),
        code: Some(1),
        stderr: "no pull requests found for branch \"x\"".into(),
    };
    assert!(matches!(request_error(None, failed()), ForgeError::NoRequest(_)));
    let other = ForgeError::Cancelled { command: "gh".into() };
    assert_eq!(request_error(None, other.clone()), other);
}

#[test]
fn answers_of_another_shape_are_errors() {
    assert!(matches!(parse_request(&Json::Null), Err(ForgeError::Parse { .. })));
    assert!(matches!(parse_threads_page(&object(vec![])), Err(ForgeError::Parse { .. })));
    assert!(matches!(review_id(&object(vec![])), Err(ForgeError::Parse { .. })));
    assert_eq!(review_id(&object(vec![("id", Json::Natural(7))])).unwrap(), 7);
    let errors = object(vec![(
        "errors",
        Json::List(vec![object(vec![("message", text("denied"))])]),
    )]);
    match graph_answer(errors) {
        Err(e) => assert!(e.message().contains("denied"), "{}", e.message()),
        Ok(v) => panic!("expected an error, got {v:?}"),
    }
    let fine = object(vec![("data", Json::Null)]);
    assert_eq!(graph_answer(object(vec![("data", Json::Null)])).unwrap(), fine);
}

#[test]
fn a_reply_is_one_body_and_comes_back_named() {
    let reply = NewReply {
        finding: "f".into(),
        thread: "T".into(),
        root_comment: "1".into(),
        body: "yes".into(),
    };
    assert_eq!(reply_body(&reply), object(vec![("body", text("yes"))]));
    let answer = object(vec![("id", Json::Natural(12)), ("html_url", text("https://x/12"))]);
    let got = reply_published(&reply, &answer);
    assert_eq!(
        (got.finding.as_str(), got.thread.as_str(), got.comment.as_str()),
        ("f", "T", "12")
    );
    assert_eq!(got.url.as_deref(), Some("https://x/12"));
}

#[test]
fn published_comments_learn_their_threads() {
    let sent = |comment: &str| Published {
        finding: "f".into(),
        thread: "".into(),
        comment: comment.into(),
        url: None,
    };
    let named = name_threads(vec![sent("1"), sent("8")], &[thread(Some(10), None)]);
    assert_eq!(named[0].thread, "T");
    assert_eq!(named[1].thread, "", "no thread holds it");
    assert!(named.iter().all(|p| p.finding == "f"));
}

#[test]
fn integers_are_read_whole() {
    assert_eq!(parse_integer("84"), Some(84));
    assert_eq!(parse_integer("-7"), Some(-7));
    assert_eq!(parse_integer("+7"), Some(7));
    assert_eq!(parse_integer("9223372036854775807"), Some(i64::MAX));
    for bad in ["", "-", "+", "8 4", "9223372036854775808", "x"] {
        assert_eq!(parse_integer(bad), None, "{bad:?}");
    }
}

#[test]
fn values_are_read_by_kind() {
    let v = object(vec![
        ("a", Json::Bool(true)),
        ("n", Json::Natural(5)),
        ("m", Json::Negative(-5)),
        ("big", Json::Natural(u64::MAX)),
        ("l", Json::List(vec![text("x"), text("y")])),
    ]);
    assert_eq!(as_bool(v.get("a")), Some(true));
    assert_eq!(as_natural(v.get("n")), Some(5));
    assert_eq!(as_natural(v.get("m")), None);
    assert_eq!(as_integer(v.get("m")), Some(-5));
    assert_eq!(as_integer(v.get("big")), None);
    assert_eq!(as_list(v.get("l")).unwrap().len(), 2);
    assert_eq!(get_in(Some(&v), "none"), None);
    assert_eq!(get_in(None, "a"), None);
    assert_eq!(as_bool(v.get("n")), None);
}

#[test]
fn each_forge_has_its_own_word_for_a_request() {
    assert_eq!(ForgeKind::Github.noun(), "pull request");
    assert_eq!(ForgeKind::Gitlab.noun(), "merge request");
}
