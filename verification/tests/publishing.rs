//! The conversation with the forge.
use differential::forge::{
    Batch, ForgeError, ForgeKind, NewComment, NewReply, RemoteThread, Request,
};
use differential::json::Json;
use differential::publishing::{Paged, Paging, Publishing, Question, Stage};

fn text(s: &str) -> Json {
    Json::Text(s.to_string())
}

fn object(fields: Vec<(&str, Json)>) -> Json {
    Json::Object(fields.into_iter().map(|(k, v)| (k.to_string(), v)).collect())
}

fn request() -> Request {
    Request {
        kind: ForgeKind::Github,
        project: "owner/repo".into(),
        id: "84".into(),
        base_ref: "main".into(),
        base_tip: "b".into(),
        head: "h".into(),
        url: "https://github.com/owner/repo/pull/84".into(),
    }
}

fn comment() -> NewComment {
    NewComment {
        finding: "f1".into(),
        path: "a.rs".into(),
        old_path: None,
        side: "new".into(),
        line: 3,
        start_line: None,
        body: "x".into(),
    }
}

fn reply() -> NewReply {
    NewReply {
        finding: "f2".into(),
        thread: "T9".into(),
        root_comment: "77".into(),
        body: "yes".into(),
    }
}

/// A page with one thread that holds one comment.
fn page(thread: &str, root: u64, next: Option<&str>) -> Json {
    let node = object(vec![
        ("databaseId", Json::Natural(root)),
        ("body", text("b")),
        ("author", Json::Null),
        ("createdAt", text("2026-01-01")),
        ("replyTo", Json::Null),
        ("diffHunk", text("@@ -1 +1 @@\n+x")),
    ]);
    let entry = object(vec![
        ("id", text(thread)),
        ("isResolved", Json::Bool(false)),
        ("isOutdated", Json::Bool(false)),
        ("line", Json::Natural(3)),
        ("startLine", Json::Null),
        ("diffSide", text("RIGHT")),
        ("path", text("a.rs")),
        ("comments", object(vec![("nodes", Json::List(vec![node]))])),
    ]);
    let info = object(vec![
        ("hasNextPage", Json::Bool(next.is_some())),
        ("endCursor", next.map_or(Json::Null, text)),
    ]);
    let threads = object(vec![("pageInfo", info), ("nodes", Json::List(vec![entry]))]);
    let request = object(vec![("reviewThreads", threads)]);
    let repository = object(vec![("pullRequest", request)]);
    object(vec![("data", object(vec![("repository", repository)]))])
}

#[test]
fn threads_are_fetched_page_by_page() {
    let paging = Paging::begin(&request()).unwrap();
    assert_eq!(
        paging.variables(),
        object(vec![
            ("owner", text("owner")),
            ("name", text("repo")),
            ("number", Json::Natural(84)),
            ("after", Json::Null),
        ])
    );
    let paging = match paging.answered(&page("T1", 1, Some("c1"))).unwrap() {
        Paged::More(p) => p,
        other => panic!("expected more, got {other:?}"),
    };
    match paging.variables() {
        Json::Object(pairs) => assert_eq!(pairs[3].1, text("c1")),
        other => panic!("expected an object, got {other:?}"),
    }
    let all: Vec<RemoteThread> = match paging.answered(&page("T2", 2, None)).unwrap() {
        Paged::Complete(all) => all,
        other => panic!("expected the end, got {other:?}"),
    };
    let ids: Vec<&str> = all.iter().map(|t| t.id.as_str()).collect();
    assert_eq!(ids, ["T1", "T2"]);
}

#[test]
fn a_page_of_another_shape_ends_the_fetch() {
    let paging = Paging::begin(&request()).unwrap();
    assert!(matches!(paging.answered(&Json::Null), Err(ForgeError::Parse { .. })));
    let mut odd = request();
    odd.project = "norepo".into();
    assert!(matches!(Paging::begin(&odd), Err(ForgeError::Parse { .. })));
}

#[test]
fn a_publish_is_one_review_then_the_replies_then_the_threads() {
    let req = request();
    let batch = Batch { comments: vec![comment()], replies: vec![reply()] };
    let p = Publishing::begin(&batch);
    match p.question(&req, &batch) {
        Question::Post { path, body } => {
            assert_eq!(path, "repos/owner/repo/pulls/84/reviews");
            assert_eq!(body.get("event"), Some(&text("COMMENT")));
        }
        other => panic!("expected the review, got {other:?}"),
    }
    let p = p.answered(&req, &batch, &object(vec![("id", Json::Natural(5))])).unwrap();
    match p.question(&req, &batch) {
        Question::Get { path } => {
            assert_eq!(path, "repos/owner/repo/pulls/84/reviews/5/comments")
        }
        other => panic!("expected its comments, got {other:?}"),
    }
    let posted = Json::List(vec![object(vec![
        ("id", Json::Natural(10)),
        ("path", text("a.rs")),
        ("line", Json::Natural(3)),
        ("body", text("x")),
        ("html_url", text("https://x/3")),
    ])]);
    let p = p.answered(&req, &batch, &posted).unwrap();
    match p.question(&req, &batch) {
        Question::Post { path, body } => {
            assert_eq!(path, "repos/owner/repo/pulls/84/comments/77/replies");
            assert_eq!(body, object(vec![("body", text("yes"))]));
        }
        other => panic!("expected the reply, got {other:?}"),
    }
    let p = p.answered(&req, &batch, &object(vec![("id", Json::Natural(11))])).unwrap();
    assert!(matches!(p.question(&req, &batch), Question::Threads(_)));
    let p = p.answered(&req, &batch, &page("T0", 1, Some("c1"))).unwrap();
    assert!(matches!(p.stage, Stage::Threads(_)));
    let p = p.answered(&req, &batch, &page("T3", 10, None)).unwrap();
    assert!(p.is_finished());
    assert!(matches!(p.question(&req, &batch), Question::Nothing));
    let got: Vec<(&str, &str, &str)> = p
        .out
        .iter()
        .map(|x| (x.finding.as_str(), x.thread.as_str(), x.comment.as_str()))
        .collect();
    assert_eq!(got, vec![("f1", "T3", "10"), ("f2", "T9", "11")]);
}

#[test]
fn replies_alone_need_no_threads() {
    let req = request();
    let batch = Batch { comments: vec![], replies: vec![reply()] };
    let p = Publishing::begin(&batch);
    let p = p.answered(&req, &batch, &object(vec![])).unwrap();
    assert!(p.is_finished());
    assert_eq!(p.out[0].comment, "");
    assert!(Publishing::begin(&Batch { comments: vec![], replies: vec![] }).is_finished());
}

#[test]
fn a_review_without_an_id_is_an_error() {
    let req = request();
    let batch = Batch { comments: vec![comment()], replies: vec![] };
    let p = Publishing::begin(&batch);
    assert!(matches!(
        p.answered(&req, &batch, &object(vec![])),
        Err(ForgeError::Parse { .. })
    ));
}
