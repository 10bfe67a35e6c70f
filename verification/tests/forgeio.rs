//! What the forge's command line answers, and what is sent to it.
use differential::forge::{ForgeError, ForgeKind, NewComment, Request};
use differential::forgeio::{
    gh_argv, graph_args, graph_body, last_diff_line, match_published, parse_request,
    parse_threads_page, read_answer, rest_args, review_body, thread_variables, unreadable, GhForge,
};
use differential::json::{read_json, write_json, Json};
use differential::subprocess::{Failure, Output};

fn text(s: &str) -> Json {
    Json::Text(s.to_string())
}

fn object(fields: Vec<(&str, Json)>) -> Json {
    Json::Object(fields.into_iter().map(|(k, v)| (k.to_string(), v)).collect())
}

#[test]
fn a_pull_request_is_read_from_gh_pr_view() {
    let v = object(vec![
        ("number", Json::Natural(84)),
        ("baseRefName", text("main")),
        ("baseRefOid", text("ecc9400aaaaaaaaaaaaaaaaaaaaaaaaaaaaaaaaa")),
        ("headRefOid", text("d5cd4feac46323dae75365481257bd71fb736603")),
        ("url", text("https://github.com/owner/repo/pull/84")),
    ]);
    let req = parse_request(&v).unwrap();
    assert_eq!(req.kind, ForgeKind::Github);
    assert_eq!(req.project, "owner/repo");
    assert_eq!(req.id, "84");
    assert_eq!(req.base_ref, "main");
    assert_eq!(req.head, "d5cd4feac46323dae75365481257bd71fb736603");
    assert_eq!(
        req.fetch_hint("origin"),
        "git fetch origin main pull/84/head"
    );
}

/// The shape GitHub returned for a real thread page, cut to two threads.
fn threads_page(has_next: bool) -> Json {
    let root = object(vec![
        ("databaseId", Json::Natural(3928619949)),
        ("body", text("root")),
        ("author", object(vec![("login", text("alice"))])),
        ("createdAt", text("2026-09-03T20:53:12Z")),
        ("replyTo", Json::Null),
        ("diffHunk", text("@@ -1,100 +1,227 @@\n+# The demo\n+Hide\n+Type \"y\"")),
    ]);
    let reply = object(vec![
        ("databaseId", Json::Natural(3928660390)),
        ("body", text("reply")),
        ("author", object(vec![("login", text("bob"))])),
        ("createdAt", text("2026-09-03T20:58:44Z")),
        ("replyTo", object(vec![("databaseId", Json::Natural(3928619949))])),
        ("diffHunk", text("@@ -1,100 +1,227 @@\n+# The demo")),
    ]);
    let gone = object(vec![
        ("databaseId", Json::Natural(1)),
        ("body", text("gone")),
        ("author", Json::Null),
        ("createdAt", text("2026-09-03T20:58:48Z")),
        ("replyTo", Json::Null),
        ("diffHunk", text("@@ -5,3 +5,2 @@\n line_5 = 5\n-line_6 = 6")),
    ]);
    let nodes = Json::List(vec![
        object(vec![
            ("id", text("PRRT_a")),
            ("isResolved", Json::Bool(true)),
            ("isOutdated", Json::Bool(false)),
            ("line", Json::Natural(39)),
            ("startLine", Json::Natural(34)),
            ("diffSide", text("RIGHT")),
            ("path", text("assets/record.vhs")),
            ("comments", object(vec![("nodes", Json::List(vec![root, reply]))])),
        ]),
        object(vec![
            ("id", text("PRRT_b")),
            ("isResolved", Json::Bool(false)),
            ("isOutdated", Json::Bool(true)),
            ("line", Json::Null),
            ("startLine", Json::Null),
            ("diffSide", text("LEFT")),
            ("path", text("src/lib.rs")),
            ("comments", object(vec![("nodes", Json::List(vec![gone]))])),
        ]),
    ]);
    let page = object(vec![
        ("hasNextPage", Json::Bool(has_next)),
        ("endCursor", text("Y3Vyc29y")),
    ]);
    let threads = object(vec![("pageInfo", page), ("nodes", nodes)]);
    let request = object(vec![("reviewThreads", threads)]);
    let repository = object(vec![("pullRequest", request)]);
    object(vec![("data", object(vec![("repository", repository)]))])
}

#[test]
fn a_thread_page_maps_sides_lines_replies_and_the_last_diff_line() {
    let (threads, next) = parse_threads_page(&threads_page(true)).unwrap();
    assert_eq!(next.as_deref(), Some("Y3Vyc29y"));
    assert_eq!(threads.len(), 2);

    let a = &threads[0];
    assert_eq!(a.id, "PRRT_a");
    assert!(a.resolved);
    assert_eq!(
        (a.side.as_str(), a.line, a.start_line),
        ("new", Some(39), Some(34))
    );
    assert_eq!(a.line_text.as_deref(), Some("Type \"y\""));
    assert_eq!(a.comments.len(), 2);
    assert_eq!(a.root().unwrap().id, "3928619949");
    assert_eq!(a.comments[1].reply_to.as_deref(), Some("3928619949"));
    assert_eq!(a.comments[1].author, "bob");

    let b = &threads[1];
    assert!(b.outdated);
    assert_eq!((b.side.as_str(), b.line), ("old", None));
    assert_eq!(b.line_text.as_deref(), Some("line_6 = 6"));
    assert_eq!(b.comments[0].author, "(deleted)");

    let (_, none) = parse_threads_page(&threads_page(false)).unwrap();
    assert!(none.is_none());
}

fn request() -> Request {
    Request {
        kind: ForgeKind::Github,
        project: "owner/repo".into(),
        id: "84".into(),
        base_ref: "main".into(),
        base_tip: "b".repeat(40),
        head: "h".repeat(40),
        url: "https://github.com/owner/repo/pull/84".into(),
    }
}

#[test]
fn a_review_body_is_one_comment_event_against_the_head() {
    let comments = vec![
        NewComment {
            finding: "f1".into(),
            path: "src/lib.rs".into(),
            old_path: None,
            side: "new".into(),
            line: 3,
            start_line: None,
            body: "one line".into(),
        },
        NewComment {
            finding: "f2".into(),
            path: "src/lib.rs".into(),
            old_path: Some("src/old.rs".into()),
            side: "old".into(),
            line: 8,
            start_line: Some(6),
            body: "a range".into(),
        },
    ];
    let body = review_body(&request(), &comments);
    assert_eq!(body.get("commit_id"), Some(&text(&"h".repeat(40))));
    assert_eq!(body.get("event"), Some(&text("COMMENT")));
    let items = match body.get("comments") {
        Some(Json::List(items)) => items,
        other => panic!("expected a list, got {other:?}"),
    };
    assert_eq!(items.len(), 2);
    assert_eq!(
        items[0],
        object(vec![
            ("path", text("src/lib.rs")),
            ("body", text("one line")),
            ("line", Json::Natural(3)),
            ("side", text("RIGHT")),
        ])
    );
    assert_eq!(
        items[1],
        object(vec![
            ("path", text("src/lib.rs")),
            ("body", text("a range")),
            ("line", Json::Natural(8)),
            ("side", text("LEFT")),
            ("start_line", Json::Natural(6)),
            ("start_side", text("LEFT")),
        ])
    );
    // GitHub takes the new path only; the old path is GitLab's concern.
    assert!(items[1].get("old_path").is_none());
}

#[test]
fn posted_comments_are_matched_back_to_their_findings() {
    let sent = vec![
        NewComment {
            finding: "f1".into(),
            path: "a.rs".into(),
            old_path: None,
            side: "new".into(),
            line: 3,
            start_line: None,
            body: "x".into(),
        },
        NewComment {
            finding: "f2".into(),
            path: "a.rs".into(),
            old_path: None,
            side: "new".into(),
            line: 9,
            start_line: None,
            body: "y".into(),
        },
    ];
    let posted = Json::List(vec![
        object(vec![
            ("id", Json::Natural(11)),
            ("path", text("a.rs")),
            ("line", Json::Natural(9)),
            ("body", text("y")),
            ("html_url", text("https://x/9")),
        ]),
        object(vec![
            ("id", Json::Natural(10)),
            ("path", text("a.rs")),
            ("line", Json::Natural(3)),
            ("body", text("x")),
            ("html_url", text("https://x/3")),
        ]),
    ]);
    let got = match_published(&sent, &posted);
    assert_eq!(got.len(), 2);
    assert_eq!(
        (got[0].finding.as_str(), got[0].comment.as_str()),
        ("f1", "10")
    );
    assert_eq!(
        (got[1].finding.as_str(), got[1].comment.as_str()),
        ("f2", "11")
    );
    assert_eq!(got[1].url.as_deref(), Some("https://x/9"));
    assert!(got[0].thread.is_empty(), "REST never names the thread");
}

#[test]
fn the_last_diff_line_drops_its_marker() {
    assert_eq!(
        last_diff_line("@@ -1 +1 @@\n-old\n+new"),
        Some("new".into())
    );
    assert_eq!(
        last_diff_line("@@ -1 +1 @@\n context"),
        Some("context".into())
    );
    assert_eq!(last_diff_line("@@ -1 +1 @@"), None);
}

#[test]
fn a_failed_run_of_gh_is_told_with_its_command() {
    let forge = GhForge::new("/repo").with_timeout(5);
    let argv = gh_argv(&rest_args("POST", "repos/o/r", true));
    assert_eq!(argv, ["gh", "api", "--method", "POST", "repos/o/r", "--input", "-"]);
    assert_eq!(rest_args("GET", "p", false), ["api", "--method", "GET", "p"]);
    let command = "gh api --method POST repos/o/r --input -".to_string();
    let out = |success: bool| Output {
        success,
        code: Some(if success { 0 } else { 4 }),
        stdout: b"yes".to_vec(),
        stderr: b" not logged in \n".to_vec(),
    };
    assert_eq!(forge.judge(&argv, out(true)), Ok(b"yes".to_vec()));
    assert_eq!(
        forge.judge(&argv, out(false)),
        Err(ForgeError::Failed {
            command: command.clone(),
            code: Some(4),
            stderr: "not logged in".into(),
        })
    );
    assert_eq!(
        forge.failure(&argv, Failure::Timeout),
        ForgeError::Timeout { command: command.clone(), timeout_millis: 5 }
    );
    assert_eq!(
        forge.failure(&argv, Failure::Cancelled),
        ForgeError::Cancelled { command: command.clone() }
    );
    assert_eq!(
        forge.failure(&argv, Failure::Spawn("gone".into())),
        ForgeError::Spawn { command: command.clone(), msg: "gone".into() }
    );
    assert_eq!(
        forge.failure(&argv, Failure::Io("pipe".into())),
        ForgeError::Io { command, msg: "pipe".into() }
    );
    assert_eq!(
        unreadable(&graph_args(), "eof"),
        ForgeError::Parse { command: "gh api graphql --input -".into(), msg: "eof".into() }
    );
}

#[test]
fn a_question_to_the_graph_carries_its_variables() {
    let body = graph_body("query { x }", Json::Null);
    assert_eq!(body.get("query"), Some(&Json::Text("query { x }".into())));
    assert_eq!(body.get("variables"), Some(&Json::Null));
}

#[test]
fn an_answer_is_read_as_json() {
    let bytes = br#"{"number": 84, "up": 18446744073709551615, "down": -3, "part": 1.5,
        "list": [true, null, "a\u00e9"], "in": {"k": "v"}}"#;
    let v = read_answer(&graph_args(), bytes).unwrap();
    assert_eq!(v.get("number"), Some(&Json::Natural(84)));
    assert_eq!(v.get("up"), Some(&Json::Natural(u64::MAX)));
    assert_eq!(v.get("down"), Some(&Json::Negative(-3)));
    assert_eq!(v.get("part"), Some(&Json::Fraction));
    assert_eq!(
        v.get("list"),
        Some(&Json::List(vec![Json::Bool(true), Json::Null, text("aé")]))
    );
    assert_eq!(v.get("in"), Some(&object(vec![("k", text("v"))])));
    // Of two entries with one key the last is kept, as the reader of the text has it.
    assert_eq!(read_json(br#"{"k": 1, "k": 2}"#), Ok(object(vec![("k", Json::Natural(2))])));
}

#[test]
fn an_answer_that_is_no_json_names_the_call() {
    for bad in [&b"not json"[..], b"", b"{\"a\": 1", b"[1] 2", b"\"\xff\""] {
        match read_answer(&graph_args(), bad) {
            Err(ForgeError::Parse { command, msg }) => {
                assert_eq!(command, "gh api graphql --input -");
                assert_eq!(Err(msg), read_json(bad));
            }
            other => panic!("expected Parse, got {other:?}"),
        }
    }
    assert_eq!(
        read_json(b""),
        Err("EOF while parsing a value at line 1 column 0".to_string())
    );
}

#[test]
fn what_is_sent_is_written_in_the_order_of_its_keys() {
    let body = graph_body("query { \"x\" }", thread_variables("T_1"));
    assert_eq!(
        write_json(&body).as_deref(),
        Some(r#"{"query":"query { \"x\" }","variables":{"id":"T_1"}}"#)
    );
    let mixed = object(vec![
        ("z", Json::Null),
        ("a", Json::List(vec![Json::Natural(7), Json::Negative(-7), Json::Bool(false)])),
        ("a", text("the first entry of a key counts")),
    ]);
    assert_eq!(write_json(&mixed).as_deref(), Some(r#"{"a":[7,-7,false],"z":null}"#));
    // A fraction has no digits to write, wherever it stands.
    assert_eq!(write_json(&Json::Fraction), None);
    assert_eq!(write_json(&Json::List(vec![object(vec![("x", Json::Fraction)])])), None);
    // What was written is read back.
    let text = write_json(&body).unwrap();
    assert_eq!(read_json(text.as_bytes()), Ok(body));
}
