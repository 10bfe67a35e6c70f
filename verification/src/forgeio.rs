//! GitHub through `gh`: what is asked of it, and what its answers say.
//!
//! A forge is a tool on the path: `gh` is logged in by its own login flow, knows
//! the remote's host and project from the working directory, and prints JSON for
//! any endpoint. So this module holds no token, no hostname and no connection.
//! Every mapping is a function of a JSON value; running the tool is the caller's.
use std::sync::atomic::AtomicBool;
use std::sync::Arc;
use vstd::prelude::*;

use crate::forge::{
    ForgeError, ForgeKind, NewComment, NewReply, Published, RemoteComment, RemoteThread,
    Request,
};
use crate::json::{
    as_bool, as_integer, as_list, as_natural, as_text, bool_in, entry, field, found, get_in,
    integer_in, is_whole, items_in, json_read, lemma_whole_object, natural_in, read_json, text_in,
    Json, JsonView,
};
use crate::seqs::{join, law_split_undoes_join, split, texts};
use crate::subprocess::{describe, start_of, stderr_excerpt, Failure, Output};
use crate::text::{
    chars_of, debug_text, integer_string, integer_text, is_digits, join_strings, join_with, lines,
    lines_of, lossy_text, push_str, quoted, split_text, str_eq, string_of, trim, unsigned_value,
};

verus! {

/// GitHub, through `gh`.
pub struct GhForge {
    /// The repository root: `gh` resolves the remote from the directory it runs in.
    pub working_dir: String,
    pub timeout_millis: u64,
    pub cancel: Option<Arc<AtomicBool>>,
}

/// How long an answer may take unless said otherwise.
pub const DEFAULT_TIMEOUT_MILLIS: u64 = 60_000;

impl GhForge {
    pub fn new(root: &str) -> (r: Self)
        ensures
            r.working_dir@ == root@,
            r.timeout_millis == DEFAULT_TIMEOUT_MILLIS,
            r.cancel is None,
    {
        GhForge {
            working_dir: root.to_owned(),
            timeout_millis: DEFAULT_TIMEOUT_MILLIS,
            cancel: None,
        }
    }

    pub fn with_timeout(self, timeout_millis: u64) -> (r: Self)
        ensures
            r == (GhForge { timeout_millis, ..self }),
    {
        GhForge { working_dir: self.working_dir, timeout_millis, cancel: self.cancel }
    }

    pub fn with_cancel(self, flag: Arc<AtomicBool>) -> (r: Self)
        ensures
            r == (GhForge { cancel: Some(flag), ..self }),
    {
        GhForge {
            working_dir: self.working_dir,
            timeout_millis: self.timeout_millis,
            cancel: Some(flag),
        }
    }

    /// How a run of `gh` that gave no output is told.
    pub fn failure(&self, argv: &Vec<String>, f: Failure) -> (r: ForgeError)
        ensures
            match f {
                Failure::Spawn(m) => r matches ForgeError::Spawn { command, msg } && command@
                    == join(texts(argv@), ' ') && msg == m,
                Failure::Io(m) => r matches ForgeError::Io { command, msg } && command@ == join(
                    texts(argv@),
                    ' ',
                ) && msg == m,
                Failure::Timeout => r matches ForgeError::Timeout { command, timeout_millis }
                    && command@ == join(texts(argv@), ' ') && timeout_millis
                    == self.timeout_millis,
                Failure::Cancelled => r matches ForgeError::Cancelled { command } && command@
                    == join(texts(argv@), ' '),
            },
    {
        let command = describe(argv);
        match f {
            Failure::Spawn(msg) => ForgeError::Spawn { command, msg },
            Failure::Io(msg) => ForgeError::Io { command, msg },
            Failure::Timeout => ForgeError::Timeout {
                command,
                timeout_millis: self.timeout_millis,
            },
            Failure::Cancelled => ForgeError::Cancelled { command },
        }
    }

    /// What a finished run of `gh` printed, unless it failed.
    pub fn judge(&self, argv: &Vec<String>, out: Output) -> (r: Result<Vec<u8>, ForgeError>)
        ensures
            if out.success {
                r matches Ok(bytes) && bytes == out.stdout
            } else {
                r matches Err(ForgeError::Failed { command, code, stderr }) && command@ == join(
                    texts(argv@),
                    ' ',
                ) && code == out.code && stderr@ == trim(
                    lossy_text(start_of(out.stderr@, SHOWN_ERROR_BYTES as nat)),
                )
            },
    {
        if out.success {
            Ok(out.stdout)
        } else {
            Err(
                ForgeError::Failed {
                    command: describe(argv),
                    code: out.code,
                    stderr: stderr_excerpt(&out.stderr, SHOWN_ERROR_BYTES),
                },
            )
        }
    }
}

/// How much of what a failed run printed is shown.
pub const SHOWN_ERROR_BYTES: usize = 600;

/// The words of a run of `gh`.
pub fn gh_argv(args: &Vec<String>) -> (r: Vec<String>)
    ensures
        texts(r@) == seq!["gh"@] + texts(args@),
{
    let mut out: Vec<String> = Vec::new();
    out.push("gh".to_owned());
    assert(texts(out@) =~= seq!["gh"@] + texts(args@).take(0));
    for i in 0..args.len()
        invariant
            texts(out@) == seq!["gh"@] + texts(args@).take(i as int),
    {
        let ghost had = texts(out@);
        out.push(args[i].clone());
        assert(texts(out@) =~= had.push(args@[i as int]@));
        assert(texts(out@) =~= seq!["gh"@] + texts(args@).take(i + 1));
    }
    assert(texts(args@).take(args@.len() as int) =~= texts(args@));
    out
}

/// The words that ask the graph; the question is given on the input.
pub fn graph_args() -> (r: Vec<String>)
    ensures
        texts(r@) == seq!["api"@, "graphql"@, "--input"@, "-"@],
{
    let mut out: Vec<String> = Vec::new();
    out.push("api".to_owned());
    out.push("graphql".to_owned());
    out.push("--input".to_owned());
    out.push("-".to_owned());
    assert(texts(out@) =~= seq!["api"@, "graphql"@, "--input"@, "-"@]);
    out
}

/// A question to the graph: its text, and the values of its variables.
pub fn graph_body(query: &str, variables: Json) -> (r: Json)
    ensures
        r matches Json::Object(pairs) && pairs@.len() == 2 && pairs@[0].0@ == "query"@
            && text_in(Some(pairs@[0].1)) == Some(query@) && pairs@[1].0@ == "variables"@
            && pairs@[1].1 == variables,
        is_whole(variables@) ==> is_whole(r@),
{
    let mut pairs: Vec<(String, Json)> = Vec::new();
    pairs.push(("query".to_owned(), Json::Text(query.to_owned())));
    pairs.push(("variables".to_owned(), variables));
    proof {
        if is_whole(variables@) {
            lemma_whole_object(pairs);
        }
    }
    Json::Object(pairs)
}

/// The variables that name a thread to the graph.
pub fn thread_variables(thread: &str) -> (r: Json)
    ensures
        r matches Json::Object(pairs) && pairs@.len() == 1 && text_entry(
            pairs@[0],
            "id"@,
            thread@,
        ),
        is_whole(r@),
{
    let mut pairs: Vec<(String, Json)> = Vec::new();
    pairs.push(text_pair("id", thread));
    proof {
        lemma_whole_object(pairs);
    }
    Json::Object(pairs)
}

/// What `gh` printed, read as JSON.
pub fn read_answer(args: &Vec<String>, bytes: &[u8]) -> (r: Result<Json, ForgeError>)
    ensures
        match r {
            Ok(v) => json_read(bytes@) == Ok::<JsonView, Seq<char>>(v@),
            Err(e) => json_read(bytes@) matches Err(m) && is_parse(
                e,
                "gh "@ + join(texts(args@), ' '),
                m,
            ),
        },
{
    match read_json(bytes) {
        Ok(v) => Ok(v),
        Err(msg) => Err(unreadable(args, &msg)),
    }
}

/// The words of a plain call; a body is given on the input.
pub open spec fn rest_words(method: Seq<char>, path: Seq<char>, with_body: bool) -> Seq<Seq<char>> {
    seq!["api"@, "--method"@, method, path] + (if with_body {
        seq!["--input"@, "-"@]
    } else {
        Seq::empty()
    })
}

/// The words of a plain call.
pub fn rest_args(method: &str, path: &str, with_body: bool) -> (r: Vec<String>)
    ensures
        texts(r@) == rest_words(method@, path@, with_body),
{
    let mut out: Vec<String> = Vec::new();
    out.push("api".to_owned());
    out.push("--method".to_owned());
    out.push(method.to_owned());
    out.push(path.to_owned());
    if with_body {
        out.push("--input".to_owned());
        out.push("-".to_owned());
    }
    assert(texts(out@) =~= rest_words(method@, path@, with_body));
    out
}

/// How an answer that is no JSON is told.
pub fn unreadable(args: &Vec<String>, msg: &str) -> (r: ForgeError)
    ensures
        is_parse(r, "gh "@ + join(texts(args@), ' '), msg@),
{
    let mut command = "gh ".to_owned();
    push_str(&mut command, &describe(args));
    ForgeError::Parse { command, msg: msg.to_owned() }
}

/// What an answer that cannot be read is refused with.
pub open spec fn is_parse(e: ForgeError, command: Seq<char>, msg: Seq<char>) -> bool {
    e matches ForgeError::Parse { command: c, msg: m } && c@ == command && m@ == msg
}

fn parse_err(msg: &str) -> (r: ForgeError)
    ensures
        is_parse(r, "gh"@, msg@),
{
    ForgeError::Parse { command: "gh".to_owned(), msg: msg.to_owned() }
}

/// What a missing text is refused with.
pub open spec fn missing(key: Seq<char>) -> Seq<char> {
    "missing "@ + key
}

/// The text under a key of an object.
pub open spec fn text_at(v: Json, key: Seq<char>) -> Option<Seq<char>> {
    text_in(field(Some(v), key))
}

fn str_of<'a>(v: &'a Json, key: &str) -> (r: Result<&'a str, ForgeError>)
    ensures
        match r {
            Ok(s) => text_at(*v, key@) == Some(s@),
            Err(e) => text_at(*v, key@) is None && is_parse(e, "gh"@, missing(key@)),
        },
{
    match as_text(v.get(key)) {
        Some(s) => Ok(s),
        None => {
            let mut msg = "missing ".to_owned();
            push_str(&mut msg, key);
            Err(parse_err(&msg))
        },
    }
}

// ---------------------------------------------------------------------------
// The request

/// A text without the slashes at its end.
pub open spec fn trim_slashes(s: Seq<char>) -> Seq<char>
    decreases s.len(),
{
    if s.len() > 0 && s.last() == '/' {
        trim_slashes(s.drop_last())
    } else {
        s
    }
}

fn without_slashes(s: &str) -> (r: String)
    ensures
        r@ == trim_slashes(s@),
{
    let mut cs = chars_of(s);
    while cs.len() > 0 && cs[cs.len() - 1] == '/'
        invariant
            trim_slashes(cs@) == trim_slashes(s@),
        decreases cs@.len(),
    {
        let last = cs.pop();
    }
    string_of(cs.as_slice())
}

/// The segments of an address.
pub open spec fn segments(url: Seq<char>) -> Seq<Seq<char>> {
    split(trim_slashes(url), '/')
}

/// What is wrong with an answer about a request, if anything is.
pub open spec fn request_fault(v: Json) -> Option<Seq<char>> {
    match text_at(v, "url"@) {
        None => Some(missing("url"@)),
        Some(url) => if segments(url).len() < 3 {
            Some("url has no repo"@)
        } else if segments(url).len() < 4 {
            Some("url has no owner"@)
        } else if integer_in(field(Some(v), "number"@)) is None {
            Some("missing number"@)
        } else if text_at(v, "baseRefName"@) is None {
            Some(missing("baseRefName"@))
        } else if text_at(v, "baseRefOid"@) is None {
            Some(missing("baseRefOid"@))
        } else if text_at(v, "headRefOid"@) is None {
            Some(missing("headRefOid"@))
        } else {
            None
        },
    }
}

/// Whether a request is the one that an answer describes.
///
/// The project comes from the address: the request lives in the base repository,
/// and the answer names the head repository only.
pub open spec fn is_request(r: Request, v: Json) -> bool {
    let url = text_at(v, "url"@)->0;
    let parts = segments(url);
    let n = parts.len();
    &&& r.kind == ForgeKind::Github
    &&& r.project@ == parts[n - 4] + "/"@ + parts[n - 3]
    &&& r.id@ == integer_text(integer_in(field(Some(v), "number"@))->0 as int)
    &&& Some(r.base_ref@) == text_at(v, "baseRefName"@)
    &&& Some(r.base_tip@) == text_at(v, "baseRefOid"@)
    &&& Some(r.head@) == text_at(v, "headRefOid"@)
    &&& r.url@ == url
}

/// The request that `gh pr view --json number,baseRefName,baseRefOid,headRefOid,url`
/// describes.
pub fn parse_request(v: &Json) -> (r: Result<Request, ForgeError>)
    ensures
        match r {
            Ok(q) => request_fault(*v) is None && is_request(q, *v),
            Err(e) => request_fault(*v) matches Some(m) && is_parse(e, "gh"@, m),
        },
{
    let url = match str_of(v, "url") {
        Ok(s) => s,
        Err(e) => {
            return Err(e);
        },
    };
    let parts = split_text(&without_slashes(url), '/');
    let n = parts.len();
    assert(segments(url@).len() == n);
    if n < 3 {
        return Err(parse_err("url has no repo"));
    }
    if n < 4 {
        return Err(parse_err("url has no owner"));
    }
    let number: i64 = match as_integer(v.get("number")) {
        Some(k) => k,
        None => {
            return Err(parse_err("missing number"));
        },
    };
    let base_ref = match str_of(v, "baseRefName") {
        Ok(s) => s,
        Err(e) => {
            return Err(e);
        },
    };
    let base_tip = match str_of(v, "baseRefOid") {
        Ok(s) => s,
        Err(e) => {
            return Err(e);
        },
    };
    let head = match str_of(v, "headRefOid") {
        Ok(s) => s,
        Err(e) => {
            return Err(e);
        },
    };
    let mut project = parts[n - 4].clone();
    push_str(&mut project, "/");
    push_str(&mut project, &parts[n - 3]);
    assert(segments(url@)[n - 4] == parts@[n - 4]@);
    assert(segments(url@)[n - 3] == parts@[n - 3]@);
    Ok(
        Request {
            kind: ForgeKind::Github,
            project,
            id: integer_string(number),
            base_ref: base_ref.to_owned(),
            base_tip: base_tip.to_owned(),
            head: head.to_owned(),
            url: url.to_owned(),
        },
    )
}

/// Arguments of `gh` that ask for a request: the one with this id, or the current
/// branch's.
pub fn request_args(id: Option<&str>) -> (r: Vec<String>)
    ensures
        texts(r@) == (match id {
            Some(id) => seq!["pr"@, "view"@, id@],
            None => seq!["pr"@, "view"@],
        }) + seq!["--json"@, "number,baseRefName,baseRefOid,headRefOid,url"@],
{
    let mut args: Vec<String> = Vec::new();
    args.push("pr".to_owned());
    args.push("view".to_owned());
    if let Some(id) = id {
        args.push(id.to_owned());
    }
    args.push("--json".to_owned());
    args.push("number,baseRefName,baseRefOid,headRefOid,url".to_owned());
    assert(texts(args@) =~= (match id {
        Some(id) => seq!["pr"@, "view"@, id@],
        None => seq!["pr"@, "view"@],
    }) + seq!["--json"@, "number,baseRefName,baseRefOid,headRefOid,url"@]);
    args
}

/// What a failed question about a request means. Without an id the question was
/// which request this branch is, and "none" is an answer rather than a broken
/// tool.
pub fn request_error(id: Option<&str>, e: ForgeError) -> (r: ForgeError)
    ensures
        if id is None && e is Failed {
            r matches ForgeError::NoRequest(m) && m@ == "the current branch has no pull request ("@
                + e->Failed_stderr@ + ")"@
        } else {
            r == e
        },
{
    if id.is_some() {
        return e;
    }
    match e {
        ForgeError::Failed { stderr, .. } => {
            let mut msg = "the current branch has no pull request (".to_owned();
            push_str(&mut msg, &stderr);
            push_str(&mut msg, ")");
            ForgeError::NoRequest(msg)
        },
        other => other,
    }
}

/// The path of a request's endpoint.
pub fn pulls(req: &Request, tail: &str) -> (r: String)
    ensures
        r@ == "repos/"@ + req.project@ + "/pulls/"@ + req.id@ + tail@,
{
    let mut out = "repos/".to_owned();
    push_str(&mut out, &req.project);
    push_str(&mut out, "/pulls/");
    push_str(&mut out, &req.id);
    push_str(&mut out, tail);
    out
}

// ---------------------------------------------------------------------------
// Threads

/// The content of a line of a diff without its marker: what follows its first
/// byte, or nothing where that byte is not a character.
pub open spec fn unmarked(line: Seq<char>) -> Seq<char> {
    if line.len() > 0 && line[0] <= '\u{7f}' {
        line.skip(1)
    } else {
        Seq::empty()
    }
}

/// Whether a line of a diff is one of the change, and not a hunk header.
pub open spec fn is_body(line: Seq<char>) -> bool {
    line.len() > 0 && !(line.len() >= 2 && line[0] == '@' && line[1] == '@')
}

/// The last of the first `k` lines that is one of the change.
pub open spec fn last_body(ls: Seq<Seq<char>>, k: nat) -> Option<Seq<char>>
    decreases k,
{
    if k == 0 {
        None
    } else if is_body(ls[k - 1]) {
        Some(ls[k - 1])
    } else {
        last_body(ls, (k - 1) as nat)
    }
}

/// The content of the last line of a diff hunk.
pub open spec fn last_line(hunk: Seq<char>) -> Option<Seq<char>> {
    match last_body(lines(hunk), lines(hunk).len()) {
        Some(l) => Some(unmarked(l)),
        None => None,
    }
}

/// An optional text.
pub open spec fn opt_text(o: Option<String>) -> Option<Seq<char>> {
    match o {
        Some(s) => Some(s@),
        None => None,
    }
}

/// The content of the last line of a diff hunk, without its marker.
pub fn last_diff_line(hunk: &str) -> (r: Option<String>)
    ensures
        opt_text(r) == last_line(hunk@),
{
    let ls = lines_of(hunk);
    let ghost all = lines(hunk@);
    let mut k: usize = ls.len();
    while k > 0
        invariant
            k <= ls@.len(),
            all == lines(hunk@),
            all == texts(ls@),
            last_body(all, all.len()) == last_body(all, k as nat),
        decreases k,
    {
        let cs = chars_of(&ls[k - 1]);
        assert(all[k - 1] == cs@);
        let header = cs.len() >= 2 && cs[0] == '@' && cs[1] == '@';
        if cs.len() > 0 && !header {
            let mut rest: Vec<char> = Vec::new();
            if cs[0] <= '\u{7f}' {
                for i in 1..cs.len()
                    invariant
                        rest@ == cs@.subrange(1, i as int),
                        cs@.len() >= 1,
                {
                    rest.push(cs[i]);
                    assert(rest@ =~= cs@.subrange(1, i + 1));
                }
                assert(rest@ =~= cs@.skip(1));
            } else {
                assert(rest@ =~= Seq::<char>::empty());
            }
            return Some(string_of(rest.as_slice()));
        }
        k = k - 1;
    }
    None
}

/// What is wrong with a comment, if anything is.
pub open spec fn comment_fault(c: Json) -> Option<Seq<char>> {
    if integer_in(field(Some(c), "databaseId"@)) is None {
        Some("comment without databaseId"@)
    } else if text_at(c, "createdAt"@) is None {
        Some(missing("createdAt"@))
    } else if text_at(c, "body"@) is None {
        Some(missing("body"@))
    } else {
        None
    }
}

/// Whether a comment is the one that an answer describes.
pub open spec fn is_comment(r: RemoteComment, c: Json) -> bool {
    &&& r.id@ == integer_text(integer_in(field(Some(c), "databaseId"@))->0 as int)
    &&& r.author@ == (match text_in(field(field(Some(c), "author"@), "login"@)) {
        Some(s) => s,
        None => "(deleted)"@,
    })
    &&& Some(r.created@) == text_at(c, "createdAt"@)
    &&& Some(r.body@) == text_at(c, "body"@)
    &&& opt_text(r.reply_to) == (match integer_in(
        field(field(Some(c), "replyTo"@), "databaseId"@),
    ) {
        Some(n) => Some(integer_text(n as int)),
        None => None,
    })
}

fn parse_comment(c: &Json) -> (r: Result<RemoteComment, ForgeError>)
    ensures
        match r {
            Ok(x) => comment_fault(*c) is None && is_comment(x, *c),
            Err(e) => comment_fault(*c) matches Some(m) && is_parse(e, "gh"@, m),
        },
{
    let id: i64 = match as_integer(c.get("databaseId")) {
        Some(n) => n,
        None => {
            return Err(parse_err("comment without databaseId"));
        },
    };
    let author = match as_text(get_in(c.get("author"), "login")) {
        Some(s) => s.to_owned(),
        None => "(deleted)".to_owned(),
    };
    let created = match str_of(c, "createdAt") {
        Ok(s) => s.to_owned(),
        Err(e) => {
            return Err(e);
        },
    };
    let body = match str_of(c, "body") {
        Ok(s) => s.to_owned(),
        Err(e) => {
            return Err(e);
        },
    };
    let reply_to = match as_integer(get_in(c.get("replyTo"), "databaseId")) {
        Some(n) => Some(integer_string(n)),
        None => None,
    };
    Ok(RemoteComment { id: integer_string(id), author, created, body, reply_to })
}

/// The comments of a thread; none where there is no list of them.
pub open spec fn comment_nodes(t: Json) -> Seq<Json> {
    match items_in(field(field(Some(t), "comments"@), "nodes"@)) {
        Some(items) => items,
        None => Seq::empty(),
    }
}

/// The fault of the first faulty one of the first `k` comments.
pub open spec fn comments_fault(cs: Seq<Json>, k: nat) -> Option<Seq<char>>
    decreases k,
{
    if k == 0 {
        None
    } else {
        match comments_fault(cs, (k - 1) as nat) {
            Some(m) => Some(m),
            None => comment_fault(cs[k - 1]),
        }
    }
}

/// What is wrong with a thread, if anything is.
pub open spec fn thread_fault(t: Json) -> Option<Seq<char>> {
    match comments_fault(comment_nodes(t), comment_nodes(t).len()) {
        Some(m) => Some(m),
        None => if text_at(t, "id"@) is None {
            Some(missing("id"@))
        } else if text_at(t, "path"@) is None {
            Some(missing("path"@))
        } else {
            None
        },
    }
}

/// The root of a thread: item 0 of its comments.
pub open spec fn root_node(t: Json) -> Option<Json> {
    match field(field(Some(t), "comments"@), "nodes"@) {
        Some(Json::List(items)) => if items@.len() > 0 {
            Some(items@[0])
        } else {
            None
        },
        Some(Json::Object(pairs)) => entry(pairs@, "0"@, 0),
        _ => None,
    }
}

/// A natural number as a line number.
pub open spec fn line_in(v: Option<Json>) -> Option<u32> {
    match natural_in(v) {
        Some(n) => Some(n as u32),
        None => None,
    }
}

/// Whether a thread is the one that an answer describes.
///
/// The text of its last line comes from the root's diff hunk: the content key for
/// a thread whose line has left the diff.
pub open spec fn is_thread(r: RemoteThread, t: Json) -> bool {
    &&& Some(r.id@) == text_at(t, "id"@)
    &&& r.resolved == (bool_in(field(Some(t), "isResolved"@)) == Some(true))
    &&& r.outdated == (bool_in(field(Some(t), "isOutdated"@)) == Some(true))
    &&& Some(r.path@) == text_at(t, "path"@)
    &&& r.side@ == (if text_at(t, "diffSide"@) == Some("LEFT"@) {
        "old"@
    } else {
        "new"@
    })
    &&& r.line == line_in(field(Some(t), "line"@))
    &&& r.start_line == line_in(field(Some(t), "startLine"@))
    &&& opt_text(r.line_text) == (match text_in(field(root_node(t), "diffHunk"@)) {
        Some(h) => last_line(h),
        None => None,
    })
    &&& r.anchor is None
    &&& r.comments@.len() == comment_nodes(t).len()
    &&& forall|i: int|
        0 <= i < r.comments@.len() ==> is_comment(#[trigger] r.comments@[i], comment_nodes(t)[i])
}

fn as_line(v: Option<&Json>) -> (r: Option<u32>)
    ensures
        r == line_in(found(v)),
{
    match as_natural(v) {
        Some(n) => Some(#[verifier::truncate] (n as u32)),
        None => None,
    }
}

fn root_of<'a>(t: &'a Json) -> (r: Option<&'a Json>)
    ensures
        found(r) == root_node(*t),
{
    let nodes = get_in(t.get("comments"), "nodes");
    match nodes {
        Some(Json::List(items)) => if items.len() > 0 {
            Some(&items[0])
        } else {
            None
        },
        Some(Json::Object(pairs)) => get_in(nodes, "0"),
        _ => None,
    }
}

fn parse_comments(t: &Json) -> (r: Result<Vec<RemoteComment>, ForgeError>)
    ensures
        ({
            let nodes = comment_nodes(*t);
            match r {
                Ok(cs) => {
                    &&& comments_fault(nodes, nodes.len()) is None
                    &&& cs@.len() == nodes.len()
                    &&& forall|i: int|
                        0 <= i < cs@.len() ==> is_comment(#[trigger] cs@[i], nodes[i])
                },
                Err(e) => comments_fault(nodes, nodes.len()) matches Some(m) && is_parse(
                    e,
                    "gh"@,
                    m,
                ),
            }
        }),
{
    let mut out: Vec<RemoteComment> = Vec::new();
    let items = match as_list(get_in(t.get("comments"), "nodes")) {
        Some(items) => items,
        None => {
            return Ok(out);
        },
    };
    let ghost nodes = comment_nodes(*t);
    for i in 0..items.len()
        invariant
            items@ == nodes,
            nodes == comment_nodes(*t),
            out@.len() == i,
            comments_fault(nodes, i as nat) is None,
            forall|k: int| 0 <= k < i ==> is_comment(#[trigger] out@[k], nodes[k]),
    {
        match parse_comment(&items[i]) {
            Ok(c) => {
                out.push(c);
            },
            Err(e) => {
                proof {
                    lemma_comments_fault(nodes, (i + 1) as nat, nodes.len());
                }
                return Err(e);
            },
        }
    }
    Ok(out)
}

/// A fault that was found stays the first.
proof fn lemma_comments_fault(cs: Seq<Json>, j: nat, k: nat)
    requires
        j <= k,
        comments_fault(cs, j) is Some,
    ensures
        comments_fault(cs, k) == comments_fault(cs, j),
    decreases k,
{
    if j < k {
        lemma_comments_fault(cs, j, (k - 1) as nat);
    }
}

fn parse_thread(t: &Json) -> (r: Result<RemoteThread, ForgeError>)
    ensures
        match r {
            Ok(x) => thread_fault(*t) is None && is_thread(x, *t),
            Err(e) => thread_fault(*t) matches Some(m) && is_parse(e, "gh"@, m),
        },
{
    let comments = match parse_comments(t) {
        Ok(cs) => cs,
        Err(e) => {
            return Err(e);
        },
    };
    let line_text = match as_text(get_in(root_of(t), "diffHunk")) {
        Some(h) => last_diff_line(h),
        None => None,
    };
    let left = match as_text(t.get("diffSide")) {
        Some(s) => str_eq(s, "LEFT"),
        None => false,
    };
    let side = if left {
        "old".to_owned()
    } else {
        "new".to_owned()
    };
    let id = match str_of(t, "id") {
        Ok(s) => s.to_owned(),
        Err(e) => {
            return Err(e);
        },
    };
    let path = match str_of(t, "path") {
        Ok(s) => s.to_owned(),
        Err(e) => {
            return Err(e);
        },
    };
    let resolved = match as_bool(t.get("isResolved")) {
        Some(b) => b,
        None => false,
    };
    let outdated = match as_bool(t.get("isOutdated")) {
        Some(b) => b,
        None => false,
    };
    Ok(
        RemoteThread {
            id,
            resolved,
            outdated,
            path,
            side,
            line: as_line(t.get("line")),
            start_line: as_line(t.get("startLine")),
            line_text,
            anchor: None,
            comments,
        },
    )
}

/// The threads of an answer.
pub open spec fn connection(v: Json) -> Option<Json> {
    field(
        field(field(field(Some(v), "data"@), "repository"@), "pullRequest"@),
        "reviewThreads"@,
    )
}

/// The fault of the first faulty one of the first `k` threads.
pub open spec fn threads_fault(ts: Seq<Json>, k: nat) -> Option<Seq<char>>
    decreases k,
{
    if k == 0 {
        None
    } else {
        match threads_fault(ts, (k - 1) as nat) {
            Some(m) => Some(m),
            None => thread_fault(ts[k - 1]),
        }
    }
}

/// What is wrong with a page of threads, if anything is.
pub open spec fn page_fault(v: Json) -> Option<Seq<char>> {
    if connection(v) is None {
        Some("no reviewThreads in the answer"@)
    } else {
        match items_in(field(connection(v), "nodes"@)) {
            None => Some("reviewThreads has no nodes"@),
            Some(nodes) => threads_fault(nodes, nodes.len()),
        }
    }
}

/// The cursor of the page that follows, if one does.
pub open spec fn next_cursor(v: Json) -> Option<Seq<char>> {
    let info = field(connection(v), "pageInfo"@);
    if bool_in(field(info, "hasNextPage"@)) == Some(true) {
        text_in(field(info, "endCursor"@))
    } else {
        None
    }
}

proof fn lemma_threads_fault(ts: Seq<Json>, j: nat, k: nat)
    requires
        j <= k,
        threads_fault(ts, j) is Some,
    ensures
        threads_fault(ts, k) == threads_fault(ts, j),
    decreases k,
{
    if j < k {
        lemma_threads_fault(ts, j, (k - 1) as nat);
    }
}

/// One page of review threads: the threads, and the cursor of the next page.
pub fn parse_threads_page(v: &Json) -> (r: Result<(Vec<RemoteThread>, Option<String>), ForgeError>)
    ensures
        match r {
            Ok((threads, next)) => {
                let nodes = items_in(field(connection(*v), "nodes"@))->0;
                &&& page_fault(*v) is None
                &&& threads@.len() == nodes.len()
                &&& forall|i: int|
                    0 <= i < threads@.len() ==> is_thread(#[trigger] threads@[i], nodes[i])
                &&& opt_text(next) == next_cursor(*v)
            },
            Err(e) => page_fault(*v) matches Some(m) && is_parse(e, "gh"@, m),
        },
{
    let conn = get_in(
        get_in(get_in(v.get("data"), "repository"), "pullRequest"),
        "reviewThreads",
    );
    if conn.is_none() {
        return Err(parse_err("no reviewThreads in the answer"));
    }
    let info = get_in(conn, "pageInfo");
    let more = match as_bool(get_in(info, "hasNextPage")) {
        Some(b) => b,
        None => false,
    };
    let mut next: Option<String> = None;
    if more {
        if let Some(s) = as_text(get_in(info, "endCursor")) {
            next = Some(s.to_owned());
        }
    }
    let items = match as_list(get_in(conn, "nodes")) {
        Some(items) => items,
        None => {
            return Err(parse_err("reviewThreads has no nodes"));
        },
    };
    let ghost nodes = items@;
    let mut threads: Vec<RemoteThread> = Vec::new();
    for i in 0..items.len()
        invariant
            items@ == nodes,
            Some(nodes) == items_in(field(connection(*v), "nodes"@)),
            connection(*v) is Some,
            threads@.len() == i,
            threads_fault(nodes, i as nat) is None,
            forall|k: int| 0 <= k < i ==> is_thread(#[trigger] threads@[k], nodes[k]),
    {
        match parse_thread(&items[i]) {
            Ok(t) => {
                threads.push(t);
            },
            Err(e) => {
                proof {
                    lemma_threads_fault(nodes, (i + 1) as nat, nodes.len());
                }
                return Err(e);
            },
        }
    }
    Ok((threads, next))
}

// ---------------------------------------------------------------------------
// Questions to the graph

/// The query for one page of review threads. A page is capped at 100 and a request
/// can carry more; the caller follows the cursor.
pub const THREADS_QUERY: &'static str = "
query($owner: String!, $name: String!, $number: Int!, $after: String) {
  repository(owner: $owner, name: $name) {
    pullRequest(number: $number) {
      reviewThreads(first: 100, after: $after) {
        pageInfo { hasNextPage endCursor }
        nodes {
          id isResolved isOutdated path diffSide line startLine
          comments(first: 100) {
            nodes {
              databaseId body createdAt diffHunk
              author { login }
              replyTo { databaseId }
            }
          }
        }
      }
    }
  }
}";

pub const RESOLVE_MUTATION: &'static str =
    "mutation($id: ID!) { resolveReviewThread(input: {threadId: $id}) { thread { id } } }";

pub const UNRESOLVE_MUTATION: &'static str =
    "mutation($id: ID!) { unresolveReviewThread(input: {threadId: $id}) { thread { id } } }";

/// What resolves a thread, or opens it again.
pub fn resolve_mutation(resolved: bool) -> (r: &'static str)
    ensures
        r@ == (if resolved {
            RESOLVE_MUTATION@
        } else {
            UNRESOLVE_MUTATION@
        }),
{
    if resolved {
        RESOLVE_MUTATION
    } else {
        UNRESOLVE_MUTATION
    }
}

/// The messages of the first `k` errors.
pub open spec fn messages(errors: Seq<Json>, k: nat) -> Seq<Seq<char>>
    decreases k,
{
    if k == 0 {
        Seq::empty()
    } else {
        match text_at(errors[k - 1], "message"@) {
            Some(m) => messages(errors, (k - 1) as nat).push(m),
            None => messages(errors, (k - 1) as nat),
        }
    }
}

/// The errors that an answer of the graph carries.
pub open spec fn graph_errors(v: Json) -> Seq<Json> {
    match items_in(field(Some(v), "errors"@)) {
        Some(items) => items,
        None => Seq::empty(),
    }
}

/// An answer of the graph is refused if and only if it carries errors; the refusal
/// lists their messages.
pub fn graph_answer(v: Json) -> (r: Result<Json, ForgeError>)
    ensures
        match r {
            Ok(j) => j == v && graph_errors(v).len() == 0,
            Err(e) => graph_errors(v).len() > 0 && is_parse(
                e,
                "gh api graphql"@,
                join_with(messages(graph_errors(v), graph_errors(v).len()), "; "@),
            ),
        },
{
    let mut found: Vec<String> = Vec::new();
    let mut any = false;
    if let Some(errors) = as_list(v.get("errors")) {
        any = errors.len() > 0;
        let ghost all = errors@;
        assert(texts(found@) =~= messages(all, 0));
        for i in 0..errors.len()
            invariant
                all == errors@,
                texts(found@) == messages(all, i as nat),
        {
            let ghost had = texts(found@);
            if let Some(m) = as_text(errors[i].get("message")) {
                found.push(m.to_owned());
                assert(texts(found@) =~= had.push(m@));
            }
        }
    }
    if any {
        let msg = join_strings(&found, "; ");
        Err(ForgeError::Parse { command: "gh api graphql".to_owned(), msg })
    } else {
        Ok(v)
    }
}

/// The whole number that a text spells: digits behind an optional sign, within 64
/// bits.
pub open spec fn integer_value(s: Seq<char>) -> Option<int> {
    if s.len() > 0 && s[0] == '-' {
        if is_digits(s.skip(1)) {
            match unsigned_value(s.skip(1), 0x8000_0000_0000_0000) {
                Some(n) => Some(-(n as int)),
                None => None,
            }
        } else {
            None
        }
    } else {
        match unsigned_value(s, i64::MAX as nat) {
            Some(n) => Some(n as int),
            None => None,
        }
    }
}

/// The whole number that a text spells.
pub fn parse_integer(s: &str) -> (r: Option<i64>)
    ensures
        match r {
            Some(n) => integer_value(s@) == Some(n as int),
            None => integer_value(s@) is None,
        },
{
    let cs = chars_of(s);
    if cs.len() > 0 && cs[0] == '-' {
        let mut rest: Vec<char> = Vec::new();
        let mut digits = cs.len() > 1;
        for i in 1..cs.len()
            invariant
                cs@.len() >= 1,
                rest@ == cs@.subrange(1, i as int),
                digits == (cs@.len() > 1 && forall|k: int|
                    1 <= k < i ==> crate::text::is_digit(#[trigger] cs@[k])),
        {
            rest.push(cs[i]);
            assert(rest@ =~= cs@.subrange(1, i + 1));
            if !('0' <= cs[i] && cs[i] <= '9') {
                digits = false;
            }
        }
        assert(rest@ =~= s@.skip(1));
        proof {
            if digits {
                assert forall|k: int| 0 <= k < rest@.len() implies crate::text::is_digit(
                    #[trigger] rest@[k],
                ) by {
                    assert(rest@[k] == cs@[k + 1]);
                }
            } else if cs@.len() > 1 {
                let k = choose|k: int|
                    1 <= k < cs@.len() && !crate::text::is_digit(#[trigger] cs@[k]);
                assert(rest@[k - 1] == cs@[k]);
            }
        }
        if !digits {
            return None;
        }
        match crate::text::parse_unsigned(&string_of(rest.as_slice()), 0x8000_0000_0000_0000) {
            Some(n) => {
                let m: i128 = -(n as i128);
                Some(m as i64)
            },
            None => None,
        }
    } else {
        match crate::text::parse_unsigned(s, i64::MAX as u64) {
            Some(n) => Some(n as i64),
            None => None,
        }
    }
}

/// The place of the first slash.
pub open spec fn slash(s: Seq<char>) -> Option<int> {
    crate::text::first_occurrence(s, seq!['/'], 0)
}

/// What is wrong with the name of a request, if anything is.
pub open spec fn scope_fault(req: Request) -> Option<Seq<char>> {
    if slash(req.project@) is None {
        Some("project "@ + debug_text(req.project@) + " is not owner/repo"@)
    } else if integer_value(req.id@) is None {
        Some("pull request number "@ + debug_text(req.id@) + " is not a number"@)
    } else {
        None
    }
}

/// The owner, the repository and the number that the graph knows a request by.
pub fn thread_scope(req: &Request) -> (r: Result<(String, String, i64), ForgeError>)
    ensures
        match r {
            Ok((owner, name, number)) => {
                &&& scope_fault(*req) is None
                &&& owner@ == req.project@.take(slash(req.project@)->0)
                &&& name@ == req.project@.skip(slash(req.project@)->0 + 1)
                &&& integer_value(req.id@) == Some(number as int)
            },
            Err(e) => scope_fault(*req) matches Some(m) && is_parse(e, "gh api graphql"@, m),
        },
{
    let cs = chars_of(&req.project);
    proof {
        reveal_strlit("/");
        assert("/"@ =~= seq!['/']);
    }
    match crate::text::find_text(cs.as_slice(), "/") {
        None => {
            let mut msg = "project ".to_owned();
            push_str(&mut msg, &quoted(&req.project));
            push_str(&mut msg, " is not owner/repo");
            Err(ForgeError::Parse { command: "gh api graphql".to_owned(), msg })
        },
        Some(at) => {
            proof {
                crate::text::lemma_first_occurrence(cs@, seq!['/'], 0);
            }
            let mut owner: Vec<char> = Vec::new();
            let mut name: Vec<char> = Vec::new();
            for i in 0..at
                invariant
                    at < cs@.len(),
                    owner@ == cs@.take(i as int),
            {
                owner.push(cs[i]);
                assert(owner@ =~= cs@.take(i + 1));
            }
            for i in at + 1..cs.len()
                invariant
                    at < cs@.len(),
                    name@ == cs@.subrange(at + 1, i as int),
            {
                name.push(cs[i]);
                assert(name@ =~= cs@.subrange(at + 1, i + 1));
            }
            assert(name@ =~= cs@.skip(at + 1));
            match parse_integer(&req.id) {
                Some(number) => Ok(
                    (string_of(owner.as_slice()), string_of(name.as_slice()), number),
                ),
                None => {
                    let mut msg = "pull request number ".to_owned();
                    push_str(&mut msg, &quoted(&req.id));
                    push_str(&mut msg, " is not a number");
                    Err(ForgeError::Parse { command: "gh api graphql".to_owned(), msg })
                },
            }
        },
    }
}

// ---------------------------------------------------------------------------
// Publishing

/// The name that the forge has for a side.
pub open spec fn forge_side(side: Seq<char>) -> Seq<char> {
    if side == "old"@ {
        "LEFT"@
    } else {
        "RIGHT"@
    }
}

/// Whether an entry holds a text under a key.
pub open spec fn text_entry(p: (String, Json), key: Seq<char>, value: Seq<char>) -> bool {
    p.0@ == key && text_in(Some(p.1)) == Some(value)
}

/// Whether an entry holds a number under a key.
pub open spec fn number_entry(p: (String, Json), key: Seq<char>, value: u32) -> bool {
    p.0@ == key && p.1 == Json::Natural(value as u64)
}

/// Whether a value is what one comment is sent as: the path, the note, the line
/// and the side, and where it covers several lines the first of them.
pub open spec fn is_item(j: Json, c: NewComment) -> bool {
    &&& j matches Json::Object(pairs)
    &&& text_entry(pairs@[0], "path"@, c.path@)
    &&& text_entry(pairs@[1], "body"@, c.body@)
    &&& number_entry(pairs@[2], "line"@, c.line)
    &&& text_entry(pairs@[3], "side"@, forge_side(c.side@))
    &&& match c.start_line {
        None => pairs@.len() == 4,
        Some(start) => {
            &&& pairs@.len() == 6
            &&& number_entry(pairs@[4], "start_line"@, start)
            &&& text_entry(pairs@[5], "start_side"@, forge_side(c.side@))
        },
    }
}

fn text_pair(key: &str, value: &str) -> (r: (String, Json))
    ensures
        text_entry(r, key@, value@),
{
    (key.to_owned(), Json::Text(value.to_owned()))
}

fn number_pair(key: &str, value: u32) -> (r: (String, Json))
    ensures
        number_entry(r, key@, value),
{
    (key.to_owned(), Json::Natural(value as u64))
}

fn item(c: &NewComment) -> (r: Json)
    ensures
        is_item(r, *c),
{
    let side = if str_eq(&c.side, "old") {
        "LEFT"
    } else {
        "RIGHT"
    };
    let mut pairs: Vec<(String, Json)> = Vec::new();
    pairs.push(text_pair("path", &c.path));
    pairs.push(text_pair("body", &c.body));
    pairs.push(number_pair("line", c.line));
    pairs.push(text_pair("side", side));
    if let Some(start) = c.start_line {
        pairs.push(number_pair("start_line", start));
        pairs.push(text_pair("start_side", side));
    }
    Json::Object(pairs)
}

/// Whether a value is the review that holds some comments: one comment event
/// against the head that the review was opened on.
pub open spec fn is_review(j: Json, req: Request, comments: Seq<NewComment>) -> bool {
    &&& j matches Json::Object(pairs)
    &&& pairs@.len() == 4
    &&& text_entry(pairs@[0], "commit_id"@, req.head@)
    &&& text_entry(pairs@[1], "event"@, "COMMENT"@)
    &&& text_entry(pairs@[2], "body"@, ""@)
    &&& pairs@[3].0@ == "comments"@
    &&& pairs@[3].1 matches Json::List(items)
    &&& items@.len() == comments.len()
    &&& forall|i: int| 0 <= i < items@.len() ==> is_item(#[trigger] items@[i], comments[i])
}

/// The body of `POST /pulls/{n}/reviews`: one review that holds every comment, so
/// the author gets one notification.
pub fn review_body(req: &Request, comments: &[NewComment]) -> (r: Json)
    ensures
        is_review(r, *req, comments@),
{
    let mut items: Vec<Json> = Vec::new();
    for i in 0..comments.len()
        invariant
            items@.len() == i,
            forall|k: int| 0 <= k < i ==> is_item(#[trigger] items@[k], comments@[k]),
    {
        items.push(item(&comments[i]));
    }
    let mut pairs: Vec<(String, Json)> = Vec::new();
    pairs.push(text_pair("commit_id", &req.head));
    pairs.push(text_pair("event", "COMMENT"));
    pairs.push(text_pair("body", ""));
    pairs.push(("comments".to_owned(), Json::List(items)));
    Json::Object(pairs)
}

/// The body that sends a reply.
pub fn reply_body(reply: &NewReply) -> (r: Json)
    ensures
        r matches Json::Object(pairs) && pairs@.len() == 1 && text_entry(
            pairs@[0],
            "body"@,
            reply.body@,
        ),
{
    let mut pairs: Vec<(String, Json)> = Vec::new();
    pairs.push(text_pair("body", &reply.body));
    Json::Object(pairs)
}

/// Whether a record is the one that the forge made of a comment: the path, the
/// line and the note agree.
pub open spec fn is_record_of(p: Json, c: NewComment) -> bool {
    &&& text_at(p, "path"@) == Some(c.path@)
    &&& natural_in(field(Some(p), "line"@)) == Some(c.line as u64)
    &&& text_at(p, "body"@) == Some(c.body@)
}

/// The first record of a comment, from place `from` on.
pub open spec fn record_of(posted: Seq<Json>, c: NewComment, from: int) -> Option<Json>
    decreases posted.len() - from,
{
    if from >= posted.len() {
        None
    } else if is_record_of(posted[from], c) {
        Some(posted[from])
    } else {
        record_of(posted, c, from + 1)
    }
}

/// What was published.
pub struct Publication {
    pub finding: Seq<char>,
    pub thread: Seq<char>,
    pub comment: Seq<char>,
    pub url: Option<Seq<char>>,
}

pub open spec fn publication(p: Published) -> Publication {
    Publication {
        finding: p.finding@,
        thread: p.thread@,
        comment: p.comment@,
        url: opt_text(p.url),
    }
}

pub open spec fn publications(v: Seq<Published>) -> Seq<Publication> {
    v.map_values(|p: Published| publication(p))
}

/// What the forge made of a comment: nothing where no record has its place and an
/// id. The answer never names the thread.
pub open spec fn published_as(posted: Seq<Json>, c: NewComment) -> Option<Publication> {
    match record_of(posted, c, 0) {
        None => None,
        Some(hit) => match integer_in(field(Some(hit), "id"@)) {
            None => None,
            Some(id) => Some(
                Publication {
                    finding: c.finding@,
                    thread: Seq::empty(),
                    comment: integer_text(id as int),
                    url: text_at(hit, "html_url"@),
                },
            ),
        },
    }
}

/// What the forge made of the first `k` comments.
pub open spec fn published_of(sent: Seq<NewComment>, posted: Seq<Json>, k: nat) -> Seq<Publication>
    decreases k,
{
    if k == 0 {
        Seq::empty()
    } else {
        match published_as(posted, sent[k - 1]) {
            Some(p) => published_of(sent, posted, (k - 1) as nat).push(p),
            None => published_of(sent, posted, (k - 1) as nat),
        }
    }
}

fn has_text(p: &Json, key: &str, value: &str) -> (r: bool)
    ensures
        r == (text_at(*p, key@) == Some(value@)),
{
    match as_text(p.get(key)) {
        Some(s) => str_eq(s, value),
        None => false,
    }
}

fn find_record<'a>(posted: &'a Vec<Json>, c: &NewComment) -> (r: Option<&'a Json>)
    ensures
        found(r) == record_of(posted@, *c, 0),
{
    for i in 0..posted.len()
        invariant
            record_of(posted@, *c, 0) == record_of(posted@, *c, i as int),
    {
        let p = &posted[i];
        let same_line = match as_natural(p.get("line")) {
            Some(n) => n == c.line as u64,
            None => false,
        };
        if same_line && has_text(p, "path", &c.path) && has_text(p, "body", &c.body) {
            return Some(p);
        }
    }
    None
}

/// Pair each sent comment with the record that the forge made of it, by path, line
/// and note. The review's answer has no ids for its comments; the list of the
/// review's comments does.
pub fn match_published(sent: &[NewComment], posted: &Json) -> (r: Vec<Published>)
    ensures
        publications(r@) == (match items_in(Some(*posted)) {
            Some(items) => published_of(sent@, items, sent@.len()),
            None => Seq::empty(),
        }),
{
    let mut out: Vec<Published> = Vec::new();
    let records = match as_list(Some(posted)) {
        Some(items) => items,
        None => {
            assert(publications(out@) =~= Seq::empty());
            return out;
        },
    };
    assert(publications(out@) =~= published_of(sent@, records@, 0));
    for i in 0..sent.len()
        invariant
            publications(out@) == published_of(sent@, records@, i as nat),
            items_in(Some(*posted)) == Some(records@),
    {
        let c = &sent[i];
        let ghost had = publications(out@);
        if let Some(hit) = find_record(records, c) {
            if let Some(id) = as_integer(hit.get("id")) {
                let url = match as_text(hit.get("html_url")) {
                    Some(s) => Some(s.to_owned()),
                    None => None,
                };
                let p = Published {
                    finding: c.finding.clone(),
                    thread: String::new(),
                    comment: integer_string(id),
                    url,
                };
                assert(publication(p).thread =~= Seq::<char>::empty());
                out.push(p);
                assert(publications(out@) =~= had.push(publication(p)));
            }
        }
    }
    out
}

/// The id of a review that was made.
pub fn review_id(review: &Json) -> (r: Result<i64, ForgeError>)
    ensures
        match r {
            Ok(id) => integer_in(field(Some(*review), "id"@)) == Some(id),
            Err(e) => integer_in(field(Some(*review), "id"@)) is None && is_parse(
                e,
                "gh api pulls/reviews"@,
                "the review came back without an id"@,
            ),
        },
{
    match as_integer(review.get("id")) {
        Some(id) => Ok(id),
        None => Err(
            ForgeError::Parse {
                command: "gh api pulls/reviews".to_owned(),
                msg: "the review came back without an id".to_owned(),
            },
        ),
    }
}

/// What the forge made of a reply.
pub fn reply_published(reply: &NewReply, answer: &Json) -> (r: Published)
    ensures
        r.finding@ == reply.finding@,
        r.thread@ == reply.thread@,
        r.comment@ == (match integer_in(field(Some(*answer), "id"@)) {
            Some(n) => integer_text(n as int),
            None => Seq::empty(),
        }),
        opt_text(r.url) == text_at(*answer, "html_url"@),
{
    let comment = match as_integer(answer.get("id")) {
        Some(n) => integer_string(n),
        None => String::new(),
    };
    let url = match as_text(answer.get("html_url")) {
        Some(s) => Some(s.to_owned()),
        None => None,
    };
    Published { finding: reply.finding.clone(), thread: reply.thread.clone(), comment, url }
}

/// The first thread whose root is a comment, from place `from` on.
pub open spec fn thread_of(
    threads: Seq<RemoteThread>,
    comment: Seq<char>,
    from: int,
) -> Option<Seq<char>>
    decreases threads.len() - from,
{
    if from >= threads.len() {
        None
    } else if threads[from].comments@.len() > 0 && threads[from].comments@[0].id@ == comment {
        Some(threads[from].id@)
    } else {
        thread_of(threads, comment, from + 1)
    }
}

/// A publication with its thread named, as far as a thread has it for its root.
pub open spec fn named(p: Publication, threads: Seq<RemoteThread>) -> Publication {
    if p.thread.len() == 0 {
        match thread_of(threads, p.comment, 0) {
            Some(id) => Publication { thread: id, ..p },
            None => p,
        }
    } else {
        p
    }
}

fn find_thread(threads: &[RemoteThread], comment: &str) -> (r: Option<String>)
    ensures
        opt_text(r) == thread_of(threads@, comment@, 0),
{
    for i in 0..threads.len()
        invariant
            thread_of(threads@, comment@, 0) == thread_of(threads@, comment@, i as int),
    {
        let t = &threads[i];
        if t.comments.len() > 0 && str_eq(&t.comments[0].id, comment) {
            return Some(t.id.clone());
        }
    }
    None
}

/// Name the threads of new comments: one fetch of the threads names every root.
pub fn name_threads(published: Vec<Published>, threads: &[RemoteThread]) -> (r: Vec<Published>)
    ensures
        publications(r@) == publications(published@).map_values(
            |p: Publication| named(p, threads@),
        ),
{
    let ghost all = publications(published@);
    let mut out: Vec<Published> = Vec::new();
    proof {
        reveal_strlit("");
    }
    for i in 0..published.len()
        invariant
            ""@.len() == 0,
            all == publications(published@),
            out@.len() == i,
            forall|k: int| 0 <= k < i ==> publication(#[trigger] out@[k]) == named(all[k], threads@),
    {
        let p = &published[i];
        assert(all[i as int] == publication(*p));
        let mut thread = p.thread.clone();
        assert(p.thread@.len() == 0 ==> p.thread@ =~= ""@);
        if str_eq(&p.thread, "") {
            if let Some(id) = find_thread(threads, &p.comment) {
                thread = id;
            }
        }
        out.push(
            Published {
                finding: p.finding.clone(),
                thread,
                comment: p.comment.clone(),
                url: p.url.clone(),
            },
        );
    }
    assert(publications(out@) =~= all.map_values(|p: Publication| named(p, threads@)));
    out
}

/// Every record that is matched is the one of a sent comment and carries the
/// finding of that comment.
pub proof fn law_published_comments_keep_their_findings(
    sent: Seq<NewComment>,
    posted: Seq<Json>,
    k: nat,
)
    requires
        k <= sent.len(),
    ensures
        published_of(sent, posted, k).len() <= k,
        forall|i: int|
            0 <= i < published_of(sent, posted, k).len() ==> exists|j: int|
                0 <= j < k && (#[trigger] published_of(sent, posted, k)[i]).finding == (
                #[trigger] sent[j]).finding@ && published_as(posted, sent[j]) == Some(
                    published_of(sent, posted, k)[i],
                ),
    decreases k,
{
    if k > 0 {
        law_published_comments_keep_their_findings(sent, posted, (k - 1) as nat);
        let rest = published_of(sent, posted, (k - 1) as nat);
        let all = published_of(sent, posted, k);
        assert forall|i: int| 0 <= i < all.len() implies exists|j: int|
            0 <= j < k && (#[trigger] all[i]).finding == (#[trigger] sent[j]).finding@
                && published_as(posted, sent[j]) == Some(all[i]) by {
            if i < rest.len() {
                assert(all[i] == rest[i]);
                let j = choose|j: int|
                    0 <= j < k - 1 && rest[i].finding == (#[trigger] sent[j]).finding@
                        && published_as(posted, sent[j]) == Some(rest[i]);
                assert(sent[j].finding@ == all[i].finding);
            } else {
                assert(sent[k - 1].finding@ == all[i].finding);
            }
        }
    }
}

/// The last line of a diff hunk is its last line that is neither empty nor a header,
/// without the mark in front.
pub proof fn law_the_last_line_of_a_hunk_is_no_header(hunk: &str, r: Option<String>)
    requires
        call_ensures(last_diff_line, (hunk,), r),
    ensures
        match r {
            Some(text) => exists|i: int|
                {
                    let l = lines(hunk@)[i];
                    &&& 0 <= i < lines(hunk@).len()
                    &&& l.len() > 0 && !(l.len() >= 2 && l[0] == '@' && l[1] == '@')
                    &&& l[0] == ' ' || l[0] == '+' || l[0] == '-' ==> text@ == l.skip(1)
                    &&& forall|j: int|
                        i < j < lines(hunk@).len() ==> !#[trigger] is_body(lines(hunk@)[j])
                    &&& #[trigger] is_body(lines(hunk@)[i])
                },
            None => forall|j: int|
                0 <= j < lines(hunk@).len() ==> (#[trigger] lines(hunk@)[j]).len() == 0 || (lines(
                    hunk@,
                )[j].len() >= 2 && lines(hunk@)[j][0] == '@' && lines(hunk@)[j][1] == '@'),
        },
{
    let ls = lines(hunk@);
    lemma_last_body(ls, ls.len());
    if let Some(l) = last_body(ls, ls.len()) {
        let i = choose|i: int|
            0 <= i < ls.len() && #[trigger] is_body(ls[i]) && ls[i] == l && forall|j: int|
                i < j < ls.len() ==> !#[trigger] is_body(ls[j]);
        assert(is_body(ls[i]));
    } else {
        assert forall|j: int| 0 <= j < ls.len() implies (#[trigger] ls[j]).len() == 0 || (
        ls[j].len() >= 2 && ls[j][0] == '@' && ls[j][1] == '@') by {
            assert(!is_body(ls[j]));
        }
    }
}

proof fn lemma_last_body(ls: Seq<Seq<char>>, k: nat)
    requires
        k <= ls.len(),
    ensures
        match last_body(ls, k) {
            Some(l) => exists|i: int|
                0 <= i < k && #[trigger] is_body(ls[i]) && ls[i] == l && forall|j: int|
                    i < j < k ==> !#[trigger] is_body(ls[j]),
            None => forall|j: int| 0 <= j < k ==> !#[trigger] is_body(ls[j]),
        },
    decreases k,
{
    if k > 0 {
        if is_body(ls[k - 1]) {
            assert(is_body(ls[k - 1]) && ls[k - 1] == ls[k - 1]);
        } else {
            lemma_last_body(ls, (k - 1) as nat);
            if let Some(l) = last_body(ls, (k - 1) as nat) {
                let i = choose|i: int|
                    0 <= i < k - 1 && #[trigger] is_body(ls[i]) && ls[i] == l && forall|j: int|
                        i < j < k - 1 ==> !#[trigger] is_body(ls[j]);
                assert(is_body(ls[i]) && ls[i] == l);
            }
        }
    }
}

/// A request belongs to the project that its address names in front of the kind and the
/// number.
pub proof fn law_a_request_is_of_the_project_in_its_address(
    v: &Json,
    r: Request,
    parts: Seq<Seq<char>>,
)
    requires
        call_ensures(parse_request, (v,), Ok::<Request, ForgeError>(r)),
        text_at(*v, "url"@) == Some(join(parts, '/')),
        parts.len() >= 4,
        parts.last().len() > 0,
        forall|i: int| 0 <= i < parts.len() ==> !(#[trigger] parts[i]).contains('/'),
    ensures
        r.project@ == parts[parts.len() - 4] + seq!['/'] + parts[parts.len() - 3],
        r.url@ == join(parts, '/'),
        text_at(*v, "baseRefName"@) == Some(r.base_ref@),
        text_at(*v, "baseRefOid"@) == Some(r.base_tip@),
        text_at(*v, "headRefOid"@) == Some(r.head@),
{
    let url = join(parts, '/');
    law_split_undoes_join(parts, '/');
    let last = parts.last();
    assert(!parts[parts.len() - 1].contains('/'));
    assert(url == join(parts.drop_last(), '/').push('/') + last);
    assert(url.last() == last.last());
    assert(last.contains(last.last()));
    assert(trim_slashes(url) == url);
    reveal_strlit("/");
    assert("/"@ =~= seq!['/']);
}

/// Naming the threads changes nothing else. A publication without a thread gets that of
/// the first thread whose root is its comment, and stays without one where there is none.
pub proof fn law_a_comment_belongs_to_the_thread_it_is_the_root_of(
    published: Vec<Published>,
    threads: &[RemoteThread],
    r: Vec<Published>,
    i: int,
    t: int,
)
    requires
        call_ensures(name_threads, (published, threads), r),
        0 <= i < published@.len(),
        0 <= t < threads@.len(),
    ensures
        r@.len() == published@.len(),
        r@[i].finding@ == published@[i].finding@,
        r@[i].comment@ == published@[i].comment@,
        published@[i].thread@.len() > 0 ==> r@[i].thread@ == published@[i].thread@,
        published@[i].thread@.len() == 0 && is_root(threads@[t], published@[i].comment@) && (
        forall|s: int| 0 <= s < t ==> !is_root(#[trigger] threads@[s], published@[i].comment@))
            ==> r@[i].thread@ == threads@[t].id@,
        published@[i].thread@.len() == 0 && (forall|s: int|
            0 <= s < threads@.len() ==> !is_root(#[trigger] threads@[s], published@[i].comment@))
            ==> r@[i].thread@.len() == 0,
{
    let (a, b) = (publications(published@), publications(r@));
    assert(b.len() == r@.len() && a.len() == published@.len());
    assert(b == a.map_values(|p: Publication| named(p, threads@)));
    assert(b[i] == named(a[i], threads@));
    assert(a[i] == publication(published@[i]) && b[i] == publication(r@[i]));
    lemma_thread_of(threads@, published@[i].comment@, 0);
}

/// Whether a comment is the root of a thread.
pub open spec fn is_root(t: RemoteThread, comment: Seq<char>) -> bool {
    t.comments@.len() > 0 && t.comments@[0].id@ == comment
}

proof fn lemma_thread_of(threads: Seq<RemoteThread>, comment: Seq<char>, from: int)
    requires
        0 <= from,
    ensures
        forall|t: int|
            from <= t < threads.len() && is_root(#[trigger] threads[t], comment) && (forall|s: int|
                from <= s < t ==> !is_root(#[trigger] threads[s], comment)) ==> thread_of(
                threads,
                comment,
                from,
            ) == Some(threads[t].id@),
        (forall|s: int| from <= s < threads.len() ==> !is_root(#[trigger] threads[s], comment))
            ==> thread_of(threads, comment, from) is None,
    decreases threads.len() - from,
{
    if from < threads.len() {
        lemma_thread_of(threads, comment, from + 1);
        assert forall|t: int|
            from <= t < threads.len() && is_root(#[trigger] threads[t], comment) && (forall|s: int|
                from <= s < t ==> !is_root(#[trigger] threads[s], comment)) implies thread_of(
            threads,
            comment,
            from,
        ) == Some(threads[t].id@) by {
            if t > from {
                assert(!is_root(threads[from], comment));
            }
        }
    }
}

/// The keys of a comment differ.
proof fn lemma_keys_differ()
    ensures
        "path"@ != "body"@ && "path"@ != "line"@ && "path"@ != "side"@ && "path"@ != "start_line"@
            && "path"@ != "start_side"@,
        "body"@ != "line"@ && "body"@ != "side"@ && "body"@ != "start_line"@ && "body"@
            != "start_side"@,
        "line"@ != "side"@ && "line"@ != "start_line"@ && "line"@ != "start_side"@,
        "side"@ != "start_line"@ && "side"@ != "start_side"@,
        "start_line"@ != "start_side"@,
        "LEFT"@ != "RIGHT"@,
{
    reveal_strlit("path");
    reveal_strlit("body");
    reveal_strlit("line");
    reveal_strlit("side");
    reveal_strlit("start_line");
    reveal_strlit("start_side");
    reveal_strlit("LEFT");
    reveal_strlit("RIGHT");
    assert("path"@[0] == 'p' && "body"@[0] == 'b' && "line"@[0] == 'l' && "side"@[0] == 's');
    assert("start_line"@.len() == 10 && "start_side"@.len() == 10 && "side"@.len() == 4);
    assert("start_line"@[6] == 'l' && "start_side"@[6] == 's');
    assert("LEFT"@[0] == 'L' && "RIGHT"@[0] == 'R');
}

/// What a review sends of a comment is its path, its note, its last line and its side,
/// the left one for old lines, and, where it covers several lines, the first of them on
/// the same side. A record with just these is found again as the comment's.
pub proof fn law_a_comment_is_sent_as_it_is(
    req: &Request,
    comments: &[NewComment],
    j: Json,
    items: Seq<Json>,
    i: int,
)
    requires
        call_ensures(review_body, (req, comments), j),
        j matches Json::Object(pairs) && pairs@.len() == 4 && (pairs@[3].1 matches Json::List(list)
            && list@ == items),
        0 <= i < comments@.len(),
    ensures
        items.len() == comments@.len(),
        text_at(items[i], "path"@) == Some(comments@[i].path@),
        text_at(items[i], "body"@) == Some(comments@[i].body@),
        natural_in(field(Some(items[i]), "line"@)) == Some(comments@[i].line as u64),
        text_at(items[i], "side"@) == Some("LEFT"@) <==> comments@[i].side@ == "old"@,
        comments@[i].side@ != "old"@ ==> text_at(items[i], "side"@) == Some("RIGHT"@),
        match comments@[i].start_line {
            Some(start) => natural_in(field(Some(items[i]), "start_line"@)) == Some(start as u64)
                && text_at(items[i], "start_side"@) == text_at(items[i], "side"@),
            None => field(Some(items[i]), "start_line"@) is None,
        },
        is_record_of(items[i], comments@[i]),
{
    assert(is_review(j, *req, comments@));
    assert(is_item(items[i], comments@[i]));
    lemma_keys_differ();
    if let Json::Object(pairs) = items[i] {
        reveal_with_fuel(entry, 8);
    }
}

/// The side of a thread is the old one exactly where the forge calls it the left one.
pub proof fn law_the_left_side_is_the_old_one(r: RemoteThread, t: Json)
    requires
        is_thread(r, t),
    ensures
        r.side@ == "old"@ <==> text_at(t, "diffSide"@) == Some("LEFT"@),
        r.side@ == "old"@ || r.side@ == "new"@,
        r.resolved <==> field(Some(t), "isResolved"@) == Some(Json::Bool(true)),
        r.outdated <==> field(Some(t), "isOutdated"@) == Some(Json::Bool(true)),
        text_at(t, "path"@) == Some(r.path@),
        text_at(t, "id"@) == Some(r.id@),
        r.line is Some <==> natural_in(field(Some(t), "line"@)) is Some,
        r.line matches Some(l) ==> (natural_in(field(Some(t), "line"@)) matches Some(n) && (n
            <= u32::MAX ==> l == n)),
        r.start_line matches Some(l) ==> (natural_in(field(Some(t), "startLine"@)) matches Some(n)
            && (n <= u32::MAX ==> l == n)),
{
    reveal_strlit("old");
    reveal_strlit("new");
    assert("new"@ != "old"@) by {
        assert("new"@[0] != "old"@[0]);
    }
}

} // verus!
