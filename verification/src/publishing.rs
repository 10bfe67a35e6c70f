//! The conversation with the forge: what to ask next, and what an answer comes to.
//! Asking is the caller's.
//!
//! A publish is one review that holds every new comment, then one call for each
//! reply, then one fetch of the threads, which names the thread of each new comment:
//! the answer to the review never does.
use vstd::prelude::*;

use crate::forge::{Batch, ForgeError, NewComment, NewReply, Published, RemoteThread, Request};
use crate::forgeio::{
    connection, integer_value, is_item, is_parse, is_review, is_thread, match_published, name_threads,
    named, next_cursor, opt_text, page_fault, parse_threads_page, publication, publications,
    published_of, pulls, reply_body, reply_published, review_body, review_id, scope_fault, slash,
    text_at, text_entry, thread_scope, Publication,
};
use crate::json::{field, integer_in, is_whole, items_in, lemma_whole_object, Json};
use crate::text::{integer_string, integer_text, push_str};

verus! {

/// The review threads of a request, page by page.
#[derive(Debug)]
pub struct Paging {
    pub owner: String,
    pub name: String,
    pub number: i64,
    /// The cursor of the page that is asked for; `None` for the first one.
    pub after: Option<String>,
    /// The threads of the pages so far.
    pub found: Vec<RemoteThread>,
}

/// What a page came to.
#[derive(Debug)]
pub enum Paged {
    /// Another page follows.
    More(Paging),
    /// All threads.
    Complete(Vec<RemoteThread>),
}

/// Whether a value holds an integer.
pub open spec fn is_integer(j: Json, n: i64) -> bool {
    integer_in(Some(j)) == Some(n)
}

/// Whether threads are those of a page.
pub open spec fn is_page(threads: Seq<RemoteThread>, v: Json) -> bool {
    let nodes = items_in(field(connection(v), "nodes"@))->0;
    &&& threads.len() == nodes.len()
    &&& forall|i: int| 0 <= i < threads.len() ==> is_thread(#[trigger] threads[i], nodes[i])
}

impl Paging {
    /// Whether this stands before the first page of a request.
    pub open spec fn is_first(&self, req: Request) -> bool {
        &&& scope_fault(req) is None
        &&& self.owner@ == req.project@.take(slash(req.project@)->0)
        &&& self.name@ == req.project@.skip(slash(req.project@)->0 + 1)
        &&& integer_value(req.id@) == Some(self.number as int)
        &&& self.after is None
        &&& self.found@.len() == 0
    }

    /// Start with the first page. A request whose project or number does not read is
    /// refused.
    pub fn begin(req: &Request) -> (r: Result<Paging, ForgeError>)
        ensures
            match r {
                Ok(p) => p.is_first(*req),
                Err(e) => scope_fault(*req) matches Some(m) && is_parse(e, "gh api graphql"@, m),
            },
    {
        match thread_scope(req) {
            Ok((owner, name, number)) => Ok(
                Paging { owner, name, number, after: None, found: Vec::new() },
            ),
            Err(e) => Err(e),
        }
    }

    /// Whether a value holds the variables of the query: the repository, the number,
    /// and the cursor, or null for the first page.
    pub open spec fn is_variables(&self, j: Json) -> bool {
        &&& j matches Json::Object(pairs)
        &&& pairs@.len() == 4
        &&& text_entry(pairs@[0], "owner"@, self.owner@)
        &&& text_entry(pairs@[1], "name"@, self.name@)
        &&& pairs@[2].0@ == "number"@
        &&& is_integer(pairs@[2].1, self.number)
        &&& match self.after {
            Some(cursor) => text_entry(pairs@[3], "after"@, cursor@),
            None => pairs@[3].0@ == "after"@ && pairs@[3].1 is Null,
        }
    }

    /// The variables of the query for the next page.
    pub fn variables(&self) -> (r: Json)
        ensures
            self.is_variables(r),
    {
        let mut pairs: Vec<(String, Json)> = Vec::new();
        pairs.push(("owner".to_owned(), Json::Text(self.owner.clone())));
        pairs.push(("name".to_owned(), Json::Text(self.name.clone())));
        let number = if self.number >= 0 {
            Json::Natural(self.number as u64)
        } else {
            Json::Negative(self.number)
        };
        pairs.push(("number".to_owned(), number));
        let after = match &self.after {
            Some(cursor) => Json::Text(cursor.clone()),
            None => Json::Null,
        };
        pairs.push(("after".to_owned(), after));
        Json::Object(pairs)
    }

    /// Whether a result is what a page comes to: its threads are added, and its cursor
    /// says whether there is more.
    pub open spec fn is_paged(&self, v: Json, r: Result<Paged, ForgeError>) -> bool {
        match r {
            Ok(Paged::More(p)) => {
                &&& page_fault(v) is None
                &&& next_cursor(v) is Some
                &&& opt_text(p.after) == next_cursor(v)
                &&& p.owner == self.owner && p.name == self.name && p.number == self.number
                &&& exists|page: Seq<RemoteThread>| #[trigger]
                    is_page(page, v) && p.found@ == self.found@ + page
            },
            Ok(Paged::Complete(all)) => {
                &&& page_fault(v) is None
                &&& next_cursor(v) is None
                &&& exists|page: Seq<RemoteThread>| #[trigger]
                    is_page(page, v) && all@ == self.found@ + page
            },
            Err(e) => page_fault(v) matches Some(m) && is_parse(e, "gh"@, m),
        }
    }

    /// Take a page.
    pub fn answered(self, v: &Json) -> (r: Result<Paged, ForgeError>)
        ensures
            self.is_paged(*v, r),
    {
        let Paging { owner, name, number, after, found } = self;
        match parse_threads_page(v) {
            Err(e) => Err(e),
            Ok((page, next)) => {
                let ghost had = found@;
                let ghost new = page@;
                let mut all = found;
                let mut page = page;
                all.append(&mut page);
                assert(is_page(new, *v) && all@ =~= had + new);
                match next {
                    Some(cursor) => Ok(
                        Paged::More(Paging { owner, name, number, after: Some(cursor), found: all }),
                    ),
                    None => Ok(Paged::Complete(all)),
                }
            },
        }
    }
}

/// What a publish is waiting for.
#[derive(Debug)]
pub enum Stage {
    /// The review that holds the new comments.
    Review,
    /// The comments of the review with an id.
    Comments(i64),
    /// The reply at a place of the batch.
    Reply(usize),
    /// The threads.
    Threads(Paging),
    /// Nothing: what was published is complete.
    Finished,
}

/// A publish under way.
#[derive(Debug)]
pub struct Publishing {
    pub out: Vec<Published>,
    pub stage: Stage,
}

/// What to ask the forge.
#[derive(Debug)]
pub enum Question {
    Post { path: String, body: Json },
    Get { path: String },
    /// The threads query, with these variables.
    Threads(Json),
    Nothing,
}

/// The endpoint of a request.
pub open spec fn endpoint(req: Request, tail: Seq<char>) -> Seq<char> {
    "repos/"@ + req.project@ + "/pulls/"@ + req.id@ + tail
}

/// Whether a stage is the one before the reply at a place: the reply, or behind the
/// last one the threads, if a new comment has to be named, or nothing.
pub open spec fn is_reply_stage(req: Request, batch: Batch, i: int, r: Result<Stage, ForgeError>) -> bool {
    if i < batch.replies@.len() {
        r matches Ok(Stage::Reply(k)) && k == i
    } else if batch.comments@.len() == 0 {
        r matches Ok(Stage::Finished)
    } else {
        match r {
            Ok(Stage::Threads(p)) => p.is_first(req),
            Err(e) => scope_fault(req) matches Some(m) && is_parse(e, "gh api graphql"@, m),
            _ => false,
        }
    }
}

fn reply_stage(req: &Request, batch: &Batch, i: usize) -> (r: Result<Stage, ForgeError>)
    ensures
        is_reply_stage(*req, *batch, i as int, r),
{
    if i < batch.replies.len() {
        Ok(Stage::Reply(i))
    } else if batch.comments.len() == 0 {
        Ok(Stage::Finished)
    } else {
        match Paging::begin(req) {
            Ok(p) => Ok(Stage::Threads(p)),
            Err(e) => Err(e),
        }
    }
}

/// What the forge made of a reply.
pub open spec fn reply_record(reply: NewReply, answer: Json) -> Publication {
    Publication {
        finding: reply.finding@,
        thread: reply.thread@,
        comment: match integer_in(field(Some(answer), "id"@)) {
            Some(n) => integer_text(n as int),
            None => Seq::empty(),
        },
        url: text_at(answer, "html_url"@),
    }
}

/// What the forge made of the new comments.
pub open spec fn comment_records(batch: Batch, answer: Json) -> Seq<Publication> {
    match items_in(Some(answer)) {
        Some(items) => published_of(batch.comments@, items, batch.comments@.len()),
        None => Seq::empty(),
    }
}

impl Publishing {
    /// Whether the reply that is waited for is one of the batch.
    pub open spec fn wf(&self, batch: Batch) -> bool {
        self.stage matches Stage::Reply(i) ==> i < batch.replies@.len()
    }

    /// Start a publish: with the review, or where there is no new comment with the
    /// first reply.
    pub fn begin(batch: &Batch) -> (r: Publishing)
        ensures
            r.wf(*batch),
            r.out@.len() == 0,
            r.stage == (if batch.comments@.len() > 0 {
                Stage::Review
            } else if batch.replies@.len() > 0 {
                Stage::Reply(0)
            } else {
                Stage::Finished
            }),
    {
        let stage = if batch.comments.len() > 0 {
            Stage::Review
        } else if batch.replies.len() > 0 {
            Stage::Reply(0)
        } else {
            Stage::Finished
        };
        Publishing { out: Vec::new(), stage }
    }

    /// Whether a question is the one that a stage asks.
    pub open spec fn asks(&self, req: Request, batch: Batch, q: Question) -> bool {
        match self.stage {
            Stage::Review => q matches Question::Post { path, body } && path@ == endpoint(
                req,
                "/reviews"@,
            ) && is_review(body, req, batch.comments@),
            Stage::Comments(id) => q matches Question::Get { path } && path@ == endpoint(
                req,
                "/reviews/"@ + integer_text(id as int) + "/comments"@,
            ),
            Stage::Reply(i) => q matches Question::Post { path, body } && path@ == endpoint(
                req,
                "/comments/"@ + batch.replies@[i as int].root_comment@ + "/replies"@,
            ) && (body matches Json::Object(pairs) && pairs@.len() == 1 && text_entry(
                pairs@[0],
                "body"@,
                batch.replies@[i as int].body@,
            )),
            Stage::Threads(p) => q matches Question::Threads(v) && p.is_variables(v),
            Stage::Finished => q is Nothing,
        }
    }

    /// What to ask next.
    pub fn question(&self, req: &Request, batch: &Batch) -> (r: Question)
        requires
            self.wf(*batch),
        ensures
            self.asks(*req, *batch, r),
    {
        match &self.stage {
            Stage::Review => Question::Post {
                path: pulls(req, "/reviews"),
                body: review_body(req, batch.comments.as_slice()),
            },
            Stage::Comments(id) => {
                let mut tail = "/reviews/".to_owned();
                push_str(&mut tail, &integer_string(*id));
                push_str(&mut tail, "/comments");
                Question::Get { path: pulls(req, &tail) }
            },
            Stage::Reply(i) => {
                let reply = &batch.replies[*i];
                let mut tail = "/comments/".to_owned();
                push_str(&mut tail, &reply.root_comment);
                push_str(&mut tail, "/replies");
                Question::Post { path: pulls(req, &tail), body: reply_body(reply) }
            },
            Stage::Threads(p) => Question::Threads(p.variables()),
            Stage::Finished => Question::Nothing,
        }
    }

    /// Whether a result is what an answer comes to.
    pub open spec fn is_next(
        &self,
        req: Request,
        batch: Batch,
        answer: Json,
        r: Result<Publishing, ForgeError>,
    ) -> bool {
        match self.stage {
            // The review's id leads to its comments.
            Stage::Review => match r {
                Ok(p) => p.out == self.out && (p.stage matches Stage::Comments(id) && integer_in(
                    field(Some(answer), "id"@),
                ) == Some(id)),
                Err(e) => integer_in(field(Some(answer), "id"@)) is None && is_parse(
                    e,
                    "gh api pulls/reviews"@,
                    "the review came back without an id"@,
                ),
            },
            // The comments are matched to what was sent; the replies follow.
            Stage::Comments(_) => match r {
                Ok(p) => publications(p.out@) == publications(self.out@) + comment_records(
                    batch,
                    answer,
                ) && is_reply_stage(req, batch, 0, Ok(p.stage)),
                Err(e) => is_reply_stage(req, batch, 0, Err(e)),
            },
            // One record for each reply.
            Stage::Reply(i) => match r {
                Ok(p) => publications(p.out@) == publications(self.out@).push(
                    reply_record(batch.replies@[i as int], answer),
                ) && is_reply_stage(req, batch, i + 1, Ok(p.stage)),
                Err(e) => is_reply_stage(req, batch, i + 1, Err(e)),
            },
            // The last page names the threads of the new comments.
            Stage::Threads(paging) => exists|paged: Result<Paged, ForgeError>|
                {
                    &&& #[trigger] paging.is_paged(answer, paged)
                    &&& match paged {
                        Err(e) => r == Err::<Publishing, ForgeError>(e),
                        Ok(Paged::More(next)) => r matches Ok(p) && p.out == self.out && p.stage
                            == Stage::Threads(next),
                        Ok(Paged::Complete(all)) => r matches Ok(p) && p.stage is Finished
                            && publications(p.out@) == publications(self.out@).map_values(
                            |x: Publication| named(x, all@),
                        ),
                    }
                },
            Stage::Finished => r matches Ok(p) && p == *self,
        }
    }

    /// Take an answer.
    pub fn answered(self, req: &Request, batch: &Batch, answer: &Json) -> (r: Result<
        Publishing,
        ForgeError,
    >)
        requires
            self.wf(*batch),
        ensures
            self.is_next(*req, *batch, *answer, r),
            r matches Ok(p) ==> p.wf(*batch),
    {
        let Publishing { out, stage } = self;
        match stage {
            Stage::Review => match review_id(answer) {
                Ok(id) => Ok(Publishing { out, stage: Stage::Comments(id) }),
                Err(e) => Err(e),
            },
            Stage::Comments(_) => {
                let ghost had = publications(out@);
                let mut all = out;
                let mut matched = match_published(batch.comments.as_slice(), answer);
                let ghost new = publications(matched@);
                all.append(&mut matched);
                assert(publications(all@) =~= had + new);
                match reply_stage(req, batch, 0) {
                    Ok(stage) => Ok(Publishing { out: all, stage }),
                    Err(e) => Err(e),
                }
            },
            Stage::Reply(i) => {
                let ghost had = publications(out@);
                let mut all = out;
                let p = reply_published(&batch.replies[i], answer);
                let ghost new = publication(p);
                assert(new == reply_record(batch.replies@[i as int], *answer));
                all.push(p);
                assert(publications(all@) =~= had.push(new));
                assert(i < batch.replies.len());
                match reply_stage(req, batch, i + 1) {
                    Ok(stage) => Ok(Publishing { out: all, stage }),
                    Err(e) => Err(e),
                }
            },
            Stage::Threads(paging) => {
                let paged = paging.answered(answer);
                assert(paging.is_paged(*answer, paged));
                match paged {
                    Err(e) => Err(e),
                    Ok(Paged::More(next)) => Ok(Publishing { out, stage: Stage::Threads(next) }),
                    Ok(Paged::Complete(all)) => Ok(
                        Publishing {
                            out: name_threads(out, all.as_slice()),
                            stage: Stage::Finished,
                        },
                    ),
                }
            },
            Stage::Finished => Ok(Publishing { out, stage: Stage::Finished }),
        }
    }

    /// Whether nothing is waited for.
    pub fn is_finished(&self) -> (r: bool)
        ensures
            r == (self.stage is Finished),
    {
        match &self.stage {
            Stage::Finished => true,
            _ => false,
        }
    }
}

/// Taking an answer loses nothing that was published before it: every record stays,
/// with its finding, its comment and its url, and a thread that was named stays named.
pub proof fn law_an_answer_keeps_what_was_published(
    before: Publishing,
    req: Request,
    batch: Batch,
    answer: Json,
    after: Publishing,
    i: int,
)
    requires
        before.is_next(req, batch, answer, Ok(after)),
        0 <= i < before.out@.len(),
    ensures
        i < after.out@.len(),
        after.out@[i].finding@ == before.out@[i].finding@,
        after.out@[i].comment@ == before.out@[i].comment@,
        opt_text(after.out@[i].url) == opt_text(before.out@[i].url),
        before.out@[i].thread@.len() > 0 ==> after.out@[i].thread@ == before.out@[i].thread@,
{
    let had = publications(before.out@);
    let now = publications(after.out@);
    assert(had[i] == publication(before.out@[i]));
    match before.stage {
        Stage::Threads(paging) => {
            let paged = choose|paged: Result<Paged, ForgeError>|
                {
                    &&& #[trigger] paging.is_paged(answer, paged)
                    &&& match paged {
                        Err(e) => false,
                        Ok(Paged::More(next)) => after.out == before.out && after.stage
                            == Stage::Threads(next),
                        Ok(Paged::Complete(all)) => after.stage is Finished && now
                            == had.map_values(|x: Publication| named(x, all@)),
                    }
                };
            if let Ok(Paged::Complete(all)) = paged {
                assert(now[i] == named(had[i], all@));
                assert(now.len() == after.out@.len());
                assert(now[i] == publication(after.out@[i]));
            }
        },
        Stage::Comments(_) => {
            assert(now.len() == after.out@.len());
            assert(now[i] == had[i]);
            assert(now[i] == publication(after.out@[i]));
        },
        Stage::Reply(k) => {
            assert(now.len() == after.out@.len());
            assert(now[i] == had[i]);
            assert(now[i] == publication(after.out@[i]));
        },
        _ => {},
    }
}

proof fn lemma_variables_are_whole(p: Paging, j: Json)
    requires
        p.is_variables(j),
    ensures
        is_whole(j@),
{
    if let Json::Object(pairs) = j {
        assert forall|k: int| 0 <= k < pairs@.len() implies is_whole((#[trigger] pairs@[k]).1@) by {
            assert(k == 0 || k == 1 || k == 2 || k == 3);
        }
        lemma_whole_object(pairs);
    }
}

proof fn lemma_item_is_whole(j: Json, c: NewComment)
    requires
        is_item(j, c),
    ensures
        is_whole(j@),
{
    if let Json::Object(pairs) = j {
        assert forall|k: int| 0 <= k < pairs@.len() implies is_whole((#[trigger] pairs@[k]).1@) by {
            assert(k == 0 || k == 1 || k == 2 || k == 3 || k == 4 || k == 5);
        }
        lemma_whole_object(pairs);
    }
}

proof fn lemma_review_is_whole(j: Json, req: Request, comments: Seq<NewComment>)
    requires
        is_review(j, req, comments),
    ensures
        is_whole(j@),
{
    if let Json::Object(pairs) = j {
        assert forall|k: int| 0 <= k < pairs@.len() implies is_whole((#[trigger] pairs@[k]).1@) by {
            assert(k == 0 || k == 1 || k == 2 || k == 3);
            if k == 3 {
                let items = pairs@[3].1->List_0;
                assert forall|i: int| 0 <= i < items@.len() implies is_whole(
                    pairs@[3].1@->List_0[i],
                ) by {
                    lemma_item_is_whole(items@[i], comments[i]);
                }
            }
        }
        lemma_whole_object(pairs);
    }
}

/// What is asked of the forge can be written down: there is no fraction in it.
pub proof fn law_a_question_can_be_written(
    p: Publishing,
    req: Request,
    batch: Batch,
    q: Question,
)
    requires
        p.wf(batch),
        p.asks(req, batch, q),
    ensures
        match q {
            Question::Post { path, body } => is_whole(body@),
            Question::Threads(variables) => is_whole(variables@),
            _ => true,
        },
{
    match p.stage {
        Stage::Review => lemma_review_is_whole(q->body, req, batch.comments@),
        Stage::Reply(i) => lemma_whole_object(q->body->Object_0),
        Stage::Threads(paging) => lemma_variables_are_whole(paging, q->Threads_0),
        _ => {},
    }
}

} // verus!
