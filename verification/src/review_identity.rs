//! Which review a range opens: the id, and whose progress it inherits.
//!
//! A review's id is made of the base and the head as typed, which keeps one review
//! alive while a branch tip moves. So that one range typed two ways is not two
//! reviews, a new spelling adopts an existing review when the two are the same
//! work: the same base, and one head reachable from the other. Two branches off
//! one base are not adoptable, so their findings never collide.
//!
//! Adoption cannot cover a rebase. A reader who wants a session that outlives one
//! names it, and the name is then the whole identity.
use vstd::prelude::*;

use crate::forge::ReviewIdentity;
use crate::hash::sha1_prefix;
use crate::plan::identity::{
    named_preimage, remote_preimage, review_id, review_id_named, review_id_remote, review_preimage,
    ID_LENGTH,
};
use crate::ports::{Ancestry, ReviewCatalogue};
use crate::text::str_eq;
use crate::EngineError;

verus! {

/// The head spec of a review of uncommitted work. Its head is a synthesized tree
/// that churns on every edit, not a commit, so it can neither adopt nor be
/// adopted.
pub const WORKTREE_SPEC: &'static str = "WORKTREE";

/// A review on file, and what it was opened as if its directory says so.
#[derive(Debug, Clone, PartialEq)]
pub struct FiledReview {
    pub id: String,
    pub opened_as: Option<ReviewIdentity>,
}

/// The id that an identity has of its own.
pub open spec fn own_id(opened_as: ReviewIdentity) -> Seq<char> {
    match opened_as {
        ReviewIdentity::Range { base, head_spec } => sha1_prefix(
            review_preimage(base@, head_spec@),
            ID_LENGTH as int,
        ),
        ReviewIdentity::Named(name) => sha1_prefix(named_preimage(name@), ID_LENGTH as int),
        ReviewIdentity::Remote(r) => sha1_prefix(
            remote_preimage(r.forge@, r.project@, r.id@),
            ID_LENGTH as int,
        ),
    }
}

/// The id that an identity has of its own.
pub fn identity_id(opened_as: &ReviewIdentity) -> (r: String)
    ensures
        r@ == own_id(*opened_as),
{
    match opened_as {
        ReviewIdentity::Range { base, head_spec } => review_id(base, head_spec),
        ReviewIdentity::Named(name) => review_id_named(name),
        ReviewIdentity::Remote(r) => review_id_remote(&r.forge, &r.project, &r.id),
    }
}

/// What has to be written down.
#[derive(Debug, Clone, PartialEq, Eq)]
pub enum Write {
    Nothing,
    /// What the review was opened as, under its id.
    Identity,
    /// That this id's progress lives under another.
    Alias(String),
}

/// How far a review is resolved.
#[derive(Debug, Clone, PartialEq, Eq)]
pub enum Step {
    /// The review to read and write, and what to write down.
    Done { id: String, write: Write },
    /// A new spelling of a range: whether it adopts a filed review is still open.
    Adopt { id: String },
}

/// The first filed review with an id, from place `from` on.
pub open spec fn first_filed(filed: Seq<FiledReview>, id: Seq<char>, from: int) -> Option<int>
    decreases filed.len() - from,
{
    if from >= filed.len() {
        None
    } else if filed[from].id@ == id {
        Some(from)
    } else {
        first_filed(filed, id, from + 1)
    }
}

fn find_filed(filed: &[FiledReview], id: &str) -> (r: Option<usize>)
    ensures
        match r {
            Some(i) => i < filed@.len() && first_filed(filed@, id@, 0) == Some(i as int),
            None => first_filed(filed@, id@, 0) is None,
        },
{
    for i in 0..filed.len()
        invariant
            first_filed(filed@, id@, 0) == first_filed(filed@, id@, i as int),
    {
        if str_eq(&filed[i].id, id) {
            return Some(i);
        }
    }
    None
}

/// What a step says.
pub open spec fn is_done(s: Step, id: Seq<char>, write: Write) -> bool {
    s matches Step::Done { id: got, write: w } && got@ == id && w == write
}

/// Whether a step is the one that an identity comes to.
///
/// A name, or a request, is the identity. A review of uncommitted work stands for
/// itself, and so does a range that is on file. Any other range may adopt a filed
/// review.
pub open spec fn is_step(opened_as: ReviewIdentity, filed: Seq<FiledReview>, r: Step) -> bool {
    let id = own_id(opened_as);
    match opened_as {
        ReviewIdentity::Range { base, head_spec } => if head_spec@ == WORKTREE_SPEC@ {
            is_done(r, id, Write::Nothing)
        } else {
            match first_filed(filed, id, 0) {
                Some(i) => is_done(
                    r,
                    id,
                    if filed[i].opened_as is None {
                        Write::Identity
                    } else {
                        Write::Nothing
                    },
                ),
                None => r matches Step::Adopt { id: got } && got@ == id,
            }
        },
        _ => is_done(
            r,
            id,
            if first_filed(filed, id, 0) is None {
                Write::Identity
            } else {
                Write::Nothing
            },
        ),
    }
}

/// How far an identity is resolved by what is on file.
pub fn decide(opened_as: &ReviewIdentity, filed: &[FiledReview]) -> (r: Step)
    ensures
        is_step(*opened_as, filed@, r),
{
    let id = identity_id(opened_as);
    match opened_as {
        ReviewIdentity::Range { head_spec, .. } => {
            if str_eq(head_spec, WORKTREE_SPEC) {
                return Step::Done { id, write: Write::Nothing };
            }
            match find_filed(filed, &id) {
                Some(i) => {
                    if filed[i].opened_as.is_none() {
                        Step::Done { id, write: Write::Identity }
                    } else {
                        Step::Done { id, write: Write::Nothing }
                    }
                },
                None => Step::Adopt { id },
            }
        },
        _ => {
            if find_filed(filed, &id).is_none() {
                Step::Done { id, write: Write::Identity }
            } else {
                Step::Done { id, write: Write::Nothing }
            }
        },
    }
}

/// Whether a review and a record of it are what a new spelling becomes: the review
/// that it adopts, with the join recorded, or a review of its own, with what it was
/// opened as recorded.
pub open spec fn is_settled(id: String, adopted: Option<String>, r: (String, Write)) -> bool {
    match adopted {
        Some(target) => r.0@ == target@ && (r.1 matches Write::Alias(to) && to@ == target@),
        None => r.0 == id && r.1 == Write::Identity,
    }
}

/// What a new spelling becomes.
pub fn settle(id: String, adopted: Option<String>) -> (r: (String, Write))
    ensures
        is_settled(id, adopted, r),
{
    match adopted {
        Some(target) => (target.clone(), Write::Alias(target)),
        None => (id, Write::Identity),
    }
}

// ---------------------------------------------------------------------------
// Asking git

/// Which end of a line of history to take.
#[derive(Debug, Clone, Copy, PartialEq, Eq, Structural)]
pub enum Reach {
    Newest,
    Oldest,
}

/// A filed review, and the commit of its head.
#[derive(Debug, Clone, PartialEq, Eq)]
pub struct Placed {
    pub id: String,
    pub commit: String,
}

/// Whether git gave an answer to what commit a revision names.
pub open spec fn commit_answer<G: Ancestry>(
    git: &G,
    rev: Seq<char>,
    answer: Result<Option<String>, EngineError>,
) -> bool {
    exists|r: &str| r@ == rev && #[trigger] call_ensures(G::commit_of, (git, r), answer)
}

/// Whether git gave an answer to whether one commit is reachable from another.
pub open spec fn ancestor_answer<G: Ancestry>(
    git: &G,
    a: Seq<char>,
    b: Seq<char>,
    answer: Result<bool, EngineError>,
) -> bool {
    exists|x: &str, y: &str|
        x@ == a && y@ == b && #[trigger] call_ensures(G::is_ancestor, (git, x, y), answer)
}

/// Whether git gave an answer to whether commit `b` lies at least as far out as commit
/// `a`.
pub open spec fn further_answer<G: Ancestry>(
    git: &G,
    reach: Reach,
    a: Seq<char>,
    b: Seq<char>,
    answer: Result<bool, EngineError>,
) -> bool {
    match reach {
        Reach::Newest => ancestor_answer(git, a, b, answer),
        Reach::Oldest => ancestor_answer(git, b, a, answer),
    }
}

fn ask_commit<G: Ancestry>(git: &G, rev: &str) -> (r: Result<Option<String>, EngineError>)
    ensures
        commit_answer(git, rev@, r),
{
    let answer = git.commit_of(rev);
    assert(call_ensures(G::commit_of, (git, rev), answer));
    answer
}

fn ask_ancestor<G: Ancestry>(git: &G, a: &str, b: &str) -> (r: Result<bool, EngineError>)
    ensures
        ancestor_answer(git, a@, b@, r),
{
    let answer = git.is_ancestor(a, b);
    assert(call_ensures(G::is_ancestor, (git, a, b), answer));
    answer
}

fn ask_further<G: Ancestry>(git: &G, reach: Reach, a: &str, b: &str) -> (r: Result<
    bool,
    EngineError,
>)
    ensures
        further_answer(git, reach, a@, b@, r),
{
    match reach {
        Reach::Newest => ask_ancestor(git, a, b),
        Reach::Oldest => ask_ancestor(git, b, a),
    }
}

/// What comes of a set whose candidate for the outermost member is `best`, where git
/// is asked of every other member from place `i` on whether it reaches the candidate:
/// the first one that does not leaves the end open, and an ambiguous answer is no
/// answer.
pub open spec fn is_proved<G: Ancestry>(
    git: &G,
    set: Seq<Placed>,
    reach: Reach,
    best: int,
    i: int,
    r: Result<Option<String>, EngineError>,
) -> bool
    decreases set.len() - i,
{
    if i >= set.len() {
        r matches Ok(Some(id)) && id@ == set[best].id@
    } else if i == best {
        is_proved(git, set, reach, best, i + 1, r)
    } else {
        exists|answer: Result<bool, EngineError>|
            {
                &&& #[trigger] further_answer(
                    git,
                    reach,
                    set[i].commit@,
                    set[best].commit@,
                    answer,
                )
                &&& match answer {
                    Err(e) => r == Err::<Option<String>, EngineError>(e),
                    Ok(true) => is_proved(git, set, reach, best, i + 1, r),
                    Ok(false) => r == Ok::<Option<String>, EngineError>(None),
                }
            }
    }
}

/// What comes of a set by one pass from place `i` on, with `best` the furthest member
/// so far: git is asked of each member whether it lies further out.
pub open spec fn is_passed<G: Ancestry>(
    git: &G,
    set: Seq<Placed>,
    reach: Reach,
    best: int,
    i: int,
    r: Result<Option<String>, EngineError>,
) -> bool
    decreases set.len() - i,
{
    if i >= set.len() {
        is_proved(git, set, reach, best, 0, r)
    } else {
        exists|answer: Result<bool, EngineError>|
            {
                &&& #[trigger] further_answer(
                    git,
                    reach,
                    set[best].commit@,
                    set[i].commit@,
                    answer,
                )
                &&& match answer {
                    Err(e) => r == Err::<Option<String>, EngineError>(e),
                    Ok(true) => is_passed(git, set, reach, i, i + 1, r),
                    Ok(false) => is_passed(git, set, reach, best, i + 1, r),
                }
            }
    }
}

/// Whether a result is the one member of a set that every other member reaches, or
/// none, by what git answered.
pub open spec fn is_extreme<G: Ancestry>(
    git: &G,
    set: Seq<Placed>,
    reach: Reach,
    r: Result<Option<String>, EngineError>,
) -> bool {
    if set.len() == 0 {
        r == Ok::<Option<String>, EngineError>(None)
    } else {
        is_passed(git, set, reach, 0, 1, r)
    }
}

/// The one member of a set that every other member reaches, or `None`. One pass finds
/// a candidate, another proves it: without the second the answer would depend on the
/// order of the set.
pub fn extreme<G: Ancestry>(git: &G, set: &Vec<Placed>, reach: Reach) -> (r: Result<
    Option<String>,
    EngineError,
>)
    ensures
        is_extreme(git, set@, reach, r),
{
    if set.len() == 0 {
        return Ok(None);
    }
    let mut best: usize = 0;
    let mut i: usize = 1;
    while i < set.len()
        invariant
            1 <= i <= set@.len(),
            best < set@.len(),
            forall|r: Result<Option<String>, EngineError>| #[trigger]
                is_passed(git, set@, reach, best as int, i as int, r) ==> is_extreme(
                    git,
                    set@,
                    reach,
                    r,
                ),
        decreases set@.len() - i,
    {
        let answer = ask_further(git, reach, &set[best].commit, &set[i].commit);
        assert(further_answer(
            git,
            reach,
            set@[best as int].commit@,
            set@[i as int].commit@,
            answer,
        ));
        match answer {
            Err(e) => {
                let r = Err(e);
                assert(is_passed(git, set@, reach, best as int, i as int, r));
                return r;
            },
            Ok(further) => {
                let next: usize = if further {
                    i
                } else {
                    best
                };
                assert forall|r: Result<Option<String>, EngineError>| #[trigger]
                    is_passed(git, set@, reach, next as int, i + 1, r) implies is_extreme(
                    git,
                    set@,
                    reach,
                    r,
                ) by {
                    assert(is_passed(git, set@, reach, best as int, i as int, r));
                }
                best = next;
            },
        }
        i = i + 1;
    }
    assert forall|r: Result<Option<String>, EngineError>| #[trigger]
        is_proved(git, set@, reach, best as int, 0, r) implies is_extreme(git, set@, reach, r) by {
        assert(is_passed(git, set@, reach, best as int, set@.len() as int, r));
    }
    let mut i: usize = 0;
    while i < set.len()
        invariant
            i <= set@.len(),
            best < set@.len(),
            forall|r: Result<Option<String>, EngineError>| #[trigger]
                is_proved(git, set@, reach, best as int, i as int, r) ==> is_extreme(
                    git,
                    set@,
                    reach,
                    r,
                ),
        decreases set@.len() - i,
    {
        if i != best {
            let answer = ask_further(git, reach, &set[i].commit, &set[best].commit);
            assert(further_answer(
                git,
                reach,
                set@[i as int].commit@,
                set@[best as int].commit@,
                answer,
            ));
            match answer {
                Err(e) => {
                    let r = Err(e);
                    assert(is_proved(git, set@, reach, best as int, i as int, r));
                    return r;
                },
                Ok(false) => {
                    let r = Ok(None);
                    assert(is_proved(git, set@, reach, best as int, i as int, r));
                    return r;
                },
                Ok(true) => {},
            }
        }
        assert forall|r: Result<Option<String>, EngineError>| #[trigger]
            is_proved(git, set@, reach, best as int, i + 1, r) implies is_extreme(
            git,
            set@,
            reach,
            r,
        ) by {
            assert(is_proved(git, set@, reach, best as int, i as int, r));
        }
        i = i + 1;
    }
    let r = Ok(Some(set[best].id.clone()));
    assert(is_proved(git, set@, reach, best as int, set@.len() as int, r));
    r
}

/// The head, as typed, of a filed review that a range of the same base can be placed
/// against: not a named one, and not one of uncommitted work.
pub open spec fn candidate(r: FiledReview, base_sha: Seq<char>) -> Option<Seq<char>> {
    match r.opened_as {
        Some(ReviewIdentity::Range { base, head_spec }) => if base@ == base_sha && head_spec@
            != WORKTREE_SPEC@ {
            Some(head_spec@)
        } else {
            None
        },
        _ => None,
    }
}

fn candidate_of<'a>(r: &'a FiledReview, base_sha: &str) -> (c: Option<&'a str>)
    ensures
        match c {
            Some(spec) => candidate(*r, base_sha@) == Some(spec@),
            None => candidate(*r, base_sha@) is None,
        },
{
    match &r.opened_as {
        Some(ReviewIdentity::Range { base, head_spec }) => if str_eq(base, base_sha) && !str_eq(
            head_spec,
            WORKTREE_SPEC,
        ) {
            Some(head_spec.as_str())
        } else {
            None
        },
        _ => None,
    }
}

/// Whether a filed review stands at a commit.
pub open spec fn is_placed(p: Placed, id: Seq<char>, commit: Seq<char>) -> bool {
    p.id@ == id && p.commit@ == commit
}

/// Whether a result is the choice between the reviews behind and those ahead: the
/// newest that we have moved past, then the oldest that has moved past us.
pub open spec fn is_choice<G: Ancestry>(
    git: &G,
    behind: Seq<Placed>,
    ahead: Seq<Placed>,
    r: Result<Option<String>, EngineError>,
) -> bool {
    exists|newest: Result<Option<String>, EngineError>|
        {
            &&& #[trigger] is_extreme(git, behind, Reach::Newest, newest)
            &&& match newest {
                Ok(None) => is_extreme(git, ahead, Reach::Oldest, r),
                _ => r == newest,
            }
        }
}

/// How a filed review stands to us.
#[derive(Debug, Clone, PartialEq, Eq)]
pub enum Standing {
    /// At the very same commit.
    Same,
    /// At a commit that we have moved past.
    Behind(Placed),
    /// At a commit that has moved past us.
    Ahead(Placed),
    /// Other work, or on another line of history.
    Apart,
}

/// Whether a result is how a review at another commit than ours stands to us: git is
/// asked whether it is behind us, and if it is not, whether it is ahead of us.
pub open spec fn is_related<G: Ancestry>(
    git: &G,
    id: Seq<char>,
    other: Seq<char>,
    head: Seq<char>,
    r: Result<Standing, EngineError>,
) -> bool {
    exists|past: Result<bool, EngineError>|
        {
            &&& #[trigger] ancestor_answer(git, other, head, past)
            &&& match past {
                Err(e) => r == Err::<Standing, EngineError>(e),
                Ok(true) => r matches Ok(Standing::Behind(p)) && is_placed(p, id, other),
                Ok(false) => exists|next: Result<bool, EngineError>|
                    {
                        &&& #[trigger] ancestor_answer(git, head, other, next)
                        &&& match next {
                            Err(e) => r == Err::<Standing, EngineError>(e),
                            Ok(true) => r matches Ok(Standing::Ahead(p)) && is_placed(
                                p,
                                id,
                                other,
                            ),
                            Ok(false) => r == Ok::<Standing, EngineError>(Standing::Apart),
                        }
                    },
            }
        }
}

/// Whether a result is how a filed review stands to us. Git is asked about a candidate
/// alone, and first what commit its head is.
pub open spec fn is_standing<G: Ancestry>(
    git: &G,
    review: FiledReview,
    base_sha: Seq<char>,
    head: Seq<char>,
    r: Result<Standing, EngineError>,
) -> bool {
    match candidate(review, base_sha) {
        None => r == Ok::<Standing, EngineError>(Standing::Apart),
        Some(spec) => exists|answer: Result<Option<String>, EngineError>|
            {
                &&& #[trigger] commit_answer(git, spec, answer)
                &&& match answer {
                    Err(e) => r == Err::<Standing, EngineError>(e),
                    Ok(None) => r == Ok::<Standing, EngineError>(Standing::Apart),
                    Ok(Some(other)) => if other@ == head {
                        r == Ok::<Standing, EngineError>(Standing::Same)
                    } else {
                        is_related(git, review.id@, other@, head, r)
                    },
                }
            },
    }
}

/// What comes of the filed reviews from place `i` on, with those behind and ahead of
/// us so far: one at the very same commit ends the questions.
pub open spec fn is_scanned<G: Ancestry>(
    git: &G,
    filed: Seq<FiledReview>,
    base_sha: Seq<char>,
    head: Seq<char>,
    i: int,
    behind: Seq<Placed>,
    ahead: Seq<Placed>,
    r: Result<Option<String>, EngineError>,
) -> bool
    decreases filed.len() - i,
{
    if i >= filed.len() {
        is_choice(git, behind, ahead, r)
    } else {
        exists|s: Result<Standing, EngineError>|
            {
                &&& #[trigger] is_standing(git, filed[i], base_sha, head, s)
                &&& match s {
                    Err(e) => r == Err::<Option<String>, EngineError>(e),
                    Ok(Standing::Same) => r matches Ok(Some(id)) && id@ == filed[i].id@,
                    Ok(Standing::Behind(p)) => is_scanned(
                        git,
                        filed,
                        base_sha,
                        head,
                        i + 1,
                        behind.push(p),
                        ahead,
                        r,
                    ),
                    Ok(Standing::Ahead(p)) => is_scanned(
                        git,
                        filed,
                        base_sha,
                        head,
                        i + 1,
                        behind,
                        ahead.push(p),
                        r,
                    ),
                    Ok(Standing::Apart) => is_scanned(
                        git,
                        filed,
                        base_sha,
                        head,
                        i + 1,
                        behind,
                        ahead,
                        r,
                    ),
                }
            }
    }
}

fn choose_end<G: Ancestry>(git: &G, behind: &Vec<Placed>, ahead: &Vec<Placed>) -> (r: Result<
    Option<String>,
    EngineError,
>)
    ensures
        is_choice(git, behind@, ahead@, r),
{
    let newest = extreme(git, behind, Reach::Newest);
    let ghost found = newest;
    let r = match newest {
        Ok(None) => extreme(git, ahead, Reach::Oldest),
        other => other,
    };
    assert(is_extreme(git, behind@, Reach::Newest, found));
    r
}

fn relate<G: Ancestry>(git: &G, id: &String, other: String, head: &str) -> (r: Result<
    Standing,
    EngineError,
>)
    ensures
        is_related(git, id@, other@, head@, r),
{
    let past = ask_ancestor(git, &other, head);
    assert(ancestor_answer(git, other@, head@, past));
    match past {
        Err(e) => Err(e),
        Ok(true) => Ok(Standing::Behind(Placed { id: id.clone(), commit: other })),
        Ok(false) => {
            let next = ask_ancestor(git, head, &other);
            assert(ancestor_answer(git, head@, other@, next));
            match next {
                Err(e) => Err(e),
                Ok(true) => Ok(Standing::Ahead(Placed { id: id.clone(), commit: other })),
                Ok(false) => Ok(Standing::Apart),
            }
        },
    }
}

fn standing<G: Ancestry>(git: &G, review: &FiledReview, base_sha: &str, head: &str) -> (r: Result<
    Standing,
    EngineError,
>)
    ensures
        is_standing(git, *review, base_sha@, head@, r),
{
    match candidate_of(review, base_sha) {
        None => Ok(Standing::Apart),
        Some(rev) => {
            let answer = ask_commit(git, rev);
            let ghost said = answer;
            let r = match answer {
                Err(e) => Err(e),
                Ok(None) => Ok(Standing::Apart),
                Ok(Some(other)) => if str_eq(&other, head) {
                    Ok(Standing::Same)
                } else {
                    relate(git, &review.id, other, head)
                },
            };
            assert(candidate(*review, base_sha@)->0 == rev@);
            assert(commit_answer(git, rev@, said));
            r
        },
    }
}

fn scan<G: Ancestry>(git: &G, filed: &[FiledReview], base_sha: &str, head: &str) -> (r: Result<
    Option<String>,
    EngineError,
>)
    ensures
        is_scanned(git, filed@, base_sha@, head@, 0, Seq::empty(), Seq::empty(), r),
{
    let mut behind: Vec<Placed> = Vec::new();
    let mut ahead: Vec<Placed> = Vec::new();
    assert(behind@ =~= Seq::<Placed>::empty());
    assert(ahead@ =~= Seq::<Placed>::empty());
    let mut i: usize = 0;
    while i < filed.len()
        invariant
            i <= filed@.len(),
            forall|r: Result<Option<String>, EngineError>| #[trigger]
                is_scanned(git, filed@, base_sha@, head@, i as int, behind@, ahead@, r)
                    ==> is_scanned(
                    git,
                    filed@,
                    base_sha@,
                    head@,
                    0,
                    Seq::empty(),
                    Seq::empty(),
                    r,
                ),
        decreases filed@.len() - i,
    {
        let s = standing(git, &filed[i], base_sha, head);
        assert(is_standing(git, filed@[i as int], base_sha@, head@, s));
        let ghost said = s;
        let ghost b = behind@;
        let ghost a = ahead@;
        match s {
            Err(e) => {
                let r = Err(e);
                assert(is_scanned(git, filed@, base_sha@, head@, i as int, b, a, r));
                return r;
            },
            Ok(Standing::Same) => {
                let r = Ok(Some(filed[i].id.clone()));
                assert(is_scanned(git, filed@, base_sha@, head@, i as int, b, a, r));
                return r;
            },
            Ok(Standing::Behind(p)) => {
                behind.push(p);
            },
            Ok(Standing::Ahead(p)) => {
                ahead.push(p);
            },
            Ok(Standing::Apart) => {},
        }
        assert forall|r: Result<Option<String>, EngineError>| #[trigger]
            is_scanned(git, filed@, base_sha@, head@, i + 1, behind@, ahead@, r) implies is_scanned(
            git,
            filed@,
            base_sha@,
            head@,
            0,
            Seq::empty(),
            Seq::empty(),
            r,
        ) by {
            assert(is_standing(git, filed@[i as int], base_sha@, head@, said));
            assert(is_scanned(git, filed@, base_sha@, head@, i as int, b, a, r));
        }
        i = i + 1;
    }
    let r = choose_end(git, &behind, &ahead);
    assert(is_scanned(git, filed@, base_sha@, head@, filed@.len() as int, behind@, ahead@, r));
    r
}

/// Whether a result is the review that a new spelling of a range adopts, if any; a
/// head that names no commit adopts nothing.
pub open spec fn is_adoption<G: Ancestry>(
    git: &G,
    filed: Seq<FiledReview>,
    opened_as: ReviewIdentity,
    r: Result<Option<String>, EngineError>,
) -> bool {
    match opened_as {
        ReviewIdentity::Range { base, head_spec } => exists|
            answer: Result<Option<String>, EngineError>,
        |
            {
                &&& #[trigger] commit_answer(git, head_spec@, answer)
                &&& match answer {
                    Err(e) => r == Err::<Option<String>, EngineError>(e),
                    Ok(None) => r == Ok::<Option<String>, EngineError>(None),
                    Ok(Some(head)) => is_scanned(
                        git,
                        filed,
                        base@,
                        head@,
                        0,
                        Seq::empty(),
                        Seq::empty(),
                        r,
                    ),
                }
            },
        _ => r == Ok::<Option<String>, EngineError>(None),
    }
}

/// The review that a new spelling of a range adopts, if any. Cheapest test first: the
/// base drops every review of other work before git is asked.
pub fn adopt<G: Ancestry>(git: &G, filed: &[FiledReview], opened_as: &ReviewIdentity) -> (r: Result<
    Option<String>,
    EngineError,
>)
    ensures
        is_adoption(git, filed@, *opened_as, r),
{
    match opened_as {
        ReviewIdentity::Range { base, head_spec } => {
            let answer = ask_commit(git, head_spec);
            assert(commit_answer(git, head_spec@, answer));
            match answer {
                Err(e) => Err(e),
                Ok(None) => Ok(None),
                Ok(Some(head)) => scan(git, filed, base, &head),
            }
        },
        _ => Ok(None),
    }
}

// ---------------------------------------------------------------------------
// Opening

/// Whether a result is what a catalogue makes of a record that has to be kept, and
/// then the review.
pub open spec fn is_recorded<C: ReviewCatalogue>(
    catalogue: &C,
    opened_as: ReviewIdentity,
    target: Seq<char>,
    write: Write,
    r: Result<String, EngineError>,
) -> bool {
    let own = own_id(opened_as);
    match write {
        Write::Nothing => r matches Ok(id) && id@ == target,
        Write::Identity => exists|id: &str, o: &ReviewIdentity, answer: Result<(), EngineError>|
            {
                &&& id@ == own && *o == opened_as
                &&& #[trigger] call_ensures(C::file_identity, (catalogue, id, o), answer)
                &&& is_kept(answer, target, r)
            },
        Write::Alias(other) => exists|id: &str, to: &str, answer: Result<(), EngineError>|
            {
                &&& id@ == own && to@ == other@
                &&& #[trigger] call_ensures(C::file_alias, (catalogue, id, to), answer)
                &&& is_kept(answer, target, r)
            },
    }
}

/// Whether a result is a review, unless its record was refused.
pub open spec fn is_kept(
    answer: Result<(), EngineError>,
    target: Seq<char>,
    r: Result<String, EngineError>,
) -> bool {
    match answer {
        Ok(_) => r matches Ok(id) && id@ == target,
        Err(e) => r == Err::<String, EngineError>(e),
    }
}

fn record<C: ReviewCatalogue>(
    catalogue: &C,
    opened_as: &ReviewIdentity,
    target: String,
    write: Write,
) -> (r: Result<String, EngineError>)
    ensures
        is_recorded(catalogue, *opened_as, target@, write, r),
{
    let own = identity_id(opened_as);
    let id: &str = own.as_str();
    let ghost asked = write;
    let answer = match write {
        Write::Nothing => Ok(()),
        Write::Identity => {
            let answer = catalogue.file_identity(id, opened_as);
            assert(call_ensures(C::file_identity, (catalogue, id, opened_as), answer));
            answer
        },
        Write::Alias(other) => {
            let to: &str = other.as_str();
            let answer = catalogue.file_alias(id, to);
            assert(call_ensures(C::file_alias, (catalogue, id, to), answer));
            answer
        },
    };
    let ghost said = answer;
    let r = match answer {
        Ok(_) => Ok(target),
        Err(e) => Err(e),
    };
    assert(asked is Nothing || is_kept(said, target@, r));
    r
}

/// Whether a result is the review that an identity opens, by what is on file.
pub open spec fn is_opened_among<C: ReviewCatalogue, G: Ancestry>(
    catalogue: &C,
    git: &G,
    opened_as: ReviewIdentity,
    filed: Seq<FiledReview>,
    r: Result<String, EngineError>,
) -> bool {
    exists|step: Step|
        {
            &&& #[trigger] is_step(opened_as, filed, step)
            &&& match step {
                Step::Done { id, write } => is_recorded(catalogue, opened_as, id@, write, r),
                Step::Adopt { id } => exists|adopted: Result<Option<String>, EngineError>|
                    {
                        &&& #[trigger] is_adoption(git, filed, opened_as, adopted)
                        &&& match adopted {
                            Err(e) => r == Err::<String, EngineError>(e),
                            Ok(heir) => exists|s: (String, Write)|
                                #[trigger] is_settled(id, heir, s) && is_recorded(
                                    catalogue,
                                    opened_as,
                                    s.0@,
                                    s.1,
                                    r,
                                ),
                        }
                    },
            }
        }
}

/// Whether a result is the review that an identity without a recorded join opens.
pub open spec fn is_opened_unjoined<C: ReviewCatalogue, G: Ancestry>(
    catalogue: &C,
    git: &G,
    opened_as: ReviewIdentity,
    r: Result<String, EngineError>,
) -> bool {
    exists|listed: Result<Vec<FiledReview>, EngineError>|
        {
            &&& #[trigger] call_ensures(C::filed_reviews, (catalogue,), listed)
            &&& match listed {
                Err(e) => r == Err::<String, EngineError>(e),
                Ok(filed) => is_opened_among(catalogue, git, opened_as, filed@, r),
            }
        }
}

/// Whether a catalogue gave an answer to where a review was joined to.
pub open spec fn alias_answer<C: ReviewCatalogue>(
    catalogue: &C,
    id: Seq<char>,
    answer: Result<Option<String>, EngineError>,
) -> bool {
    exists|s: &str| s@ == id && #[trigger] call_ensures(C::alias_of, (catalogue, s), answer)
}

/// Whether a result is the review that an identity opens. A recorded join of a range
/// ends the matter: no scan, and no question to git.
pub open spec fn is_opened<C: ReviewCatalogue, G: Ancestry>(
    catalogue: &C,
    git: &G,
    opened_as: ReviewIdentity,
    r: Result<String, EngineError>,
) -> bool {
    match opened_as {
        ReviewIdentity::Range { base, head_spec } => exists|
            answer: Result<Option<String>, EngineError>,
        |
            {
                &&& #[trigger] alias_answer(catalogue, own_id(opened_as), answer)
                &&& match answer {
                    Err(e) => r == Err::<String, EngineError>(e),
                    Ok(Some(target)) => r == Ok::<String, EngineError>(target),
                    Ok(None) => is_opened_unjoined(catalogue, git, opened_as, r),
                }
            },
        _ => is_opened_unjoined(catalogue, git, opened_as, r),
    }
}

fn open_unjoined<C: ReviewCatalogue, G: Ancestry>(
    catalogue: &C,
    git: &G,
    opened_as: &ReviewIdentity,
) -> (r: Result<String, EngineError>)
    ensures
        is_opened_unjoined(catalogue, git, *opened_as, r),
{
    let listed = catalogue.filed_reviews();
    assert(call_ensures(C::filed_reviews, (catalogue,), listed));
    let filed = match listed {
        Ok(filed) => filed,
        Err(e) => {
            return Err(e);
        },
    };
    let step = decide(opened_as, filed.as_slice());
    assert(is_step(*opened_as, filed@, step));
    let ghost taken = step;
    let r = match step {
        Step::Done { id, write } => record(catalogue, opened_as, id, write),
        Step::Adopt { id } => {
            let adopted = adopt(git, filed.as_slice(), opened_as);
            assert(is_adoption(git, filed@, *opened_as, adopted));
            match adopted {
                Err(e) => Err(e),
                Ok(heir) => {
                    let s = settle(id, heir);
                    assert(is_settled(id, heir, s));
                    let (target, write) = s;
                    record(catalogue, opened_as, target, write)
                },
            }
        },
    };
    assert(is_opened_among(catalogue, git, *opened_as, filed@, r));
    r
}

/// The review directory that an identity should read and write.
///
/// For a name or a request that is its own id. For a range it is the id of an
/// existing review where this spelling names the same work, with the join recorded;
/// otherwise its own id, with what it was opened as recorded so that a later spelling
/// can find it.
pub fn resolve<C: ReviewCatalogue, G: Ancestry>(
    catalogue: &C,
    git: &G,
    opened_as: &ReviewIdentity,
) -> (r: Result<String, EngineError>)
    ensures
        is_opened(catalogue, git, *opened_as, r),
{
    match opened_as {
        ReviewIdentity::Range { .. } => {
            let own = identity_id(opened_as);
            let id: &str = own.as_str();
            let answer = catalogue.alias_of(id);
            assert(call_ensures(C::alias_of, (catalogue, id), answer));
            assert(alias_answer(catalogue, own_id(*opened_as), answer));
            match answer {
                Err(e) => Err(e),
                Ok(Some(target)) => Ok(target),
                Ok(None) => open_unjoined(catalogue, git, opened_as),
            }
        },
        _ => open_unjoined(catalogue, git, opened_as),
    }
}

// ---------------------------------------------------------------------------
// Laws

/// Whether a filed review is of the same base and, by git's answers, at a commit on
/// the head's line of history: the head itself, behind it or ahead of it.
pub open spec fn is_on_our_line<G: Ancestry>(
    git: &G,
    review: FiledReview,
    base_sha: Seq<char>,
    head: Seq<char>,
) -> bool {
    candidate(review, base_sha) matches Some(spec) && exists|
        answer: Result<Option<String>, EngineError>,
    |
        {
            &&& #[trigger] commit_answer(git, spec, answer)
            &&& answer matches Ok(Some(other)) && {
                ||| other@ == head
                ||| ancestor_answer(git, other@, head, Ok::<bool, EngineError>(true))
                ||| ancestor_answer(git, head, other@, Ok::<bool, EngineError>(true))
            }
        }
}

/// Whether an id is that of a filed review on the head's line of history.
pub open spec fn is_one_on_our_line<G: Ancestry>(
    git: &G,
    filed: Seq<FiledReview>,
    base_sha: Seq<char>,
    head: Seq<char>,
    id: Seq<char>,
) -> bool {
    exists|k: int|
        0 <= k < filed.len() && filed[k].id@ == id && #[trigger] is_on_our_line(
            git,
            filed[k],
            base_sha,
            head,
        )
}

/// A range adopts a filed review of the same base alone, and one whose head is its own
/// head or is placed by git on the same line of history: two branches off one base
/// never share a review.
pub proof fn law_adoption_stays_on_one_line<G: Ancestry>(
    git: &G,
    filed: Seq<FiledReview>,
    opened_as: ReviewIdentity,
    r: Result<Option<String>, EngineError>,
)
    requires
        is_adoption(git, filed, opened_as, r),
        r matches Ok(Some(_)),
    ensures
        opened_as matches ReviewIdentity::Range { base, head_spec } && exists|head: String|
            commit_answer(git, head_spec@, Ok::<Option<String>, EngineError>(Some(head)))
                && #[trigger] is_one_on_our_line(git, filed, base@, head@, r->Ok_0->0@),
{
    if let ReviewIdentity::Range { base, head_spec } = opened_as {
        let answer = choose|answer: Result<Option<String>, EngineError>|
            {
                &&& #[trigger] commit_answer(git, head_spec@, answer)
                &&& match answer {
                    Err(e) => r == Err::<Option<String>, EngineError>(e),
                    Ok(None) => r == Ok::<Option<String>, EngineError>(None),
                    Ok(Some(head)) => is_scanned(
                        git,
                        filed,
                        base@,
                        head@,
                        0,
                        Seq::empty(),
                        Seq::empty(),
                        r,
                    ),
                }
            };
        let head = answer->Ok_0->0;
        lemma_scanned_on_our_line(git, filed, base@, head@, 0, Seq::empty(), Seq::empty(), r);
        assert(is_one_on_our_line(git, filed, base@, head@, r->Ok_0->0@));
    }
}

proof fn lemma_proved_is_best<G: Ancestry>(
    git: &G,
    set: Seq<Placed>,
    reach: Reach,
    best: int,
    i: int,
    r: Result<Option<String>, EngineError>,
)
    requires
        is_proved(git, set, reach, best, i, r),
        r matches Ok(Some(_)),
    ensures
        r->Ok_0->0@ == set[best].id@,
    decreases set.len() - i,
{
    if i < set.len() {
        lemma_proved_is_best(git, set, reach, best, i + 1, r);
    }
}

proof fn lemma_passed_is_a_member<G: Ancestry>(
    git: &G,
    set: Seq<Placed>,
    reach: Reach,
    best: int,
    i: int,
    r: Result<Option<String>, EngineError>,
) -> (at: int)
    requires
        is_passed(git, set, reach, best, i, r),
        0 <= best < set.len(),
        0 <= i,
        r matches Ok(Some(_)),
    ensures
        0 <= at < set.len(),
        r->Ok_0->0@ == set[at].id@,
    decreases set.len() - i,
{
    if i >= set.len() {
        lemma_proved_is_best(git, set, reach, best, 0, r);
        best
    } else if is_passed(git, set, reach, i, i + 1, r) {
        lemma_passed_is_a_member(git, set, reach, i, i + 1, r)
    } else {
        lemma_passed_is_a_member(git, set, reach, best, i + 1, r)
    }
}

proof fn lemma_extreme_on_our_line<G: Ancestry>(
    git: &G,
    filed: Seq<FiledReview>,
    base_sha: Seq<char>,
    head: Seq<char>,
    set: Seq<Placed>,
    reach: Reach,
    r: Result<Option<String>, EngineError>,
)
    requires
        is_extreme(git, set, reach, r),
        forall|j: int|
            0 <= j < set.len() ==> is_one_on_our_line(
                git,
                filed,
                base_sha,
                head,
                (#[trigger] set[j]).id@,
            ),
        r matches Ok(Some(_)),
    ensures
        is_one_on_our_line(git, filed, base_sha, head, r->Ok_0->0@),
{
    let at = lemma_passed_is_a_member(git, set, reach, 0, 1, r);
    assert(is_one_on_our_line(git, filed, base_sha, head, set[at].id@));
}

proof fn lemma_scanned_on_our_line<G: Ancestry>(
    git: &G,
    filed: Seq<FiledReview>,
    base_sha: Seq<char>,
    head: Seq<char>,
    i: int,
    behind: Seq<Placed>,
    ahead: Seq<Placed>,
    r: Result<Option<String>, EngineError>,
)
    requires
        is_scanned(git, filed, base_sha, head, i, behind, ahead, r),
        0 <= i,
        forall|j: int|
            0 <= j < behind.len() ==> is_one_on_our_line(
                git,
                filed,
                base_sha,
                head,
                (#[trigger] behind[j]).id@,
            ),
        forall|j: int|
            0 <= j < ahead.len() ==> is_one_on_our_line(
                git,
                filed,
                base_sha,
                head,
                (#[trigger] ahead[j]).id@,
            ),
        r matches Ok(Some(_)),
    ensures
        is_one_on_our_line(git, filed, base_sha, head, r->Ok_0->0@),
    decreases filed.len() - i,
{
    if i >= filed.len() {
        let newest = choose|newest: Result<Option<String>, EngineError>|
            {
                &&& #[trigger] is_extreme(git, behind, Reach::Newest, newest)
                &&& match newest {
                    Ok(None) => is_extreme(git, ahead, Reach::Oldest, r),
                    _ => r == newest,
                }
            };
        if newest matches Ok(None) {
            lemma_extreme_on_our_line(git, filed, base_sha, head, ahead, Reach::Oldest, r);
        } else {
            lemma_extreme_on_our_line(git, filed, base_sha, head, behind, Reach::Newest, r);
        }
    } else {
        let s = choose|s: Result<Standing, EngineError>|
            {
                &&& #[trigger] is_standing(git, filed[i], base_sha, head, s)
                &&& match s {
                    Err(e) => r == Err::<Option<String>, EngineError>(e),
                    Ok(Standing::Same) => r matches Ok(Some(id)) && id@ == filed[i].id@,
                    Ok(Standing::Behind(p)) => is_scanned(
                        git,
                        filed,
                        base_sha,
                        head,
                        i + 1,
                        behind.push(p),
                        ahead,
                        r,
                    ),
                    Ok(Standing::Ahead(p)) => is_scanned(
                        git,
                        filed,
                        base_sha,
                        head,
                        i + 1,
                        behind,
                        ahead.push(p),
                        r,
                    ),
                    Ok(Standing::Apart) => is_scanned(
                        git,
                        filed,
                        base_sha,
                        head,
                        i + 1,
                        behind,
                        ahead,
                        r,
                    ),
                }
            };
        assert(s is Ok);
        if !(s->Ok_0 is Apart) {
            assert(is_on_our_line(git, filed[i], base_sha, head));
        }
        match s->Ok_0 {
            Standing::Same => {},
            Standing::Behind(p) => {
                assert(p.id@ == filed[i].id@);
                assert(is_one_on_our_line(git, filed, base_sha, head, p.id@));
                lemma_scanned_on_our_line(
                    git,
                    filed,
                    base_sha,
                    head,
                    i + 1,
                    behind.push(p),
                    ahead,
                    r,
                );
            },
            Standing::Ahead(p) => {
                assert(p.id@ == filed[i].id@);
                assert(is_one_on_our_line(git, filed, base_sha, head, p.id@));
                lemma_scanned_on_our_line(
                    git,
                    filed,
                    base_sha,
                    head,
                    i + 1,
                    behind,
                    ahead.push(p),
                    r,
                );
            },
            Standing::Apart => {
                lemma_scanned_on_our_line(git, filed, base_sha, head, i + 1, behind, ahead, r);
            },
        }
    }
}

/// Whether git answers every question on ancestry, and by one partial order: each
/// commit reaches itself, none that it reaches reaches it, and what it reaches through
/// another it reaches.
pub open spec fn answers_by<G: Ancestry>(
    git: &G,
    le: spec_fn(Seq<char>, Seq<char>) -> bool,
) -> bool {
    &&& forall|a: Seq<char>, b: Seq<char>, answer: Result<bool, EngineError>| #[trigger]
        ancestor_answer(git, a, b, answer) ==> answer == Ok::<bool, EngineError>(le(a, b))
    &&& forall|a: Seq<char>| #[trigger] le(a, a)
    &&& forall|a: Seq<char>, b: Seq<char>| #[trigger] le(a, b) && le(b, a) ==> a == b
    &&& forall|a: Seq<char>, b: Seq<char>, c: Seq<char>|
        #[trigger] le(a, b) && #[trigger] le(b, c) ==> le(a, c)
}

/// Whether commit `b` lies at least as far out as commit `a`.
pub open spec fn reaches(
    le: spec_fn(Seq<char>, Seq<char>) -> bool,
    reach: Reach,
    a: Seq<char>,
    b: Seq<char>,
) -> bool {
    match reach {
        Reach::Newest => le(a, b),
        Reach::Oldest => le(b, a),
    }
}

/// Whether a member of a set is its end: every member reaches it.
pub open spec fn is_end(
    le: spec_fn(Seq<char>, Seq<char>) -> bool,
    reach: Reach,
    set: Seq<Placed>,
    k: int,
) -> bool {
    0 <= k < set.len() && forall|j: int|
        0 <= j < set.len() ==> reaches(le, reach, (#[trigger] set[j]).commit@, set[k].commit@)
}

/// Whether no two members of a set stand at one commit.
pub open spec fn commits_differ(set: Seq<Placed>) -> bool {
    forall|i: int, j: int|
        0 <= i < j < set.len() ==> (#[trigger] set[i]).commit@ != (#[trigger] set[j]).commit@
}

proof fn lemma_proved<G: Ancestry>(
    git: &G,
    le: spec_fn(Seq<char>, Seq<char>) -> bool,
    set: Seq<Placed>,
    reach: Reach,
    best: int,
    i: int,
    r: Result<Option<String>, EngineError>,
)
    requires
        answers_by(git, le),
        0 <= best < set.len(),
        0 <= i,
        is_proved(git, set, reach, best, i, r),
    ensures
        match r {
            Ok(Some(id)) => id@ == set[best].id@ && forall|j: int|
                i <= j < set.len() ==> reaches(
                    le,
                    reach,
                    (#[trigger] set[j]).commit@,
                    set[best].commit@,
                ),
            Ok(None) => exists|j: int|
                i <= j < set.len() && !reaches(
                    le,
                    reach,
                    (#[trigger] set[j]).commit@,
                    set[best].commit@,
                ),
            Err(_) => false,
        },
    decreases set.len() - i,
{
    if i < set.len() {
        assert(set[i] == set[i]);
        if i == best || reaches(le, reach, set[i].commit@, set[best].commit@) {
            lemma_proved(git, le, set, reach, best, i + 1, r);
        }
    }
}

proof fn lemma_passed<G: Ancestry>(
    git: &G,
    le: spec_fn(Seq<char>, Seq<char>) -> bool,
    set: Seq<Placed>,
    reach: Reach,
    best: int,
    i: int,
    r: Result<Option<String>, EngineError>,
) -> (at: int)
    requires
        answers_by(git, le),
        commits_differ(set),
        0 <= best < set.len(),
        0 <= i,
        is_passed(git, set, reach, best, i, r),
    ensures
        0 <= at < set.len(),
        is_proved(git, set, reach, at, 0, r),
        forall|k: int| #[trigger] is_end(le, reach, set, k) && (k == best || k >= i) ==> at == k,
    decreases set.len() - i,
{
    if i >= set.len() {
        best
    } else {
        let further = reaches(le, reach, set[best].commit@, set[i].commit@);
        let next = if further {
            i
        } else {
            best
        };
        assert(is_passed(git, set, reach, next, i + 1, r));
        let at = lemma_passed(git, le, set, reach, next, i + 1, r);
        assert forall|k: int| #[trigger]
            is_end(le, reach, set, k) && (k == best || k >= i) implies at == k by {
            assert(reaches(le, reach, set[best].commit@, set[k].commit@));
            assert(reaches(le, reach, set[i].commit@, set[k].commit@));
            if k == best && further && i != best {
                assert(set[i].commit@ == set[k].commit@);
            }
        }
        at
    }
}

/// Where ancestry is a partial order and the commits differ, the end of a set is the
/// member that every other member reaches, and none where there is no such member.
pub proof fn law_the_end_is_reached_by_all<G: Ancestry>(
    git: &G,
    le: spec_fn(Seq<char>, Seq<char>) -> bool,
    set: Seq<Placed>,
    reach: Reach,
    r: Result<Option<String>, EngineError>,
)
    requires
        answers_by(git, le),
        commits_differ(set),
        is_extreme(git, set, reach, r),
    ensures
        match r {
            Ok(Some(id)) => exists|k: int| #[trigger]
                is_end(le, reach, set, k) && id@ == set[k].id@,
            Ok(None) => forall|k: int| !(#[trigger] is_end(le, reach, set, k)),
            Err(_) => false,
        },
{
    if set.len() > 0 {
        let at = lemma_passed(git, le, set, reach, 0, 1, r);
        lemma_proved(git, le, set, reach, at, 0, r);
        if r matches Ok(Some(_)) {
            assert(is_end(le, reach, set, at));
        } else {
            assert forall|k: int| !(#[trigger] is_end(le, reach, set, k)) by {
                if is_end(le, reach, set, k) {
                    assert(at == k);
                }
            }
        }
    }
}

/// The end of a set does not depend on the order in which its members are listed.
pub proof fn law_the_end_does_not_depend_on_the_order<G: Ancestry>(
    git: &G,
    le: spec_fn(Seq<char>, Seq<char>) -> bool,
    set: Seq<Placed>,
    other: Seq<Placed>,
    reach: Reach,
    r: Result<Option<String>, EngineError>,
    s: Result<Option<String>, EngineError>,
)
    requires
        answers_by(git, le),
        commits_differ(set),
        commits_differ(other),
        forall|j: int| 0 <= j < set.len() ==> other.contains(#[trigger] set[j]),
        forall|j: int| 0 <= j < other.len() ==> set.contains(#[trigger] other[j]),
        is_extreme(git, set, reach, r),
        is_extreme(git, other, reach, s),
    ensures
        match r {
            Ok(Some(id)) => s matches Ok(Some(same)) && same@ == id@,
            Ok(None) => s == r,
            Err(_) => false,
        },
{
    law_the_end_is_reached_by_all(git, le, set, reach, r);
    law_the_end_is_reached_by_all(git, le, other, reach, s);
    if let Ok(Some(id)) = r {
        let k = choose|k: int| #[trigger] is_end(le, reach, set, k) && id@ == set[k].id@;
        let m = lemma_end_moves(le, reach, set, other, k);
        if let Ok(Some(same)) = s {
            let n = choose|n: int| #[trigger] is_end(le, reach, other, n) && same@ == other[n].id@;
            lemma_one_end(git, le, reach, other, m, n);
        }
    }
    if let Ok(Some(same)) = s {
        let n = choose|n: int| #[trigger] is_end(le, reach, other, n) && same@ == other[n].id@;
        let k = lemma_end_moves(le, reach, other, set, n);
    }
}

proof fn lemma_end_moves(
    le: spec_fn(Seq<char>, Seq<char>) -> bool,
    reach: Reach,
    set: Seq<Placed>,
    other: Seq<Placed>,
    k: int,
) -> (m: int)
    requires
        is_end(le, reach, set, k),
        forall|j: int| 0 <= j < set.len() ==> other.contains(#[trigger] set[j]),
        forall|j: int| 0 <= j < other.len() ==> set.contains(#[trigger] other[j]),
    ensures
        is_end(le, reach, other, m),
        other[m] == set[k],
{
    assert(other.contains(set[k]));
    let m = choose|m: int| 0 <= m < other.len() && other[m] == set[k];
    assert forall|j: int| 0 <= j < other.len() implies reaches(
        le,
        reach,
        (#[trigger] other[j]).commit@,
        other[m].commit@,
    ) by {
        assert(set.contains(other[j]));
        let i = choose|i: int| 0 <= i < set.len() && set[i] == other[j];
        assert(reaches(le, reach, set[i].commit@, set[k].commit@));
    }
    m
}

proof fn lemma_one_end<G: Ancestry>(
    git: &G,
    le: spec_fn(Seq<char>, Seq<char>) -> bool,
    reach: Reach,
    set: Seq<Placed>,
    m: int,
    n: int,
)
    requires
        answers_by(git, le),
        commits_differ(set),
        is_end(le, reach, set, m),
        is_end(le, reach, set, n),
    ensures
        m == n,
{
    assert(reaches(le, reach, set[m].commit@, set[n].commit@));
    assert(reaches(le, reach, set[n].commit@, set[m].commit@));
    assert(set[m].commit@ == set[n].commit@);
}

/// Whether git, asked what commit a revision names, answers with this one alone.
pub open spec fn always_names<G: Ancestry>(git: &G, rev: Seq<char>, commit: Seq<char>) -> bool {
    forall|answer: Result<Option<String>, EngineError>| #[trigger]
        commit_answer(git, rev, answer) ==> (answer matches Ok(Some(c)) && c@ == commit)
}

/// Whether git answers every question.
pub open spec fn never_refuses<G: Ancestry>(git: &G) -> bool {
    &&& forall|rev: Seq<char>, answer: Result<Option<String>, EngineError>| #[trigger]
        commit_answer(git, rev, answer) ==> answer is Ok
    &&& forall|a: Seq<char>, b: Seq<char>, answer: Result<bool, EngineError>| #[trigger]
        ancestor_answer(git, a, b, answer) ==> answer is Ok
}

/// Whether a filed review is the first whose head is a commit.
pub open spec fn is_first_at<G: Ancestry>(
    git: &G,
    filed: Seq<FiledReview>,
    base_sha: Seq<char>,
    head: Seq<char>,
    k: int,
) -> bool {
    &&& 0 <= k < filed.len()
    &&& candidate(filed[k], base_sha) matches Some(spec) && always_names(git, spec, head)
    &&& forall|j: int, s: Result<Standing, EngineError>|
        0 <= j < k && #[trigger] is_standing(git, filed[j], base_sha, head, s) ==> s != Ok::<
            Standing,
            EngineError,
        >(Standing::Same)
}

proof fn lemma_first_at_is_adopted<G: Ancestry>(
    git: &G,
    filed: Seq<FiledReview>,
    base_sha: Seq<char>,
    head: Seq<char>,
    k: int,
    i: int,
    behind: Seq<Placed>,
    ahead: Seq<Placed>,
    r: Result<Option<String>, EngineError>,
)
    requires
        never_refuses(git),
        is_first_at(git, filed, base_sha, head, k),
        0 <= i <= k,
        is_scanned(git, filed, base_sha, head, i, behind, ahead, r),
    ensures
        r matches Ok(Some(id)) && id@ == filed[k].id@,
    decreases k - i,
{
    let s = choose|s: Result<Standing, EngineError>|
        {
            &&& #[trigger] is_standing(git, filed[i], base_sha, head, s)
            &&& match s {
                Err(e) => r == Err::<Option<String>, EngineError>(e),
                Ok(Standing::Same) => r matches Ok(Some(id)) && id@ == filed[i].id@,
                Ok(Standing::Behind(p)) => is_scanned(
                    git,
                    filed,
                    base_sha,
                    head,
                    i + 1,
                    behind.push(p),
                    ahead,
                    r,
                ),
                Ok(Standing::Ahead(p)) => is_scanned(
                    git,
                    filed,
                    base_sha,
                    head,
                    i + 1,
                    behind,
                    ahead.push(p),
                    r,
                ),
                Ok(Standing::Apart) => is_scanned(
                    git,
                    filed,
                    base_sha,
                    head,
                    i + 1,
                    behind,
                    ahead,
                    r,
                ),
            }
        };
    assert(s is Ok);
    if i == k {
        assert(s->Ok_0 is Same);
    } else {
        match s->Ok_0 {
            Standing::Same => {},
            Standing::Behind(p) => lemma_first_at_is_adopted(
                git,
                filed,
                base_sha,
                head,
                k,
                i + 1,
                behind.push(p),
                ahead,
                r,
            ),
            Standing::Ahead(p) => lemma_first_at_is_adopted(
                git,
                filed,
                base_sha,
                head,
                k,
                i + 1,
                behind,
                ahead.push(p),
                r,
            ),
            Standing::Apart => lemma_first_at_is_adopted(
                git,
                filed,
                base_sha,
                head,
                k,
                i + 1,
                behind,
                ahead,
                r,
            ),
        }
    }
}

/// Whether a result is a review that an id was joined to, with the join recorded.
pub open spec fn is_joined<C: ReviewCatalogue>(
    catalogue: &C,
    from: Seq<char>,
    target: Seq<char>,
    r: Result<String, EngineError>,
) -> bool {
    exists|id: &str, to: &str, answer: Result<(), EngineError>|
        {
            &&& id@ == from && to@ == target
            &&& #[trigger] call_ensures(C::file_alias, (catalogue, id, to), answer)
            &&& is_kept(answer, target, r)
        }
}

/// A new spelling of a range whose head is the very commit of a filed review opens
/// that review, and what is written down is the join, unless the record is refused.
pub proof fn law_one_commit_is_one_review<C: ReviewCatalogue, G: Ancestry>(
    catalogue: &C,
    git: &G,
    base: String,
    head_spec: String,
    filed: Seq<FiledReview>,
    head: Seq<char>,
    k: int,
    r: Result<String, EngineError>,
)
    requires
        head_spec@ != WORKTREE_SPEC@,
        never_refuses(git),
        always_names(git, head_spec@, head),
        is_first_at(git, filed, base@, head, k),
    ensures
        ({
            let opened_as = ReviewIdentity::Range { base, head_spec };
            first_filed(filed, own_id(opened_as), 0) is None && is_opened_among(
                catalogue,
                git,
                opened_as,
                filed,
                r,
            ) ==> is_joined(catalogue, own_id(opened_as), filed[k].id@, r)
        }),
{
    let opened_as = ReviewIdentity::Range { base, head_spec };
    if first_filed(filed, own_id(opened_as), 0) is None && is_opened_among(
        catalogue,
        git,
        opened_as,
        filed,
        r,
    ) {
        assert forall|adopted: Result<Option<String>, EngineError>| #[trigger]
            is_adoption(git, filed, opened_as, adopted) implies (adopted matches Ok(Some(id))
            && id@ == filed[k].id@) by {
            let answer = choose|answer: Result<Option<String>, EngineError>|
                {
                    &&& #[trigger] commit_answer(git, head_spec@, answer)
                    &&& match answer {
                        Err(e) => adopted == Err::<Option<String>, EngineError>(e),
                        Ok(None) => adopted == Ok::<Option<String>, EngineError>(None),
                        Ok(Some(h)) => is_scanned(
                            git,
                            filed,
                            base@,
                            h@,
                            0,
                            Seq::empty(),
                            Seq::empty(),
                            adopted,
                        ),
                    }
                };
            assert(answer->Ok_0->0@ == head);
            lemma_first_at_is_adopted(
                git,
                filed,
                base@,
                head,
                k,
                0,
                Seq::empty(),
                Seq::empty(),
                adopted,
            );
        }
    }
}

/// A range with a recorded join opens the review that it was joined to. Neither git nor
/// the list of reviews has a say: another git, and another catalogue that gives the same
/// answer about the join, open the same review.
pub proof fn law_a_join_ends_the_matter<
    C: ReviewCatalogue,
    D: ReviewCatalogue,
    G: Ancestry,
    H: Ancestry,
>(
    catalogue: &C,
    git: &G,
    elsewhere: &D,
    other_git: &H,
    base: String,
    head_spec: String,
    target: Seq<char>,
    r: Result<String, EngineError>,
)
    ensures
        ({
            let opened_as = ReviewIdentity::Range { base, head_spec };
            has_join(catalogue, own_id(opened_as), target) && is_opened(
                catalogue,
                git,
                opened_as,
                r,
            ) ==> {
                &&& r matches Ok(id) && id@ == target
                &&& alias_answer(
                    elsewhere,
                    own_id(opened_as),
                    Ok::<Option<String>, EngineError>(Some(r->Ok_0)),
                ) ==> is_opened(elsewhere, other_git, opened_as, r)
            }
        }),
{
}

/// Whether a catalogue, asked where an id was joined to, answers with this review alone.
pub open spec fn has_join<C: ReviewCatalogue>(
    catalogue: &C,
    id: Seq<char>,
    target: Seq<char>,
) -> bool {
    forall|answer: Result<Option<String>, EngineError>| #[trigger]
        alias_answer(catalogue, id, answer) ==> (answer matches Ok(Some(t)) && t@ == target)
}

/// A range that was joined to a review opens that review again, wherever its head and
/// the other reviews have gone, as long as the catalogue gives back the join that was
/// recorded.
pub proof fn law_a_second_opening_is_the_same_review<
    C: ReviewCatalogue,
    D: ReviewCatalogue,
    G: Ancestry,
>(
    catalogue: &C,
    later: &D,
    git: &G,
    base: String,
    head_spec: String,
    target: Seq<char>,
    first: Result<String, EngineError>,
    second: Result<String, EngineError>,
)
    ensures
        ({
            let opened_as = ReviewIdentity::Range { base, head_spec };
            is_joined(catalogue, own_id(opened_as), target, first) && first is Ok && has_join(
                later,
                own_id(opened_as),
                target,
            ) && is_opened(later, git, opened_as, second) ==> second is Ok && second->Ok_0@
                == first->Ok_0@
        }),
{
}

/// Whether a review with an id is on file.
pub open spec fn is_on_file(filed: Seq<FiledReview>, id: Seq<char>) -> bool {
    exists|i: int| 0 <= i < filed.len() && (#[trigger] filed[i]).id@ == id
}

proof fn lemma_on_file(filed: Seq<FiledReview>, id: Seq<char>, from: int)
    requires
        0 <= from,
    ensures
        match first_filed(filed, id, from) {
            Some(i) => from <= i < filed.len() && filed[i].id@ == id && forall|j: int|
                from <= j < i ==> (#[trigger] filed[j]).id@ != id,
            None => forall|j: int| from <= j < filed.len() ==> (#[trigger] filed[j]).id@ != id,
        },
    decreases filed.len() - from,
{
    if from < filed.len() && filed[from].id@ != id {
        lemma_on_file(filed, id, from + 1);
    }
}

/// A range that is not on file looks for a review to adopt, unless it is the working
/// tree. Everything else stands for itself, under its own id, and is written down where
/// nothing on file says what it was opened as.
pub proof fn law_only_a_new_range_adopts(
    opened_as: &ReviewIdentity,
    filed: &[FiledReview],
    id: String,
    r: Step,
)
    requires
        call_ensures(identity_id, (opened_as,), id),
        call_ensures(decide, (opened_as, filed), r),
    ensures
        r is Adopt <==> (opened_as matches ReviewIdentity::Range { base, head_spec } && head_spec@
            != "WORKTREE"@ && !is_on_file(filed@, id@)),
        r matches Step::Adopt { id: got } ==> got@ == id@,
        r matches Step::Done { id: got, write } ==> got@ == id@,
        opened_as matches ReviewIdentity::Range { base, head_spec } && head_spec@ == "WORKTREE"@
            ==> (r matches Step::Done { id: got, write } && write == Write::Nothing),
        !(opened_as is Range) ==> (r matches Step::Done { id: got, write } && (if is_on_file(
            filed@,
            id@,
        ) {
            write == Write::Nothing
        } else {
            write == Write::Identity
        })),
        opened_as matches ReviewIdentity::Range { base, head_spec } && head_spec@ != "WORKTREE"@
            ==> forall|i: int|
            0 <= i < filed@.len() && (#[trigger] filed@[i]).id@ == id@ && (forall|j: int|
                0 <= j < i ==> (#[trigger] filed@[j]).id@ != id@) ==> (r matches Step::Done {
                id: got,
                write,
            } && (if filed@[i].opened_as is None {
                write == Write::Identity
            } else {
                write == Write::Nothing
            })),
{
    lemma_on_file(filed@, id@, 0);
    if let Some(k) = first_filed(filed@, id@, 0) {
        assert(filed@[k].id@ == id@);
    }
}

/// A new spelling that adopts a review leads to it; one that adopts none is a review of
/// its own.
pub proof fn law_a_spelling_leads_to_what_it_adopts(
    id: String,
    target: String,
    r: (String, Write),
    s: (String, Write),
)
    requires
        call_ensures(settle, (id, Some(target)), r),
        call_ensures(settle, (id, None::<String>), s),
    ensures
        r.0@ == target@,
        r.1 matches Write::Alias(to) && to@ == target@,
        s.0@ == id@,
        s.1 == Write::Identity,
{
}

} // verus!
