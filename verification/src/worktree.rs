//! Tree snapshots of uncommitted state: the index and the worktree as plain tree
//! ids, so that the rest of the pipeline runs on them unchanged. The user's index
//! is never written to.
use vstd::prelude::*;

use crate::ports::{IndexSession, TreeBuilder, WorkingCopy};
use crate::EngineError;

verus! {

/// Whether an answer is the tree of the current index, as git gave it.
pub open spec fn is_index_tree<G: TreeBuilder>(git: &G, r: Result<String, EngineError>) -> bool {
    exists|begun: Result<G::Session, EngineError>|
        {
            &&& #[trigger] call_ensures(G::begin_from_current_index, (git,), begun)
            &&& match begun {
                Err(e) => r == Err::<String, EngineError>(e),
                Ok(session) => call_ensures(G::Session::write_tree, (&session,), r),
            }
        }
}

/// Tree id of the current index (the staged state).
pub fn index_tree<G: TreeBuilder>(git: &G) -> (r: Result<String, EngineError>)
    ensures
        is_index_tree(git, r),
{
    let begun = git.begin_from_current_index();
    assert(call_ensures(G::begin_from_current_index, (git,), begun));
    match begun {
        Err(e) => Err(e),
        Ok(session) => session.write_tree(),
    }
}

/// Whether an answer is the tree of some paths staged into a session, as git gave
/// it.
pub open spec fn is_staged_tree<S: IndexSession>(
    session: S,
    followed: Seq<u8>,
    untracked: Seq<u8>,
    r: Result<String, EngineError>,
) -> bool {
    exists|paths: &[u8], staged: Result<S, EngineError>|
        {
            &&& paths@ == followed + untracked
            &&& #[trigger] call_ensures(S::stage_from_worktree, (session, paths), staged)
            &&& match staged {
                Err(e) => r == Err::<String, EngineError>(e),
                Ok(done) => call_ensures(S::write_tree, (&done,), r),
            }
        }
}

/// Whether an answer is the tree of a session with the untracked paths staged
/// behind the others.
pub open spec fn is_tree_with_untracked<G: TreeBuilder + WorkingCopy>(
    git: &G,
    session: G::Session,
    others: Seq<u8>,
    r: Result<String, EngineError>,
) -> bool {
    exists|untracked: Result<Vec<u8>, EngineError>|
        {
            &&& #[trigger] call_ensures(G::untracked_paths, (git,), untracked)
            &&& match untracked {
                Err(e) => r == Err::<String, EngineError>(e),
                Ok(new) => is_staged_tree(session, others, new@, r),
            }
        }
}

/// Whether an answer is the tree of a session with the paths of the working copy
/// staged: those that git follows first.
pub open spec fn is_tree_of_session<G: TreeBuilder + WorkingCopy>(
    git: &G,
    session: G::Session,
    r: Result<String, EngineError>,
) -> bool {
    exists|followed: Result<Vec<u8>, EngineError>|
        {
            &&& #[trigger] call_ensures(G::tracked_paths, (git,), followed)
            &&& match followed {
                Err(e) => r == Err::<String, EngineError>(e),
                Ok(paths) => is_tree_with_untracked(git, session, paths@, r),
            }
        }
}

/// Whether an answer is the tree of the worktree, as git gave it: a session on the
/// current index, with every path of the working copy staged into it.
pub open spec fn is_worktree_tree<G: TreeBuilder + WorkingCopy>(
    git: &G,
    r: Result<String, EngineError>,
) -> bool {
    exists|begun: Result<G::Session, EngineError>|
        {
            &&& #[trigger] call_ensures(G::begin_from_current_index, (git,), begun)
            &&& match begun {
                Err(e) => r == Err::<String, EngineError>(e),
                Ok(session) => is_tree_of_session(git, session, r),
            }
        }
}

/// Tree id of the worktree: every followed file's current content plus files that
/// are neither followed nor ignored, with deletions honoured.
pub fn worktree_tree<G: TreeBuilder + WorkingCopy>(git: &G) -> (r: Result<String, EngineError>)
    ensures
        is_worktree_tree(git, r),
{
    let begun = git.begin_from_current_index();
    assert(call_ensures(G::begin_from_current_index, (git,), begun));
    let session = match begun {
        Err(e) => {
            return Err(e);
        },
        Ok(s) => s,
    };
    let followed = git.tracked_paths();
    assert(call_ensures(G::tracked_paths, (git,), followed));
    let mut paths = match followed {
        Err(e) => {
            return Err(e);
        },
        Ok(p) => p,
    };
    let ghost known = paths@;
    let untracked = git.untracked_paths();
    assert(call_ensures(G::untracked_paths, (git,), untracked));
    let new = match untracked {
        Err(e) => {
            return Err(e);
        },
        Ok(p) => p,
    };
    paths.extend_from_slice(new.as_slice());
    assert(paths@ =~= known + new@);
    let list = paths.as_slice();
    let staged = session.stage_from_worktree(list);
    assert(call_ensures(G::Session::stage_from_worktree, (session, list), staged));
    match staged {
        Err(e) => Err(e),
        Ok(done) => done.write_tree(),
    }
}

} // verus!
