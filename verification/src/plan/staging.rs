//! What a file contributes to a tree, decided without touching git. The writing
//! stays with whoever owns an index.
use vstd::prelude::*;

use crate::model::{Disposition, FileChange};
use crate::text::{lossy, lossy_text, push_str};
use crate::EngineError;

verus! {

/// How one file should be staged.
#[derive(Debug, Clone, Copy, PartialEq, Eq)]
pub enum Staged<'a> {
    /// Drop the path from the tree.
    Remove,
    /// Stage an id recorded in the diff, verbatim: gitlinks and binary files
    /// carry no hunks, so a recorded id is the sole available content.
    Recorded { mode: &'a str, oid: &'a str },
    /// Stage content computed by applying hunks, never by copying the head blob:
    /// with the copy the tree assertion would hold by construction and prove
    /// nothing.
    Apply { mode: &'a str },
}

/// What a staging decision says.
pub enum StagedView {
    Remove,
    Recorded { mode: Seq<char>, oid: Seq<char> },
    Apply { mode: Seq<char> },
}

impl<'a> View for Staged<'a> {
    type V = StagedView;

    open spec fn view(&self) -> StagedView {
        match self {
            Staged::Remove => StagedView::Remove,
            Staged::Recorded { mode, oid } => StagedView::Recorded { mode: mode@, oid: oid@ },
            Staged::Apply { mode } => StagedView::Apply { mode: mode@ },
        }
    }
}

pub open spec fn opt(o: Option<String>) -> Option<Seq<char>> {
    match o {
        Some(s) => Some(s@),
        None => None,
    }
}

/// The commit id that a gitlink moves to: what the pseudo-hunk says, else what the
/// raw record says.
pub open spec fn link_oid(f: FileChange) -> Option<Seq<char>> {
    match f.submodule {
        Some((_, Some(new))) => Some(new@),
        _ => opt(f.new_oid),
    }
}

/// The final state of a file with every hunk applied, or what is missing.
pub open spec fn final_decision(f: FileChange) -> Result<StagedView, Seq<char>> {
    let path = lossy_text(f.path@);
    if f.disposition == Disposition::Deleted {
        Ok(StagedView::Remove)
    } else {
        match opt(f.new_mode) {
            None => Err("no new mode recorded for "@ + path),
            Some(mode) => if f.submodule is Some {
                match link_oid(f) {
                    Some(oid) => Ok(StagedView::Recorded { mode, oid }),
                    None => Err("submodule "@ + path + " has no new commit id"@),
                }
            } else if f.binary {
                match opt(f.new_oid) {
                    Some(oid) => Ok(StagedView::Recorded { mode, oid }),
                    None => Err("binary file "@ + path + " has no recorded oid"@),
                }
            } else {
                Ok(StagedView::Apply { mode })
            },
        }
    }
}

/// The state of a file after some of its hunks, or what is missing.
pub open spec fn cumulative_decision(f: FileChange, applied: int) -> Result<StagedView, Seq<char>> {
    let path = lossy_text(f.path@);
    if f.disposition == Disposition::Deleted && applied == f.hunks@.len() {
        Ok(StagedView::Remove)
    } else if f.submodule is Some {
        match link_oid(f) {
            Some(oid) => Ok(StagedView::Recorded { mode: "160000"@, oid }),
            None => Err("submodule "@ + path + " has no new commit id"@),
        }
    } else {
        match (opt(f.new_mode), opt(f.old_mode)) {
            (Some(mode), _) => Ok(StagedView::Apply { mode }),
            (None, Some(mode)) => Ok(StagedView::Apply { mode }),
            (None, None) => Err("no mode recorded for "@ + path),
        }
    }
}

/// Whether a result is a decision: the same state, or an invariant failure with
/// the same message.
pub open spec fn decides(
    r: Result<Staged<'_>, EngineError>,
    want: Result<StagedView, Seq<char>>,
) -> bool {
    match (r, want) {
        (Ok(s), Ok(v)) => s@ == v,
        (Err(EngineError::Invariant(msg)), Err(m)) => msg@ == m,
        _ => false,
    }
}

fn complaint(before: &str, path: &[u8], after: &str) -> (r: EngineError)
    ensures
        r matches EngineError::Invariant(msg) && msg@ == before@ + lossy_text(path@) + after@,
{
    let mut msg = String::new();
    push_str(&mut msg, before);
    push_str(&mut msg, &lossy(path));
    push_str(&mut msg, after);
    assert(msg@ =~= before@ + lossy_text(path@) + after@);
    EngineError::Invariant(msg)
}

/// The commit id that a gitlink moves to.
fn new_link(f: &FileChange) -> (r: Option<&str>)
    ensures
        match r {
            Some(s) => link_oid(*f) == Some(s@),
            None => link_oid(*f) is None,
        },
{
    if let Some(pair) = &f.submodule {
        if let Some(new) = &pair.1 {
            return Some(new.as_str());
        }
    }
    match &f.new_oid {
        Some(oid) => Some(oid.as_str()),
        None => None,
    }
}

/// The core tree builder's rule: the file's final state, every hunk applied.
pub fn final_state(f: &FileChange) -> (r: Result<Staged<'_>, EngineError>)
    ensures
        decides(r, final_decision(*f)),
{
    if f.disposition == Disposition::Deleted {
        return Ok(Staged::Remove);
    }
    let mode: &str = match &f.new_mode {
        Some(m) => m.as_str(),
        None => {
            proof {
                reveal_strlit("");
            }
            assert("no new mode recorded for "@ + lossy_text(f.path@) + ""@
                =~= "no new mode recorded for "@ + lossy_text(f.path@));
            return Err(complaint("no new mode recorded for ", &f.path, ""));
        },
    };
    if f.submodule.is_some() {
        return match new_link(f) {
            Some(oid) => Ok(Staged::Recorded { mode, oid }),
            None => Err(complaint("submodule ", &f.path, " has no new commit id")),
        };
    }
    if f.binary {
        return match &f.new_oid {
            Some(oid) => Ok(Staged::Recorded { mode, oid: oid.as_str() }),
            None => Err(complaint("binary file ", &f.path, " has no recorded oid")),
        };
    }
    Ok(Staged::Apply { mode })
}

/// The stack renderer's rule: the file's state after `applied` of its hunks.
///
/// - A deletion is a removal only once every hunk has been applied, or the stack
///   would drop a file mid-series and lose the hunks still to come.
/// - The mode falls back to the old one, because a partially built file may not
///   have reached the commit that sets its new one.
/// - Submodules are decided before the mode, since a gitlink's mode is a
///   constant.
pub fn cumulative_state(f: &FileChange, applied: usize) -> (r: Result<Staged<'_>, EngineError>)
    ensures
        decides(r, cumulative_decision(*f, applied as int)),
{
    if f.disposition == Disposition::Deleted && applied == f.hunks.len() {
        return Ok(Staged::Remove);
    }
    if f.submodule.is_some() {
        return match new_link(f) {
            Some(oid) => Ok(Staged::Recorded { mode: "160000", oid }),
            None => Err(complaint("submodule ", &f.path, " has no new commit id")),
        };
    }
    if let Some(mode) = &f.new_mode {
        return Ok(Staged::Apply { mode: mode.as_str() });
    }
    if let Some(mode) = &f.old_mode {
        return Ok(Staged::Apply { mode: mode.as_str() });
    }
    proof {
        reveal_strlit("");
    }
    assert("no mode recorded for "@ + lossy_text(f.path@) + ""@ =~= "no mode recorded for "@
        + lossy_text(f.path@));
    Err(complaint("no mode recorded for ", &f.path, ""))
}

/// A text file is always rebuilt from its hunks, never staged from a recorded id.
pub proof fn law_text_is_rebuilt_from_hunks(f: FileChange, applied: int)
    requires
        !f.binary,
        f.submodule is None,
    ensures
        !(final_decision(f) matches Ok(StagedView::Recorded { .. })),
        !(cumulative_decision(f, applied) matches Ok(StagedView::Recorded { .. })),
{
}

/// A deletion that still has hunks to come keeps its file; with the last one the
/// file goes.
pub proof fn law_deletion_waits_for_the_last_hunk(f: FileChange, applied: int)
    requires
        f.disposition == Disposition::Deleted,
    ensures
        cumulative_decision(f, applied) matches Ok(StagedView::Remove) <==> applied
            == f.hunks@.len(),
{
}

/// Whether an optional string is a text.
pub open spec fn says(o: Option<String>, text: Seq<char>) -> bool {
    o matches Some(s) && s@ == text
}

/// Whether a submodule moves to a commit: the one its change names, else the one the
/// file records.
pub open spec fn moves_to(f: &FileChange, oid: Seq<char>) -> bool {
    f.submodule matches Some(pair) && match pair.1 {
        Some(new) => new@ == oid,
        None => says(f.new_oid, oid),
    }
}

/// In its final state a deleted file is gone, a submodule is the commit it moves to, a
/// binary file the object it records, and a text is rebuilt, all under the new mode.
/// It fails where one of these is not recorded, and nowhere else.
pub proof fn law_the_final_state_is_what_is_recorded(
    f: &FileChange,
    r: Result<Staged<'_>, EngineError>,
)
    requires
        call_ensures(final_state, (f,), r),
    ensures
        r matches Ok(Staged::Remove) <==> f.disposition == Disposition::Deleted,
        r matches Ok(Staged::Apply { mode }) ==> says(f.new_mode, mode@) && !f.binary
            && f.submodule is None,
        r matches Ok(Staged::Recorded { mode, oid }) ==> says(f.new_mode, mode@) && (moves_to(
            f,
            oid@,
        ) || (f.submodule is None && f.binary && says(f.new_oid, oid@))),
        r is Err <==> f.disposition != Disposition::Deleted && (f.new_mode is None || (f.new_oid
            is None && match f.submodule {
            Some(pair) => pair.1 is None,
            None => f.binary,
        })),
{
    assert(decides(r, final_decision(*f)));
}

/// While hunks are still to come, a deleted file stays. A submodule is the commit it
/// moves to, under the mode of links; every other file is rebuilt, under its new mode
/// or, without one, its old one.
pub proof fn law_a_state_on_the_way_is_what_is_recorded(
    f: &FileChange,
    applied: usize,
    r: Result<Staged<'_>, EngineError>,
)
    requires
        call_ensures(cumulative_state, (f, applied), r),
    ensures
        r matches Ok(Staged::Remove) <==> f.disposition == Disposition::Deleted && applied
            == f.hunks@.len(),
        r matches Ok(Staged::Apply { mode }) ==> f.submodule is None && match f.new_mode {
            Some(new) => new@ == mode@,
            None => says(f.old_mode, mode@),
        },
        r matches Ok(Staged::Recorded { mode, oid }) ==> mode@ == "160000"@ && moves_to(f, oid@),
        r is Err <==> !(f.disposition == Disposition::Deleted && applied == f.hunks@.len())
            && match f.submodule {
            Some(pair) => pair.1 is None && f.new_oid is None,
            None => f.new_mode is None && f.old_mode is None,
        },
{
    assert(decides(r, cumulative_decision(*f, applied as int)));
}

} // verus!
