//! Build the final tree from applied hunks, against a scratch index.
//!
//! Text file content is always computed by applying hunks, never by copying head
//! blobs, so tree equality with the head is a real assertion. Binary files and
//! submodules are staged from the id that the diff records.
use vstd::prelude::*;
use vstd::string::*;
use vstd::utf8::encode_utf8;

use crate::apply::{applied, apply_hunks};
use crate::gitio::IndexEntry;
use crate::invariants::{
    applicable, blob_answer, bytes_opt, fitting_hunks, hunks_of, is_misfit, misfit,
};
use crate::model::{DiffView, FileChange};
use crate::plan::staging::{final_decision, final_state, Staged, StagedView};
use crate::ports::{IndexSession, ObjectReader, ObjectWriter, TreeBuilder};
use crate::rename_view::ZERO_OID;
use crate::seqs::{copy_bytes, join, law_split_undoes_join, split, views};
use crate::EngineError;

verus! {

/// One record: `<mode> <oid>\t<path>`.
pub open spec fn entry_bytes(mode: Seq<char>, oid: Seq<char>, path: Seq<u8>) -> Seq<u8> {
    encode_utf8(mode) + seq![32u8] + encode_utf8(oid) + seq![9u8] + path
}

/// One record: `<mode> <oid>\t<path>`.
pub fn index_entry(mode: &str, oid: &str, path: &[u8]) -> (r: Vec<u8>)
    ensures
        r@ == entry_bytes(mode@, oid@, path@),
{
    let mut line: Vec<u8> = Vec::new();
    line.extend_from_slice(mode.as_bytes());
    line.push(32u8);
    line.extend_from_slice(oid.as_bytes());
    line.push(9u8);
    line.extend_from_slice(path);
    assert(line@ =~= entry_bytes(mode@, oid@, path@));
    line
}

/// Removal record (mode 0).
pub fn removal_entry(path: &[u8]) -> (r: Vec<u8>)
    ensures
        r@ == entry_bytes("0"@, ZERO_OID@, path@),
{
    index_entry("0", ZERO_OID, path)
}

/// Whether a repository may answer so to content that is written.
pub open spec fn write_answer<G: ObjectWriter>(
    git: &G,
    content: Seq<u8>,
    answer: Result<String, EngineError>,
) -> bool {
    exists|c: &[u8]| c@ == content && #[trigger] call_ensures(G::write_blob, (git, c), answer)
}

/// Whether an entry puts an object at a path.
pub open spec fn puts(e: IndexEntry, at: Seq<char>, id: Seq<char>, file: Seq<u8>) -> bool {
    e matches IndexEntry::Put { mode, oid, path } && mode@ == at && oid@ == id && path@ == file
}

/// Whether an entry stages what the hunks make of a text file: its base was read, the
/// hunks were applied to it, and the content was written.
pub open spec fn is_rebuilt_entry<G: ObjectReader + ObjectWriter>(
    git: &G,
    base: Seq<char>,
    view: &DiffView,
    f: FileChange,
    mode: Seq<char>,
    e: IndexEntry,
) -> bool {
    exists|content: Option<Vec<u8>>, oid: String|
        {
            &&& #[trigger] blob_answer(git, base, f.path@, Ok(content))
            &&& applicable(view, f, bytes_opt(content))
            &&& #[trigger] write_answer(
                git,
                applied(bytes_opt(content), hunks_of(view, f)),
                Ok(oid),
            )
            &&& puts(e, mode, oid@, f.path@)
        }
}

/// Whether an entry stages the final state of a file.
pub open spec fn is_entry<G: ObjectReader + ObjectWriter>(
    git: &G,
    base: Seq<char>,
    view: &DiffView,
    f: FileChange,
    e: IndexEntry,
) -> bool {
    match final_decision(f) {
        Ok(StagedView::Remove) => e matches IndexEntry::Remove { path } && path@ == f.path@,
        Ok(StagedView::Recorded { mode, oid }) => puts(e, mode, oid, f.path@),
        Ok(StagedView::Apply { mode }) => is_rebuilt_entry(git, base, view, f, mode, e),
        Err(_) => false,
    }
}

/// Whether staging a file failed with an error: something was not recorded, the base
/// could not be read, the hunks do not fit it, or the content could not be written.
pub open spec fn is_unstaged<G: ObjectReader + ObjectWriter>(
    git: &G,
    base: Seq<char>,
    view: &DiffView,
    f: FileChange,
    e: EngineError,
) -> bool {
    match final_decision(f) {
        Err(m) => e matches EngineError::Invariant(msg) && msg@ == m,
        Ok(StagedView::Apply { .. }) => {
            ||| blob_answer(git, base, f.path@, Err(e))
            ||| exists|content: Option<Vec<u8>>|
                {
                    &&& #[trigger] blob_answer(git, base, f.path@, Ok(content))
                    &&& if applicable(view, f, bytes_opt(content)) {
                        write_answer(
                            git,
                            applied(bytes_opt(content), hunks_of(view, f)),
                            Err(e),
                        )
                    } else {
                        is_misfit(e, f.path@)
                    }
                }
        },
        Ok(_) => false,
    }
}

fn put(mode: &str, oid: &str, path: &[u8]) -> (r: IndexEntry)
    ensures
        puts(r, mode@, oid@, path@),
{
    IndexEntry::Put { mode: mode.to_owned(), oid: oid.to_owned(), path: copy_bytes(path) }
}

/// The entry that stages a file's final state on top of `base`.
pub fn staging_entry<G: ObjectReader + ObjectWriter>(
    git: &G,
    base: &str,
    view: &DiffView,
    f: &FileChange,
) -> (r: Result<IndexEntry, EngineError>)
    ensures
        match r {
            Ok(e) => is_entry(git, base@, view, *f, e),
            Err(e) => is_unstaged(git, base@, view, *f, e),
        },
{
    let path = f.path.as_slice();
    let mode = match final_state(f) {
        Err(e) => {
            return Err(e);
        },
        Ok(Staged::Remove) => {
            return Ok(IndexEntry::Remove { path: copy_bytes(path) });
        },
        Ok(Staged::Recorded { mode, oid }) => {
            return Ok(put(mode, oid, path));
        },
        Ok(Staged::Apply { mode }) => mode,
    };
    let answer = git.blob(base, path);
    assert(blob_answer(git, base@, f.path@, answer));
    let content = match answer {
        Ok(c) => c,
        Err(e) => {
            return Err(e);
        },
    };
    let hunks = match fitting_hunks(view, f, &content) {
        Some(hunks) => hunks,
        None => {
            return Err(misfit(path));
        },
    };
    let text = match &content {
        Some(b) => apply_hunks(Some(b.as_slice()), hunks.as_slice()),
        None => apply_hunks(None, hunks.as_slice()),
    };
    let answer = git.write_blob(text.as_slice());
    assert(write_answer(git, applied(bytes_opt(content), hunks_of(view, *f)), answer));
    match answer {
        Ok(oid) => Ok(put(mode, &oid, path)),
        Err(e) => Err(e),
    }
}

/// Whether entries stage every file of a view.
pub open spec fn all_staged<G: ObjectReader + ObjectWriter>(
    git: &G,
    base: Seq<char>,
    view: &DiffView,
    entries: Seq<IndexEntry>,
    k: int,
) -> bool {
    forall|i: int|
        0 <= i < k ==> is_entry(git, base, view, #[trigger] view.files@[i], entries[i])
}

/// Whether an answer is the tree of entries staged into a session.
pub open spec fn is_tree_of_entries<S: IndexSession>(
    session: S,
    entries: &Vec<IndexEntry>,
    r: Result<String, EngineError>,
) -> bool {
    exists|staged: Result<S, EngineError>|
        {
            &&& #[trigger] call_ensures(S::stage, (session, entries), staged)
            &&& match staged {
                Err(e) => r == Err::<String, EngineError>(e),
                Ok(done) => call_ensures(S::write_tree, (&done,), r),
            }
        }
}

/// Whether an answer is the tree of every file's final state, on top of a session.
pub open spec fn is_staged_on<G: ObjectReader + ObjectWriter + TreeBuilder>(
    git: &G,
    base: Seq<char>,
    view: &DiffView,
    session: G::Session,
    r: Result<String, EngineError>,
) -> bool {
    ||| exists|entries: &Vec<IndexEntry>|
        {
            &&& entries@.len() == view.files@.len()
            &&& all_staged(git, base, view, entries@, entries@.len() as int)
            &&& #[trigger] is_tree_of_entries(session, entries, r)
        }
    ||| exists|i: int|
        0 <= i < view.files@.len() && (r matches Err(e) && is_unstaged(
            git,
            base,
            view,
            #[trigger] view.files@[i],
            e,
        ))
}

/// Whether an answer is the tree that the hunks make of a base.
pub open spec fn is_built_tree<G: ObjectReader + ObjectWriter + TreeBuilder>(
    git: &G,
    base: Seq<char>,
    view: &DiffView,
    r: Result<String, EngineError>,
) -> bool {
    exists|b: &str, begun: Result<G::Session, EngineError>|
        {
            &&& b@ == base
            &&& #[trigger] call_ensures(G::begin_from_tree, (git, b), begun)
            &&& match begun {
                Err(e) => r == Err::<String, EngineError>(e),
                Ok(session) => is_staged_on(git, base, view, session, r),
            }
        }
}

/// Stage every file's final state on top of `base` and return the written tree.
pub fn build_tree<G: ObjectReader + ObjectWriter + TreeBuilder>(
    git: &G,
    base: &str,
    view: &DiffView,
) -> (r: Result<String, EngineError>)
    ensures
        is_built_tree(git, base@, view, r),
{
    let begun = git.begin_from_tree(base);
    assert(call_ensures(G::begin_from_tree, (git, base), begun));
    let session = match begun {
        Ok(session) => session,
        Err(e) => {
            return Err(e);
        },
    };
    let mut entries: Vec<IndexEntry> = Vec::new();
    for i in 0..view.files.len()
        invariant
            call_ensures(G::begin_from_tree, (git, base), begun),
            begun == Ok::<G::Session, EngineError>(session),
            entries@.len() == i,
            all_staged(git, base@, view, entries@, i as int),
    {
        let ghost had = entries@;
        match staging_entry(git, base, view, &view.files[i]) {
            Ok(e) => {
                entries.push(e);
                assert forall|k: int| 0 <= k < i + 1 implies is_entry(
                    git,
                    base@,
                    view,
                    #[trigger] view.files@[k],
                    entries@[k],
                ) by {
                    if k < i {
                        assert(entries@[k] == had[k]);
                    }
                }
            },
            Err(e) => {
                assert(is_unstaged(git, base@, view, view.files@[i as int], e));
                assert(is_staged_on(git, base@, view, session, Err(e)));
                return Err(e);
            },
        }
    }
    let staged = session.stage(&entries);
    assert(call_ensures(G::Session::stage, (session, &entries), staged));
    let r = match staged {
        Ok(done) => done.write_tree(),
        Err(e) => Err(e),
    };
    assert(is_tree_of_entries(session, &entries, r));
    assert(is_staged_on(git, base@, view, session, r));
    r
}

/// Records, each with a zero behind it.
pub open spec fn feed_bytes(entries: Seq<Seq<u8>>) -> Seq<u8>
    decreases entries.len(),
{
    if entries.len() == 0 {
        Seq::empty()
    } else {
        feed_bytes(entries.drop_last()) + entries.last() + seq![0u8]
    }
}

/// One bulk feed of all records: quoting-proof and fast.
pub fn index_feed(entries: &Vec<Vec<u8>>) -> (r: Vec<u8>)
    ensures
        r@ == feed_bytes(views(entries@)),
{
    let mut feed: Vec<u8> = Vec::new();
    let ghost all = views(entries@);
    for i in 0..entries.len()
        invariant
            all == views(entries@),
            feed@ == feed_bytes(all.take(i as int)),
    {
        assert(all.take(i + 1).drop_last() =~= all.take(i as int));
        feed.extend_from_slice(&entries[i]);
        feed.push(0u8);
        assert(feed@ =~= feed_bytes(all.take(i + 1)));
    }
    assert(all.take(all.len() as int) =~= all);
    feed
}

/// Records are fed one behind the other, a zero byte behind each, and can be told apart
/// where none holds one.
pub proof fn law_the_feed_ends_every_record(entries: &Vec<Vec<u8>>, r: Vec<u8>)
    requires
        call_ensures(index_feed, (entries,), r),
        forall|i: int| 0 <= i < entries@.len() ==> !(#[trigger] entries@[i])@.contains(0u8),
    ensures
        split(r@, 0u8) == views(entries@).push(Seq::<u8>::empty()),
{
    let all = views(entries@);
    let parts = all.push(Seq::<u8>::empty());
    lemma_feed(all);
    assert forall|i: int| 0 <= i < parts.len() implies !(#[trigger] parts[i]).contains(0u8) by {
        if i < all.len() {
            assert(parts[i] == entries@[i]@);
        }
    }
    law_split_undoes_join(parts, 0u8);
}

proof fn lemma_feed(entries: Seq<Seq<u8>>)
    ensures
        feed_bytes(entries) == join(entries.push(Seq::<u8>::empty()), 0u8),
    decreases entries.len(),
{
    let none = Seq::<u8>::empty();
    let parts = entries.push(none);
    assert(parts.drop_last() =~= entries);
    if entries.len() > 0 {
        let fewer = entries.drop_last();
        lemma_feed(fewer);
        assert(fewer.push(none).drop_last() =~= fewer);
        if fewer.len() > 0 {
            assert(join(fewer.push(none), 0u8) =~= join(fewer, 0u8).push(0u8));
            assert(join(entries, 0u8) =~= join(fewer, 0u8).push(0u8) + entries.last());
        } else {
            assert(feed_bytes(fewer) =~= none);
            assert(entries[0] == entries.last());
        }
        assert(feed_bytes(entries) =~= join(entries, 0u8).push(0u8) + none);
    } else {
        assert(parts[0] =~= none);
    }
}

/// An entry of the index is its mode, a blank, the id of its object, a tab and its path.
pub proof fn law_an_index_entry_names_mode_object_and_path(
    mode: &str,
    oid: &str,
    path: &[u8],
    r: Vec<u8>,
)
    requires
        call_ensures(index_entry, (mode, oid, path), r),
    ensures
        r@ == encode_utf8(mode@) + seq![32u8] + encode_utf8(oid@) + seq![9u8] + path@,
{
}

} // verus!
