//! Cache or call: where the model's answer comes from.
//!
//! Labels differ between two calls of a model, coverage does not, so a grouping is
//! pinned by a content hash of everything that determines it. What is kept is the
//! raw answer: audit and assembly are replayed on every load.
use vstd::prelude::*;

use super::key::{cache_key, key_preimage};
use super::ClassInfo;
use crate::hash::{hex_text, sha1_digest};
use crate::llm::{LlmBackend, LlmError};
use crate::ports::GroupingCache;
use crate::EngineError;

verus! {

/// What the grouping stage is run with.
pub struct GroupingOptions<'a, B: LlmBackend, C: GroupingCache> {
    pub backend: &'a B,
    pub cache: &'a C,
    /// The command that the prompt tells the model to read with.
    pub fetch: &'a str,
}

/// Pipeline stage notifications, in the order they occur. `Grouping` carries the
/// backend's name so that a renderer can say which agent it is waiting on.
#[derive(Debug, Clone, PartialEq, Eq)]
pub enum Progress {
    Enumerating,
    Classifying,
    Grouping { backend: String, cached: bool },
    Arranging,
    Done,
}

/// The key of a grouping.
pub open spec fn key_text(
    offered: Seq<&ClassInfo>,
    identity: Seq<char>,
    fingerprint: Seq<char>,
) -> Seq<char> {
    hex_text(sha1_digest(key_preimage(offered, identity, fingerprint)))
}

/// Whether an answer is the model's own to a prompt, kept under a key before it is
/// handed on.
pub open spec fn is_completion<B: LlmBackend, C: GroupingCache>(
    backend: &B,
    cache: &C,
    prompt: &str,
    key: &str,
    r: Result<String, EngineError>,
) -> bool {
    exists|answer: Result<String, LlmError>|
        {
            &&& #[trigger] call_ensures(B::complete, (backend, prompt), answer)
            &&& match answer {
                Err(e) => r == Err::<String, EngineError>(EngineError::Llm(e)),
                Ok(text) => exists|kept: Result<(), EngineError>, response: &str|
                    {
                        &&& response@ == text@
                        &&& #[trigger] call_ensures(C::put, (cache, key, response), kept)
                        &&& match kept {
                            Ok(_) => r matches Ok(t) && t@ == text@,
                            Err(e) => r == Err::<String, EngineError>(e),
                        }
                    },
            }
        }
}

/// Whether an answer is the one on file under a key, or else the model's own.
pub open spec fn is_response<B: LlmBackend, C: GroupingCache>(
    backend: &B,
    cache: &C,
    prompt: &str,
    key: Seq<char>,
    r: Result<String, EngineError>,
) -> bool {
    exists|k: &str, hit: Result<Option<String>, EngineError>|
        {
            &&& k@ == key
            &&& #[trigger] call_ensures(C::get, (cache, k), hit)
            &&& match hit {
                Err(e) => r == Err::<String, EngineError>(e),
                Ok(Some(text)) => r == Ok::<String, EngineError>(text),
                Ok(None) => is_completion(backend, cache, prompt, k, r),
            }
        }
}

/// The model's answer to a prompt: the one on file, or a new one, which is kept.
/// A kept answer is handed on without a call of the model.
pub fn fetch_response<B: LlmBackend, C: GroupingCache, F: Fn(Progress)>(
    prompt: &str,
    offered: &[&ClassInfo],
    options: &GroupingOptions<'_, B, C>,
    lang_fingerprint: &str,
    progress: &F,
) -> (r: Result<String, EngineError>)
    requires
        forall|p: Progress| #[trigger] call_requires(*progress, (p,)),
    ensures
        exists|identity: &str|
            {
                &&& #[trigger] call_ensures(B::identity, (options.backend,), identity)
                &&& is_response(
                    options.backend,
                    options.cache,
                    prompt,
                    key_text(offered@, identity@, lang_fingerprint@),
                    r,
                )
            },
{
    let identity = options.backend.identity();
    assert(call_ensures(B::identity, (options.backend,), identity));
    let key = cache_key(offered, identity, lang_fingerprint);
    let k: &str = key.as_str();
    let hit = options.cache.get(k);
    assert(call_ensures(C::get, (options.cache, k), hit));
    match hit {
        Err(e) => {
            return Err(e);
        },
        Ok(Some(text)) => {
            progress(
                Progress::Grouping { backend: options.backend.name().to_owned(), cached: true },
            );
            return Ok(text);
        },
        Ok(None) => {},
    }
    progress(Progress::Grouping { backend: options.backend.name().to_owned(), cached: false });
    let answer = options.backend.complete(prompt);
    assert(call_ensures(B::complete, (options.backend, prompt), answer));
    match answer {
        Err(e) => Err(EngineError::Llm(e)),
        Ok(text) => {
            let response: &str = text.as_str();
            let kept = options.cache.put(k, response);
            assert(call_ensures(C::put, (options.cache, k, response), kept));
            match kept {
                Ok(_) => Ok(text),
                Err(e) => Err(e),
            }
        },
    }
}

} // verus!
