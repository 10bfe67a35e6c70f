//! The prompt: instructions, a path, and the class ids.
//!
//! The class id list stays in the prompt: it means a model whose fetches all fail
//! still knows the exact id set.
use vstd::prelude::*;

use crate::grouping::ClassInfo;
use crate::seqs::{join, join_texts, sorted_by, stable_order, texts};
use crate::text::{replace, replaced};

verus! {

/// Feeds the cache key: raise it on any change to the prompt text or to what the
/// model can fetch, or cached groupings would silently mix prompt generations.
pub const PROMPT_VERSION: u32 = 6;

/// The classes with most hunks first, ties by exemplar.
pub open spec fn by_weight(offered: Seq<&ClassInfo>) -> Seq<&ClassInfo> {
    sorted_by(
        offered,
        |a: &ClassInfo, b: &ClassInfo|
            a.n_hunks > b.n_hunks || (a.n_hunks == b.n_hunks && a.exemplar < b.exemplar),
    )
}

/// The prompt template with the values of one run filled in.
pub open spec fn prompt_text(
    template: Seq<char>,
    ids: Seq<Seq<char>>,
    fetch: Seq<char>,
    artefact: Seq<char>,
    base: Seq<char>,
    head: Seq<char>,
) -> Seq<char> {
    let a = replaced(template, "{{FETCH}}"@, fetch);
    let b = replaced(a, "{{DOC}}"@, artefact);
    let c = replaced(b, "{{BASE}}"@, base);
    let d = replaced(c, "{{HEAD}}"@, head);
    replaced(d, "{{CLASS_IDS}}"@, join(ids, ' '))
}

/// Instructions, the commands, and the class id list: the template, the
/// executable, the artefact path and the range are the caller's decisions, this
/// function only writes them down.
pub fn build_prompt(
    template: &str,
    offered: &[&ClassInfo],
    fetch: &str,
    artefact: &str,
    base: &str,
    head: &str,
) -> (r: String)
    ensures
        r@ == prompt_text(
            template@,
            crate::grouping::ids_of(by_weight(offered@)),
            fetch@,
            artefact@,
            base@,
            head@,
        ),
{
    let ghost f = |a: &ClassInfo, b: &ClassInfo|
        a.n_hunks > b.n_hunks || (a.n_hunks == b.n_hunks && a.exemplar < b.exemplar);
    let ghost lt = |i: int, j: int| f(offered@[i], offered@[j]);
    let less = |i: usize, j: usize| -> (r: bool)
        requires
            i < offered@.len(),
            j < offered@.len(),
        ensures
            r == (offered@[i as int].n_hunks > offered@[j as int].n_hunks || (
            offered@[i as int].n_hunks == offered@[j as int].n_hunks && offered@[i as int].exemplar
                < offered@[j as int].exemplar)),
        {
            offered[i].n_hunks > offered[j].n_hunks || (offered[i].n_hunks == offered[j].n_hunks
                && offered[i].exemplar < offered[j].exemplar)
        };
    let order = stable_order(offered.len(), less, Ghost(lt));
    let ghost classes = by_weight(offered@);
    let ghost names = crate::grouping::ids_of(classes);
    let mut ids: Vec<String> = Vec::new();
    for k in 0..order.len()
        invariant
            names.len() == order@.len(),
            order@.len() == offered@.len(),
            forall|a: int| 0 <= a < order@.len() ==> (#[trigger] order@[a]) < offered@.len(),
            forall|a: int|
                0 <= a < order@.len() ==> #[trigger] names[a] == offered@[order@[a] as int].id@,
            texts(ids@) == names.take(k as int),
    {
        let ghost had = texts(ids@);
        ids.push(offered[order[k]].id.clone());
        assert(texts(ids@) =~= had.push(names[k as int]));
        assert(texts(ids@) =~= names.take(k + 1));
    }
    assert(names.take(names.len() as int) =~= names);
    let list = join_texts(&ids, ' ');
    proof {
        reveal_strlit("{{FETCH}}");
        reveal_strlit("{{DOC}}");
        reveal_strlit("{{BASE}}");
        reveal_strlit("{{HEAD}}");
        reveal_strlit("{{CLASS_IDS}}");
    }
    let a = replace(template, "{{FETCH}}", fetch);
    let b = replace(&a, "{{DOC}}", artefact);
    let c = replace(&b, "{{BASE}}", base);
    let d = replace(&c, "{{HEAD}}", head);
    replace(&d, "{{CLASS_IDS}}", &list)
}

} // verus!
