//! The grouping cache key: labels differ from one model call to the next,
//! coverage does not, so a grouping is pinned by a content hash of everything
//! that determines it. The cached value is the raw answer; audit and assembly are
//! replayed on load.
use vstd::prelude::*;
use vstd::string::*;
use vstd::utf8::encode_utf8;

use crate::grouping::payload::PROMPT_VERSION;
use crate::grouping::ClassInfo;
use crate::hash::{hex_text, sha1_digest, sha1_hex};
use crate::plan::identity::lemma_encoding_tells;
use crate::seqs::{
    chars_lt, join, lemma_join_injective, lemma_join_push, lemma_sorted_multiset, sorted_by,
    stable_order, str_less, texts,
};

verus! {

/// The classes in the order of their ids.
pub open spec fn by_id(offered: Seq<&ClassInfo>) -> Seq<&ClassInfo> {
    sorted_by(offered, |a: &ClassInfo, b: &ClassInfo| chars_lt(a.id@, b.id@))
}

/// Digests, each behind a one.
pub open spec fn digest_part(digests: Seq<Seq<char>>) -> Seq<u8>
    decreases digests.len(),
{
    if digests.len() == 0 {
        Seq::empty()
    } else {
        digest_part(digests.drop_last()) + seq![1u8] + encode_utf8(digests.last())
    }
}

/// Classes, each behind a zero: the id, then the digests.
pub open spec fn class_part(classes: Seq<&ClassInfo>) -> Seq<u8>
    decreases classes.len(),
{
    if classes.len() == 0 {
        Seq::empty()
    } else {
        class_part(classes.drop_last()) + seq![0u8] + encode_utf8(classes.last().id@)
            + digest_part(texts(classes.last().digests@))
    }
}

/// What the key is the hash of: prompt generation (little-endian), backend
/// identity, normaliser fingerprint, and the exact class structure.
pub open spec fn key_preimage(
    offered: Seq<&ClassInfo>,
    backend: Seq<char>,
    fingerprint: Seq<char>,
) -> Seq<u8> {
    seq![PROMPT_VERSION as u8, 0u8, 0u8, 0u8, 0u8] + encode_utf8(backend) + seq![0u8]
        + encode_utf8(fingerprint) + class_part(by_id(offered))
}

/// The key of a grouping in the cache.
pub fn cache_key(offered: &[&ClassInfo], backend_name: &str, lang_fingerprint: &str) -> (r: String)
    ensures
        r@ == hex_text(
            sha1_digest(key_preimage(offered@, backend_name@, lang_fingerprint@)),
        ),
{
    let mut text: Vec<u8> = vec![PROMPT_VERSION as u8, 0u8, 0u8, 0u8, 0u8];
    assert(text@ =~= seq![PROMPT_VERSION as u8, 0u8, 0u8, 0u8, 0u8]);
    text.extend_from_slice(backend_name.as_bytes());
    text.push(0u8);
    text.extend_from_slice(lang_fingerprint.as_bytes());
    let ghost head = seq![PROMPT_VERSION as u8, 0u8, 0u8, 0u8, 0u8] + encode_utf8(backend_name@)
        + seq![0u8] + encode_utf8(lang_fingerprint@);
    assert(text@ =~= head);

    let ghost f = |a: &ClassInfo, b: &ClassInfo| chars_lt(a.id@, b.id@);
    let ghost lt = |i: int, j: int| f(offered@[i], offered@[j]);
    let less = |i: usize, j: usize| -> (r: bool)
        requires
            i < offered@.len(),
            j < offered@.len(),
        ensures
            r == chars_lt(offered@[i as int].id@, offered@[j as int].id@),
        { str_less(&offered[i].id, &offered[j].id) };
    proof {
        let ids = crate::grouping::ids_of(offered@);
        crate::seqs::lemma_lt_is_order(ids);
        let g = |i: int, j: int| (|a: Seq<char>, b: Seq<char>| chars_lt(a, b))(ids[i], ids[j]);
        assert forall|i: int, j: int|
            0 <= i < offered@.len() && 0 <= j < offered@.len() implies #[trigger] lt(i, j) == g(
            i,
            j,
        ) by {}
        assert(crate::seqs::is_order(offered@.len() as int, g));
        assert(crate::seqs::is_order(offered@.len() as int, lt));
    }
    let order = stable_order(offered.len(), less, Ghost(lt));
    let ghost classes = by_id(offered@);
    assert(classes.take(0) =~= Seq::<&ClassInfo>::empty());
    for k in 0..order.len()
        invariant
            classes.len() == offered@.len(),
            order@.len() == offered@.len(),
            forall|a: int| 0 <= a < order@.len() ==> (#[trigger] order@[a]) < offered@.len(),
            forall|a: int| 0 <= a < order@.len() ==> classes[a] == offered@[order@[a] as int],
            text@ == head + class_part(classes.take(k as int)),
    {
        let c = offered[order[k]];
        proof {
            assert(classes.take(k + 1).drop_last() =~= classes.take(k as int));
            assert(classes.take(k + 1).last() == c);
        }
        let ghost before = text@;
        text.push(0u8);
        text.extend_from_slice(c.id.as_str().as_bytes());
        let ghost opened = before + seq![0u8] + encode_utf8(c.id@);
        let ghost ds = texts(c.digests@);
        assert(text@ =~= opened + digest_part(ds.take(0)));
        for j in 0..c.digests.len()
            invariant
                ds == texts(c.digests@),
                text@ == opened + digest_part(ds.take(j as int)),
        {
            assert(ds.take(j + 1).drop_last() =~= ds.take(j as int));
            text.push(1u8);
            text.extend_from_slice(c.digests[j].as_str().as_bytes());
            assert(text@ =~= opened + digest_part(ds.take(j + 1)));
        }
        assert(ds.take(ds.len() as int) =~= ds);
        assert(text@ =~= head + class_part(classes.take(k + 1)));
    }
    assert(classes.take(classes.len() as int) =~= classes);
    sha1_hex(&text)
}

/// Whether a text can stand in what the key is made of: it has neither of the two bytes
/// that separate.
pub open spec fn separable(s: Seq<char>) -> bool {
    !encode_utf8(s).contains(0u8) && !encode_utf8(s).contains(1u8)
}

/// Whether a class can.
pub open spec fn class_separable(c: &ClassInfo) -> bool {
    separable(c.id@) && forall|k: int|
        0 <= k < c.digests@.len() ==> separable((#[trigger] c.digests@[k])@)
}

/// Whether two classes have one id and the same contents.
pub open spec fn same_class(a: &ClassInfo, b: &ClassInfo) -> bool {
    a.id@ == b.id@ && texts(a.digests@) == texts(b.digests@)
}

/// Whether two lists hold the same classes: each of the one has its like in the other.
pub open spec fn same_classes(a: Seq<&ClassInfo>, b: Seq<&ClassInfo>) -> bool {
    &&& a.len() == b.len()
    &&& forall|i: int| 0 <= i < a.len() ==> has_like(b, #[trigger] a[i])
    &&& forall|j: int| 0 <= j < b.len() ==> has_like(a, #[trigger] b[j])
}

/// Whether a list holds a class with the id and the contents of another.
pub open spec fn has_like(list: Seq<&ClassInfo>, c: &ClassInfo) -> bool {
    exists|j: int| 0 <= j < list.len() && same_class(#[trigger] list[j], c)
}

spec fn class_blob(c: &ClassInfo) -> Seq<u8> {
    join(class_words(c), 1u8)
}

spec fn class_words(c: &ClassInfo) -> Seq<Seq<u8>> {
    seq![encode_utf8(c.id@)] + texts(c.digests@).map_values(|d: Seq<char>| encode_utf8(d))
}

proof fn lemma_digests_join(front: Seq<Seq<u8>>, digests: Seq<Seq<char>>)
    requires
        front.len() > 0,
    ensures
        join(front + digests.map_values(|d: Seq<char>| encode_utf8(d)), 1u8) == join(front, 1u8)
            + digest_part(digests),
    decreases digests.len(),
{
    let more = digests.map_values(|d: Seq<char>| encode_utf8(d));
    if digests.len() == 0 {
        assert(front + more =~= front);
        assert(join(front, 1u8) + digest_part(digests) =~= join(front, 1u8));
    } else {
        let p = digests.drop_last();
        lemma_digests_join(front, p);
        let less = p.map_values(|d: Seq<char>| encode_utf8(d));
        let d = encode_utf8(digests.last());
        assert(front + more =~= (front + less).push(d));
        lemma_join_push(front + less, d, 1u8);
        assert(join(front + more, 1u8) =~= join(front, 1u8) + digest_part(digests));
    }
}

proof fn lemma_blob(c: &ClassInfo)
    ensures
        class_blob(c) == encode_utf8(c.id@) + digest_part(texts(c.digests@)),
{
    lemma_digests_join(seq![encode_utf8(c.id@)], texts(c.digests@));
}

proof fn lemma_blob_plain(c: &ClassInfo)
    requires
        class_separable(c),
    ensures
        !class_blob(c).contains(0u8),
        forall|i: int| 0 <= i < class_words(c).len() ==> !(#[trigger] class_words(c)[i]).contains(1u8),
{
    let ds = texts(c.digests@);
    lemma_blob(c);
    lemma_digest_part_plain(ds);
    let blob = class_blob(c);
    let id = encode_utf8(c.id@);
    if blob.contains(0u8) {
        let k = choose|k: int| 0 <= k < blob.len() && blob[k] == 0u8;
        if k < id.len() {
            assert(id[k] == 0u8);
        } else {
            assert(digest_part(ds)[k - id.len()] == 0u8);
        }
    }
    assert forall|i: int| 0 <= i < class_words(c).len() implies !(
    #[trigger] class_words(c)[i]).contains(1u8) by {
        if i > 0 {
            assert(separable(c.digests@[i - 1]@));
            assert(class_words(c)[i] == encode_utf8(ds[i - 1]));
        }
    }
}

proof fn lemma_digest_part_plain(ds: Seq<Seq<char>>)
    requires
        forall|i: int| 0 <= i < ds.len() ==> separable(#[trigger] ds[i]),
    ensures
        !digest_part(ds).contains(0u8),
    decreases ds.len(),
{
    if ds.len() > 0 {
        let p = ds.drop_last();
        assert forall|i: int| 0 <= i < p.len() implies separable(#[trigger] p[i]) by {
            assert(p[i] == ds[i]);
        }
        lemma_digest_part_plain(p);
        let last = ds[ds.len() - 1];
        assert(separable(last));
        let all = digest_part(ds);
        if all.contains(0u8) {
            let k = choose|k: int| 0 <= k < all.len() && all[k] == 0u8;
            let n = digest_part(p).len();
            if k < n {
                assert(digest_part(p)[k] == 0u8);
            } else if k > n {
                assert(encode_utf8(last)[k - n - 1] == 0u8);
            }
        }
    }
}

proof fn lemma_classes_join(front: Seq<Seq<u8>>, classes: Seq<&ClassInfo>)
    requires
        front.len() > 0,
    ensures
        join(front + classes.map_values(|c: &ClassInfo| class_blob(c)), 0u8) == join(front, 0u8)
            + class_part(classes),
    decreases classes.len(),
{
    let more = classes.map_values(|c: &ClassInfo| class_blob(c));
    if classes.len() == 0 {
        assert(front + more =~= front);
        assert(join(front, 0u8) + class_part(classes) =~= join(front, 0u8));
    } else {
        let p = classes.drop_last();
        lemma_classes_join(front, p);
        lemma_blob(classes.last());
        let less = p.map_values(|c: &ClassInfo| class_blob(c));
        let d = class_blob(classes.last());
        assert(front + more =~= (front + less).push(d));
        lemma_join_push(front + less, d, 0u8);
        assert(join(front + more, 0u8) =~= join(front, 0u8) + class_part(classes));
    }
}

spec fn key_words(offered: Seq<&ClassInfo>, backend: Seq<char>, fingerprint: Seq<char>) -> Seq<
    Seq<u8>,
> {
    seq![encode_utf8(backend), encode_utf8(fingerprint)] + by_id(offered).map_values(
        |c: &ClassInfo| class_blob(c),
    )
}

proof fn lemma_key_joins(offered: Seq<&ClassInfo>, backend: Seq<char>, fingerprint: Seq<char>)
    ensures
        key_preimage(offered, backend, fingerprint).len() >= 5,
        key_preimage(offered, backend, fingerprint).skip(5) == join(
            key_words(offered, backend, fingerprint),
            0u8,
        ),
{
    let front = seq![encode_utf8(backend), encode_utf8(fingerprint)];
    lemma_classes_join(front, by_id(offered));
    assert(front.drop_last() =~= seq![encode_utf8(backend)]);
    assert(join(seq![encode_utf8(backend)], 0u8) == encode_utf8(backend));
    assert(join(front, 0u8) =~= encode_utf8(backend) + seq![0u8] + encode_utf8(fingerprint));
    assert(key_preimage(offered, backend, fingerprint).skip(5) =~= join(front, 0u8) + class_part(
        by_id(offered),
    ));
}

proof fn lemma_by_id(offered: &[&ClassInfo])
    ensures
        by_id(offered@).len() == offered@.len(),
        by_id(offered@).to_multiset() == offered@.to_multiset(),
{
    let f = |a: &ClassInfo, b: &ClassInfo| chars_lt(a.id@, b.id@);
    let lt = |i: int, j: int| f(offered@[i], offered@[j]);
    let ids = crate::grouping::ids_of(offered@);
    crate::seqs::lemma_lt_is_order(ids);
    let g = |i: int, j: int| (|a: Seq<char>, b: Seq<char>| chars_lt(a, b))(ids[i], ids[j]);
    assert forall|i: int, j: int|
        0 <= i < offered@.len() && 0 <= j < offered@.len() implies #[trigger] lt(i, j) == g(
        i,
        j,
    ) by {}
    assert(crate::seqs::is_order(offered@.len() as int, g));
    assert(crate::seqs::is_order(offered@.len() as int, lt));
    assert(offered.len() <= usize::MAX);
    lemma_sorted_multiset(offered@, f);
}

proof fn lemma_words_plain(offered: &[&ClassInfo], backend: Seq<char>, fingerprint: Seq<char>)
    requires
        separable(backend),
        separable(fingerprint),
        forall|i: int| 0 <= i < offered@.len() ==> class_separable(#[trigger] offered@[i]),
    ensures
        forall|i: int|
            0 <= i < key_words(offered@, backend, fingerprint).len() ==> !(#[trigger] key_words(
                offered@,
                backend,
                fingerprint,
            )[i]).contains(0u8),
        forall|i: int| 0 <= i < by_id(offered@).len() ==> class_separable(#[trigger] by_id(offered@)[i]),
{
    let sorted = by_id(offered@);
    lemma_by_id(offered);
    sorted.to_multiset_ensures();
    offered@.to_multiset_ensures();
    assert forall|i: int| 0 <= i < sorted.len() implies class_separable(#[trigger] sorted[i]) by {
        assert(sorted.contains(sorted[i]));
        assert(offered@.to_multiset().count(sorted[i]) > 0);
        assert(offered@.contains(sorted[i]));
        let k = choose|k: int| 0 <= k < offered@.len() && offered@[k] == sorted[i];
        assert(class_separable(offered@[k]));
    }
    let w = key_words(offered@, backend, fingerprint);
    assert forall|i: int| 0 <= i < w.len() implies !(#[trigger] w[i]).contains(0u8) by {
        if i >= 2 {
            assert(class_separable(sorted[i - 2]));
            lemma_blob_plain(sorted[i - 2]);
            assert(w[i] == class_blob(sorted[i - 2]));
        }
    }
}

/// A cached grouping is found again only for the same agent, the same normalisation and
/// the same classes with the same contents, under the prompt that it was made with: what
/// is hashed differs otherwise.
pub proof fn law_a_key_pins_what_determines_a_grouping(
    a: &[&ClassInfo],
    agent_a: &str,
    langs_a: &str,
    ra: String,
    b: &[&ClassInfo],
    agent_b: &str,
    langs_b: &str,
    rb: String,
)
    requires
        call_ensures(cache_key, (a, agent_a, langs_a), ra),
        call_ensures(cache_key, (b, agent_b, langs_b), rb),
        separable(agent_a@) && separable(langs_a@),
        separable(agent_b@) && separable(langs_b@),
        forall|i: int| 0 <= i < a@.len() ==> class_separable(#[trigger] a@[i]),
        forall|i: int| 0 <= i < b@.len() ==> class_separable(#[trigger] b@[i]),
    ensures
        exists|x: Seq<u8>, y: Seq<u8>|
            {
                &&& ra@ == hex_text(#[trigger] sha1_digest(x))
                &&& rb@ == hex_text(#[trigger] sha1_digest(y))
                &&& x.len() > 0 && x[0] == PROMPT_VERSION
                &&& x == y ==> {
                    &&& agent_a@ == agent_b@
                    &&& langs_a@ == langs_b@
                    &&& same_classes(a@, b@)
                }
            },
{
    let x = key_preimage(a@, agent_a@, langs_a@);
    let y = key_preimage(b@, agent_b@, langs_b@);
    if x == y {
        lemma_key_joins(a@, agent_a@, langs_a@);
        lemma_key_joins(b@, agent_b@, langs_b@);
        lemma_words_plain(a, agent_a@, langs_a@);
        lemma_words_plain(b, agent_b@, langs_b@);
        let wa = key_words(a@, agent_a@, langs_a@);
        let wb = key_words(b@, agent_b@, langs_b@);
        lemma_join_injective(wa, wb, 0u8);
        assert(wa[0] == encode_utf8(agent_a@) && wb[0] == encode_utf8(agent_b@));
        assert(wa[1] == encode_utf8(langs_a@) && wb[1] == encode_utf8(langs_b@));
        lemma_encoding_tells(agent_a@, agent_b@);
        lemma_encoding_tells(langs_a@, langs_b@);
        let (sa, sb) = (by_id(a@), by_id(b@));
        lemma_by_id(a);
        lemma_by_id(b);
        assert(wa.len() == sa.len() + 2 && wb.len() == sb.len() + 2);
        assert forall|i: int| 0 <= i < sa.len() implies same_class(
            #[trigger] sa[i],
            #[trigger] sb[i],
        ) by {
            assert(wa[i + 2] == class_blob(sa[i]));
            assert(wb[i + 2] == class_blob(sb[i]));
            lemma_blob_tells(sa[i], sb[i]);
        }
        sa.to_multiset_ensures();
        sb.to_multiset_ensures();
        a@.to_multiset_ensures();
        b@.to_multiset_ensures();
        assert forall|i: int| 0 <= i < a@.len() implies has_like(b@, #[trigger] a@[i]) by {
            assert(a@.contains(a@[i]));
            assert(sa.to_multiset().count(a@[i]) > 0);
            assert(sa.contains(a@[i]));
            let k = choose|k: int| 0 <= k < sa.len() && sa[k] == a@[i];
            assert(sb.contains(sb[k]));
            assert(b@.to_multiset().count(sb[k]) > 0);
            assert(b@.contains(sb[k]));
            let j = choose|j: int| 0 <= j < b@.len() && b@[j] == sb[k];
            assert(same_class(sa[k], sb[k]));
            assert(same_class(b@[j], a@[i]));
        }
        assert forall|j: int| 0 <= j < b@.len() implies has_like(a@, #[trigger] b@[j]) by {
            assert(b@.contains(b@[j]));
            assert(sb.to_multiset().count(b@[j]) > 0);
            assert(sb.contains(b@[j]));
            let k = choose|k: int| 0 <= k < sb.len() && sb[k] == b@[j];
            assert(sa.contains(sa[k]));
            assert(a@.to_multiset().count(sa[k]) > 0);
            assert(a@.contains(sa[k]));
            let i = choose|i: int| 0 <= i < a@.len() && a@[i] == sa[k];
            assert(same_class(sa[k], sb[k]));
            assert(same_class(a@[i], b@[j]));
        }
        assert(same_classes(a@, b@));
    }
    assert(x[0] == PROMPT_VERSION as u8);
    assert(ra@ == hex_text(sha1_digest(x)));
    assert(rb@ == hex_text(sha1_digest(y)));
}

proof fn lemma_blob_tells(a: &ClassInfo, b: &ClassInfo)
    requires
        class_separable(a),
        class_separable(b),
        class_blob(a) == class_blob(b),
    ensures
        same_class(a, b),
{
    lemma_blob_plain(a);
    lemma_blob_plain(b);
    let (wa, wb) = (class_words(a), class_words(b));
    lemma_join_injective(wa, wb, 1u8);
    assert(wa[0] == encode_utf8(a.id@) && wb[0] == encode_utf8(b.id@));
    lemma_encoding_tells(a.id@, b.id@);
    let (da, db) = (texts(a.digests@), texts(b.digests@));
    assert(wa.len() == da.len() + 1 && wb.len() == db.len() + 1);
    assert forall|i: int| 0 <= i < da.len() implies da[i] == db[i] by {
        assert(wa[i + 1] == encode_utf8(da[i]));
        assert(wb[i + 1] == encode_utf8(db[i]));
        lemma_encoding_tells(da[i], db[i]);
    }
    assert(da =~= db);
}

} // verus!
