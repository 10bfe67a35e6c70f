//! What a review is called and where its state lives. Only actually reading and
//! writing there is the adapter's.
use vstd::prelude::*;
use vstd::string::*;
use vstd::utf8::encode_utf8;

use crate::hash::{hex_text, sha1_digest, sha1_prefix, sha1_short};
use crate::seqs::{
    chars_lt, join, lemma_cut, lemma_join_injective, lemma_join_push, lemma_lt_is_order,
    lemma_sorted_multiset, lemma_sorted_texts, lemma_sorted_texts_unique, sort_texts, sorted_by,
    texts,
};
use crate::text::push_str;

verus! {

/// The length of an identity: enough to key a directory of one repository, short
/// enough to read in a path.
pub const ID_LENGTH: usize = 16;

/// What a review of a range is named by: the resolved base, then the head as it
/// was typed.
pub open spec fn review_preimage(base_sha: Seq<char>, head_spec: Seq<char>) -> Seq<u8> {
    encode_utf8(base_sha) + seq![0u8] + encode_utf8(head_spec)
}

/// A review's identity: the resolved base sha plus the head spec as typed.
///
/// The spec, not the resolved head: a branch name keeps one review alive as its
/// tip moves, where a sha would file every commit as a new review.
pub fn review_id(base_sha: &str, head_spec: &str) -> (r: String)
    ensures
        r@ == sha1_prefix(review_preimage(base_sha@, head_spec@), ID_LENGTH as int),
        r@.len() == ID_LENGTH,
{
    let mut text: Vec<u8> = Vec::new();
    text.extend_from_slice(base_sha.as_bytes());
    text.push(0u8);
    text.extend_from_slice(head_spec.as_bytes());
    assert(text@ =~= review_preimage(base_sha@, head_spec@));
    sha1_short(&text, ID_LENGTH)
}

/// What a named review is named by: a tag byte, then the name.
pub open spec fn named_preimage(name: Seq<char>) -> Seq<u8> {
    seq![1u8] + encode_utf8(name)
}

/// A review the reader named. The name is the identity, so neither endpoint is in
/// the key: rebase the base or the head and the session survives.
///
/// The leading tag byte keeps a name out of the space of `review_id`.
pub fn review_id_named(name: &str) -> (r: String)
    ensures
        r@ == sha1_prefix(named_preimage(name@), ID_LENGTH as int),
        r@.len() == ID_LENGTH,
{
    let mut text: Vec<u8> = Vec::new();
    text.push(1u8);
    text.extend_from_slice(name.as_bytes());
    assert(text@ =~= named_preimage(name@));
    sha1_short(&text, ID_LENGTH)
}

/// What a review of a request on a forge is named by: a tag byte, then the
/// forge, the project and the request.
pub open spec fn remote_preimage(forge: Seq<char>, project: Seq<char>, id: Seq<char>) -> Seq<u8> {
    seq![2u8] + encode_utf8(forge) + seq![0u8] + encode_utf8(project) + seq![0u8] + encode_utf8(id)
}

/// A review of a request on a forge: the request is the identity, so it survives
/// every push.
pub fn review_id_remote(forge: &str, project: &str, id: &str) -> (r: String)
    ensures
        r@ == sha1_prefix(remote_preimage(forge@, project@, id@), ID_LENGTH as int),
        r@.len() == ID_LENGTH,
{
    let mut text: Vec<u8> = Vec::new();
    text.push(2u8);
    text.extend_from_slice(forge.as_bytes());
    text.push(0u8);
    text.extend_from_slice(project.as_bytes());
    text.push(0u8);
    text.extend_from_slice(id.as_bytes());
    assert(text@ =~= remote_preimage(forge@, project@, id@));
    sha1_short(&text, ID_LENGTH)
}

/// The content hash of a plan document's text.
pub open spec fn hash_of_plan(json: Seq<char>) -> Seq<char> {
    sha1_prefix(encode_utf8(json), ID_LENGTH as int)
}

/// A plan document's content hash: what findings record so re-anchoring knows
/// which document they were written against.
pub fn plan_hash(json: &str) -> (r: String)
    ensures
        r@ == hash_of_plan(json@),
        r@.len() == ID_LENGTH,
{
    sha1_short(json.as_bytes(), ID_LENGTH)
}

/// Strings, each with a zero behind it.
pub open spec fn zero_ended(list: Seq<Seq<char>>) -> Seq<u8>
    decreases list.len(),
{
    if list.len() == 0 {
        Seq::empty()
    } else {
        zero_ended(list.drop_last()) + encode_utf8(list.last()) + seq![0u8]
    }
}

/// The key of a class's content: a hash of the sorted digests of its members.
pub open spec fn content_key(digests: Seq<Seq<char>>) -> Seq<char> {
    sha1_prefix(
        zero_ended(sorted_by(digests, |a: Seq<char>, b: Seq<char>| chars_lt(a, b))),
        ID_LENGTH as int,
    )
}

/// The reviewed-mark key of a class: a function of the digests of its members,
/// whatever their order.
pub fn class_content_key(digests: &Vec<String>) -> (r: String)
    ensures
        r@ == content_key(texts(digests@)),
        r@.len() == ID_LENGTH,
{
    let sorted = sort_texts(digests);
    let ghost list = texts(sorted@);
    let mut text: Vec<u8> = Vec::new();
    assert(list.take(0) =~= Seq::<Seq<char>>::empty());
    for i in 0..sorted.len()
        invariant
            list == texts(sorted@),
            text@ == zero_ended(list.take(i as int)),
    {
        assert(list.take(i + 1).drop_last() =~= list.take(i as int));
        text.extend_from_slice(sorted[i].as_str().as_bytes());
        text.push(0u8);
        assert(text@ =~= zero_ended(list.take(i + 1)));
    }
    assert(list.take(list.len() as int) =~= list);
    sha1_short(&text, ID_LENGTH)
}

/// A name under a directory. An absolute name stands alone; an empty directory
/// leaves the name alone, and one that ends in a slash takes it as it is.
pub open spec fn under(dir: Seq<char>, name: Seq<char>) -> Seq<char> {
    if name.len() > 0 && name[0] == '/' {
        name
    } else if dir.len() == 0 || dir.last() == '/' {
        dir + name
    } else {
        dir.push('/') + name
    }
}

/// A name under a directory.
pub fn join_path(dir: &str, name: &str) -> (r: String)
    ensures
        r@ == under(dir@, name@),
{
    if !name.is_empty() && name.get_char(0) == '/' {
        return name.to_owned();
    }
    let mut out = dir.to_owned();
    let n = out.as_str().unicode_len();
    if n > 0 && out.as_str().get_char(n - 1) != '/' {
        out.push('/');
    }
    push_str(&mut out, name);
    out
}

/// Everything regenerable, in one subtree.
pub open spec fn cache_path(common: Seq<char>) -> Seq<char> {
    under(under(common, "differential"@), "cache"@)
}

/// Where every review is filed.
pub open spec fn reviews_path(common: Seq<char>) -> Seq<char> {
    under(under(common, "differential"@), "reviews"@)
}

/// The grouping cache directory of a repository, given its git common directory.
/// Under the common directory, so worktrees of one repository share a cache.
pub fn grouping_cache_dir(common_dir: &str) -> (r: String)
    ensures
        r@ == under(cache_path(common_dir@), "grouping"@),
{
    join_path(&cache_dir(common_dir), "grouping")
}

/// Everything regenerable. Reviews are a sibling rather than a child: a review's
/// findings cannot be recomputed, so nothing that clears the cache may reach
/// them.
pub fn cache_dir(common_dir: &str) -> (r: String)
    ensures
        r@ == cache_path(common_dir@),
{
    join_path(&join_path(common_dir, "differential"), "cache")
}

/// Where the document is left for the model to read.
pub fn artefact_dir(common_dir: &str) -> (r: String)
    ensures
        r@ == under(cache_path(common_dir@), "document"@),
{
    join_path(&cache_dir(common_dir), "document")
}

/// Where every review is filed. The directory is the catalogue.
pub fn reviews_dir(common_dir: &str) -> (r: String)
    ensures
        r@ == reviews_path(common_dir@),
{
    join_path(&join_path(common_dir, "differential"), "reviews")
}

/// One review's directory.
pub fn review_dir(common_dir: &str, review_id: &str) -> (r: String)
    ensures
        r@ == under(reviews_path(common_dir@), review_id@),
{
    join_path(&reviews_dir(common_dir), review_id)
}

/// What a review was opened as: the base sha and the head spec as typed.
pub fn identity_path(common_dir: &str, review_id: &str) -> (r: String)
    ensures
        r@ == under(under(reviews_path(common_dir@), review_id@), "identity.json"@),
{
    join_path(&review_dir(common_dir, review_id), "identity.json")
}

/// A redirect: this id's progress lives under the id named inside.
pub fn alias_path(common_dir: &str, review_id: &str) -> (r: String)
    ensures
        r@ == under(under(reviews_path(common_dir@), review_id@), "alias"@),
{
    join_path(&review_dir(common_dir, review_id), "alias")
}

/// A name is never hashed like a range: what is hashed differs, as long as the
/// base is a resolved id, which starts with a hexadecimal digit.
pub proof fn law_names_and_ranges_are_apart(name: Seq<char>, base: Seq<char>, head: Seq<char>)
    requires
        encode_utf8(base).len() > 0,
        encode_utf8(base)[0] >= 48u8,
    ensures
        named_preimage(name) != review_preimage(base, head),
{
    assert(named_preimage(name)[0] == 1u8);
    assert(review_preimage(base, head)[0] == encode_utf8(base)[0]);
}

/// Clearing the cache cannot reach a review: no review directory lies under the
/// cache directory.
pub proof fn law_cache_and_reviews_are_apart(common: Seq<char>, id: Seq<char>)
    requires
        id.len() > 0 ==> id[0] != '/',
    ensures
        !cache_path(common).is_prefix_of(under(reviews_path(common), id)),
{
    reveal_strlit("cache");
    reveal_strlit("reviews");
    reveal_strlit("differential");
    let d = under(common, "differential"@);
    let c = cache_path(common);
    let r = under(reviews_path(common), id);
    assert(d.last() == 'l');
    assert(c[(d.len() + 1) as int] == 'c');
    assert(reviews_path(common)[(d.len() + 1) as int] == 'r');
    assert(r[(d.len() + 1) as int] == 'r');
}

// ---------------------------------------------------------------------------
// What the identities tell apart

/// Texts that are encoded alike are one text.
pub proof fn lemma_encoding_tells(a: Seq<char>, b: Seq<char>)
    requires
        encode_utf8(a) == encode_utf8(b),
    ensures
        a == b,
{
    vstd::utf8::encode_utf8_decode_utf8(a);
    vstd::utf8::encode_utf8_decode_utf8(b);
}

/// Whether a text has no zero byte.
pub open spec fn zero_free(s: Seq<char>) -> bool {
    !encode_utf8(s).contains(0u8)
}

/// Ranges with another base, or another head as typed, are other reviews: what is hashed
/// for them differs, so that only a collision of SHA-1 could file them as one. A range
/// typed again is the same review.
pub proof fn law_a_review_is_a_base_and_a_head(
    base_a: &str,
    head_a: &str,
    ra: String,
    base_b: &str,
    head_b: &str,
    rb: String,
)
    requires
        call_ensures(review_id, (base_a, head_a), ra),
        call_ensures(review_id, (base_b, head_b), rb),
        zero_free(base_a@),
        zero_free(base_b@),
    ensures
        exists|x: Seq<u8>, y: Seq<u8>|
            {
                &&& ra@ == hex_text(#[trigger] sha1_digest(x)).take(16)
                &&& rb@ == hex_text(#[trigger] sha1_digest(y)).take(16)
                &&& x == y <==> base_a@ == base_b@ && head_a@ == head_b@
            },
        base_a@ == base_b@ && head_a@ == head_b@ ==> ra@ == rb@,
{
    let x = review_preimage(base_a@, head_a@);
    let y = review_preimage(base_b@, head_b@);
    if x == y {
        lemma_cut(
            encode_utf8(base_a@),
            encode_utf8(head_a@),
            encode_utf8(base_b@),
            encode_utf8(head_b@),
            0u8,
        );
        lemma_encoding_tells(base_a@, base_b@);
        lemma_encoding_tells(head_a@, head_b@);
    }
    assert(ra@ == hex_text(sha1_digest(x)).take(16));
    assert(rb@ == hex_text(sha1_digest(y)).take(16));
}

/// Reviews with other names are other reviews, and neither base nor head is part of a
/// named one.
pub proof fn law_a_named_review_is_its_name(a: &str, ra: String, b: &str, rb: String)
    requires
        call_ensures(review_id_named, (a,), ra),
        call_ensures(review_id_named, (b,), rb),
    ensures
        exists|x: Seq<u8>, y: Seq<u8>|
            {
                &&& ra@ == hex_text(#[trigger] sha1_digest(x)).take(16)
                &&& rb@ == hex_text(#[trigger] sha1_digest(y)).take(16)
                &&& x == y <==> a@ == b@
            },
        a@ == b@ ==> ra@ == rb@,
{
    let x = named_preimage(a@);
    let y = named_preimage(b@);
    if x == y {
        assert(x.drop_first() =~= encode_utf8(a@));
        assert(y.drop_first() =~= encode_utf8(b@));
        lemma_encoding_tells(a@, b@);
    }
    assert(ra@ == hex_text(sha1_digest(x)).take(16));
    assert(rb@ == hex_text(sha1_digest(y)).take(16));
}

/// Requests of other forges, of other projects, or with other numbers are other reviews.
pub proof fn law_a_request_is_its_forge_project_and_number(
    fa: &str,
    pa: &str,
    na: &str,
    ra: String,
    fb: &str,
    pb: &str,
    nb: &str,
    rb: String,
)
    requires
        call_ensures(review_id_remote, (fa, pa, na), ra),
        call_ensures(review_id_remote, (fb, pb, nb), rb),
        zero_free(fa@) && zero_free(pa@),
        zero_free(fb@) && zero_free(pb@),
    ensures
        exists|x: Seq<u8>, y: Seq<u8>|
            {
                &&& ra@ == hex_text(#[trigger] sha1_digest(x)).take(16)
                &&& rb@ == hex_text(#[trigger] sha1_digest(y)).take(16)
                &&& x == y <==> fa@ == fb@ && pa@ == pb@ && na@ == nb@
            },
        fa@ == fb@ && pa@ == pb@ && na@ == nb@ ==> ra@ == rb@,
{
    let x = remote_preimage(fa@, pa@, na@);
    let y = remote_preimage(fb@, pb@, nb@);
    if x == y {
        let ta = encode_utf8(pa@) + seq![0u8] + encode_utf8(na@);
        let tb = encode_utf8(pb@) + seq![0u8] + encode_utf8(nb@);
        assert(x.drop_first() =~= encode_utf8(fa@) + seq![0u8] + ta);
        assert(y.drop_first() =~= encode_utf8(fb@) + seq![0u8] + tb);
        lemma_cut(encode_utf8(fa@), ta, encode_utf8(fb@), tb, 0u8);
        lemma_cut(
            encode_utf8(pa@),
            encode_utf8(na@),
            encode_utf8(pb@),
            encode_utf8(nb@),
            0u8,
        );
        lemma_encoding_tells(fa@, fb@);
        lemma_encoding_tells(pa@, pb@);
        lemma_encoding_tells(na@, nb@);
    }
    assert(ra@ == hex_text(sha1_digest(x)).take(16));
    assert(rb@ == hex_text(sha1_digest(y)).take(16));
}

/// A request, a name and a range are never hashed as one text, as long as the base of
/// the range is a resolved id, which starts with a hexadecimal digit.
pub proof fn law_requests_are_apart(
    forge: Seq<char>,
    project: Seq<char>,
    number: Seq<char>,
    name: Seq<char>,
    base: Seq<char>,
    head: Seq<char>,
)
    requires
        encode_utf8(base).len() > 0,
        encode_utf8(base)[0] >= 48u8,
    ensures
        remote_preimage(forge, project, number) != named_preimage(name),
        remote_preimage(forge, project, number) != review_preimage(base, head),
{
    assert(remote_preimage(forge, project, number)[0] == 2u8);
    assert(named_preimage(name)[0] == 1u8);
    assert(review_preimage(base, head)[0] == encode_utf8(base)[0]);
}

/// Plans with another text have another hash, but for a collision of SHA-1.
pub proof fn law_a_plan_is_its_text(a: &str, ra: String, b: &str, rb: String)
    requires
        call_ensures(plan_hash, (a,), ra),
        call_ensures(plan_hash, (b,), rb),
    ensures
        exists|x: Seq<u8>, y: Seq<u8>|
            {
                &&& ra@ == hex_text(#[trigger] sha1_digest(x)).take(16)
                &&& rb@ == hex_text(#[trigger] sha1_digest(y)).take(16)
                &&& x == y <==> a@ == b@
            },
        a@ == b@ ==> ra@ == rb@,
{
    let x = encode_utf8(a@);
    let y = encode_utf8(b@);
    if x == y {
        lemma_encoding_tells(a@, b@);
    }
    assert(ra@ == hex_text(sha1_digest(x)).take(16));
    assert(rb@ == hex_text(sha1_digest(y)).take(16));
}

spec fn encoded(list: Seq<Seq<char>>) -> Seq<Seq<u8>> {
    list.map_values(|s: Seq<char>| encode_utf8(s))
}

proof fn lemma_zero_ended_joins(list: Seq<Seq<char>>)
    ensures
        zero_ended(list) == join(encoded(list).push(Seq::<u8>::empty()), 0u8),
    decreases list.len(),
{
    let none = Seq::<u8>::empty();
    let parts = encoded(list);
    lemma_join_push(parts, none, 0u8);
    if list.len() > 0 {
        let front = list.drop_last();
        lemma_zero_ended_joins(front);
        let before = encoded(front);
        lemma_join_push(before, none, 0u8);
        lemma_join_push(before, encode_utf8(list.last()), 0u8);
        assert(parts =~= before.push(encode_utf8(list.last())));
        if before.len() == 0 {
            assert(zero_ended(front) =~= none);
        }
        assert(zero_ended(list) =~= join(parts.push(none), 0u8));
    } else {
        assert(join(parts.push(none), 0u8) =~= none);
    }
}

/// The key of a class is of the digests of its members, in whatever order they come: the
/// same digests have one key, and other ones are never hashed as one text.
pub proof fn law_a_class_key_is_of_its_digests(
    a: &Vec<String>,
    ra: String,
    b: &Vec<String>,
    rb: String,
)
    requires
        call_ensures(class_content_key, (a,), ra),
        call_ensures(class_content_key, (b,), rb),
        forall|i: int| 0 <= i < a@.len() ==> zero_free((#[trigger] a@[i])@),
        forall|i: int| 0 <= i < b@.len() ==> zero_free((#[trigger] b@[i])@),
    ensures
        exists|x: Seq<u8>, y: Seq<u8>|
            {
                &&& ra@ == hex_text(#[trigger] sha1_digest(x)).take(16)
                &&& rb@ == hex_text(#[trigger] sha1_digest(y)).take(16)
                &&& x == y <==> texts(a@).to_multiset() == texts(b@).to_multiset()
            },
        texts(a@).to_multiset() == texts(b@).to_multiset() ==> ra@ == rb@,
{
    let lt = |a: Seq<char>, b: Seq<char>| chars_lt(a, b);
    let (ta, tb) = (texts(a@), texts(b@));
    let (sa, sb) = (sorted_by(ta, lt), sorted_by(tb, lt));
    let x = zero_ended(sa);
    let y = zero_ended(sb);
    assert(a.len() <= usize::MAX && b.len() <= usize::MAX);
    lemma_lt_is_order(ta);
    lemma_lt_is_order(tb);
    lemma_sorted_multiset(ta, lt);
    lemma_sorted_multiset(tb, lt);
    if x == y {
        lemma_zero_ended_joins(sa);
        lemma_zero_ended_joins(sb);
        let none = Seq::<u8>::empty();
        let (pa, pb) = (encoded(sa).push(none), encoded(sb).push(none));
        lemma_zero_free_sorted(ta, sa);
        lemma_zero_free_sorted(tb, sb);
        assert forall|i: int| 0 <= i < pa.len() implies !(#[trigger] pa[i]).contains(0u8) by {
            if i < sa.len() {
                assert(zero_free(sa[i]));
            }
        }
        assert forall|i: int| 0 <= i < pb.len() implies !(#[trigger] pb[i]).contains(0u8) by {
            if i < sb.len() {
                assert(zero_free(sb[i]));
            }
        }
        lemma_join_injective(pa, pb, 0u8);
        assert(pa.len() == sa.len() + 1 && pb.len() == sb.len() + 1);
        assert forall|i: int| 0 <= i < sa.len() implies sa[i] == sb[i] by {
            assert(pa[i] == pb[i]);
            lemma_encoding_tells(sa[i], sb[i]);
        }
        assert(sa =~= sb);
    }
    if ta.to_multiset() == tb.to_multiset() {
        lemma_sorted_texts(ta);
        lemma_sorted_texts(tb);
        lemma_sorted_texts_unique(sa, sb);
    }
    assert(ra@ == hex_text(sha1_digest(x)).take(16));
    assert(rb@ == hex_text(sha1_digest(y)).take(16));
}

proof fn lemma_zero_free_sorted(all: Seq<Seq<char>>, sorted: Seq<Seq<char>>)
    requires
        all.to_multiset() == sorted.to_multiset(),
        forall|i: int| 0 <= i < all.len() ==> zero_free(#[trigger] all[i]),
    ensures
        forall|i: int| 0 <= i < sorted.len() ==> zero_free(#[trigger] sorted[i]),
{
    all.to_multiset_ensures();
    sorted.to_multiset_ensures();
    assert forall|i: int| 0 <= i < sorted.len() implies zero_free(#[trigger] sorted[i]) by {
        assert(sorted.contains(sorted[i]));
        assert(all.to_multiset().count(sorted[i]) > 0);
        assert(all.contains(sorted[i]));
        let k = choose|k: int| 0 <= k < all.len() && all[k] == sorted[i];
        assert(zero_free(all[k]));
    }
}

} // verus!
