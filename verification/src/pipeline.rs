//! The similarity-query resolution pipeline, from a batch of post-ids to the
//! surviving neighbour post-ids.
//!
//! The steps that need the key/value substrate (fetching embeddings, reverse
//! lookups) are the caller's; everything between them — key construction,
//! candidate fingerprint collection, parsing, self-exclusion and
//! deduplication — is verified here.

use vstd::prelude::*;
use crate::codec::{decimal_digits, decimal_value, parses_to_u32, format_post_id, parse_post_id};
use crate::errors::ApiError;
use crate::fingerprint::{spec_fingerprint, fingerprint};
use crate::models::KeyValue;

verus! {

/// The ASCII bytes of `embedding:post:`.
pub open spec fn embedding_key_prefix() -> Seq<u8> {
    seq![
        101, 109, 98, 101, 100, 100, 105, 110, 103, 58, 112, 111, 115, 116, 58,
    ]
}

/// The ASCII bytes of `post_from_embedding:`.
pub open spec fn reverse_key_prefix() -> Seq<u8> {
    seq![
        112, 111, 115, 116, 95, 102, 114, 111, 109, 95, 101, 109, 98, 101, 100,
        100, 105, 110, 103, 58,
    ]
}

/// The key a post's embedding is stored under.
pub open spec fn spec_embedding_key(post_id: u32) -> Seq<u8> {
    embedding_key_prefix() + decimal_digits(post_id)
}

/// The key a subscription payload names an embedding under: the payload
/// text itself stands where the decimal post-id would.
pub open spec fn spec_payload_key(payload: Seq<u8>) -> Seq<u8> {
    embedding_key_prefix() + payload
}

/// The reverse-index key of a fingerprint.
pub open spec fn spec_reverse_key(print: Seq<u8>) -> Seq<u8> {
    reverse_key_prefix() + print
}

fn embedding_key_prefix_vec() -> (prefix: Vec<u8>)
    ensures
        prefix@ == embedding_key_prefix(),
{
    let mut prefix: Vec<u8> = Vec::new();
    prefix.push(101);
    prefix.push(109);
    prefix.push(98);
    prefix.push(101);
    prefix.push(100);
    prefix.push(100);
    prefix.push(105);
    prefix.push(110);
    prefix.push(103);
    prefix.push(58);
    prefix.push(112);
    prefix.push(111);
    prefix.push(115);
    prefix.push(116);
    prefix.push(58);
    proof {
        assert(prefix@ =~= embedding_key_prefix());
    }
    prefix
}

/// Builds the embedding key of a post-id.
pub fn embedding_key(post_id: u32) -> (key: Vec<u8>)
    ensures
        key@ == spec_embedding_key(post_id),
{
    let mut key = embedding_key_prefix_vec();
    let mut digits = format_post_id(post_id);
    key.append(&mut digits);
    key
}

/// Builds the embedding key a subscription payload points at.
pub fn payload_key(payload: &Vec<u8>) -> (key: Vec<u8>)
    ensures
        key@ == spec_payload_key(payload@),
{
    let mut key = embedding_key_prefix_vec();
    key.extend_from_slice(payload.as_slice());
    key
}

/// Builds the reverse-index key of a fingerprint.
pub fn reverse_key(print: &Vec<u8>) -> (key: Vec<u8>)
    ensures
        key@ == spec_reverse_key(print@),
{
    let mut key: Vec<u8> = Vec::new();
    key.push(112);
    key.push(111);
    key.push(115);
    key.push(116);
    key.push(95);
    key.push(102);
    key.push(114);
    key.push(111);
    key.push(109);
    key.push(95);
    key.push(101);
    key.push(109);
    key.push(98);
    key.push(101);
    key.push(100);
    key.push(100);
    key.push(105);
    key.push(110);
    key.push(103);
    key.push(58);
    proof {
        assert(key@ =~= reverse_key_prefix());
    }
    key.extend_from_slice(print.as_slice());
    key
}

/// The first pipeline step: an embedding key for every post-id of the batch.
/// An empty batch — and only an empty batch — is rejected as a bad request.
pub fn embedding_keys_for_query(post_ids: &Vec<u32>) -> (result: Result<Vec<Vec<u8>>, ApiError>)
    ensures
        match result {
            Ok(keys) => {
                &&& post_ids@.len() > 0
                &&& keys@.len() == post_ids@.len()
                &&& forall|k: int|
                    0 <= k < keys@.len() ==> (#[trigger] keys@[k])@ == spec_embedding_key(
                        post_ids@[k],
                    )
            },
            Err(e) => {
                &&& e is BadRequest
                &&& post_ids@.len() == 0
            },
        },
{
    if post_ids.len() == 0 {
        return Err(ApiError::BadRequest("query batch is empty".to_owned()));
    }
    let mut keys: Vec<Vec<u8>> = Vec::new();
    let mut k: usize = 0;
    while k < post_ids.len()
        invariant
            k <= post_ids@.len(),
            keys@.len() == k,
            forall|kk: int|
                0 <= kk < k ==> (#[trigger] keys@[kk])@ == spec_embedding_key(post_ids@[kk]),
        decreases post_ids@.len() - k,
    {
        keys.push(embedding_key(post_ids[k]));
        k += 1;
    }
    Ok(keys)
}

/// The fingerprints a candidate accumulator holds, as byte sequences.
pub open spec fn prints_view(acc: Seq<Vec<u8>>) -> Seq<Seq<u8>> {
    acc.map_values(|b: Vec<u8>| b@)
}

/// The word sequences of a list of vectors.
pub open spec fn vectors_view(vs: Seq<Vec<u32>>) -> Seq<Seq<u32>> {
    vs.map_values(|v: Vec<u32>| v@)
}

/// Appends an element unless it is already present.
pub open spec fn push_unique(acc: Seq<Seq<u8>>, x: Seq<u8>) -> Seq<Seq<u8>> {
    if acc.contains(x) {
        acc
    } else {
        acc.push(x)
    }
}

/// Folds the fingerprints of `vs[i..]` into the accumulator, first seen
/// first, duplicates dropped.
pub open spec fn collect_prints_from(acc: Seq<Seq<u8>>, vs: Seq<Seq<u32>>, i: int) -> Seq<Seq<u8>>
    decreases vs.len() - i,
{
    if !(0 <= i < vs.len()) {
        acc
    } else {
        collect_prints_from(push_unique(acc, spec_fingerprint(vs[i])), vs, i + 1)
    }
}

/// The candidate fingerprint set after one index query: the accumulator
/// extended with the fingerprints of the returned vectors.
pub open spec fn collect_prints(acc: Seq<Seq<u8>>, vs: Seq<Seq<u32>>) -> Seq<Seq<u8>> {
    collect_prints_from(acc, vs, 0)
}

fn eq_bytes(a: &Vec<u8>, b: &Vec<u8>) -> (r: bool)
    ensures
        r == (a@ == b@),
{
    if a.len() != b.len() {
        return false;
    }
    let mut i: usize = 0;
    while i < a.len()
        invariant
            i <= a@.len(),
            a@.len() == b@.len(),
            forall|k: int| 0 <= k < i ==> a@[k] == b@[k],
        decreases a@.len() - i,
    {
        if a[i] != b[i] {
            return false;
        }
        i += 1;
    }
    proof {
        assert(a@ =~= b@);
    }
    true
}

fn contains_bytes(acc: &Vec<Vec<u8>>, x: &Vec<u8>) -> (r: bool)
    ensures
        r == prints_view(acc@).contains(x@),
{
    let mut k: usize = 0;
    while k < acc.len()
        invariant
            k <= acc@.len(),
            forall|kk: int| 0 <= kk < k ==> (#[trigger] acc@[kk])@ != x@,
        decreases acc@.len() - k,
    {
        if eq_bytes(&acc[k], x) {
            proof {
                assert(prints_view(acc@)[k as int] == x@);
            }
            return true;
        }
        k += 1;
    }
    proof {
        assert forall|kk: int| 0 <= kk < prints_view(acc@).len() implies prints_view(acc@)[kk]
            != x@ by {
            assert(prints_view(acc@)[kk] == acc@[kk]@);
        }
    }
    false
}

/// Folds the fingerprints of one index query's results into the candidate
/// accumulator, keeping first-seen order and dropping duplicates.
pub fn collect_fingerprints(found: &Vec<Vec<u32>>, acc: &mut Vec<Vec<u8>>)
    ensures
        prints_view(final(acc)@) == collect_prints(prints_view(old(acc)@), vectors_view(found@)),
{
    let ghost vs = vectors_view(found@);
    let ghost start = prints_view(old(acc)@);
    let mut i: usize = 0;
    while i < found.len()
        invariant
            i <= found@.len(),
            vs == vectors_view(found@),
            collect_prints_from(start, vs, 0) == collect_prints_from(
                prints_view(acc@),
                vs,
                i as int,
            ),
        decreases found@.len() - i,
    {
        let print = fingerprint(&found[i]);
        proof {
            assert(vs[i as int] == found@[i as int]@);
        }
        if !contains_bytes(acc, &print) {
            let ghost before = prints_view(acc@);
            acc.push(print);
            proof {
                assert(prints_view(acc@) =~= before.push(spec_fingerprint(vs[i as int])));
            }
        }
        i += 1;
    }
}

/// Whether a reverse lookup produced a value that parses as a post-id.
pub open spec fn entry_ok(o: Option<Vec<u8>>) -> bool {
    &&& o is Some
    &&& parses_to_u32((o->Some_0)@)
}

/// The post-ids the reverse lookups resolved to, in lookup order.
pub open spec fn parsed_ids(raw: Seq<Option<Vec<u8>>>) -> Seq<u32> {
    Seq::new(raw.len(), |k: int| decimal_value((raw[k]->Some_0)@) as u32)
}

/// Folds `ids[i..]` into the output, dropping every id that appears in the
/// query input and every id already emitted, keeping first-seen order.
pub open spec fn sift_ids_from(out: Seq<u32>, ids: Seq<u32>, inputs: Seq<u32>, i: int) -> Seq<u32>
    decreases ids.len() - i,
{
    if !(0 <= i < ids.len()) {
        out
    } else {
        let next = if inputs.contains(ids[i]) || out.contains(ids[i]) {
            out
        } else {
            out.push(ids[i])
        };
        sift_ids_from(next, ids, inputs, i + 1)
    }
}

/// What the pipeline answers: the resolved ids, self-excluded and
/// deduplicated.
pub open spec fn spec_resolved(ids: Seq<u32>, inputs: Seq<u32>) -> Seq<u32> {
    sift_ids_from(Seq::empty(), ids, inputs, 0)
}

fn contains_u32(v: &Vec<u32>, x: u32) -> (r: bool)
    ensures
        r == v@.contains(x),
{
    let mut i: usize = 0;
    while i < v.len()
        invariant
            i <= v@.len(),
            forall|k: int| 0 <= k < i ==> v@[k] != x,
        decreases v@.len() - i,
    {
        if v[i] == x {
            return true;
        }
        i += 1;
    }
    false
}

/// The last pipeline step. `raw` holds one reverse-lookup answer per
/// candidate fingerprint (`None` when the key was absent); `inputs` is the
/// query batch. Parses every answer, drops the ids of the query batch
/// itself and every duplicate, and keeps first-seen order. A missing
/// reverse-index entry fails the whole request as an internal error; an
/// unparsable one as a parse error — in either case the error names the
/// first offending lookup.
pub fn resolve_posts(raw: &Vec<Option<Vec<u8>>>, inputs: &Vec<u32>) -> (result: Result<
    Vec<u32>,
    ApiError,
>)
    ensures
        match result {
            Ok(out) => {
                &&& forall|k: int| 0 <= k < raw@.len() ==> entry_ok(#[trigger] raw@[k])
                &&& out@ == spec_resolved(parsed_ids(raw@), inputs@)
            },
            Err(e) => exists|k: int|
                {
                    &&& 0 <= k < raw@.len()
                    &&& !entry_ok(#[trigger] raw@[k])
                    &&& forall|kk: int| 0 <= kk < k ==> entry_ok(#[trigger] raw@[kk])
                    &&& if raw@[k] is None {
                        e is InternalServerError
                    } else {
                        e is Parse
                    }
                },
        },
{
    let mut ids: Vec<u32> = Vec::new();
    let mut k: usize = 0;
    while k < raw.len()
        invariant
            k <= raw@.len(),
            ids@.len() == k,
            forall|kk: int| 0 <= kk < k ==> entry_ok(#[trigger] raw@[kk]),
            forall|kk: int| 0 <= kk < k ==> ids@[kk] == parsed_ids(raw@)[kk],
        decreases raw@.len() - k,
    {
        match &raw[k] {
            None => {
                return Err(
                    ApiError::InternalServerError("reverse index entry is missing".to_owned()),
                );
            },
            Some(bytes) => {
                match parse_post_id(bytes) {
                    None => {
                        return Err(
                            ApiError::Parse("reverse index entry is not a post id".to_owned()),
                        );
                    },
                    Some(v) => {
                        ids.push(v);
                    },
                }
            },
        }
        k += 1;
    }
    proof {
        assert(ids@ =~= parsed_ids(raw@));
    }
    let mut out: Vec<u32> = Vec::new();
    let mut i: usize = 0;
    while i < ids.len()
        invariant
            i <= ids@.len(),
            spec_resolved(ids@, inputs@) == sift_ids_from(out@, ids@, inputs@, i as int),
        decreases ids@.len() - i,
    {
        let id = ids[i];
        if !contains_u32(inputs, id) && !contains_u32(&out, id) {
            out.push(id);
        }
        i += 1;
    }
    Ok(out)
}

/// Nothing the pipeline answers comes from the query batch, and nothing is
/// answered twice: the resolution is self-excluded and duplicate-free.
pub proof fn lemma_resolved_excludes_and_dedups(ids: Seq<u32>, inputs: Seq<u32>)
    ensures
        forall|j: int|
            0 <= j < spec_resolved(ids, inputs).len() ==> !inputs.contains(
                #[trigger] spec_resolved(ids, inputs)[j],
            ),
        spec_resolved(ids, inputs).no_duplicates(),
{
    lemma_sift_excludes_and_dedups(Seq::empty(), ids, inputs, 0);
}

proof fn lemma_sift_excludes_and_dedups(out: Seq<u32>, ids: Seq<u32>, inputs: Seq<u32>, i: int)
    requires
        forall|j: int| 0 <= j < out.len() ==> !inputs.contains(#[trigger] out[j]),
        out.no_duplicates(),
    ensures
        forall|j: int|
            0 <= j < sift_ids_from(out, ids, inputs, i).len() ==> !inputs.contains(
                #[trigger] sift_ids_from(out, ids, inputs, i)[j],
            ),
        sift_ids_from(out, ids, inputs, i).no_duplicates(),
    decreases ids.len() - i,
{
    if !(0 <= i < ids.len()) {
    } else {
        if inputs.contains(ids[i]) || out.contains(ids[i]) {
            lemma_sift_excludes_and_dedups(out, ids, inputs, i + 1);
        } else {
            let next = out.push(ids[i]);
            assert forall|j: int| 0 <= j < next.len() implies !inputs.contains(
                #[trigger] next[j],
            ) by {
                if j < out.len() {
                } else {
                    assert(next[j] == ids[i]);
                }
            }
            assert(next.no_duplicates()) by {
                assert forall|a: int, b: int| 0 <= a < b < next.len() implies next[a]
                    != next[b] by {
                    if b == out.len() {
                        assert(next[b] == ids[i]);
                        assert(!out.contains(ids[i]));
                        assert(next[a] == out[a]);
                    }
                }
            }
            lemma_sift_excludes_and_dedups(next, ids, inputs, i + 1);
        }
    }
}

/// When every resolved id already stands in the query batch — a query whose
/// only neighbours are its own inputs — the answer is empty.
pub proof fn lemma_all_inputs_resolve_empty(ids: Seq<u32>, inputs: Seq<u32>)
    requires
        forall|k: int| 0 <= k < ids.len() ==> inputs.contains(#[trigger] ids[k]),
    ensures
        spec_resolved(ids, inputs) == Seq::<u32>::empty(),
{
    lemma_sift_all_inputs(Seq::empty(), ids, inputs, 0);
}

proof fn lemma_sift_all_inputs(out: Seq<u32>, ids: Seq<u32>, inputs: Seq<u32>, i: int)
    requires
        forall|k: int| 0 <= k < ids.len() ==> inputs.contains(#[trigger] ids[k]),
    ensures
        sift_ids_from(out, ids, inputs, i) == out,
    decreases ids.len() - i,
{
    if !(0 <= i < ids.len()) {
    } else {
        lemma_sift_all_inputs(out, ids, inputs, i + 1);
    }
}

/// Rejects a key/value write whose key is empty; accepts every other.
pub fn validate_kv_set(kv: &KeyValue) -> (result: Result<(), ApiError>)
    ensures
        match result {
            Ok(()) => kv.key@.len() > 0,
            Err(e) => {
                &&& e is BadRequest
                &&& kv.key@.len() == 0
            },
        },
{
    if kv.key.as_str().is_empty() {
        Err(ApiError::BadRequest("key cannot be empty".to_owned()))
    } else {
        Ok(())
    }
}

} // verus!
