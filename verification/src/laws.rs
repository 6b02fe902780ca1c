//! Properties that hold across the crate's functions, stated and proved
//! once: skipped headers cannot distinguish responses, canonicalization
//! erases JSON formatting differences, later overrides win, and a body
//! override without a body is dropped.

use vstd::prelude::*;

use crate::json::{spec_obj_get, JsonModel};
use crate::kv::{KeyValModel, KeyValType};
use crate::req::{spec_apply, spec_apply_one, RequestModel};
use crate::resp::{
    spec_body_text, spec_canonical_text, spec_headers_text, RawResponseModel,
};

verus! {

/// The headers whose names the skip list does not hold.
pub open spec fn filter_headers(
    hs: Seq<(Seq<char>, Seq<char>)>,
    skip: Seq<Seq<char>>,
) -> Seq<(Seq<char>, Seq<char>)>
    decreases hs,
{
    if hs.len() == 0 {
        Seq::empty()
    } else if skip.contains(hs[0].0) {
        filter_headers(hs.drop_first(), skip)
    } else {
        seq![hs[0]] + filter_headers(hs.drop_first(), skip)
    }
}

/// The canonical header text reads only the unskipped headers.
pub proof fn lemma_headers_text_filter(hs: Seq<(Seq<char>, Seq<char>)>, skip: Seq<Seq<char>>)
    ensures
        spec_headers_text(hs, skip) == spec_headers_text(filter_headers(hs, skip), skip),
    decreases hs,
{
    if hs.len() != 0 {
        lemma_headers_text_filter(hs.drop_first(), skip);
        if !skip.contains(hs[0].0) {
            let f = seq![hs[0]] + filter_headers(hs.drop_first(), skip);
            assert(f[0] == hs[0]);
            assert(f.drop_first() =~= filter_headers(hs.drop_first(), skip));
            assert(spec_headers_text(f, skip) == hs[0].0 + seq![':', ' '] + hs[0].1 + seq!['\n']
                + spec_headers_text(f.drop_first(), skip));
        }
    }
}

/// Two responses identical but for headers on the skip list have equal
/// canonical texts, so they compare equal.
pub proof fn lemma_skipped_headers_compare_equal(
    r1: RawResponseModel,
    r2: RawResponseModel,
    skip: Seq<Seq<char>>,
)
    requires
        r1.version == r2.version,
        r1.status == r2.status,
        r1.body == r2.body,
        filter_headers(r1.headers, skip) == filter_headers(r2.headers, skip),
    ensures
        spec_canonical_text(r1, skip) == spec_canonical_text(r2, skip),
{
    lemma_headers_text_filter(r1.headers, skip);
    lemma_headers_text_filter(r2.headers, skip);
}

/// Two bodies that parse to the same JSON value canonicalize to the same
/// text, whatever their whitespace or member order on the wire.
pub proof fn lemma_json_bodies_canonicalize_equal(b1: Seq<char>, b2: Seq<char>, v: JsonModel)
    requires
        crate::json::spec_parse_json(b1) == Some(v),
        crate::json::spec_parse_json(b2) == Some(v),
    ensures
        spec_body_text(b1) == spec_body_text(b2),
{
}

/// Two responses whose bodies parse to the same JSON value, and which
/// agree on version, status and unskipped headers, have equal canonical
/// texts.
pub proof fn lemma_equivalent_json_responses(
    r1: RawResponseModel,
    r2: RawResponseModel,
    skip: Seq<Seq<char>>,
    v: JsonModel,
)
    requires
        r1.version == r2.version,
        r1.status == r2.status,
        filter_headers(r1.headers, skip) == filter_headers(r2.headers, skip),
        crate::json::spec_parse_json(r1.body) == Some(v),
        crate::json::spec_parse_json(r2.body) == Some(v),
    ensures
        spec_canonical_text(r1, skip) == spec_canonical_text(r2, skip),
{
    lemma_headers_text_filter(r1.headers, skip);
    lemma_headers_text_filter(r2.headers, skip);
    lemma_json_bodies_canonicalize_equal(r1.body, r2.body, v);
}

/// Applying two query overrides of one key leaves the later value: the
/// parameters map the key to the second value, and everything else is as
/// one override of the second value alone would leave it.
pub proof fn lemma_last_write_wins(m: RequestModel, key: Seq<char>, v1: Seq<char>, v2: Seq<char>)
    requires
        m.params is Obj,
    ensures
        ({
            let kvs = seq![
                KeyValModel { kv_type: KeyValType::Query, key, val: v1 },
                KeyValModel { kv_type: KeyValType::Query, key, val: v2 },
            ];
            let applied = spec_apply(m, kvs);
            &&& applied.1
            &&& applied.0.params is Obj
            &&& spec_obj_get(applied.0.params->Obj_0, key) == Some(JsonModel::Str(v2))
        }),
{
    let kv1 = KeyValModel { kv_type: KeyValType::Query, key, val: v1 };
    let kv2 = KeyValModel { kv_type: KeyValType::Query, key, val: v2 };
    let kvs = seq![kv1, kv2];
    assert(kvs[0] == kv1);
    assert(kvs.drop_first() =~= seq![kv2]);
    assert(kvs.drop_first()[0] == kv2);
    assert(kvs.drop_first().drop_first() =~= Seq::<KeyValModel>::empty());
    let p0 = m.params->Obj_0;
    let m1 = spec_apply_one(m, kv1).0;
    let p1 = crate::json::spec_obj_upsert(p0, key, JsonModel::Str(v1));
    assert(m1.params == JsonModel::Obj(p1));
    let m2 = spec_apply_one(m1, kv2).0;
    let p2 = crate::json::spec_obj_upsert(p1, key, JsonModel::Str(v2));
    assert(m2.params == JsonModel::Obj(p2));
    crate::json::lemma_obj_upsert_get(p1, key, JsonModel::Str(v2), key);
    assert(spec_apply_one(m, kvs[0]) == (m1, true));
    assert(spec_apply(m, kvs) == spec_apply(m1, kvs.drop_first()));
    assert(spec_apply_one(m1, kvs.drop_first()[0]) == (m2, true));
    assert(spec_apply(m1, kvs.drop_first()) == spec_apply(m2, kvs.drop_first().drop_first()));
    assert(spec_apply(m2, kvs.drop_first().drop_first()) == (m2, true));
    assert(spec_apply(m, kvs) == (m2, true));
}

/// A body override is dropped, in its entirety, when the request has no
/// body: the request is left exactly as it was.
pub proof fn lemma_body_override_dropped(m: RequestModel, key: Seq<char>, v: Seq<char>)
    requires
        m.body is None,
    ensures
        ({
            let kv = KeyValModel { kv_type: KeyValType::Body, key, val: v };
            &&& spec_apply_one(m, kv).0 == m
            &&& spec_apply_one(m, kv).1
            &&& spec_apply(m, seq![kv]).0 == m
            &&& spec_apply(m, seq![kv]).1
        }),
{
    let kv = KeyValModel { kv_type: KeyValType::Body, key, val: v };
    assert(spec_apply_one(m, kv).0 =~= m);
    assert(spec_apply_one(m, kv).1);
    let kvs = seq![kv];
    assert(kvs[0] == kv);
    assert(kvs.drop_first() =~= Seq::<KeyValModel>::empty());
    assert(spec_apply(m, kvs) == spec_apply(m, kvs.drop_first()));
    assert(spec_apply(m, kvs.drop_first()) == (m, true));
}

} // verus!
