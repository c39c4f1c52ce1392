//! The trusted boundary to the external CRDT engine.
//!
//! Every function here is an `external_body` wrapper around one operation
//! of the engine crate; its contract states only what the engine's source
//! shows.  The bridge keeps its own verified model of every container's
//! contents; the engine replica exists so that binary state vectors,
//! diffs and updates carry the same edits.  One uninterpreted map names
//! the engine-side element count of every root container; the wrappers
//! below are the only place facts about it enter the system.
//!
//! The replica stores each container as elements: a map root as keyed
//! entries, and both sequence and rich-text roots as element sequences (a
//! rich-text position unit is replicated as a one-character string or as
//! the embedded payload).  Replicating text as elements keeps every
//! engine index an element index, which the engine splices exactly; the
//! engine's own rich-text root type indexes by UTF-16 code units and
//! rounds offsets that fall inside a surrogate pair, which no
//! element-count contract could state.  Formatting attributes therefore
//! do not cross this boundary, and a floating-point payload (carried by
//! the verified library as a raw bit pattern, which no engine value can
//! hold) is replicated as null; both degradations are noted on the
//! functions they touch.

use std::collections::HashMap;

use yrs::Any;

use vstd::prelude::*;

use crate::engine_any::{DictEntry, EngineAny};

verus! {

#[verifier::external_type_specification]
#[verifier::external_body]
pub struct ExDoc(yrs::Doc);

#[verifier::external_type_specification]
#[verifier::external_body]
pub struct ExAny(yrs::Any);

/// The element count of each root container of a document, keyed by root
/// name.  The document is configured for UTF-16 offsets, under which the
/// engine's cached content length of a root counts one unit per element
/// the replica stores there.
pub uninterp spec fn engine_roots(d: yrs::Doc) -> Map<Seq<char>, nat>;

/// Whether a byte payload decodes as a v1-encoded document update.  The
/// decoder reads the bytes alone, so this is a function of the payload.
pub uninterp spec fn update_decodes(bytes: Seq<u8>) -> bool;

/// Whether a byte payload decodes as a v1-encoded state vector.  The
/// decoder reads the bytes alone, so this is a function of the payload.
pub uninterp spec fn sv_decodes(bytes: Seq<u8>) -> bool;

/// Relies on yrs::Doc::with_options: a freshly created document has no
/// root containers.  The document is configured for UTF-16 offsets, the
/// unit in which [`engine_roots`] is kept.  The engine's client
/// identifiers are 53-bit values, which the precondition reflects.
#[verifier::external_body]
pub(crate) fn engine_new(client_id: u64) -> (d: yrs::Doc)
    requires
        client_id < 0x20000000000000,
    ensures
        forall|n: Seq<char>| !engine_roots(d).contains_key(n),
{
    let mut options = yrs::Options::default();
    options.client_id = yrs::ClientID::new(client_id);
    options.offset_kind = yrs::OffsetKind::Utf16;
    yrs::Doc::with_options(options)
}

/// Relies on yrs::Doc::new to choose a random client identifier; nothing
/// is promised of the result.
#[verifier::external_body]
pub(crate) fn fresh_client_id() -> (r: u64)
    ensures
        r < 0x20000000000000,
{
    yrs::Doc::new().client_id().get() & 0x1FFFFFFFFFFFFF
}

/// Converts a library payload into an engine payload, variant by variant.
/// A floating-point bit pattern has no exact engine representation that
/// this layer could write, and is replicated as null.
#[verifier::external_body]
pub(crate) fn any_out(v: &EngineAny) -> yrs::Any {
    match v {
        EngineAny::Null => Any::Null,
        EngineAny::Undefined => Any::Undefined,
        EngineAny::Bool(b) => Any::Bool(*b),
        EngineAny::Number(_) => Any::Null,
        EngineAny::BigInt(i) => Any::Number(yrs::Number::Int(*i)),
        EngineAny::Str(s) => Any::from(s.as_str()),
        EngineAny::Buffer(b) => Any::from(b.clone()),
        EngineAny::List(xs) => Any::from(xs.iter().map(any_out).collect::<Vec<_>>()),
        EngineAny::Dict(ps) => Any::from(
            ps.iter().map(|e| (e.key.clone(), any_out(&e.val))).collect::<HashMap<_, _>>(),
        ),
    }
}

/// Converts an engine payload into a library payload, variant by variant.
/// An engine floating-point number cannot be carried back exactly by this
/// layer and reads as null.
#[verifier::external_body]
pub(crate) fn any_in(v: &yrs::Any) -> EngineAny {
    match v {
        Any::Null => EngineAny::Null,
        Any::Undefined => EngineAny::Undefined,
        Any::Bool(b) => EngineAny::Bool(*b),
        Any::Number(yrs::Number::Int(i)) => EngineAny::BigInt(*i),
        Any::Number(yrs::Number::Float(_)) => EngineAny::Null,
        Any::String(s) => EngineAny::Str(s.to_string()),
        Any::Buffer(b) => EngineAny::Buffer(b.to_vec()),
        Any::Array(xs) => EngineAny::List(xs.iter().map(any_in).collect()),
        Any::Map(ps) => EngineAny::Dict(
            ps.iter().map(|(k, v)| DictEntry { key: k.clone(), val: any_in(v) }).collect(),
        ),
    }
}

/// Relies on yrs::Doc::get_or_insert_array: the named root exists
/// afterwards — created empty when the name was free, reinterpreted (its
/// elements untouched) when it already carried a container — and no other
/// root is created or changed.
#[verifier::external_body]
pub(crate) fn engine_ensure_array(d: &mut yrs::Doc, name: &str)
    ensures
        engine_roots(*final(d)).contains_key(name@),
        engine_roots(*old(d)).contains_key(name@) ==> engine_roots(*final(d)) == engine_roots(
            *old(d),
        ),
        !engine_roots(*old(d)).contains_key(name@) ==> engine_roots(*final(d)) == engine_roots(
            *old(d),
        ).insert(name@, 0),
{
    d.get_or_insert_array(name);
}

/// Relies on yrs::Doc::get_or_insert_map, as [`engine_ensure_array`]
/// relies on its sequence counterpart.  A map root's keyed entries are
/// not elements, so its element count stays zero until something else
/// stores elements under the same root name.
#[verifier::external_body]
pub(crate) fn engine_ensure_map(d: &mut yrs::Doc, name: &str)
    ensures
        engine_roots(*final(d)).contains_key(name@),
        engine_roots(*old(d)).contains_key(name@) ==> engine_roots(*final(d)) == engine_roots(
            *old(d),
        ),
        !engine_roots(*old(d)).contains_key(name@) ==> engine_roots(*final(d)) == engine_roots(
            *old(d),
        ).insert(name@, 0),
{
    d.get_or_insert_map(name);
}

/// Relies on yrs::Array::insert: inserting one payload value at an index
/// no greater than the root's element count grows that root by one
/// element and touches no other root; a larger index would panic, which
/// the precondition excludes.
#[verifier::external_body]
pub(crate) fn engine_array_insert(d: &mut yrs::Doc, name: &str, index: u32, value: &EngineAny)
    requires
        engine_roots(*old(d)).contains_key(name@),
        index as nat <= engine_roots(*old(d))[name@],
    ensures
        engine_roots(*final(d)) == engine_roots(*old(d)).insert(
            name@,
            (engine_roots(*old(d))[name@] + 1) as nat,
        ),
{
    let a = d.get_or_insert_array(name);
    let mut txn = yrs::Transact::transact_mut(d);
    yrs::Array::insert(&a, &mut txn, index, any_out(value));
}

/// Relies on yrs::Array::remove_range: removing `len` elements within
/// bounds shrinks the root by exactly `len` elements and touches no other
/// root; an out-of-bounds range would panic, which the precondition
/// excludes.
#[verifier::external_body]
pub(crate) fn engine_array_remove(d: &mut yrs::Doc, name: &str, index: u32, len: u32)
    requires
        engine_roots(*old(d)).contains_key(name@),
        index as nat + len as nat <= engine_roots(*old(d))[name@],
    ensures
        engine_roots(*final(d)) == engine_roots(*old(d)).insert(
            name@,
            (engine_roots(*old(d))[name@] - len as nat) as nat,
        ),
{
    let a = d.get_or_insert_array(name);
    let mut txn = yrs::Transact::transact_mut(d);
    yrs::Array::remove_range(&a, &mut txn, index, len);
}

/// Relies on yrs::Array::iter: reading a root yields exactly as many
/// values as its element count.  Container references among the elements
/// read back as `Undefined`.
#[verifier::external_body]
pub(crate) fn engine_array_get_all(d: &yrs::Doc, name: &str) -> (r: Vec<EngineAny>)
    requires
        engine_roots(*d).contains_key(name@),
    ensures
        r@.len() == engine_roots(*d)[name@],
{
    let txn = yrs::Transact::transact(d);
    match yrs::ReadTxn::get_array(&txn, name) {
        Some(a) => yrs::Array::iter(&a, &txn).map(|out| match out {
            yrs::Out::Any(v) => any_in(&v),
            _ => EngineAny::Undefined,
        }).collect(),
        None => Vec::new(),
    }
}

/// Relies on yrs::Map::insert: a keyed entry is stored beside the root's
/// elements and changes no root's element count; the root itself is
/// created empty when the name was free.
#[verifier::external_body]
pub(crate) fn engine_map_insert(d: &mut yrs::Doc, name: &str, key: &str, value: &EngineAny)
    ensures
        engine_roots(*final(d)).contains_key(name@),
        engine_roots(*old(d)).contains_key(name@) ==> engine_roots(*final(d)) == engine_roots(
            *old(d),
        ),
        !engine_roots(*old(d)).contains_key(name@) ==> engine_roots(*final(d)) == engine_roots(
            *old(d),
        ).insert(name@, 0),
{
    let m = d.get_or_insert_map(name);
    let mut txn = yrs::Transact::transact_mut(d);
    yrs::Map::insert(&m, &mut txn, key, any_out(value));
}

/// Relies on yrs::Map::remove: removing a keyed entry (or asking for an
/// absent key, a no-op) changes no root's element count.
#[verifier::external_body]
pub(crate) fn engine_map_remove(d: &mut yrs::Doc, name: &str, key: &str)
    ensures
        engine_roots(*final(d)).contains_key(name@),
        engine_roots(*old(d)).contains_key(name@) ==> engine_roots(*final(d)) == engine_roots(
            *old(d),
        ),
        !engine_roots(*old(d)).contains_key(name@) ==> engine_roots(*final(d)) == engine_roots(
            *old(d),
        ).insert(name@, 0),
{
    let m = d.get_or_insert_map(name);
    let mut txn = yrs::Transact::transact_mut(d);
    yrs::Map::remove(&m, &mut txn, key);
}

/// Relies on yrs::Map::iter over a hash map: each stored key is yielded
/// exactly once.  Container references among the values read back as
/// `Undefined`.
#[verifier::external_body]
pub(crate) fn engine_map_get_all(d: &yrs::Doc, name: &str) -> (r: Vec<DictEntry>)
    ensures
        forall|i: int, j: int| 0 <= i < j < r@.len() ==> r@[i].key@ != r@[j].key@,
{
    let txn = yrs::Transact::transact(d);
    match yrs::ReadTxn::get_map(&txn, name) {
        Some(m) => yrs::Map::iter(&m, &txn).map(|(k, out)| DictEntry {
            key: k.to_string(),
            val: match out {
                yrs::Out::Any(v) => any_in(&v),
                _ => EngineAny::Undefined,
            },
        }).collect(),
        None => Vec::new(),
    }
}

/// Relies on yrs::ReadTxn::state_vector and its v1 encoding: the v1
/// encoder writes exactly the layout the v1 state-vector decoder reads,
/// so the produced bytes decode.
#[verifier::external_body]
pub(crate) fn engine_state_vector(d: &yrs::Doc) -> (r: Vec<u8>)
    ensures
        sv_decodes(r@),
{
    let txn = yrs::Transact::transact(d);
    yrs::updates::encoder::Encode::encode_v1(&yrs::ReadTxn::state_vector(&txn))
}

/// Relies on yrs::StateVector::decode_v1 and yrs::ReadTxn::encode_diff_v1:
/// `None` reports, and only reports, a state vector that did not decode.
#[verifier::external_body]
pub(crate) fn engine_encode_diff(d: &yrs::Doc, state_vector: &[u8]) -> (r: Option<Vec<u8>>)
    ensures
        r is Some <==> sv_decodes(state_vector@),
{
    match yrs::updates::decoder::Decode::decode_v1(state_vector) {
        Ok(sv) => Some(yrs::ReadTxn::encode_diff_v1(&yrs::Transact::transact(d), &sv)),
        Err(_) => None,
    }
}

/// Relies on yrs::Update::decode_v1 and yrs::TransactionMut::apply_update.
/// `false` reports, and only reports, an update that did not decode; the
/// document is then untouched.  A decoded update is applied; whatever it
/// held, applying never removes a root container, so the tracked map
/// keeps every key it had (the counts under them may change).  The
/// engine's own result for a decoded update that fails integration is not
/// surfaced here.
#[verifier::external_body]
pub(crate) fn engine_apply_update(d: &mut yrs::Doc, update: &[u8]) -> (ok: bool)
    ensures
        ok == update_decodes(update@),
        !ok ==> *final(d) == *old(d),
        forall|n: Seq<char>|
            engine_roots(*old(d)).contains_key(n) ==> engine_roots(*final(d)).contains_key(n),
{
    let decoded: Result<yrs::Update, _> = yrs::updates::decoder::Decode::decode_v1(update);
    match decoded {
        Ok(u) => {
            let mut txn = yrs::Transact::transact_mut(d);
            let _ = txn.apply_update(u);
            true
        },
        Err(_) => false,
    }
}

/// Relies on the Display implementation of char: formatting one character
/// yields exactly that character.
#[verifier::external_body]
pub(crate) fn char_to_string(c: char) -> (r: String)
    ensures
        r@ == seq![c],
    {
    c.to_string()
}

} // verus!
