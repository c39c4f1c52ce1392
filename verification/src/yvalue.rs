use vstd::prelude::*;

use crate::engine_any::{
    any_val, any_val_dict, any_val_list, AnyVal, DictEntry, EngineAny,
    lemma_any_val_dict_index, lemma_any_val_dict_len, lemma_any_val_list_index,
    lemma_any_val_list_len,
};
use crate::error::BridgeError;

verus! {

/// The concrete kind of a CRDT container.
///
/// The engine also knows three XML node kinds; this layer names them so
/// that values referring to them can be carried and reported, but bridges
/// the sequence, map and text kinds.
#[derive(Debug, PartialEq, Eq, Structural, Clone, Copy)]
pub enum ContainerKind {
    Array,
    Hash,
    Text,
    XmlElement,
    XmlFragment,
    XmlText,
}

/// A reference to a native container, as carried inside a [`HostValue`].
///
/// Containers are identified by the name under which the document created
/// them (with a slot number reserved for kinds whose instances are not
/// roots).  Two proxies with the same description alias the same native
/// container.
#[derive(Debug, PartialEq, Eq, Clone)]
pub struct ProxyDesc {
    pub kind: ContainerKind,
    pub root: String,
    pub node: usize,
}

/// The mathematical value of a [`HostValue`].
pub enum HostVal {
    Nil,
    Bool(bool),
    Int(i64),
    Float(u64),
    Str(Seq<char>),
    Sym(Seq<char>),
    Bytes(Seq<u8>),
    List(Seq<HostVal>),
    Dict(Seq<(HostVal, HostVal)>),
    Foreign(Seq<char>),
    Proxy(ContainerKind, Seq<char>, nat),
}

/// One key/value pair of a host map.
#[derive(Debug, PartialEq)]
pub struct HostPair {
    pub key: HostValue,
    pub val: HostValue,
}

/// The host runtime's dynamic value, modelled as a closed tagged variant.
///
/// Strings and symbols are the two string-like kinds of the host; both are
/// accepted as map keys and normalized to plain strings on the engine side.
/// Floating-point numbers are carried as their raw IEEE-754 bit pattern;
/// the unverified rim of the program owns the real floats.  `Foreign` stands
/// for a host object of a kind this layer does not understand, carrying the
/// name of its host-side class.
#[derive(Debug, PartialEq)]
pub enum HostValue {
    Nil,
    Bool(bool),
    Int(i64),
    /// A 64-bit IEEE-754 value, carried as its raw bit pattern.
    Float(u64),
    Str(String),
    Sym(String),
    Bytes(Vec<u8>),
    List(Vec<HostValue>),
    Dict(Vec<HostPair>),
    Foreign(String),
    Proxy(ProxyDesc),
}

pub open spec fn host_val(v: HostValue) -> HostVal
    decreases v,
{
    match v {
        HostValue::Nil => HostVal::Nil,
        HostValue::Bool(b) => HostVal::Bool(b),
        HostValue::Int(i) => HostVal::Int(i),
        HostValue::Float(bits) => HostVal::Float(bits),
        HostValue::Str(s) => HostVal::Str(s@),
        HostValue::Sym(s) => HostVal::Sym(s@),
        HostValue::Bytes(b) => HostVal::Bytes(b@),
        HostValue::List(xs) => HostVal::List(host_val_list(xs@)),
        HostValue::Dict(ps) => HostVal::Dict(host_val_pairs(ps@)),
        HostValue::Foreign(s) => HostVal::Foreign(s@),
        HostValue::Proxy(p) => HostVal::Proxy(p.kind, p.root@, p.node as nat),
    }
}

pub open spec fn host_val_list(xs: Seq<HostValue>) -> Seq<HostVal>
    decreases xs,
{
    if xs.len() == 0 {
        Seq::empty()
    } else {
        host_val_list(xs.drop_last()).push(host_val(xs.last()))
    }
}

pub open spec fn host_val_pairs(ps: Seq<HostPair>) -> Seq<(HostVal, HostVal)>
    decreases ps,
{
    if ps.len() == 0 {
        Seq::empty()
    } else {
        host_val_pairs(ps.drop_last()).push(
            (host_val(ps.last().key), host_val(ps.last().val)),
        )
    }
}

impl View for HostValue {
    type V = HostVal;

    open spec fn view(&self) -> HostVal {
        host_val(*self)
    }
}

pub broadcast proof fn lemma_host_val_list_len(xs: Seq<HostValue>)
    ensures
        #[trigger] host_val_list(xs).len() == xs.len(),
    decreases xs,
{
    if xs.len() > 0 {
        lemma_host_val_list_len(xs.drop_last());
    }
}

pub broadcast proof fn lemma_host_val_list_index(xs: Seq<HostValue>, i: int)
    requires
        0 <= i < xs.len(),
    ensures
        #[trigger] host_val_list(xs)[i] == host_val(xs[i]),
    decreases xs,
{
    lemma_host_val_list_len(xs);
    if i < xs.len() - 1 {
        lemma_host_val_list_index(xs.drop_last(), i);
    }
}

pub broadcast proof fn lemma_host_val_pairs_len(ps: Seq<HostPair>)
    ensures
        #[trigger] host_val_pairs(ps).len() == ps.len(),
    decreases ps,
{
    if ps.len() > 0 {
        lemma_host_val_pairs_len(ps.drop_last());
    }
}

pub broadcast proof fn lemma_host_val_pairs_index(ps: Seq<HostPair>, i: int)
    requires
        0 <= i < ps.len(),
    ensures
        #[trigger] host_val_pairs(ps)[i] == (host_val(ps[i].key), host_val(ps[i].val)),
    decreases ps,
{
    lemma_host_val_pairs_len(ps);
    if i < ps.len() - 1 {
        lemma_host_val_pairs_index(ps.drop_last(), i);
    }
}

/// The string form of a host map key, if the key is string-convertible.
///
/// Strings and symbols are the two key kinds the engine accepts; both
/// normalize to the plain string of their characters.
pub open spec fn host_key_string(k: HostVal) -> Option<Seq<char>> {
    match k {
        HostVal::Str(s) => Some(s),
        HostVal::Sym(s) => Some(s),
        _ => None,
    }
}

/// Sets `k` to `v` in a key/value sequence: replaces the first entry with
/// key `k` in place, or appends a fresh entry if the key is absent.
pub open spec fn dict_put(
    d: Seq<(Seq<char>, AnyVal)>,
    k: Seq<char>,
    v: AnyVal,
) -> Seq<(Seq<char>, AnyVal)>
    decreases d,
{
    if d.len() == 0 {
        seq![(k, v)]
    } else if d.first().0 == k {
        seq![(k, v)] + d.drop_first()
    } else {
        seq![d.first()] + dict_put(d.drop_first(), k, v)
    }
}

/// `hostToEngine` on mathematical values: `None` is the conversion error.
///
/// Total except for container proxies and non-string-convertible map keys,
/// which have no engine representation and are rejected; a foreign host
/// object (a kind this layer does not understand) converts to `Undefined`,
/// matching the host runtime's own marker for unsupported values.
pub open spec fn h2e(v: HostVal) -> Option<AnyVal>
    decreases v,
{
    match v {
        HostVal::Nil => Some(AnyVal::Null),
        HostVal::Bool(b) => Some(AnyVal::Bool(b)),
        HostVal::Int(i) => Some(AnyVal::BigInt(i)),
        HostVal::Float(bits) => Some(AnyVal::Number(bits)),
        HostVal::Str(s) => Some(AnyVal::Str(s)),
        HostVal::Sym(s) => Some(AnyVal::Str(s)),
        HostVal::Bytes(b) => Some(AnyVal::Buffer(b)),
        HostVal::List(xs) => match h2e_list(xs) {
            Some(ys) => Some(AnyVal::List(ys)),
            None => None,
        },
        HostVal::Dict(ps) => match h2e_dict(ps) {
            Some(d) => Some(AnyVal::Dict(d)),
            None => None,
        },
        HostVal::Foreign(_) => None,
        HostVal::Proxy(_, _, _) => None,
    }
}

pub open spec fn h2e_list(xs: Seq<HostVal>) -> Option<Seq<AnyVal>>
    decreases xs,
{
    if xs.len() == 0 {
        Some(Seq::empty())
    } else {
        match (h2e_list(xs.drop_last()), h2e(xs.last())) {
            (Some(ys), Some(y)) => Some(ys.push(y)),
            _ => None,
        }
    }
}

pub open spec fn h2e_dict(
    ps: Seq<(HostVal, HostVal)>,
) -> Option<Seq<(Seq<char>, AnyVal)>>
    decreases ps,
{
    if ps.len() == 0 {
        Some(Seq::empty())
    } else {
        match (
            h2e_dict(ps.drop_last()),
            host_key_string(ps.last().0),
            h2e(ps.last().1),
        ) {
            (Some(d), Some(k), Some(v)) => Some(dict_put(d, k, v)),
            _ => None,
        }
    }
}

/// `engineToHost` on mathematical values; total.
///
/// Both `Null` and `Undefined` read back as host nil; map keys always
/// surface as plain strings, never as symbols.
pub open spec fn e2h(a: AnyVal) -> HostVal
    decreases a,
{
    match a {
        AnyVal::Null => HostVal::Nil,
        AnyVal::Undefined => HostVal::Nil,
        AnyVal::Bool(b) => HostVal::Bool(b),
        AnyVal::Number(bits) => HostVal::Float(bits),
        AnyVal::BigInt(i) => HostVal::Int(i),
        AnyVal::Str(s) => HostVal::Str(s),
        AnyVal::Buffer(b) => HostVal::Bytes(b),
        AnyVal::List(xs) => HostVal::List(e2h_list(xs)),
        AnyVal::Dict(d) => HostVal::Dict(e2h_dict(d)),
    }
}

pub open spec fn e2h_list(xs: Seq<AnyVal>) -> Seq<HostVal>
    decreases xs,
{
    if xs.len() == 0 {
        Seq::empty()
    } else {
        e2h_list(xs.drop_last()).push(e2h(xs.last()))
    }
}

pub open spec fn e2h_dict(d: Seq<(Seq<char>, AnyVal)>) -> Seq<(HostVal, HostVal)>
    decreases d,
{
    if d.len() == 0 {
        Seq::empty()
    } else {
        e2h_dict(d.drop_last()).push((HostVal::Str(d.last().0), e2h(d.last().1)))
    }
}

// ---------------------------------------------------------------------------
// Characterization lemmas for the recursive conversion functions.
// ---------------------------------------------------------------------------

pub proof fn lemma_h2e_list_none(s: Seq<HostVal>, i: int)
    requires
        0 <= i < s.len(),
        h2e(s[i]) is None,
    ensures
        h2e_list(s) is None,
    decreases s,
{
    if i < s.len() - 1 {
        lemma_h2e_list_none(s.drop_last(), i);
    }
}

pub proof fn lemma_h2e_dict_none(s: Seq<(HostVal, HostVal)>, i: int)
    requires
        0 <= i < s.len(),
        host_key_string(s[i].0) is None || h2e(s[i].1) is None,
    ensures
        h2e_dict(s) is None,
    decreases s,
{
    if i < s.len() - 1 {
        lemma_h2e_dict_none(s.drop_last(), i);
    }
}

pub proof fn lemma_dict_put_found(d: Seq<(Seq<char>, AnyVal)>, i: int, k: Seq<char>, v: AnyVal)
    requires
        0 <= i < d.len(),
        d[i].0 == k,
        forall|j: int| 0 <= j < i ==> d[j].0 != k,
    ensures
        dict_put(d, k, v) =~= d.update(i, (k, v)),
    decreases d,
{
    if i == 0 {
        assert(d.first().0 == k);
    } else {
        assert(d.first().0 != k);
        lemma_dict_put_found(d.drop_first(), i - 1, k, v);
        assert(dict_put(d, k, v) =~= seq![d.first()] + d.drop_first().update(i - 1, (k, v)));
    }
}

pub proof fn lemma_dict_put_missing(d: Seq<(Seq<char>, AnyVal)>, k: Seq<char>, v: AnyVal)
    requires
        forall|j: int| 0 <= j < d.len() ==> d[j].0 != k,
    ensures
        dict_put(d, k, v) =~= d.push((k, v)),
    decreases d,
{
    if d.len() > 0 {
        assert(d.first().0 != k);
        lemma_dict_put_missing(d.drop_first(), k, v);
    }
}

pub proof fn lemma_dict_put_get(d: Seq<(Seq<char>, AnyVal)>, k: Seq<char>, v: AnyVal)
    ensures
        crate::engine_any::dict_get(dict_put(d, k, v), k) == Some(v),
        forall|k2: Seq<char>|
            k2 != k ==> #[trigger] crate::engine_any::dict_get(dict_put(d, k, v), k2)
                == crate::engine_any::dict_get(d, k2),
        forall|k2: Seq<char>|
            k2 != k ==> (crate::engine_any::dict_has_key(dict_put(d, k, v), k2)
                <==> crate::engine_any::dict_has_key(d, k2)),
        crate::engine_any::dict_has_key(dict_put(d, k, v), k),
    decreases d,
{
    broadcast use crate::engine_any::lemma_dict_get_has_key;

    if d.len() == 0 {
        assert(dict_put(d, k, v) == seq![(k, v)]);
        assert(dict_put(d, k, v).drop_first() =~= Seq::<(Seq<char>, AnyVal)>::empty());
    } else if d.first().0 == k {
        assert(dict_put(d, k, v) == seq![(k, v)] + d.drop_first());
        assert(dict_put(d, k, v).first() == (k, v));
        assert(dict_put(d, k, v).drop_first() =~= d.drop_first());
        assert forall|k2: Seq<char>| k2 != k implies #[trigger] crate::engine_any::dict_get(
            dict_put(d, k, v),
            k2,
        ) == crate::engine_any::dict_get(d, k2) by {
            assert(crate::engine_any::dict_get(dict_put(d, k, v), k2)
                == crate::engine_any::dict_get(d.drop_first(), k2));
        }
        assert forall|k2: Seq<char>| k2 != k implies (crate::engine_any::dict_has_key(
            dict_put(d, k, v),
            k2,
        ) <==> crate::engine_any::dict_has_key(d, k2)) by {
            crate::engine_any::lemma_dict_get_char(dict_put(d, k, v), k2);
            crate::engine_any::lemma_dict_get_char(d, k2);
            crate::engine_any::lemma_dict_get_char(d.drop_first(), k2);
        }
    } else {
        lemma_dict_put_get(d.drop_first(), k, v);
        assert(dict_put(d, k, v) == seq![d.first()] + dict_put(d.drop_first(), k, v));
        assert(dict_put(d, k, v).first() == d.first());
        assert(dict_put(d, k, v).drop_first() =~= dict_put(d.drop_first(), k, v));
        assert forall|k2: Seq<char>| k2 != k implies #[trigger] crate::engine_any::dict_get(
            dict_put(d, k, v),
            k2,
        ) == crate::engine_any::dict_get(d, k2) by {
            assert(crate::engine_any::dict_get(dict_put(d, k, v), k2) == (
            if d.first().0 == k2 {
                Some(d.first().1)
            } else {
                crate::engine_any::dict_get(dict_put(d.drop_first(), k, v), k2)
            }));
        }
        assert forall|k2: Seq<char>| k2 != k implies (crate::engine_any::dict_has_key(
            dict_put(d, k, v),
            k2,
        ) <==> crate::engine_any::dict_has_key(d, k2)) by {
            crate::engine_any::lemma_dict_get_char(dict_put(d, k, v), k2);
            crate::engine_any::lemma_dict_get_char(d, k2);
        }
        assert(crate::engine_any::dict_get(dict_put(d, k, v), k) == Some(v));
        crate::engine_any::lemma_dict_get_char(dict_put(d, k, v), k);
    }
}

/// `dict_put` on a unique-keyed dictionary keeps the keys unique.
pub proof fn lemma_dict_put_unique(d: Seq<(Seq<char>, AnyVal)>, k: Seq<char>, v: AnyVal)
    requires
        crate::engine_any::dict_keys_unique(d),
    ensures
        crate::engine_any::dict_keys_unique(dict_put(d, k, v)),
    decreases d,
{
    if d.len() == 0 {
    } else if d.first().0 == k {
        assert(dict_put(d, k, v) =~= seq![(k, v)] + d.drop_first());
        assert forall|i: int, j: int|
            0 <= i < j < dict_put(d, k, v).len() implies dict_put(d, k, v)[i].0 != dict_put(
            d,
            k,
            v,
        )[j].0 by {
            if i == 0 {
                assert(dict_put(d, k, v)[j] == d[j]);
                assert(d[0].0 != d[j].0);
            } else {
                assert(dict_put(d, k, v)[i] == d[i]);
                assert(dict_put(d, k, v)[j] == d[j]);
            }
        }
    } else {
        assert(crate::engine_any::dict_keys_unique(d.drop_first())) by {
            assert forall|i: int, j: int|
                0 <= i < j < d.drop_first().len() implies d.drop_first()[i].0 != d.drop_first()[
                j
            ].0 by {
                assert(d.drop_first()[i] == d[i + 1]);
                assert(d.drop_first()[j] == d[j + 1]);
            }
        }
        lemma_dict_put_get(d.drop_first(), k, v);
        lemma_dict_put_unique(d.drop_first(), k, v);
        assert(dict_put(d, k, v) =~= seq![d.first()] + dict_put(d.drop_first(), k, v));
        assert forall|i: int, j: int|
            0 <= i < j < dict_put(d, k, v).len() implies dict_put(d, k, v)[i].0 != dict_put(
            d,
            k,
            v,
        )[j].0 by {
            let rest = dict_put(d.drop_first(), k, v);
            if i == 0 {
                assert(dict_put(d, k, v)[j] == rest[j - 1]);
                if rest[j - 1].0 == d.first().0 {
                    crate::engine_any::lemma_dict_get_char(rest, rest[j - 1].0);
                    assert(crate::engine_any::dict_has_key(rest, rest[j - 1].0));
                    if rest[j - 1].0 == k {
                    } else {
                        assert(crate::engine_any::dict_has_key(d.drop_first(), rest[j - 1].0));
                        let w = choose|w: int|
                            0 <= w < d.drop_first().len() && d.drop_first()[w].0 == rest[j - 1].0;
                        assert(d[w + 1].0 == d[0].0);
                    }
                }
            } else {
                assert(dict_put(d, k, v)[i] == rest[i - 1]);
                assert(dict_put(d, k, v)[j] == rest[j - 1]);
            }
        }
    }
}

// ---------------------------------------------------------------------------
// Executable conversions.
// ---------------------------------------------------------------------------

/// Replaces the value under `key`, or appends the entry if the key is new.
#[verifier::loop_isolation(false)]
pub fn dict_entry_put(d: &mut Vec<DictEntry>, key: String, val: EngineAny)
    ensures
        any_val_dict(final(d)@) == dict_put(any_val_dict(old(d)@), key@, any_val(val)),
{
    broadcast use lemma_any_val_dict_len, lemma_any_val_dict_index;

    let ghost d0 = any_val_dict(old(d)@);
    let mut i: usize = 0;
    while i < d.len()
        invariant
            i <= d.len(),
            d@ == old(d)@,
            forall|j: int| 0 <= j < i ==> old(d)@[j].key@ != key@,
        decreases d.len() - i,
    {
        if d[i].key == key {
            let ghost before = d@;
            d.set(i, DictEntry { key, val });
            proof {
                assert(d0.len() == old(d)@.len());
                lemma_dict_put_found(d0, i as int, before[i as int].key@, any_val(val));
                assert(any_val_dict(d@) =~= d0.update(i as int, (before[i as int].key@, any_val(val))));
            }
            return;
        }
        i += 1;
    }
    d.push(DictEntry { key, val });
    proof {
        lemma_dict_put_missing(d0, key@, any_val(val));
        assert(any_val_dict(d@) =~= d0.push((key@, any_val(val))));
    }
}

/// The string form of a host map key: strings and symbols are accepted and
/// normalized to the plain string of their characters; every other key kind
/// is a conversion error.
pub fn host_key_to_string(k: &HostValue) -> (r: Result<String, BridgeError>)
    ensures
        ({
            match host_key_string(k@) {
                Some(s) => r is Ok && r->Ok_0@ == s,
                None => r is Err && r->Err_0 is Conversion,
            }
        }),
{
    match k {
        HostValue::Str(s) => Ok(s.clone()),
        HostValue::Sym(s) => Ok(s.clone()),
        _ => Err(BridgeError::Conversion(String::from_str(
            "map keys must be strings or symbols",
        ))),
    }
}

/// `hostToEngine`: converts a host value into an engine payload.
///
/// Container proxies and non-string-convertible map keys are rejected with
/// a conversion error, and so is a foreign host object — a value of a kind
/// this layer does not understand is never silently written as `Undefined`;
/// the error names its host-side class.
#[verifier::loop_isolation(false)]
pub fn host_to_engine(v: &HostValue) -> (r: Result<EngineAny, BridgeError>)
    ensures
        ({
            match h2e(v@) {
                Some(a) => r is Ok && any_val(r->Ok_0) == a,
                None => r is Err && r->Err_0 is Conversion,
            }
        }),
    decreases *v,
{
    broadcast use lemma_host_val_list_len, lemma_host_val_list_index,
        lemma_host_val_pairs_len, lemma_host_val_pairs_index,
        lemma_any_val_list_len, lemma_any_val_list_index;

    match v {
        HostValue::Nil => Ok(EngineAny::Null),
        HostValue::Bool(b) => Ok(EngineAny::Bool(*b)),
        HostValue::Int(i) => Ok(EngineAny::BigInt(*i)),
        HostValue::Float(bits) => Ok(EngineAny::Number(*bits)),
        HostValue::Str(s) => Ok(EngineAny::Str(s.clone())),
        HostValue::Sym(s) => Ok(EngineAny::Str(s.clone())),
        HostValue::Bytes(b) => Ok(EngineAny::Buffer(b.clone())),
        HostValue::List(xs) => {
            let ghost vals = host_val_list(xs@);
            let mut out: Vec<EngineAny> = Vec::new();
            let mut i: usize = 0;
            while i < xs.len()
                invariant
                    i <= xs.len(),
                    vals == host_val_list(xs@),
                    vals.len() == xs@.len(),
                    h2e_list(vals.take(i as int)) == Some(any_val_list(out@)),
                decreases xs.len() - i,
            {
                proof {
                    assert(decreases_to!(*v => v->List_0));
                    assert(decreases_to!(v->List_0 => v->List_0@));
                    assert(decreases_to!(v->List_0@ => v->List_0@[i as int]));
                    assert(v->List_0@ == xs@);
                    assert(vals[i as int] == host_val(xs@[i as int]));
                }
                match host_to_engine(&xs[i]) {
                    Ok(y) => {
                        let ghost prev = out@;
                        let ghost yv = any_val(y);
                        out.push(y);
                        proof {
                            assert(out@.drop_last() =~= prev);
                            assert(any_val_list(out@) == any_val_list(prev).push(yv));
                            assert(vals.take(i + 1 as int).drop_last() =~= vals.take(i as int));
                            assert(vals.take(i + 1 as int).last() == vals[i as int]);
                        }
                    },
                    Err(e) => {
                        proof {
                            lemma_h2e_list_none(vals, i as int);
                        }
                        return Err(e);
                    },
                }
                i += 1;
            }
            proof {
                assert(vals.take(xs@.len() as int) =~= vals);
            }
            Ok(EngineAny::List(out))
        },
        HostValue::Dict(ps) => {
            let ghost pvals = host_val_pairs(ps@);
            let mut out: Vec<DictEntry> = Vec::new();
            let mut i: usize = 0;
            while i < ps.len()
                invariant
                    i <= ps.len(),
                    pvals == host_val_pairs(ps@),
                    pvals.len() == ps@.len(),
                    h2e_dict(pvals.take(i as int)) == Some(any_val_dict(out@)),
                decreases ps.len() - i,
            {
                proof {
                    assert(pvals[i as int] == (host_val(ps@[i as int].key), host_val(
                        ps@[i as int].val,
                    )));
                }
                let k = match host_key_to_string(&ps[i].key) {
                    Ok(k) => k,
                    Err(e) => {
                        proof {
                            lemma_h2e_dict_none(pvals, i as int);
                        }
                        return Err(e);
                    },
                };
                proof {
                    assert(decreases_to!(*v => v->Dict_0));
                    assert(decreases_to!(v->Dict_0 => v->Dict_0@));
                    assert(decreases_to!(v->Dict_0@ => v->Dict_0@[i as int]));
                    assert(decreases_to!(v->Dict_0@[i as int] => v->Dict_0@[i as int].val));
                    assert(v->Dict_0@ == ps@);
                }
                let y = match host_to_engine(&ps[i].val) {
                    Ok(y) => y,
                    Err(e) => {
                        proof {
                            lemma_h2e_dict_none(pvals, i as int);
                        }
                        return Err(e);
                    },
                };
                let ghost d_before = any_val_dict(out@);
                let ghost kview = k@;
                let ghost yview = any_val(y);
                dict_entry_put(&mut out, k, y);
                proof {
                    assert(pvals.take(i + 1 as int).drop_last() =~= pvals.take(i as int));
                    assert(pvals.take(i + 1 as int).last() == pvals[i as int]);
                    assert(any_val_dict(out@) == dict_put(d_before, kview, yview));
                }
                i += 1;
            }
            proof {
                assert(pvals.take(ps@.len() as int) =~= pvals);
            }
            Ok(EngineAny::Dict(out))
        },
        HostValue::Foreign(class) => {
            let mut m = String::from_str("no engine representation for a host value of class ");
            m.append(class.as_str());
            Err(BridgeError::Conversion(m))
        },
        HostValue::Proxy(_) => Err(BridgeError::Conversion(String::from_str(
            "a container proxy is not a valid engine payload; use a container-creating operation",
        ))),
    }
}

/// `engineToHost`: converts an engine payload into a host value; total.
///
/// `Null` and `Undefined` both become host nil; map keys surface as plain
/// strings, never as symbols.
#[verifier::loop_isolation(false)]
pub fn engine_to_host(a: &EngineAny) -> (r: HostValue)
    ensures
        r@ == e2h(a@),
    decreases *a,
{
    broadcast use lemma_host_val_list_len, lemma_host_val_list_index,
        lemma_host_val_pairs_len, lemma_host_val_pairs_index,
        lemma_any_val_list_len, lemma_any_val_list_index,
        lemma_any_val_dict_len, lemma_any_val_dict_index;

    match a {
        EngineAny::Null => HostValue::Nil,
        EngineAny::Undefined => HostValue::Nil,
        EngineAny::Bool(b) => HostValue::Bool(*b),
        EngineAny::Number(bits) => HostValue::Float(*bits),
        EngineAny::BigInt(i) => HostValue::Int(*i),
        EngineAny::Str(s) => HostValue::Str(s.clone()),
        EngineAny::Buffer(b) => HostValue::Bytes(b.clone()),
        EngineAny::List(xs) => {
            let ghost vals = any_val_list(xs@);
            let mut out: Vec<HostValue> = Vec::new();
            let mut i: usize = 0;
            while i < xs.len()
                invariant
                    i <= xs.len(),
                    vals == any_val_list(xs@),
                    vals.len() == xs@.len(),
                    host_val_list(out@) == e2h_list(vals.take(i as int)),
                decreases xs.len() - i,
            {
                proof {
                    assert(decreases_to!(*a => a->List_0));
                    assert(decreases_to!(a->List_0 => a->List_0@));
                    assert(decreases_to!(a->List_0@ => a->List_0@[i as int]));
                    assert(a->List_0@ == xs@);
                    assert(vals[i as int] == any_val(xs@[i as int]));
                }
                let y = engine_to_host(&xs[i]);
                let ghost prev = out@;
                let ghost yv = host_val(y);
                out.push(y);
                proof {
                    assert(out@.drop_last() =~= prev);
                    assert(host_val_list(out@) == host_val_list(prev).push(yv));
                    assert(vals.take(i + 1 as int).drop_last() =~= vals.take(i as int));
                    assert(vals.take(i + 1 as int).last() == vals[i as int]);
                }
                i += 1;
            }
            proof {
                assert(vals.take(xs@.len() as int) =~= vals);
            }
            HostValue::List(out)
        },
        EngineAny::Dict(ps) => {
            let ghost dvals = any_val_dict(ps@);
            let mut out: Vec<HostPair> = Vec::new();
            let mut i: usize = 0;
            while i < ps.len()
                invariant
                    i <= ps.len(),
                    dvals == any_val_dict(ps@),
                    dvals.len() == ps@.len(),
                    host_val_pairs(out@) == e2h_dict(dvals.take(i as int)),
                decreases ps.len() - i,
            {
                proof {
                    assert(decreases_to!(*a => a->Dict_0));
                    assert(decreases_to!(a->Dict_0 => a->Dict_0@));
                    assert(decreases_to!(a->Dict_0@ => a->Dict_0@[i as int]));
                    assert(decreases_to!(a->Dict_0@[i as int] => a->Dict_0@[i as int].val));
                    assert(a->Dict_0@ == ps@);
                    assert(dvals[i as int] == (ps@[i as int].key@, any_val(ps@[i as int].val)));
                }
                let y = engine_to_host(&ps[i].val);
                let ghost prev = out@;
                let ghost yv = host_val(y);
                let kc = ps[i].key.clone();
                out.push(HostPair { key: HostValue::Str(kc), val: y });
                proof {
                    assert(out@.drop_last() =~= prev);
                    assert(host_val_pairs(out@) == host_val_pairs(prev).push(
                        (host_val(out@.last().key), yv),
                    ));
                    assert(dvals.take(i + 1 as int).drop_last() =~= dvals.take(i as int));
                    assert(dvals.take(i + 1 as int).last() == dvals[i as int]);
                }
                i += 1;
            }
            proof {
                assert(dvals.take(ps@.len() as int) =~= dvals);
            }
            HostValue::Dict(out)
        },
    }
}

/// Converts a list of host values into engine payloads; the first
/// unconvertible member fails the whole list.
#[verifier::loop_isolation(false)]
pub fn host_list_to_engine(values: &Vec<HostValue>) -> (r: Result<Vec<EngineAny>, BridgeError>)
    ensures
        ({
            match h2e_list(values@.map_values(|v: HostValue| v@)) {
                Some(vs) => r is Ok && r->Ok_0@.map_values(|a: EngineAny| a@) == vs,
                None => r is Err && r->Err_0 is Conversion,
            }
        }),
{
    broadcast use lemma_host_val_list_len, lemma_host_val_list_index;

    let ghost vals = values@.map_values(|v: HostValue| v@);
    let mut out: Vec<EngineAny> = Vec::new();
    let mut i: usize = 0;
    while i < values.len()
        invariant
            i <= values@.len(),
            h2e_list(vals.take(i as int)) == Some(out@.map_values(|a: EngineAny| a@)),
        decreases values@.len() - i,
    {
        match host_to_engine(&values[i]) {
            Ok(y) => {
                let ghost prev = out@;
                out.push(y);
                proof {
                    assert(out@.drop_last() =~= prev);
                    assert(out@.map_values(|a: EngineAny| a@).drop_last() =~= prev.map_values(
                        |a: EngineAny| a@,
                    ));
                    assert(vals.take(i + 1 as int).drop_last() =~= vals.take(i as int));
                    assert(vals.take(i + 1 as int).last() == vals[i as int]);
                    assert(vals[i as int] == host_val(values@[i as int]));
                }
            },
            Err(e) => {
                proof {
                    lemma_h2e_list_none(vals, i as int);
                }
                return Err(e);
            },
        }
        i += 1;
    }
    proof {
        assert(vals.take(values@.len() as int) =~= vals);
    }
    Ok(out)
}

/// Converts a host map into a formatting-attribute list: the string-keyed
/// entries of the map, converted through the codec.  A host value that is
/// not a map, or one the codec rejects, is a conversion error.
pub fn host_to_attrs(v: &HostValue) -> (r: Result<Vec<DictEntry>, BridgeError>)
    ensures
        ({
            match h2e(v@) {
                Some(a) => if a is Dict {
                    r is Ok && any_val_dict(r->Ok_0@) == a->Dict_0
                } else {
                    r is Err && r->Err_0 is Conversion
                },
                None => r is Err && r->Err_0 is Conversion,
            }
        }),
{
    match host_to_engine(v) {
        Ok(EngineAny::Dict(d)) => Ok(d),
        Ok(_) => Err(BridgeError::Conversion(String::from_str(
            "formatting attributes must be a map",
        ))),
        Err(e) => Err(e),
    }
}

/// A deep copy of an engine payload, with the same mathematical value.
#[verifier::loop_isolation(false)]
pub fn any_duplicate(a: &EngineAny) -> (r: EngineAny)
    ensures
        r@ == a@,
    decreases *a,
{
    broadcast use lemma_any_val_list_len, lemma_any_val_list_index,
        lemma_any_val_dict_len, lemma_any_val_dict_index;

    match a {
        EngineAny::Null => EngineAny::Null,
        EngineAny::Undefined => EngineAny::Undefined,
        EngineAny::Bool(b) => EngineAny::Bool(*b),
        EngineAny::Number(bits) => EngineAny::Number(*bits),
        EngineAny::BigInt(i) => EngineAny::BigInt(*i),
        EngineAny::Str(s) => EngineAny::Str(s.clone()),
        EngineAny::Buffer(b) => EngineAny::Buffer(b.clone()),
        EngineAny::List(xs) => {
            let mut out: Vec<EngineAny> = Vec::new();
            let mut i: usize = 0;
            while i < xs.len()
                invariant
                    i <= xs.len(),
                    out@.len() == i,
                    any_val_list(out@) == any_val_list(xs@).take(i as int),
                decreases xs.len() - i,
            {
                proof {
                    assert(decreases_to!(*a => a->List_0));
                    assert(decreases_to!(a->List_0 => a->List_0@));
                    assert(decreases_to!(a->List_0@ => a->List_0@[i as int]));
                    assert(a->List_0@ == xs@);
                }
                let y = any_duplicate(&xs[i]);
                let ghost prev = out@;
                let ghost yv = any_val(y);
                out.push(y);
                proof {
                    assert(out@.drop_last() =~= prev);
                    assert(any_val_list(out@) == any_val_list(prev).push(yv));
                    assert(yv == any_val(xs@[i as int]));
                    assert(any_val_list(out@) =~= any_val_list(xs@).take(i + 1 as int));
                }
                i += 1;
            }
            proof {
                assert(any_val_list(xs@).take(xs@.len() as int) =~= any_val_list(xs@));
            }
            EngineAny::List(out)
        },
        EngineAny::Dict(ps) => {
            let mut out: Vec<DictEntry> = Vec::new();
            let mut i: usize = 0;
            while i < ps.len()
                invariant
                    i <= ps.len(),
                    out@.len() == i,
                    any_val_dict(out@) == any_val_dict(ps@).take(i as int),
                decreases ps.len() - i,
            {
                proof {
                    assert(decreases_to!(*a => a->Dict_0));
                    assert(decreases_to!(a->Dict_0 => a->Dict_0@));
                    assert(decreases_to!(a->Dict_0@ => a->Dict_0@[i as int]));
                    assert(decreases_to!(a->Dict_0@[i as int] => a->Dict_0@[i as int].val));
                    assert(a->Dict_0@ == ps@);
                }
                let y = any_duplicate(&ps[i].val);
                let ghost prev = out@;
                let ghost yv = any_val(y);
                let kc = ps[i].key.clone();
                out.push(DictEntry { key: kc, val: y });
                proof {
                    assert(out@.drop_last() =~= prev);
                    assert(any_val_dict(out@) == any_val_dict(prev).push((out@.last().key@, yv)));
                    assert(any_val_dict(out@) =~= any_val_dict(ps@).take(i + 1 as int));
                }
                i += 1;
            }
            proof {
                assert(any_val_dict(ps@).take(ps@.len() as int) =~= any_val_dict(ps@));
            }
            EngineAny::Dict(out)
        },
    }
}

// ---------------------------------------------------------------------------
// Laws of the codec.
// ---------------------------------------------------------------------------

/// Whether a host value is preserved exactly by a round trip through the
/// engine: nil, booleans, integers, floats, strings, byte buffers, and
/// lists and maps of such values whose keys are distinct plain strings.
///
/// Symbols (normalized to strings), foreign objects (normalized to
/// `Undefined`) and container proxies (rejected) are the kinds the round
/// trip does not preserve.
pub open spec fn round_trip_stable(v: HostVal) -> bool
    decreases v,
{
    match v {
        HostVal::Nil => true,
        HostVal::Bool(_) => true,
        HostVal::Int(_) => true,
        HostVal::Float(_) => true,
        HostVal::Str(_) => true,
        HostVal::Sym(_) => false,
        HostVal::Bytes(_) => true,
        HostVal::List(xs) => forall|i: int| 0 <= i < xs.len() ==> round_trip_stable(#[trigger] xs[i]),
        HostVal::Dict(ps) => {
            &&& forall|i: int|
                0 <= i < ps.len() ==> (#[trigger] ps[i].0) is Str && round_trip_stable(ps[i].1)
            &&& forall|i: int, j: int| 0 <= i < j < ps.len() ==> ps[i].0 != ps[j].0
        },
        HostVal::Foreign(_) => false,
        HostVal::Proxy(_, _, _) => false,
    }
}

pub proof fn lemma_h2e_list_char(s: Seq<HostVal>)
    requires
        forall|i: int| 0 <= i < s.len() ==> h2e(#[trigger] s[i]) is Some,
    ensures
        h2e_list(s) is Some,
        h2e_list(s)->Some_0.len() == s.len(),
        forall|i: int| 0 <= i < s.len() ==> #[trigger] h2e_list(s)->Some_0[i] == h2e(s[i])->Some_0,
    decreases s,
{
    if s.len() > 0 {
        lemma_h2e_list_char(s.drop_last());
    }
}

/// A successful list conversion preserves the length.
pub proof fn lemma_h2e_list_some_len(s: Seq<HostVal>)
    requires
        h2e_list(s) is Some,
    ensures
        h2e_list(s)->Some_0.len() == s.len(),
    decreases s,
{
    if s.len() > 0 {
        lemma_h2e_list_some_len(s.drop_last());
    }
}

pub proof fn lemma_e2h_list_char(s: Seq<AnyVal>)
    ensures
        e2h_list(s).len() == s.len(),
        forall|i: int| 0 <= i < s.len() ==> #[trigger] e2h_list(s)[i] == e2h(s[i]),
    decreases s,
{
    if s.len() > 0 {
        lemma_e2h_list_char(s.drop_last());
    }
}

pub proof fn lemma_e2h_dict_char(d: Seq<(Seq<char>, AnyVal)>)
    ensures
        e2h_dict(d).len() == d.len(),
        forall|i: int| 0 <= i < d.len() ==> #[trigger] e2h_dict(d)[i] == (
            HostVal::Str(d[i].0),
            e2h(d[i].1),
        ),
    decreases d,
{
    if d.len() > 0 {
        lemma_e2h_dict_char(d.drop_last());
    }
}

/// On a map whose keys are distinct plain strings, `hostToEngine` succeeds
/// and keeps every entry in place, with the key's characters as the engine
/// key.
pub proof fn lemma_h2e_dict_stable(ps: Seq<(HostVal, HostVal)>)
    requires
        forall|i: int| 0 <= i < ps.len() ==> (#[trigger] ps[i].0) is Str && h2e(ps[i].1) is Some,
        forall|i: int, j: int| 0 <= i < j < ps.len() ==> ps[i].0 != ps[j].0,
    ensures
        h2e_dict(ps) is Some,
        h2e_dict(ps)->Some_0.len() == ps.len(),
        forall|i: int| 0 <= i < ps.len() ==> #[trigger] h2e_dict(ps)->Some_0[i] == (
            ps[i].0->Str_0,
            h2e(ps[i].1)->Some_0,
        ),
    decreases ps,
{
    if ps.len() > 0 {
        lemma_h2e_dict_stable(ps.drop_last());
        let d = h2e_dict(ps.drop_last())->Some_0;
        let k = ps.last().0->Str_0;
        let v = h2e(ps.last().1)->Some_0;
        assert forall|j: int| 0 <= j < d.len() implies d[j].0 != k by {
            assert(ps[j].0 != ps.last().0);
        }
        lemma_dict_put_missing(d, k, v);
    }
}

/// Round trip: for every stable host value `v`,
/// `engineToHost(hostToEngine(v)) == v`.
pub proof fn lemma_codec_round_trip(v: HostVal)
    requires
        round_trip_stable(v),
    ensures
        h2e(v) is Some,
        e2h(h2e(v)->Some_0) == v,
    decreases v,
{
    match v {
        HostVal::List(xs) => {
            assert forall|i: int| 0 <= i < xs.len() implies h2e(#[trigger] xs[i]) is Some
                && e2h(h2e(xs[i])->Some_0) == xs[i] by {
                lemma_codec_round_trip(xs[i]);
            }
            lemma_h2e_list_char(xs);
            let ys = h2e_list(xs)->Some_0;
            lemma_e2h_list_char(ys);
            assert(e2h_list(ys) =~= xs);
        },
        HostVal::Dict(ps) => {
            assert forall|i: int| 0 <= i < ps.len() implies h2e(#[trigger] ps[i].1) is Some
                && e2h(h2e(ps[i].1)->Some_0) == ps[i].1 by {
                lemma_codec_round_trip(ps[i].1);
            }
            lemma_h2e_dict_stable(ps);
            let d = h2e_dict(ps)->Some_0;
            lemma_e2h_dict_char(d);
            assert forall|i: int| 0 <= i < ps.len() implies #[trigger] e2h_dict(d)[i] == ps[i] by {
                assert(ps[i].0 == HostVal::Str(ps[i].0->Str_0));
            }
            assert(e2h_dict(d) =~= ps);
        },
        _ => {},
    }
}

/// Map key normalization, write side: a string-like key and a symbol-like
/// key with the same characters store to the same engine entry.
pub proof fn lemma_key_normalization_write(
    ps: Seq<(HostVal, HostVal)>,
    s: Seq<char>,
    v: HostVal,
)
    ensures
        h2e_dict(ps.push((HostVal::Str(s), v))) == h2e_dict(ps.push((HostVal::Sym(s), v))),
{
    assert(ps.push((HostVal::Str(s), v)).drop_last() =~= ps);
    assert(ps.push((HostVal::Sym(s), v)).drop_last() =~= ps);
}

/// Map key normalization, read side: every key surfaced by `engineToHost`
/// is a plain string, never a symbol.
pub proof fn lemma_read_keys_are_strings(d: Seq<(Seq<char>, AnyVal)>)
    ensures
        forall|i: int| 0 <= i < e2h_dict(d).len() ==> (#[trigger] e2h_dict(d)[i].0) is Str,
{
    lemma_e2h_dict_char(d);
}

} // verus!
