use vstd::prelude::*;

verus! {

/// The mathematical value of an [`EngineAny`]: the same tree with strings
/// and buffers abstracted to sequences.  All contracts of the codec and of
/// the containers speak about this type.
pub enum AnyVal {
    Null,
    Undefined,
    Bool(bool),
    /// A 64-bit IEEE-754 value, carried as its raw bit pattern.
    Number(u64),
    BigInt(i64),
    Str(Seq<char>),
    Buffer(Seq<u8>),
    List(Seq<AnyVal>),
    Dict(Seq<(Seq<char>, AnyVal)>),
}

/// One key/value entry of an [`EngineAny::Dict`].
#[derive(Debug, PartialEq)]
pub struct DictEntry {
    pub key: String,
    pub val: EngineAny,
}

/// The engine's dynamic scalar/container-holder value: what the CRDT engine
/// stores as a plain payload inside its containers.
///
/// An `EngineAny` never holds a live container reference; container
/// references are a distinct value kind carried by the proxy types.
/// Floating-point numbers are represented by their raw IEEE-754 bit pattern
/// so that the conversion layer is exact; the host boundary is where real
/// floats live.
#[derive(Debug, PartialEq)]
pub enum EngineAny {
    Null,
    Undefined,
    Bool(bool),
    /// A 64-bit IEEE-754 value, carried as its raw bit pattern.
    Number(u64),
    BigInt(i64),
    Str(String),
    Buffer(Vec<u8>),
    List(Vec<EngineAny>),
    /// A string-keyed map in insertion order; well-formed values hold each
    /// key at most once.
    Dict(Vec<DictEntry>),
}

pub open spec fn any_val(v: EngineAny) -> AnyVal
    decreases v,
{
    match v {
        EngineAny::Null => AnyVal::Null,
        EngineAny::Undefined => AnyVal::Undefined,
        EngineAny::Bool(b) => AnyVal::Bool(b),
        EngineAny::Number(bits) => AnyVal::Number(bits),
        EngineAny::BigInt(i) => AnyVal::BigInt(i),
        EngineAny::Str(s) => AnyVal::Str(s@),
        EngineAny::Buffer(b) => AnyVal::Buffer(b@),
        EngineAny::List(xs) => AnyVal::List(any_val_list(xs@)),
        EngineAny::Dict(ps) => AnyVal::Dict(any_val_dict(ps@)),
    }
}

pub open spec fn any_val_list(xs: Seq<EngineAny>) -> Seq<AnyVal>
    decreases xs,
{
    if xs.len() == 0 {
        Seq::empty()
    } else {
        any_val_list(xs.drop_last()).push(any_val(xs.last()))
    }
}

pub open spec fn any_val_dict(ps: Seq<DictEntry>) -> Seq<(Seq<char>, AnyVal)>
    decreases ps,
{
    if ps.len() == 0 {
        Seq::empty()
    } else {
        any_val_dict(ps.drop_last()).push((ps.last().key@, any_val(ps.last().val)))
    }
}

impl View for EngineAny {
    type V = AnyVal;

    open spec fn view(&self) -> AnyVal {
        any_val(*self)
    }
}

pub broadcast proof fn lemma_any_val_list_len(xs: Seq<EngineAny>)
    ensures
        #[trigger] any_val_list(xs).len() == xs.len(),
    decreases xs,
{
    if xs.len() > 0 {
        lemma_any_val_list_len(xs.drop_last());
    }
}

pub broadcast proof fn lemma_any_val_list_index(xs: Seq<EngineAny>, i: int)
    requires
        0 <= i < xs.len(),
    ensures
        #[trigger] any_val_list(xs)[i] == any_val(xs[i]),
    decreases xs,
{
    lemma_any_val_list_len(xs);
    if i < xs.len() - 1 {
        lemma_any_val_list_index(xs.drop_last(), i);
    }
}

pub broadcast proof fn lemma_any_val_dict_len(ps: Seq<DictEntry>)
    ensures
        #[trigger] any_val_dict(ps).len() == ps.len(),
    decreases ps,
{
    if ps.len() > 0 {
        lemma_any_val_dict_len(ps.drop_last());
    }
}

pub broadcast proof fn lemma_any_val_dict_index(ps: Seq<DictEntry>, i: int)
    requires
        0 <= i < ps.len(),
    ensures
        #[trigger] any_val_dict(ps)[i] == (ps[i].key@, any_val(ps[i].val)),
    decreases ps,
{
    lemma_any_val_dict_len(ps);
    if i < ps.len() - 1 {
        lemma_any_val_dict_index(ps.drop_last(), i);
    }
}

/// Whether a sequence of key/value pairs holds each key at most once.
pub open spec fn dict_keys_unique(d: Seq<(Seq<char>, AnyVal)>) -> bool {
    forall|i: int, j: int| 0 <= i < j < d.len() ==> d[i].0 != d[j].0
}

/// Whether a key occurs in a sequence of key/value pairs.
pub open spec fn dict_has_key(d: Seq<(Seq<char>, AnyVal)>, k: Seq<char>) -> bool {
    exists|i: int| 0 <= i < d.len() && d[i].0 == k
}

/// The value under a key in a sequence of key/value pairs: the first
/// match, which under key uniqueness is the only one.
pub open spec fn dict_get(d: Seq<(Seq<char>, AnyVal)>, k: Seq<char>) -> Option<AnyVal>
    decreases d,
{
    if d.len() == 0 {
        None
    } else if d.first().0 == k {
        Some(d.first().1)
    } else {
        dict_get(d.drop_first(), k)
    }
}

pub broadcast proof fn lemma_dict_get_has_key(d: Seq<(Seq<char>, AnyVal)>, k: Seq<char>)
    ensures
        #[trigger] dict_get(d, k) is Some <==> dict_has_key(d, k),
{
    lemma_dict_get_char(d, k);
}

pub proof fn lemma_dict_get_char(d: Seq<(Seq<char>, AnyVal)>, k: Seq<char>)
    ensures
        dict_get(d, k) is Some <==> dict_has_key(d, k),
        dict_get(d, k) is Some ==> exists|i: int|
            0 <= i < d.len() && d[i].0 == k && d[i].1 == dict_get(d, k)->Some_0,
    decreases d,
{
    if d.len() > 0 && d.first().0 != k {
        lemma_dict_get_char(d.drop_first(), k);
        if dict_has_key(d, k) {
            let i = choose|i: int| 0 <= i < d.len() && d[i].0 == k;
            assert(d.drop_first()[i - 1] == d[i]);
        }
        if dict_get(d, k) is Some {
            let i = choose|i: int|
                0 <= i < d.drop_first().len() && d.drop_first()[i].0 == k && d.drop_first()[i].1
                    == dict_get(d.drop_first(), k)->Some_0;
            assert(d[i + 1] == d.drop_first()[i]);
        }
    }
}

} // verus!
