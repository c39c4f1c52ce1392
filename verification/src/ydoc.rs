use vstd::prelude::*;

use crate::delta::{delta_new_len, delta_old_len, delta_apply, delta_val, SeqChange};
use crate::engine::{
    engine_ensure_array, engine_ensure_map, engine_new, engine_roots, engine_state_vector,
    fresh_client_id, sv_decodes,
};
use crate::engine_any::{dict_get, dict_has_key, AnyVal, DictEntry, EngineAny};
use crate::error::BridgeError;
use crate::ytext::{TextItem, TextItemVal};
use crate::yarray::YArray;
use crate::ymap::YMap;
use crate::ytext::YText;
use crate::yvalue::ContainerKind;

verus! {

/// The largest client identifier the engine accepts (53 bits).
pub const CLIENT_ID_MASK: u64 = 0x1FFFFFFFFFFFFF;

/// A root sequence container: its name and its payload items.
pub struct ArrayRoot {
    pub name: String,
    pub items: Vec<EngineAny>,
}

/// A root map container: its name and its key/value entries in insertion
/// order, each key held at most once.
pub struct HashRoot {
    pub name: String,
    pub entries: Vec<DictEntry>,
}

/// A root rich-text container: its name and its position units.
pub struct TextRoot {
    pub name: String,
    pub items: Vec<TextItem>,
}

/// What a subscription observes: one root container, named by kind and
/// name so that it survives re-acquiring the container from the document.
pub struct SubTarget {
    pub kind: ContainerKind,
    pub root: String,
}

/// One registered observer callback slot.
pub struct Subscription {
    pub id: u64,
    pub target: SubTarget,
    pub active: bool,
}

/// One registered document-update observer slot.
pub struct UpdateSub {
    pub id: u64,
    pub active: bool,
}

/// The change a transaction has made to one map key.
pub enum HashChange {
    Inserted(EngineAny),
    Updated(EngineAny, EngineAny),
    Removed(EngineAny),
}

/// One entry of a map container's transaction delta.
pub struct HashDeltaEntry {
    pub key: String,
    pub change: HashChange,
}

/// The mathematical value of a [`HashChange`].
pub enum HashChangeVal {
    Inserted(AnyVal),
    Updated(AnyVal, AnyVal),
    Removed(AnyVal),
}

impl View for HashChange {
    type V = HashChangeVal;

    open spec fn view(&self) -> HashChangeVal {
        match self {
            HashChange::Inserted(v) => HashChangeVal::Inserted(v@),
            HashChange::Updated(o, n) => HashChangeVal::Updated(o@, n@),
            HashChange::Removed(v) => HashChangeVal::Removed(v@),
        }
    }
}

pub open spec fn hash_delta_val(d: Seq<HashDeltaEntry>) -> Seq<(Seq<char>, HashChangeVal)> {
    d.map_values(|e: HashDeltaEntry| (e.key@, e.change@))
}

/// Whether a map delta describes exactly the difference between a
/// snapshot and the current contents: each recorded key changed as
/// stated, and every unrecorded key is untouched.
pub open spec fn hash_delta_ok(
    snap: Seq<(Seq<char>, AnyVal)>,
    d: Seq<(Seq<char>, HashChangeVal)>,
    cur: Seq<(Seq<char>, AnyVal)>,
) -> bool {
    &&& forall|i: int, j: int| 0 <= i < j < d.len() ==> d[i].0 != d[j].0
    &&& forall|i: int|
        0 <= i < d.len() ==> match (#[trigger] d[i]).1 {
            HashChangeVal::Inserted(v) => !dict_has_key(snap, d[i].0) && dict_get(cur, d[i].0)
                == Some(v),
            HashChangeVal::Updated(o, n) => dict_get(snap, d[i].0) == Some(o) && dict_get(
                cur,
                d[i].0,
            ) == Some(n),
            HashChangeVal::Removed(o) => dict_get(snap, d[i].0) == Some(o) && !dict_has_key(
                cur,
                d[i].0,
            ),
        }
    &&& forall|k: Seq<char>|
        (forall|i: int| 0 <= i < d.len() ==> (#[trigger] d[i]).0 != k) ==> #[trigger] dict_get(
            cur,
            k,
        ) == dict_get(snap, k)
}

/// The recorded change of one container within the open transaction: the
/// contents at the time the transaction first touched the container, and
/// the delta that rewrites that snapshot into the current contents.
pub enum PendingData {
    Arr { snapshot: Vec<EngineAny>, delta: Vec<SeqChange<EngineAny>> },
    Txt { snapshot: Vec<TextItem>, delta: Vec<SeqChange<TextItem>> },
    Dict { snapshot: Vec<DictEntry>, delta: Vec<HashDeltaEntry> },
}

pub struct PendingChange {
    pub target: SubTarget,
    pub data: PendingData,
}

/// The transaction handle: a value the host can hold across calls and
/// dispose of explicitly.  It carries only the transaction's identity;
/// whether it is still the document's open transaction is the document's
/// bookkeeping, so a stale handle fails cleanly instead of crashing.
#[derive(Debug, PartialEq, Eq, Clone, Copy)]
pub struct YTransaction {
    pub id: u64,
}

/// The document: the unit of sharing.  It owns the verified model of
/// every root container, the single-writer transaction slot, the observer
/// registry, and the engine replica that carries the same edits for
/// binary synchronization.
pub struct YDoc {
    pub client_id: u64,
    pub arrays: Vec<ArrayRoot>,
    pub hashes: Vec<HashRoot>,
    pub texts: Vec<TextRoot>,
    pub engine: yrs::Doc,
    pub tx_counter: u64,
    pub open_tx: Option<u64>,
    pub tx_start_state: Vec<u8>,
    pub pending: Vec<PendingChange>,
    pub subs: Vec<Subscription>,
    pub update_subs: Vec<UpdateSub>,
    pub sub_counter: u64,
}

// ---------------------------------------------------------------------------
// The document's well-formedness.
// ---------------------------------------------------------------------------

impl YDoc {
    /// Whether `name` names a root container of any kind in the model.
    pub open spec fn has_root(&self, name: Seq<char>) -> bool {
        ||| (exists|i: int| 0 <= i < self.arrays@.len() && self.arrays@[i].name@ == name)
        ||| (exists|i: int| 0 <= i < self.hashes@.len() && self.hashes@[i].name@ == name)
        ||| (exists|i: int| 0 <= i < self.texts@.len() && self.texts@[i].name@ == name)
    }

    /// Root names are unique, within each kind and across kinds.
    pub open spec fn names_ok(&self) -> bool {
        &&& forall|i: int, j: int|
            0 <= i < j < self.arrays@.len() ==> self.arrays@[i].name@ != self.arrays@[j].name@
        &&& forall|i: int, j: int|
            0 <= i < j < self.hashes@.len() ==> self.hashes@[i].name@ != self.hashes@[j].name@
        &&& forall|i: int, j: int|
            0 <= i < j < self.texts@.len() ==> self.texts@[i].name@ != self.texts@[j].name@
        &&& forall|i: int, j: int|
            0 <= i < self.arrays@.len() && 0 <= j < self.hashes@.len() ==> self.arrays@[i].name@
                != self.hashes@[j].name@
        &&& forall|i: int, j: int|
            0 <= i < self.arrays@.len() && 0 <= j < self.texts@.len() ==> self.arrays@[i].name@
                != self.texts@[j].name@
        &&& forall|i: int, j: int|
            0 <= i < self.hashes@.len() && 0 <= j < self.texts@.len() ==> self.hashes@[i].name@
                != self.texts@[j].name@
    }

    /// Every model array root exists in the engine replica, whose element
    /// count is at least the model's (a remote update can only have
    /// added).
    pub open spec fn arrays_ok(&self) -> bool {
        forall|i: int|
            0 <= i < self.arrays@.len() ==> {
                &&& engine_roots(self.engine).contains_key(#[trigger] self.arrays@[i].name@)
                &&& self.arrays@[i].items@.len() <= engine_roots(self.engine)[self.arrays@[i].name@]
                &&& self.arrays@[i].items@.len() <= u32::MAX as nat
            }
    }

    /// Every model text root exists in the engine replica, whose element
    /// count is at least the model's position-unit count.
    pub open spec fn texts_ok(&self) -> bool {
        forall|i: int|
            0 <= i < self.texts@.len() ==> {
                &&& engine_roots(self.engine).contains_key(#[trigger] self.texts@[i].name@)
                &&& self.texts@[i].items@.len() <= engine_roots(self.engine)[self.texts@[i].name@]
                &&& self.texts@[i].items@.len() <= u32::MAX as nat
            }
    }

    /// Map containers hold each key at most once.
    pub open spec fn hashes_ok(&self) -> bool {
        forall|i: int, k: int, l: int|
            0 <= i < self.hashes@.len() && 0 <= k < l < self.hashes@[i].entries@.len()
                ==> self.hashes@[i].entries@[k].key@ != self.hashes@[i].entries@[l].key@
    }

    /// Subscription identifiers are unique and below the counter.
    pub open spec fn subs_ok(&self) -> bool {
        &&& forall|i: int, j: int|
            0 <= i < j < self.subs@.len() ==> self.subs@[i].id != self.subs@[j].id
        &&& forall|i: int| 0 <= i < self.subs@.len() ==> self.subs@[i].id < self.sub_counter
        &&& forall|i: int, j: int|
            0 <= i < j < self.update_subs@.len() ==> self.update_subs@[i].id
                != self.update_subs@[j].id
        &&& forall|i: int|
            0 <= i < self.update_subs@.len() ==> self.update_subs@[i].id < self.sub_counter
    }

    /// The mathematical contents of the named array root.
    pub open spec fn has_array(&self, name: Seq<char>) -> bool {
        exists|i: int| 0 <= i < self.arrays@.len() && self.arrays@[i].name@ == name
    }

    pub open spec fn array_index_of(&self, name: Seq<char>) -> int {
        choose|i: int| 0 <= i < self.arrays@.len() && self.arrays@[i].name@ == name
    }

    pub open spec fn array_items(&self, name: Seq<char>) -> Seq<AnyVal> {
        self.arrays@[self.array_index_of(name)].items@.map_values(|a: EngineAny| a@)
    }

    /// The mathematical contents of the named text root.
    pub open spec fn has_text(&self, name: Seq<char>) -> bool {
        exists|i: int| 0 <= i < self.texts@.len() && self.texts@[i].name@ == name
    }

    pub open spec fn text_index_of(&self, name: Seq<char>) -> int {
        choose|i: int| 0 <= i < self.texts@.len() && self.texts@[i].name@ == name
    }

    pub open spec fn text_items(&self, name: Seq<char>) -> Seq<TextItemVal> {
        self.texts@[self.text_index_of(name)].items@.map_values(|t: TextItem| t@)
    }

    /// The mathematical contents of the named map root.
    pub open spec fn has_hash(&self, name: Seq<char>) -> bool {
        exists|i: int| 0 <= i < self.hashes@.len() && self.hashes@[i].name@ == name
    }

    pub open spec fn hash_index_of(&self, name: Seq<char>) -> int {
        choose|i: int| 0 <= i < self.hashes@.len() && self.hashes@[i].name@ == name
    }

    pub open spec fn hash_entries(&self, name: Seq<char>) -> Seq<(Seq<char>, AnyVal)> {
        crate::engine_any::any_val_dict(self.hashes@[self.hash_index_of(name)].entries@)
    }

    /// Whether the recorded delta of one touched container still rewrites
    /// its snapshot into the container's current contents.
    pub open spec fn pending_entry_ok(&self, p: &PendingChange) -> bool {
        match p.data {
            PendingData::Arr { snapshot, delta } => {
                &&& p.target.kind is Array
                &&& self.has_array(p.target.root@)
                &&& delta_old_len(delta_val(delta@)) == snapshot@.len()
                &&& delta_new_len(delta_val(delta@)) == self.array_items(p.target.root@).len()
                &&& delta_apply(delta_val(delta@), snapshot@.map_values(|a: EngineAny| a@))
                    == self.array_items(p.target.root@)
            },
            PendingData::Txt { snapshot, delta } => {
                &&& p.target.kind is Text
                &&& self.has_text(p.target.root@)
                &&& delta_old_len(delta_val(delta@)) == snapshot@.len()
                &&& delta_new_len(delta_val(delta@)) == self.text_items(p.target.root@).len()
                &&& delta_apply(delta_val(delta@), snapshot@.map_values(|t: TextItem| t@))
                    == self.text_items(p.target.root@)
            },
            PendingData::Dict { snapshot, delta } => {
                &&& p.target.kind is Hash
                &&& self.has_hash(p.target.root@)
                &&& hash_delta_ok(
                    crate::engine_any::any_val_dict(snapshot@),
                    hash_delta_val(delta@),
                    self.hash_entries(p.target.root@),
                )
            },
        }
    }

    pub open spec fn tx_ok(&self) -> bool {
        &&& (self.open_tx is None ==> self.pending@.len() == 0)
        &&& (self.open_tx is Some ==> self.open_tx->Some_0 < self.tx_counter)
        &&& forall|i: int|
            0 <= i < self.pending@.len() ==> self.pending_entry_ok(#[trigger] &self.pending@[i])
        &&& forall|i: int, j: int|
            0 <= i < j < self.pending@.len() ==> !(self.pending@[i].target.kind
                == self.pending@[j].target.kind && self.pending@[i].target.root@
                == self.pending@[j].target.root@)
    }

    pub open spec fn wf(&self) -> bool {
        &&& self.names_ok()
        &&& self.arrays_ok()
        &&& self.texts_ok()
        &&& self.hashes_ok()
        &&& self.subs_ok()
        &&& self.tx_ok()
        &&& self.client_id <= CLIENT_ID_MASK
    }
}

// ---------------------------------------------------------------------------
// Creation and root lookup.
// ---------------------------------------------------------------------------

impl YDoc {
    /// Creates a document.  The engine accepts 53-bit client identifiers,
    /// so a given identifier is masked to 53 bits; without one, the
    /// engine picks a random identifier.
    pub fn ydoc_new(client_id: Option<u64>) -> (d: YDoc)
        ensures
            d.wf(),
            d.arrays@.len() == 0,
            d.hashes@.len() == 0,
            d.texts@.len() == 0,
            d.open_tx is None,
            d.pending@.len() == 0,
            d.subs@.len() == 0,
            d.update_subs@.len() == 0,
            d.tx_counter == 0,
            d.sub_counter == 0,
            client_id is Some ==> d.client_id == client_id->0 & CLIENT_ID_MASK,
    {
        let id: u64 = match client_id {
            Some(x) => x & CLIENT_ID_MASK,
            None => fresh_client_id(),
        };
        proof {
            assert(forall|x: u64| #[trigger] (x & 0x1FFFFFFFFFFFFFu64) <= 0x1FFFFFFFFFFFFFu64)
                by (bit_vector);
        }
        let engine = engine_new(id);
        YDoc {
            client_id: id,
            arrays: Vec::new(),
            hashes: Vec::new(),
            texts: Vec::new(),
            engine,
            tx_counter: 0,
            open_tx: None,
            tx_start_state: Vec::new(),
            pending: Vec::new(),
            subs: Vec::new(),
            update_subs: Vec::new(),
            sub_counter: 0,
        }
    }

    pub(crate) fn find_array(&self, name: &String) -> (r: Option<usize>)
        ensures
            r is Some ==> r->0 < self.arrays@.len() && self.arrays@[r->0 as int].name@ == name@,
            r is None ==> !self.has_array(name@),
    {
        let mut i: usize = 0;
        while i < self.arrays.len()
            invariant
                i <= self.arrays@.len(),
                forall|j: int| 0 <= j < i ==> self.arrays@[j].name@ != name@,
            decreases self.arrays@.len() - i,
        {
            if self.arrays[i].name == *name {
                return Some(i);
            }
            i += 1;
        }
        None
    }

    pub(crate) fn find_hash(&self, name: &String) -> (r: Option<usize>)
        ensures
            r is Some ==> r->0 < self.hashes@.len() && self.hashes@[r->0 as int].name@ == name@,
            r is None ==> !self.has_hash(name@),
    {
        let mut i: usize = 0;
        while i < self.hashes.len()
            invariant
                i <= self.hashes@.len(),
                forall|j: int| 0 <= j < i ==> self.hashes@[j].name@ != name@,
            decreases self.hashes@.len() - i,
        {
            if self.hashes[i].name == *name {
                return Some(i);
            }
            i += 1;
        }
        None
    }

    pub(crate) fn find_text(&self, name: &String) -> (r: Option<usize>)
        ensures
            r is Some ==> r->0 < self.texts@.len() && self.texts@[r->0 as int].name@ == name@,
            r is None ==> !self.has_text(name@),
    {
        let mut i: usize = 0;
        while i < self.texts.len()
            invariant
                i <= self.texts@.len(),
                forall|j: int| 0 <= j < i ==> self.texts@[j].name@ != name@,
            decreases self.texts@.len() - i,
        {
            if self.texts[i].name == *name {
                return Some(i);
            }
            i += 1;
        }
        None
    }
}

// ---------------------------------------------------------------------------
// Get-or-create of root containers.
// ---------------------------------------------------------------------------

impl YDoc {
    /// What every `getOrInsert` call leaves untouched.
    pub open spec fn roots_frame(&self, old_doc: &YDoc) -> bool {
        &&& self.subs@ == old_doc.subs@
        &&& self.update_subs@ == old_doc.update_subs@
        &&& self.sub_counter == old_doc.sub_counter
        &&& self.open_tx == old_doc.open_tx
        &&& self.tx_counter == old_doc.tx_counter
        &&& self.pending@ == old_doc.pending@
        &&& self.client_id == old_doc.client_id
    }

    /// Root creation is idempotent: asking again for an existing root of
    /// the matching kind returns a proxy aliasing the same container.  A
    /// name already carrying a container of another kind is rejected, and
    /// so is root creation while a mutating transaction is open.
    pub fn ydoc_get_or_insert_array(&mut self, name: &str) -> (r: Result<YArray, BridgeError>)
        requires
            old(self).wf(),
        ensures
            final(self).wf(),
            final(self).roots_frame(old(self)),
            final(self).hashes@ == old(self).hashes@,
            final(self).texts@ == old(self).texts@,
            r is Ok <==> !old(self).has_hash(name@) && !old(self).has_text(name@) && old(self).open_tx is None,
            r is Err && old(self).open_tx is Some ==> r->Err_0 is TransactionState,
            r is Err && old(self).open_tx is None ==> r->Err_0 is Conversion,
            r is Err ==> *final(self) == *old(self),
            r is Ok ==> r->Ok_0.name@ == name@ && final(self).has_array(name@),
            r is Ok && old(self).has_array(name@) ==> final(self).arrays@ == old(self).arrays@,
            r is Ok && !old(self).has_array(name@) ==> final(self).arrays@.len() == old(self).arrays@.len() + 1 && final(self).array_items(name@) == Seq::<AnyVal>::empty(),
            forall|n: Seq<char>|
                old(self).has_array(n) ==> final(self).has_array(n) && final(self).array_items(n)
                    == old(self).array_items(n),
    {
        let key = name.to_owned();
        if self.open_tx.is_some() {
            return Err(BridgeError::TransactionState(String::from_str(
                "cannot create a root container while a transaction is open",
            )));
        }
        if self.find_hash(&key).is_some() || self.find_text(&key).is_some() {
            return Err(BridgeError::Conversion(String::from_str(
                "the name is in use by a container of another kind",
            )));
        }
        match self.find_array(&key) {
            Some(i) => {
                proof {
                    lemma_unique_array_index(self, name@);
                }
                Ok(YArray { name: key })
            },
            None => {
                let ghost before = *self;
                engine_ensure_array(&mut self.engine, name);
                self.arrays.push(ArrayRoot { name: key.clone(), items: Vec::new() });
                proof {
                    assert(self.arrays@.last().name@ == name@);
                    assert(self.has_array(name@));
                    lemma_unique_array_index(self, name@);
                    assert(self.array_items(name@) =~= Seq::<AnyVal>::empty());
                    assert forall|n: Seq<char>| before.has_array(n) implies self.has_array(n)
                        && self.array_items(n) == before.array_items(n) by {
                        let i = before.array_index_of(n);
                        assert(self.arrays@[i] == before.arrays@[i]);
                        lemma_unique_array_index(&before, n);
                        lemma_unique_array_index(self, n);
                    }
                }
                Ok(YArray { name: key })
            },
        }
    }
}

impl YDoc {
    /// The map counterpart of [`YDoc::ydoc_get_or_insert_array`].
    pub fn ydoc_get_or_insert_map(&mut self, name: &str) -> (r: Result<YMap, BridgeError>)
        requires
            old(self).wf(),
        ensures
            final(self).wf(),
            final(self).roots_frame(old(self)),
            final(self).arrays@ == old(self).arrays@,
            final(self).texts@ == old(self).texts@,
            r is Ok <==> !old(self).has_array(name@) && !old(self).has_text(name@) && old(self).open_tx is None,
            r is Err && old(self).open_tx is Some ==> r->Err_0 is TransactionState,
            r is Err && old(self).open_tx is None ==> r->Err_0 is Conversion,
            r is Err ==> *final(self) == *old(self),
            r is Ok ==> r->Ok_0.name@ == name@ && final(self).has_hash(name@),
            r is Ok && old(self).has_hash(name@) ==> final(self).hashes@ == old(self).hashes@,
            r is Ok && !old(self).has_hash(name@) ==> final(self).hashes@.len() == old(self).hashes@.len() + 1 && final(self).hash_entries(name@) =~= Seq::<(Seq<char>, AnyVal)>::empty(),
            forall|n: Seq<char>|
                old(self).has_hash(n) ==> final(self).has_hash(n) && final(self).hash_entries(n)
                    == old(self).hash_entries(n),
    {
        let key = name.to_owned();
        if self.open_tx.is_some() {
            return Err(BridgeError::TransactionState(String::from_str(
                "cannot create a root container while a transaction is open",
            )));
        }
        if self.find_array(&key).is_some() || self.find_text(&key).is_some() {
            return Err(BridgeError::Conversion(String::from_str(
                "the name is in use by a container of another kind",
            )));
        }
        match self.find_hash(&key) {
            Some(i) => {
                proof {
                    lemma_unique_hash_index(self, name@);
                }
                Ok(YMap { name: key })
            },
            None => {
                let ghost before = *self;
                engine_ensure_map(&mut self.engine, name);
                self.hashes.push(HashRoot { name: key.clone(), entries: Vec::new() });
                proof {
                    assert(self.hashes@.last().name@ == name@);
                    assert(self.has_hash(name@));
                    lemma_unique_hash_index(self, name@);
                    assert(crate::engine_any::any_val_dict(
                        self.hashes@[self.hash_index_of(name@)].entries@,
                    ) =~= Seq::<(Seq<char>, AnyVal)>::empty());
                    assert forall|n: Seq<char>| before.has_hash(n) implies self.has_hash(n)
                        && self.hash_entries(n) == before.hash_entries(n) by {
                        let i = before.hash_index_of(n);
                        assert(self.hashes@[i] == before.hashes@[i]);
                        lemma_unique_hash_index(&before, n);
                        lemma_unique_hash_index(self, n);
                    }
                }
                Ok(YMap { name: key })
            },
        }
    }

    /// The text counterpart of [`YDoc::ydoc_get_or_insert_array`].
    pub fn ydoc_get_or_insert_text(&mut self, name: &str) -> (r: Result<YText, BridgeError>)
        requires
            old(self).wf(),
        ensures
            final(self).wf(),
            final(self).roots_frame(old(self)),
            final(self).arrays@ == old(self).arrays@,
            final(self).hashes@ == old(self).hashes@,
            r is Ok <==> !old(self).has_array(name@) && !old(self).has_hash(name@) && old(self).open_tx is None,
            r is Err && old(self).open_tx is Some ==> r->Err_0 is TransactionState,
            r is Err && old(self).open_tx is None ==> r->Err_0 is Conversion,
            r is Err ==> *final(self) == *old(self),
            r is Ok ==> r->Ok_0.name@ == name@ && final(self).has_text(name@),
            r is Ok && old(self).has_text(name@) ==> final(self).texts@ == old(self).texts@,
            r is Ok && !old(self).has_text(name@) ==> final(self).texts@.len() == old(self).texts@.len() + 1 && final(self).text_items(name@) == Seq::<TextItemVal>::empty(),
            forall|n: Seq<char>|
                old(self).has_text(n) ==> final(self).has_text(n) && final(self).text_items(n)
                    == old(self).text_items(n),
    {
        let key = name.to_owned();
        if self.open_tx.is_some() {
            return Err(BridgeError::TransactionState(String::from_str(
                "cannot create a root container while a transaction is open",
            )));
        }
        if self.find_array(&key).is_some() || self.find_hash(&key).is_some() {
            return Err(BridgeError::Conversion(String::from_str(
                "the name is in use by a container of another kind",
            )));
        }
        match self.find_text(&key) {
            Some(i) => {
                proof {
                    lemma_unique_text_index(self, name@);
                }
                Ok(YText { name: key })
            },
            None => {
                let ghost before = *self;
                engine_ensure_array(&mut self.engine, name);
                self.texts.push(TextRoot { name: key.clone(), items: Vec::new() });
                proof {
                    assert(self.texts@.last().name@ == name@);
                    assert(self.has_text(name@));
                    lemma_unique_text_index(self, name@);
                    assert(self.texts@[self.text_index_of(name@)].items@.map_values(
                        |t: TextItem| t@,
                    ) =~= Seq::<TextItemVal>::empty());
                    assert forall|n: Seq<char>| before.has_text(n) implies self.has_text(n)
                        && self.text_items(n) == before.text_items(n) by {
                        let i = before.text_index_of(n);
                        assert(self.texts@[i] == before.texts@[i]);
                        lemma_unique_text_index(&before, n);
                        lemma_unique_text_index(self, n);
                    }
                }
                Ok(YText { name: key })
            },
        }
    }
}

/// Container aliasing: proxies are bound to the underlying container by
/// its name, so any two proxies carrying the same name read and write the
/// same contents — whichever call produced them, and whatever happened to
/// the document in between.
pub proof fn lemma_container_aliasing(doc: &YDoc, p1: &YArray, p2: &YArray)
    requires
        p1.name@ == p2.name@,
    ensures
        doc.array_items(p1.name@) == doc.array_items(p2.name@),
        doc.has_array(p1.name@) == doc.has_array(p2.name@),
{
}

/// With unique root names, the chosen index of an existing array root is
/// the one holding it.
pub proof fn lemma_unique_array_index(doc: &YDoc, name: Seq<char>)
    requires
        doc.names_ok(),
        doc.has_array(name),
    ensures
        0 <= doc.array_index_of(name) < doc.arrays@.len(),
        doc.arrays@[doc.array_index_of(name)].name@ == name,
        forall|i: int|
            0 <= i < doc.arrays@.len() && doc.arrays@[i].name@ == name ==> i == doc.array_index_of(
                name,
            ),
{
    let j = choose|i: int| 0 <= i < doc.arrays@.len() && doc.arrays@[i].name@ == name;
    assert(doc.arrays@[j].name@ == name);
}

/// The map counterpart of [`lemma_unique_array_index`].
pub proof fn lemma_unique_hash_index(doc: &YDoc, name: Seq<char>)
    requires
        doc.names_ok(),
        doc.has_hash(name),
    ensures
        0 <= doc.hash_index_of(name) < doc.hashes@.len(),
        doc.hashes@[doc.hash_index_of(name)].name@ == name,
        forall|i: int|
            0 <= i < doc.hashes@.len() && doc.hashes@[i].name@ == name ==> i == doc.hash_index_of(
                name,
            ),
{
    let j = choose|i: int| 0 <= i < doc.hashes@.len() && doc.hashes@[i].name@ == name;
    assert(doc.hashes@[j].name@ == name);
}

/// The text counterpart of [`lemma_unique_array_index`].
pub proof fn lemma_unique_text_index(doc: &YDoc, name: Seq<char>)
    requires
        doc.names_ok(),
        doc.has_text(name),
    ensures
        0 <= doc.text_index_of(name) < doc.texts@.len(),
        doc.texts@[doc.text_index_of(name)].name@ == name,
        forall|i: int|
            0 <= i < doc.texts@.len() && doc.texts@[i].name@ == name ==> i == doc.text_index_of(
                name,
            ),
{
    let j = choose|i: int| 0 <= i < doc.texts@.len() && doc.texts@[i].name@ == name;
    assert(doc.texts@[j].name@ == name);
}

// ---------------------------------------------------------------------------
// The transaction lifecycle: single writer, explicit disposal.
// ---------------------------------------------------------------------------

impl YDoc {
    /// Whether a handle is the document's open transaction.
    pub open spec fn tx_live(&self, tx: YTransaction) -> bool {
        self.open_tx == Some(tx.id)
    }

    /// Opens a mutating transaction.  While one handle is open, opening a
    /// second one fails with a transaction-state error; once the open one
    /// is committed or freed, opening succeeds again.
    pub fn ydoc_transact(&mut self) -> (r: Result<YTransaction, BridgeError>)
        requires
            old(self).wf(),
        ensures
            final(self).wf(),
            old(self).open_tx is Some ==> r is Err && r->Err_0 is TransactionState && *final(self)
                == *old(self),
            old(self).open_tx is None && old(self).tx_counter < u64::MAX ==> r is Ok
                && final(self).tx_live(r->Ok_0),
            r is Err ==> r->Err_0 is TransactionState,
            r is Ok ==> sv_decodes(final(self).tx_start_state@),
            final(self).arrays@ == old(self).arrays@,
            final(self).hashes@ == old(self).hashes@,
            final(self).texts@ == old(self).texts@,
            final(self).pending@ == old(self).pending@,
            final(self).subs@ == old(self).subs@,
            final(self).update_subs@ == old(self).update_subs@,
            final(self).sub_counter == old(self).sub_counter,
            final(self).client_id == old(self).client_id,
    {
        if self.open_tx.is_some() {
            return Err(BridgeError::TransactionState(String::from_str(
                "a mutating transaction is already open on this document",
            )));
        }
        if self.tx_counter == u64::MAX {
            return Err(BridgeError::TransactionState(String::from_str(
                "transaction identifiers exhausted",
            )));
        }
        let id = self.tx_counter;
        self.tx_counter = self.tx_counter + 1;
        self.open_tx = Some(id);
        self.tx_start_state = engine_state_vector(&self.engine);
        Ok(YTransaction { id })
    }
}

impl YTransaction {
    /// Disposes of the handle without delivering observer events: a live
    /// handle's disposal leaves no transaction open, so a new one can be
    /// opened.  A handle that is not the document's open transaction
    /// leaves the document exactly as it is: freeing twice is harmless.
    pub fn ytransaction_free(&self, doc: &mut YDoc)
        requires
            old(doc).wf(),
        ensures
            final(doc).wf(),
            !final(doc).tx_live(*self),
            old(doc).tx_live(*self) ==> final(doc).open_tx is None && final(doc).pending@.len()
                == 0,
            !old(doc).tx_live(*self) ==> *final(doc) == *old(doc),
            final(doc).arrays@ == old(doc).arrays@,
            final(doc).hashes@ == old(doc).hashes@,
            final(doc).texts@ == old(doc).texts@,
            final(doc).subs@ == old(doc).subs@,
            final(doc).update_subs@ == old(doc).update_subs@,
            final(doc).sub_counter == old(doc).sub_counter,
            final(doc).tx_counter == old(doc).tx_counter,
            final(doc).client_id == old(doc).client_id,
    {
        let live = match doc.open_tx {
            Some(id) => id == self.id,
            None => false,
        };
        if live {
            doc.open_tx = None;
            doc.pending = Vec::new();
        }
    }
}

// ---------------------------------------------------------------------------
// The observer registry.
// ---------------------------------------------------------------------------

impl YDoc {
    /// Registers an observer slot for one container.  Slots fire in
    /// registration order at commit time; they are bound to the container
    /// identity, not to the proxy object that registered them.
    pub(crate) fn observe_target(&mut self, target: SubTarget) -> (r: Result<
        u64,
        BridgeError,
    >)
        requires
            old(self).wf(),
        ensures
            final(self).wf(),
            final(self).arrays@ == old(self).arrays@,
            final(self).hashes@ == old(self).hashes@,
            final(self).texts@ == old(self).texts@,
            final(self).pending@ == old(self).pending@,
            final(self).open_tx == old(self).open_tx,
            final(self).update_subs@ == old(self).update_subs@,
            final(self).engine == old(self).engine,
            r is Ok <==> old(self).sub_counter < u64::MAX,
            old(self).sub_counter < u64::MAX ==> r is Ok && final(self).subs@ == old(self).subs@.push(
                (Subscription { id: old(self).sub_counter, target, active: true }),
            ) && r->Ok_0 == old(self).sub_counter,
            r is Err ==> *final(self) == *old(self) && r->Err_0 is TransactionState,
    {
        if self.sub_counter == u64::MAX {
            return Err(BridgeError::TransactionState(String::from_str(
                "subscription identifiers exhausted",
            )));
        }
        let id = self.sub_counter;
        self.sub_counter = self.sub_counter + 1;
        self.subs.push(Subscription { id, target, active: true });
        Ok(id)
    }

    /// Removes the observer slot with the given identifier; removing an
    /// unknown or already-removed subscription is a no-op.
    pub(crate) fn unobserve_id(&mut self, subscription: u64)
        requires
            old(self).wf(),
        ensures
            final(self).wf(),
            final(self).arrays@ == old(self).arrays@,
            final(self).hashes@ == old(self).hashes@,
            final(self).texts@ == old(self).texts@,
            final(self).pending@ == old(self).pending@,
            final(self).open_tx == old(self).open_tx,
            final(self).update_subs@ == old(self).update_subs@,
            final(self).engine == old(self).engine,
            final(self).subs@.len() == old(self).subs@.len(),
            forall|i: int|
                0 <= i < old(self).subs@.len() && old(self).subs@[i].id != subscription
                    ==> final(self).subs@[i] == old(self).subs@[i],
            forall|i: int|
                0 <= i < old(self).subs@.len() && old(self).subs@[i].id == subscription
                    ==> final(self).subs@[i].id == old(self).subs@[i].id
                    && final(self).subs@[i].target == old(self).subs@[i].target
                    && !final(self).subs@[i].active,
    {
        let ghost subs0 = self.subs@;
        let mut i: usize = 0;
        while i < self.subs.len()
            invariant
                old(self).wf(),
                i <= self.subs@.len(),
                self.subs@.len() == subs0.len(),
                self.arrays@ == old(self).arrays@,
                self.hashes@ == old(self).hashes@,
                self.texts@ == old(self).texts@,
                self.pending@ == old(self).pending@,
                self.open_tx == old(self).open_tx,
                self.update_subs@ == old(self).update_subs@,
                self.engine == old(self).engine,
                self.sub_counter == old(self).sub_counter,
                self.tx_counter == old(self).tx_counter,
                self.tx_start_state@ == old(self).tx_start_state@,
                self.client_id == old(self).client_id,
                forall|j: int| i <= j < subs0.len() ==> self.subs@[j] == subs0[j],
                forall|j: int|
                    0 <= j < i && subs0[j].id != subscription ==> self.subs@[j] == subs0[j],
                forall|j: int|
                    0 <= j < i && subs0[j].id == subscription ==> self.subs@[j].id == subs0[j].id
                        && self.subs@[j].target == subs0[j].target && !self.subs@[j].active,
            decreases self.subs@.len() - i,
        {
            if self.subs[i].id == subscription {
                let target = SubTarget {
                    kind: self.subs[i].target.kind,
                    root: self.subs[i].target.root.clone(),
                };
                let id = self.subs[i].id;
                self.subs.set(i, Subscription { id, target, active: false });
            }
            i += 1;
        }
        proof {
            assert(self.subs_ok()) by {
                assert forall|a: int, b: int| 0 <= a < b < self.subs@.len() implies self.subs@[
                    a
                ].id != self.subs@[b].id by {
                    assert(self.subs@[a].id == subs0[a].id);
                    assert(self.subs@[b].id == subs0[b].id);
                }
                assert forall|a: int| 0 <= a < self.subs@.len() implies self.subs@[a].id < self
                    .sub_counter by {
                    assert(self.subs@[a].id == subs0[a].id);
                }
            }
        }
    }
}

// ---------------------------------------------------------------------------
// Pending-change bookkeeping.
// ---------------------------------------------------------------------------

impl YDoc {
    /// Whether the open transaction holds a recorded change for the named
    /// container.
    pub open spec fn has_pending(&self, kind: ContainerKind, root: Seq<char>) -> bool {
        exists|i: int|
            0 <= i < self.pending@.len() && (#[trigger] self.pending@[i]).target.kind == kind
                && self.pending@[i].target.root@ == root
    }

    pub open spec fn pending_index_of(&self, kind: ContainerKind, root: Seq<char>) -> int {
        choose|i: int|
            0 <= i < self.pending@.len() && (#[trigger] self.pending@[i]).target.kind == kind
                && self.pending@[i].target.root@ == root
    }

    /// The open transaction's recorded change for the named container.
    pub open spec fn pending_rec(&self, kind: ContainerKind, root: Seq<char>) -> PendingChange {
        self.pending@[self.pending_index_of(kind, root)]
    }

    /// The recorded transaction-start contents of an array root the open
    /// transaction has touched.
    pub open spec fn arr_pending_snapshot(&self, root: Seq<char>) -> Seq<AnyVal> {
        self.pending_rec(ContainerKind::Array, root).data->Arr_snapshot@.map_values(
            |a: EngineAny| a@,
        )
    }

    /// The recorded transaction-start contents of a text root the open
    /// transaction has touched.
    pub open spec fn txt_pending_snapshot(&self, root: Seq<char>) -> Seq<TextItemVal> {
        self.pending_rec(ContainerKind::Text, root).data->Txt_snapshot@.map_values(
            |t: TextItem| t@,
        )
    }

    /// The recorded transaction-start contents of a map root the open
    /// transaction has touched.
    pub open spec fn hash_pending_snapshot(&self, root: Seq<char>) -> Seq<(Seq<char>, AnyVal)> {
        crate::engine_any::any_val_dict(
            self.pending_rec(ContainerKind::Hash, root).data->Dict_snapshot@,
        )
    }

    /// What a successful mutation of the named container does to the open
    /// transaction's records: the container now has one, and every other
    /// container's record is exactly what it was.
    pub open spec fn pending_after_edit(&self, o: &YDoc, kind: ContainerKind, root: Seq<char>)
        -> bool {
        &&& self.has_pending(kind, root)
        &&& forall|k2: ContainerKind, n2: Seq<char>|
            !(k2 == kind && n2 == root) ==> (#[trigger] self.has_pending(k2, n2)
                <==> o.has_pending(k2, n2))
        &&& forall|k2: ContainerKind, n2: Seq<char>|
            !(k2 == kind && n2 == root) && o.has_pending(k2, n2)
                ==> #[trigger] self.pending_rec(k2, n2) == o.pending_rec(k2, n2)
    }
}

/// After one container's record is refreshed and re-appended, every other
/// container's record is untouched.
pub proof fn lemma_pending_others_preserved(
    doc0: &YDoc,
    doc1: &YDoc,
    kind: ContainerKind,
    root: Seq<char>,
    pending1: Seq<PendingChange>,
    removed: Option<int>,
)
    requires
        doc0.tx_ok(),
        doc1.tx_ok(),
        doc1.pending@.len() == pending1.len() + 1,
        doc1.pending@.take(pending1.len() as int) == pending1,
        doc1.pending@.last().target.kind == kind,
        doc1.pending@.last().target.root@ == root,
        match removed {
            Some(j) => 0 <= j < doc0.pending@.len() && doc0.pending@[j].target.kind == kind
                && doc0.pending@[j].target.root@ == root && pending1 == doc0.pending@.remove(j),
            None => pending1 == doc0.pending@ && forall|l: int|
                0 <= l < doc0.pending@.len() ==> !((#[trigger] doc0.pending@[l]).target.kind
                    == kind && doc0.pending@[l].target.root@ == root),
        },
    ensures
        doc1.pending_after_edit(doc0, kind, root),
        doc1.pending_rec(kind, root) == doc1.pending@.last(),
        removed is Some ==> doc0.has_pending(kind, root) && doc0.pending_rec(kind, root)
            == doc0.pending@[removed->0],
        removed is None ==> !doc0.has_pending(kind, root),
{
    let last = doc1.pending@.len() - 1;
    assert(doc1.has_pending(kind, root));
    lemma_unique_pending_index(doc1, kind, root);
    assert(doc1.pending_index_of(kind, root) == last);
    let src_of = |l: int| -> int {
        match removed {
            Some(j) => if l < j {
                l
            } else {
                l + 1
            },
            None => l,
        }
    };
    assert forall|l: int| 0 <= l < pending1.len() implies pending1[l] == doc0.pending@[
        src_of(l)
    ] && 0 <= src_of(l) < doc0.pending@.len() by {
        if removed is Some {
            let j = removed->0;
            if l < j {
                assert(pending1[l] == doc0.pending@[l]);
            } else {
                assert(pending1[l] == doc0.pending@[l + 1]);
            }
        }
    }
    if removed is Some {
        let j = removed->0;
        assert(doc0.has_pending(kind, root));
        lemma_unique_pending_index(doc0, kind, root);
        assert(doc0.pending_index_of(kind, root) == j);
    } else {
        assert(!doc0.has_pending(kind, root));
    }
    assert forall|k2: ContainerKind, n2: Seq<char>| !(k2 == kind && n2 == root) implies (
    #[trigger] doc1.has_pending(k2, n2) <==> doc0.has_pending(k2, n2)) by {
        if doc1.has_pending(k2, n2) {
            lemma_unique_pending_index(doc1, k2, n2);
            let v = doc1.pending_index_of(k2, n2);
            assert(v != last);
            assert(doc1.pending@[v] == pending1[v]);
            assert(pending1[v] == doc0.pending@[src_of(v)]);
            assert(doc0.has_pending(k2, n2));
        }
        if doc0.has_pending(k2, n2) {
            lemma_unique_pending_index(doc0, k2, n2);
            let w = doc0.pending_index_of(k2, n2);
            let w1: int = match removed {
                Some(j) => if w < j {
                    w
                } else {
                    w - 1
                },
                None => w,
            };
            assert(pending1[w1] == doc0.pending@[w]);
            assert(doc1.pending@[w1] == doc0.pending@[w]);
            assert(doc1.has_pending(k2, n2));
        }
    }
    assert forall|k2: ContainerKind, n2: Seq<char>|
        !(k2 == kind && n2 == root) && doc0.has_pending(k2, n2) implies #[trigger] doc1.pending_rec(
        k2,
        n2,
    ) == doc0.pending_rec(k2, n2) by {
        if doc0.has_pending(k2, n2) {
            lemma_unique_pending_index(doc0, k2, n2);
            let w = doc0.pending_index_of(k2, n2);
            let w1: int = match removed {
                Some(j) => if w < j {
                    w
                } else {
                    w - 1
                },
                None => w,
            };
            if removed is Some {
                let j = removed->0;
                assert(w != j);
                if w < j {
                    assert(pending1[w1] == doc0.pending@[w]);
                } else {
                    assert(pending1[w1] == doc0.pending@[w]);
                }
            } else {
                assert(pending1[w1] == doc0.pending@[w]);
            }
            assert(doc1.pending@[w1] == doc0.pending@[w]);
            assert(doc1.has_pending(k2, n2));
            lemma_unique_pending_index(doc1, k2, n2);
            assert(doc1.pending_index_of(k2, n2) == w1);
            assert(doc1.pending_rec(k2, n2) == doc0.pending_rec(k2, n2));
        }
    }
}

/// With the transaction bookkeeping well-formed, the chosen index of an
/// existing pending record is the one holding it.
pub proof fn lemma_unique_pending_index(doc: &YDoc, kind: ContainerKind, root: Seq<char>)
    requires
        doc.tx_ok(),
        doc.has_pending(kind, root),
    ensures
        0 <= doc.pending_index_of(kind, root) < doc.pending@.len(),
        doc.pending@[doc.pending_index_of(kind, root)].target.kind == kind,
        doc.pending@[doc.pending_index_of(kind, root)].target.root@ == root,
        forall|i: int|
            0 <= i < doc.pending@.len() && (#[trigger] doc.pending@[i]).target.kind == kind
                && doc.pending@[i].target.root@ == root ==> i == doc.pending_index_of(kind, root),
{
    let j = choose|i: int|
        0 <= i < doc.pending@.len() && (#[trigger] doc.pending@[i]).target.kind == kind
            && doc.pending@[i].target.root@ == root;
    assert(doc.pending@[j].target.kind == kind && doc.pending@[j].target.root@ == root);
    assert forall|i: int|
        0 <= i < doc.pending@.len() && (#[trigger] doc.pending@[i]).target.kind == kind
            && doc.pending@[i].target.root@ == root implies i == doc.pending_index_of(
        kind,
        root,
    ) by {
        let w = doc.pending_index_of(kind, root);
        if i != w {
            if i < w {
                assert(!(doc.pending@[i].target.kind == doc.pending@[w].target.kind
                    && doc.pending@[i].target.root@ == doc.pending@[w].target.root@));
            } else {
                assert(!(doc.pending@[w].target.kind == doc.pending@[i].target.kind
                    && doc.pending@[w].target.root@ == doc.pending@[i].target.root@));
            }
        }
    }
}

impl YDoc {
    pub(crate) fn pending_find(&self, kind: ContainerKind, name: &String) -> (r: Option<usize>)
        ensures
            r is Some ==> r->0 < self.pending@.len() && self.pending@[r->0 as int].target.kind
                == kind && self.pending@[r->0 as int].target.root@ == name@,
            r is None ==> forall|i: int|
                0 <= i < self.pending@.len() ==> !((#[trigger] self.pending@[i]).target.kind == kind
                    && self.pending@[i].target.root@ == name@),
    {
        let mut i: usize = 0;
        while i < self.pending.len()
            invariant
                i <= self.pending@.len(),
                forall|j: int|
                    0 <= j < i ==> !((#[trigger] self.pending@[j]).target.kind == kind
                        && self.pending@[j].target.root@ == name@),
            decreases self.pending@.len() - i,
        {
            if self.pending[i].target.kind == kind && self.pending[i].target.root == *name {
                return Some(i);
            }
            i += 1;
        }
        None
    }
}

/// A deep copy of a payload list, with the same mathematical values.
pub(crate) fn items_duplicate(xs: &Vec<EngineAny>) -> (r: Vec<EngineAny>)
    ensures
        r@.map_values(|a: EngineAny| a@) == xs@.map_values(|a: EngineAny| a@),
        r@.len() == xs@.len(),
{
    let mut r: Vec<EngineAny> = Vec::new();
    let mut i: usize = 0;
    while i < xs.len()
        invariant
            i <= xs@.len(),
            r@.len() == i,
            forall|j: int| 0 <= j < i ==> r@[j]@ == xs@[j]@,
        decreases xs@.len() - i,
    {
        let y = crate::yvalue::any_duplicate(&xs[i]);
        r.push(y);
        i += 1;
    }
    proof {
        assert(r@.map_values(|a: EngineAny| a@) =~= xs@.map_values(|a: EngineAny| a@));
    }
    r
}

/// A deep copy of a map container's entries.
pub(crate) fn entries_duplicate(xs: &Vec<DictEntry>) -> (r: Vec<DictEntry>)
    ensures
        crate::engine_any::any_val_dict(r@) == crate::engine_any::any_val_dict(xs@),
        r@.len() == xs@.len(),
        forall|j: int| 0 <= j < xs@.len() ==> r@[j].key@ == xs@[j].key@ && r@[j].val@ == xs@[j].val@,
{
    broadcast use crate::engine_any::lemma_any_val_dict_len,
        crate::engine_any::lemma_any_val_dict_index;

    let mut r: Vec<DictEntry> = Vec::new();
    let mut i: usize = 0;
    while i < xs.len()
        invariant
            i <= xs@.len(),
            r@.len() == i,
            forall|j: int| 0 <= j < i ==> r@[j].key@ == xs@[j].key@ && r@[j].val@ == xs@[j].val@,
        decreases xs@.len() - i,
    {
        let y = crate::yvalue::any_duplicate(&xs[i].val);
        let k = xs[i].key.clone();
        r.push(DictEntry { key: k, val: y });
        i += 1;
    }
    proof {
        assert(crate::engine_any::any_val_dict(r@) =~= crate::engine_any::any_val_dict(xs@));
    }
    r
}

} // verus!
