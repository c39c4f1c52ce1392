use vstd::prelude::*;

use crate::engine::{engine_map_insert, engine_map_remove, engine_roots};
use crate::engine_any::{
    any_val_dict, dict_get, dict_has_key, lemma_dict_get_char, AnyVal, DictEntry, EngineAny,
};
use crate::error::BridgeError;
use crate::ydoc::{
    entries_duplicate, lemma_unique_hash_index, HashChange, HashDeltaEntry, PendingChange,
    PendingData, SubTarget, Subscription, YDoc, YTransaction,
};
use crate::yvalue::{
    any_duplicate, dict_entry_put, e2h, engine_to_host, h2e, host_key_to_string, host_to_engine,
    lemma_dict_put_get, lemma_dict_put_unique, ContainerKind, HostValue,
};

verus! {

/// A host-held proxy for a root map container, aliasing it by name.
pub struct YMap {
    pub name: String,
}

/// `dict_get` of a unique-keyed entry list, located at an index.
pub proof fn lemma_dict_get_at(d: Seq<(Seq<char>, AnyVal)>, i: int)
    requires
        0 <= i < d.len(),
        forall|j: int| 0 <= j < i ==> d[j].0 != d[i].0,
    ensures
        dict_get(d, d[i].0) == Some(d[i].1),
    decreases i,
{
    if i > 0 {
        assert forall|j: int| 0 <= j < i - 1 implies (#[trigger] d.drop_first()[j]).0
            != d.drop_first()[i - 1].0 by {
            assert(d.drop_first()[j] == d[j + 1]);
        }
        lemma_dict_get_at(d.drop_first(), i - 1);
        assert(d.drop_first()[i - 1] == d[i]);
        assert(d[0].0 != d[i].0);
    }
}

/// `dict_get` after removing the entry at `i` from a unique-keyed list.
pub proof fn lemma_dict_get_remove(d: Seq<(Seq<char>, AnyVal)>, i: int)
    requires
        0 <= i < d.len(),
        forall|a: int, b: int| 0 <= a < b < d.len() ==> d[a].0 != d[b].0,
    ensures
        !dict_has_key(d.remove(i), d[i].0),
        forall|k2: Seq<char>|
            k2 != d[i].0 ==> #[trigger] dict_get(d.remove(i), k2) == dict_get(d, k2),
        forall|k2: Seq<char>|
            k2 != d[i].0 ==> (dict_has_key(d.remove(i), k2) <==> dict_has_key(d, k2)),
        forall|a: int, b: int|
            0 <= a < b < d.remove(i).len() ==> d.remove(i)[a].0 != d.remove(i)[b].0,
    decreases d,
{
    let r = d.remove(i);
    assert forall|a: int, b: int| 0 <= a < b < r.len() implies r[a].0 != r[b].0 by {
        let a0: int = if a < i {
            a
        } else {
            a + 1
        };
        let b0: int = if b < i {
            b
        } else {
            b + 1
        };
        assert(r[a] == d[a0]);
        assert(r[b] == d[b0]);
    }
    assert forall|j: int| 0 <= j < r.len() implies r[j].0 != d[i].0 by {
        let j0: int = if j < i {
            j
        } else {
            j + 1
        };
        assert(r[j] == d[j0]);
    }
    if i == 0 {
        assert(r =~= d.drop_first());
        assert forall|k2: Seq<char>| k2 != d[0].0 implies #[trigger] dict_get(r, k2) == dict_get(
            d,
            k2,
        ) by {
            assert(dict_get(d, k2) == dict_get(d.drop_first(), k2));
        }
    } else {
        assert forall|a: int, b: int|
            0 <= a < b < d.drop_first().len() implies d.drop_first()[a].0 != d.drop_first()[
            b
        ].0 by {
            assert(d.drop_first()[a] == d[a + 1]);
            assert(d.drop_first()[b] == d[b + 1]);
        }
        lemma_dict_get_remove(d.drop_first(), i - 1);
        assert(r.drop_first() =~= d.drop_first().remove(i - 1));
        assert(r.first() == d.first());
        assert(d.drop_first()[i - 1] == d[i]);
        assert forall|k2: Seq<char>| k2 != d[i].0 implies #[trigger] dict_get(r, k2) == dict_get(
            d,
            k2,
        ) by {
            if d.first().0 != k2 {
                assert(dict_get(r, k2) == dict_get(r.drop_first(), k2));
                assert(dict_get(d, k2) == dict_get(d.drop_first(), k2));
            }
        }
    }
    assert forall|k2: Seq<char>| k2 != d[i].0 implies (dict_has_key(r, k2) <==> dict_has_key(
        d,
        k2,
    )) by {
        lemma_dict_get_char(r, k2);
        lemma_dict_get_char(d, k2);
    }
    lemma_dict_get_char(r, d[i].0);
}

/// Finds the entry with the given key, if any.
pub(crate) fn dict_lookup(entries: &Vec<DictEntry>, key: &String) -> (r: Option<usize>)
    ensures
        r is Some ==> r->0 < entries@.len() && entries@[r->0 as int].key@ == key@ && forall|j: int|
            0 <= j < r->0 ==> entries@[j].key@ != key@,
        r is None ==> forall|j: int| 0 <= j < entries@.len() ==> entries@[j].key@ != key@,
{
    let mut i: usize = 0;
    while i < entries.len()
        invariant
            i <= entries@.len(),
            forall|j: int| 0 <= j < i ==> entries@[j].key@ != key@,
        decreases entries@.len() - i,
    {
        if entries[i].key == *key {
            return Some(i);
        }
        i += 1;
    }
    None
}

impl YDoc {
    /// What a map mutation leaves untouched.
    pub open spec fn hash_edit_frame(&self, o: &YDoc) -> bool {
        &&& self.arrays@ == o.arrays@
        &&& self.texts@ == o.texts@
        &&& self.subs@ == o.subs@
        &&& self.update_subs@ == o.update_subs@
        &&& self.sub_counter == o.sub_counter
        &&& self.open_tx == o.open_tx
        &&& self.tx_counter == o.tx_counter
        &&& self.tx_start_state@ == o.tx_start_state@
        &&& self.client_id == o.client_id
        &&& forall|n: Seq<char>|
            #[trigger] engine_roots(o.engine).contains_key(n) ==> engine_roots(
                self.engine,
            ).contains_key(n) && engine_roots(self.engine)[n] == engine_roots(o.engine)[n]
    }

    /// The shared body of a map insertion: stores `val` under `key` in
    /// the model, the engine replica, and the transaction's recorded
    /// delta; returns the prior value under the key, if any.
    #[verifier::loop_isolation(false)]
    #[verifier::rlimit(100)]
    pub(crate) fn hash_put(
        &mut self,
        tx: &YTransaction,
        name: &String,
        key: String,
        val: EngineAny,
    ) -> (r: Result<Option<EngineAny>, BridgeError>)
        requires
            old(self).wf(),
        ensures
            final(self).wf(),
            final(self).hash_edit_frame(old(self)),
            r is Err ==> *final(self) == *old(self),
            !old(self).tx_live(*tx) ==> r is Err && r->Err_0 is TransactionState,
            old(self).tx_live(*tx) && !old(self).has_hash(name@) ==> r is Err && r->Err_0
                is Conversion,
            r is Ok <==> old(self).tx_live(*tx) && old(self).has_hash(name@),
            r is Ok ==> dict_get(final(self).hash_entries(name@), key@) == Some(val@),
            r is Ok ==> forall|k2: Seq<char>|
                k2 != key@ ==> #[trigger] dict_get(final(self).hash_entries(name@), k2) == dict_get(
                    old(self).hash_entries(name@),
                    k2,
                ),
            r is Ok ==> ({
                match r->Ok_0 {
                    Some(p) => dict_get(old(self).hash_entries(name@), key@) == Some(p@),
                    None => !dict_has_key(old(self).hash_entries(name@), key@),
                }
            }),
            r is Ok ==> final(self).pending_after_edit(old(self), ContainerKind::Hash, name@),
            r is Ok ==> final(self).pending_rec(ContainerKind::Hash, name@).data is Dict
                && final(self).pending_rec(ContainerKind::Hash, name@).data->Dict_delta@.len() > 0
                && final(self).hash_pending_snapshot(name@) == (if old(self).has_pending(
                ContainerKind::Hash,
                name@,
            ) {
                old(self).hash_pending_snapshot(name@)
            } else {
                old(self).hash_entries(name@)
            }),
            forall|n: Seq<char>| old(self).has_hash(n) <==> final(self).has_hash(n),
            forall|n: Seq<char>|
                n != name@ && old(self).has_hash(n) ==> final(self).hash_entries(n) == old(
                    self,
                ).hash_entries(n),
    {
        broadcast use crate::engine_any::lemma_any_val_dict_len,
            crate::engine_any::lemma_any_val_dict_index;

        let live = match self.open_tx {
            Some(id) => id == tx.id,
            None => false,
        };
        if !live {
            return Err(BridgeError::TransactionState(String::from_str(
                "the transaction handle is no longer valid",
            )));
        }
        let i = match self.find_hash(name) {
            Some(i) => i,
            None => {
                return Err(BridgeError::Conversion(String::from_str(
                    "unknown map container",
                )));
            },
        };
        proof {
            lemma_unique_hash_index(self, name@);
            assert(self.hash_index_of(name@) == i);
        }
        let ghost doc0 = *self;
        let ghost cur0 = any_val_dict(self.hashes@[i as int].entries@);

        // The prior value under the key, if any.
        let prior_idx = dict_lookup(&self.hashes[i].entries, &key);
        let prior: Option<EngineAny> = match prior_idx {
            Some(p) => {
                proof {
                    lemma_dict_get_at(cur0, p as int);
                }
                Some(any_duplicate(&self.hashes[i].entries[p].val))
            },
            None => {
                proof {
                    lemma_dict_get_char(cur0, key@);
                }
                None
            },
        };

        // Echo into the engine replica.
        engine_map_insert(&mut self.engine, name.as_str(), key.as_str(), &val);

        // Take over (or open) the transaction's record of this container.
        let found = self.pending_find(ContainerKind::Hash, name);
        let ghost jg = found;
        let pe = match found {
            Some(j) => {
                let p = self.pending.remove(j);
                proof {
                    assert(p == doc0.pending@[j as int]);
                    assert(doc0.pending_entry_ok(&doc0.pending@[j as int]));
                }
                p
            },
            None => {
                let snap = entries_duplicate(&self.hashes[i].entries);
                PendingChange {
                    target: SubTarget { kind: ContainerKind::Hash, root: name.clone() },
                    data: PendingData::Dict { snapshot: snap, delta: Vec::new() },
                }
            },
        };
        let ghost pending1 = self.pending@;
        proof {
            if jg is Some {
                let j = jg->0 as int;
                assert(pending1 =~= doc0.pending@.remove(j));
            }
            assert(pe.target.kind is Hash);
            assert(pe.target.root@ == name@);
            assert(pe.data is Dict);
        }
        let (snapshot, mut delta) = match pe.data {
            PendingData::Dict { snapshot, delta } => (snapshot, delta),
            PendingData::Arr { snapshot, delta } => {
                proof {
                    assert(false);
                }
                return Err(BridgeError::Conversion(String::new()));
            },
            PendingData::Txt { snapshot, delta } => {
                proof {
                    assert(false);
                }
                return Err(BridgeError::Conversion(String::new()));
            },
        };
        let ghost snapv = any_val_dict(snapshot@);
        let ghost delta0 = crate::ydoc::hash_delta_val(delta@);
        proof {
            assert(crate::ydoc::hash_delta_ok(snapv, delta0, cur0));
        }

        // Compose this write into the recorded delta.
        let val_copy = any_duplicate(&val);
        let d_idx = {
            let mut j: usize = 0;
            let mut found_d: Option<usize> = None;
            while j < delta.len()
                invariant
                    j <= delta@.len(),
                    found_d is None ==> forall|l: int| 0 <= l < j ==> delta@[l].key@ != key@,
                    found_d is Some ==> found_d->0 < delta@.len() && delta@[found_d->0 as int].key@
                        == key@,
                decreases delta@.len() - j + (if found_d is None { 1int } else { 0int }),
            {
                if delta[j].key == key {
                    found_d = Some(j);
                    break;
                }
                j += 1;
            }
            found_d
        };
        let ghost dg = d_idx;
        let ghost wit: int = match d_idx {
            Some(j) => j as int,
            None => delta@.len() as int,
        };
        match d_idx {
            Some(j) => {
                let ghost oldch = delta@[j as int].change@;
                proof {
                    assert(delta0[j as int] == (delta@[j as int].key@, oldch));
                }
                let change = match &delta[j].change {
                    HashChange::Inserted(_) => HashChange::Inserted(val_copy),
                    HashChange::Updated(o, _) => HashChange::Updated(any_duplicate(o), val_copy),
                    HashChange::Removed(o) => HashChange::Updated(any_duplicate(o), val_copy),
                };
                let ghost chv = change@;
                let k2 = delta[j].key.clone();
                delta.set(j, HashDeltaEntry { key: k2, change });
                proof {
                    assert(crate::ydoc::hash_delta_val(delta@)[j as int] == (key@, chv));
                    lemma_dict_get_char(snapv, key@);
                    assert(match chv {
                        crate::ydoc::HashChangeVal::Inserted(v) => v == val@ && !dict_has_key(
                            snapv,
                            key@,
                        ),
                        crate::ydoc::HashChangeVal::Updated(o, n) => n == val@ && dict_get(
                            snapv,
                            key@,
                        ) == Some(o),
                        crate::ydoc::HashChangeVal::Removed(_) => false,
                    });
                }
            },
            None => {
                proof {
                    assert forall|l: int| 0 <= l < delta0.len() implies (#[trigger] delta0[l]).0
                        != key@ by {
                        assert(delta0[l] == (delta@[l].key@, delta@[l].change@));
                    }
                    assert(dict_get(cur0, key@) == dict_get(snapv, key@));
                    lemma_dict_get_char(snapv, key@);
                    lemma_dict_get_char(cur0, key@);
                }
                let change = match &prior {
                    Some(p) => HashChange::Updated(any_duplicate(p), val_copy),
                    None => HashChange::Inserted(val_copy),
                };
                let ghost chv = change@;
                let kc = key.clone();
                delta.push(HashDeltaEntry { key: kc, change });
                proof {
                    assert(crate::ydoc::hash_delta_val(delta@)[wit] == (key@, chv));
                    assert(match chv {
                        crate::ydoc::HashChangeVal::Inserted(v) => v == val@ && !dict_has_key(
                            snapv,
                            key@,
                        ),
                        crate::ydoc::HashChangeVal::Updated(o, n) => n == val@ && dict_get(
                            snapv,
                            key@,
                        ) == Some(o),
                        crate::ydoc::HashChangeVal::Removed(_) => false,
                    });
                }
            },
        }

        // Store into the model contents.
        let mut root = self.hashes.remove(i);
        proof {
            assert(any_val_dict(root.entries@) == cur0);
        }
        let kc = key.clone();
        dict_entry_put(&mut root.entries, kc, val);
        self.hashes.insert(i, root);
        let ghost cur1 = any_val_dict(self.hashes@[i as int].entries@);
        proof {
            assert(self.hashes@ =~= doc0.hashes@.update(i as int, self.hashes@[i as int]));
            assert(self.hashes@[i as int].name@ == name@);
            assert(cur1 == crate::yvalue::dict_put(cur0, key@, val@));
            lemma_dict_put_get(cur0, key@, val@);
            assert(crate::engine_any::dict_keys_unique(cur0)) by {
                assert forall|a: int, b: int| 0 <= a < b < cur0.len() implies cur0[a].0 != cur0[
                    b
                ].0 by {
                    assert(doc0.hashes@[i as int].entries@[a].key@
                        != doc0.hashes@[i as int].entries@[b].key@);
                }
            }
            lemma_dict_put_unique(cur0, key@, val@);
        }
        let ghost delta1 = crate::ydoc::hash_delta_val(delta@);
        self.pending.push(
            PendingChange { target: pe.target, data: PendingData::Dict { snapshot, delta } },
        );

        proof {
            assert(self.has_hash(name@));
            assert(self.pending@.take(pending1.len() as int) =~= pending1);
            lemma_unique_hash_index(self, name@);
            assert(self.hash_index_of(name@) == i);
            assert forall|n: Seq<char>| n != name@ && doc0.has_hash(n) implies self.has_hash(n)
                && self.hash_entries(n) == doc0.hash_entries(n) by {
                lemma_unique_hash_index(&doc0, n);
                let j = doc0.hash_index_of(n);
                assert(self.hashes@[j] == doc0.hashes@[j]);
                lemma_unique_hash_index(self, n);
            }
            // Bridge the executable delta manipulation to the abstract rules.
            assert forall|l: int|
                0 <= l < delta1.len() && (#[trigger] delta1[l]).0 != key@ implies exists|l0: int|
                0 <= l0 < delta0.len() && delta1[l] == #[trigger] delta0[l0] by {
                if dg is Some {
                    assert(delta1[l] == delta0[l]);
                } else {
                    assert(l < delta0.len());
                    assert(delta1[l] == delta0[l]);
                }
            }
            assert forall|l0: int|
                0 <= l0 < delta0.len() && (#[trigger] delta0[l0]).0 != key@ implies exists|l: int|
                0 <= l < delta1.len() && delta0[l0] == #[trigger] delta1[l] by {
                if dg is Some {
                    assert(dg->0 as int != l0);
                    assert(delta1[l0] == delta0[l0]);
                } else {
                    assert(delta1[l0] == delta0[l0]);
                }
            }
            assert forall|a: int, b: int| 0 <= a < b < delta1.len() implies delta1[a].0 != delta1[
                b
            ].0 by {
                if dg is Some {
                    let j = dg->0 as int;
                    if a != j && b != j {
                        assert(delta1[a] == delta0[a]);
                        assert(delta1[b] == delta0[b]);
                    } else if a == j {
                        assert(delta1[b] == delta0[b]);
                        assert(delta0[j].0 == key@);
                    } else {
                        assert(delta1[a] == delta0[a]);
                        assert(delta0[j].0 == key@);
                    }
                } else {
                    if b == delta1.len() - 1 {
                        assert(delta1[a] == delta0[a]);
                    } else {
                        assert(delta1[a] == delta0[a]);
                        assert(delta1[b] == delta0[b]);
                    }
                }
            }
            assert(exists|l: int|
                0 <= l < delta1.len() && (#[trigger] delta1[l]).0 == key@ && match delta1[l].1 {
                    crate::ydoc::HashChangeVal::Inserted(v) => v == val@ && !dict_has_key(
                        snapv,
                        key@,
                    ),
                    crate::ydoc::HashChangeVal::Updated(o, n) => n == val@ && dict_get(
                        snapv,
                        key@,
                    ) == Some(o),
                    crate::ydoc::HashChangeVal::Removed(_) => false,
                }) by {
                assert(0 <= wit < delta1.len());
                assert(delta1[wit].0 == key@);
            }
            lemma_hash_delta_put(snapv, delta0, cur0, delta1, cur1, key@, val@);
            assert_wf_after_hash_edit(
                &doc0,
                self,
                *tx,
                name@,
                i as int,
                pending1,
                match jg {
                    Some(j) => Some(j as int),
                    None => None,
                },
            );
            crate::ydoc::lemma_pending_others_preserved(
                &doc0,
                self,
                ContainerKind::Hash,
                name@,
                pending1,
                match jg {
                    Some(j) => Some(j as int),
                    None => None,
                },
            );
            assert(self.pending_rec(ContainerKind::Hash, name@) == self.pending@.last());
            assert(any_val_dict(self.pending@.last().data->Dict_snapshot@) == snapv);
            assert(self.pending@.last().data->Dict_delta@.len() == delta1.len());
            assert(delta1.len() > 0);
            if jg is Some {
                let j = jg->0 as int;
                assert(doc0.pending_rec(ContainerKind::Hash, name@) == doc0.pending@[j]);
                assert(any_val_dict(doc0.pending@[j].data->Dict_snapshot@) == snapv);
                assert(doc0.hash_pending_snapshot(name@) == snapv);
            } else {
                assert(snapv == cur0);
                assert(doc0.hash_entries(name@) == cur0);
            }
        }
        Ok(prior)
    }
}

impl YDoc {
    /// The shared body of a map removal: drops `key` from the model, the
    /// engine replica, and composes the removal into the transaction's
    /// recorded delta; returns the prior value under the key, if any.
    /// Removing an absent key changes nothing.
    #[verifier::loop_isolation(false)]
    #[verifier::rlimit(100)]
    pub(crate) fn hash_remove(&mut self, tx: &YTransaction, name: &String, key: &String) -> (r:
        Result<Option<EngineAny>, BridgeError>)
        requires
            old(self).wf(),
        ensures
            final(self).wf(),
            final(self).hash_edit_frame(old(self)),
            r is Err ==> *final(self) == *old(self),
            !old(self).tx_live(*tx) ==> r is Err && r->Err_0 is TransactionState,
            old(self).tx_live(*tx) && !old(self).has_hash(name@) ==> r is Err && r->Err_0
                is Conversion,
            r is Ok <==> old(self).tx_live(*tx) && old(self).has_hash(name@),
            r is Ok ==> !dict_has_key(final(self).hash_entries(name@), key@),
            r is Ok ==> forall|k2: Seq<char>|
                k2 != key@ ==> #[trigger] dict_get(final(self).hash_entries(name@), k2) == dict_get(
                    old(self).hash_entries(name@),
                    k2,
                ),
            r is Ok ==> ({
                match r->Ok_0 {
                    Some(p) => dict_get(old(self).hash_entries(name@), key@) == Some(p@),
                    None => !dict_has_key(old(self).hash_entries(name@), key@),
                }
            }),
            r is Ok && r->Ok_0 is Some ==> final(self).hash_entries(name@).len() == old(
                self,
            ).hash_entries(name@).len() - 1,
            r is Ok && r->Ok_0 is None ==> *final(self) == *old(self),
            r is Ok && r->Ok_0 is Some ==> final(self).pending_after_edit(
                old(self),
                ContainerKind::Hash,
                name@,
            ),
            r is Ok && r->Ok_0 is Some ==> final(self).pending_rec(
                ContainerKind::Hash,
                name@,
            ).data is Dict && final(self).hash_pending_snapshot(name@) == (if old(
                self,
            ).has_pending(ContainerKind::Hash, name@) {
                old(self).hash_pending_snapshot(name@)
            } else {
                old(self).hash_entries(name@)
            }),
            forall|n: Seq<char>| old(self).has_hash(n) <==> final(self).has_hash(n),
            forall|n: Seq<char>|
                n != name@ && old(self).has_hash(n) ==> final(self).hash_entries(n) == old(
                    self,
                ).hash_entries(n),
    {
        broadcast use crate::engine_any::lemma_any_val_dict_len,
            crate::engine_any::lemma_any_val_dict_index;

        let live = match self.open_tx {
            Some(id) => id == tx.id,
            None => false,
        };
        if !live {
            return Err(BridgeError::TransactionState(String::from_str(
                "the transaction handle is no longer valid",
            )));
        }
        let i = match self.find_hash(name) {
            Some(i) => i,
            None => {
                return Err(BridgeError::Conversion(String::from_str(
                    "unknown map container",
                )));
            },
        };
        proof {
            lemma_unique_hash_index(self, name@);
            assert(self.hash_index_of(name@) == i);
        }
        let ghost doc0 = *self;
        let ghost cur0 = any_val_dict(self.hashes@[i as int].entries@);

        // The prior value under the key; an absent key is a no-op.
        let prior_idx = match dict_lookup(&self.hashes[i].entries, key) {
            Some(p) => p,
            None => {
                proof {
                    lemma_dict_get_char(cur0, key@);
                }
                return Ok(None);
            },
        };
        let prior = any_duplicate(&self.hashes[i].entries[prior_idx].val);
        proof {
            lemma_dict_get_at(cur0, prior_idx as int);
        }

        // Echo into the engine replica.
        engine_map_remove(&mut self.engine, name.as_str(), key.as_str());

        // Take over (or open) the transaction's record of this container.
        let found = self.pending_find(ContainerKind::Hash, name);
        let ghost jg = found;
        let pe = match found {
            Some(j) => {
                let p = self.pending.remove(j);
                proof {
                    assert(p == doc0.pending@[j as int]);
                    assert(doc0.pending_entry_ok(&doc0.pending@[j as int]));
                }
                p
            },
            None => {
                let snap = entries_duplicate(&self.hashes[i].entries);
                PendingChange {
                    target: SubTarget { kind: ContainerKind::Hash, root: name.clone() },
                    data: PendingData::Dict { snapshot: snap, delta: Vec::new() },
                }
            },
        };
        let ghost pending1 = self.pending@;
        proof {
            if jg is Some {
                let j = jg->0 as int;
                assert(pending1 =~= doc0.pending@.remove(j));
            }
            assert(pe.data is Dict);
        }
        let (snapshot, mut delta) = match pe.data {
            PendingData::Dict { snapshot, delta } => (snapshot, delta),
            PendingData::Arr { snapshot, delta } => {
                proof {
                    assert(false);
                }
                return Err(BridgeError::Conversion(String::new()));
            },
            PendingData::Txt { snapshot, delta } => {
                proof {
                    assert(false);
                }
                return Err(BridgeError::Conversion(String::new()));
            },
        };
        let ghost snapv = any_val_dict(snapshot@);
        let ghost delta0 = crate::ydoc::hash_delta_val(delta@);
        proof {
            assert(crate::ydoc::hash_delta_ok(snapv, delta0, cur0));
        }

        // Compose the removal into the recorded delta.
        let d_idx = {
            let mut j: usize = 0;
            let mut found_d: Option<usize> = None;
            while j < delta.len()
                invariant
                    j <= delta@.len(),
                    found_d is None ==> forall|l: int| 0 <= l < j ==> delta@[l].key@ != key@,
                    found_d is Some ==> found_d->0 < delta@.len() && delta@[found_d->0 as int].key@
                        == key@,
                decreases delta@.len() - j + (if found_d is None { 1int } else { 0int }),
            {
                if delta[j].key == *key {
                    found_d = Some(j);
                    break;
                }
                j += 1;
            }
            found_d
        };
        let ghost dg = d_idx;
        let ghost delta_before = delta@;
        let ghost mut rem_val: AnyVal = AnyVal::Null;
        let entry_folded: bool;
        match d_idx {
            Some(j) => {
                let ghost oldch = delta@[j as int].change@;
                proof {
                    assert(delta0[j as int] == (delta@[j as int].key@, oldch));
                    lemma_dict_get_char(snapv, key@);
                }
                match &delta[j].change {
                    HashChange::Inserted(_) => {
                        delta.remove(j);
                        entry_folded = true;
                        proof {
                            assert(oldch is Inserted);
                            assert(!dict_has_key(snapv, key@));
                        }
                    },
                    HashChange::Updated(o, _) => {
                        let ghost ov = o@;
                        let ch = HashChange::Removed(any_duplicate(o));
                        let k2 = delta[j].key.clone();
                        delta.set(j, HashDeltaEntry { key: k2, change: ch });
                        entry_folded = false;
                        proof {
                            rem_val = ov;
                            assert(crate::ydoc::hash_delta_val(delta@)[j as int].0 == key@);
                            assert(crate::ydoc::hash_delta_val(delta@)[j as int].1
                                == crate::ydoc::HashChangeVal::Removed(ov));
                            assert(oldch == crate::ydoc::HashChangeVal::Updated(
                                ov,
                                match oldch {
                                    crate::ydoc::HashChangeVal::Updated(_, n) => n,
                                    _ => ov,
                                },
                            ));
                            assert(match delta0[j as int].1 {
                                crate::ydoc::HashChangeVal::Updated(o2, _) => dict_get(
                                    snapv,
                                    key@,
                                ) == Some(o2),
                                _ => true,
                            });
                            assert(dict_get(snapv, key@) == Some(ov));
                        }
                    },
                    HashChange::Removed(_) => {
                        proof {
                            lemma_dict_get_char(cur0, key@);
                            assert(false);
                        }
                        entry_folded = false;
                    },
                }
            },
            None => {
                proof {
                    assert forall|l: int| 0 <= l < delta0.len() implies (#[trigger] delta0[l]).0
                        != key@ by {
                        assert(delta0[l] == (delta@[l].key@, delta@[l].change@));
                    }
                    assert(dict_get(cur0, key@) == dict_get(snapv, key@));
                }
                let ch = HashChange::Removed(any_duplicate(&prior));
                let kc = key.clone();
                delta.push(HashDeltaEntry { key: kc, change: ch });
                entry_folded = false;
                proof {
                    rem_val = prior@;
                    assert(crate::ydoc::hash_delta_val(delta@)[delta@.len() - 1].0 == key@);
                    assert(crate::ydoc::hash_delta_val(delta@)[delta@.len() - 1].1
                        == crate::ydoc::HashChangeVal::Removed(prior@));
                    assert(dict_get(cur0, key@) == Some(prior@));
                    assert(dict_get(snapv, key@) == Some(prior@));
                }
            },
        }

        // Drop from the model contents.
        let mut root = self.hashes.remove(i);
        proof {
            assert(any_val_dict(root.entries@) == cur0);
        }
        root.entries.remove(prior_idx);
        proof {
            assert(any_val_dict(root.entries@) =~= cur0.remove(prior_idx as int));
            assert(crate::engine_any::dict_keys_unique(cur0)) by {
                assert forall|a: int, b: int| 0 <= a < b < cur0.len() implies cur0[a].0 != cur0[
                    b
                ].0 by {
                    assert(doc0.hashes@[i as int].entries@[a].key@
                        != doc0.hashes@[i as int].entries@[b].key@);
                }
            }
            lemma_dict_get_remove(cur0, prior_idx as int);
        }
        self.hashes.insert(i, root);
        let ghost cur1 = any_val_dict(self.hashes@[i as int].entries@);
        let ghost delta1 = crate::ydoc::hash_delta_val(delta@);
        self.pending.push(
            PendingChange { target: pe.target, data: PendingData::Dict { snapshot, delta } },
        );

        proof {
            assert(self.hashes@ =~= doc0.hashes@.update(i as int, self.hashes@[i as int]));
            assert(self.hashes@[i as int].name@ == name@);
            assert(self.has_hash(name@));
            assert(self.pending@.take(pending1.len() as int) =~= pending1);
            lemma_unique_hash_index(self, name@);
            assert(self.hash_index_of(name@) == i);
            assert forall|n: Seq<char>| n != name@ && doc0.has_hash(n) implies self.has_hash(n)
                && self.hash_entries(n) == doc0.hash_entries(n) by {
                lemma_unique_hash_index(&doc0, n);
                let j = doc0.hash_index_of(n);
                assert(self.hashes@[j] == doc0.hashes@[j]);
                lemma_unique_hash_index(self, n);
            }
            if dg is Some && entry_folded {
                let j = dg->0 as int;
                assert(delta@ =~= delta_before.remove(j));
            }
            if dg is Some && !entry_folded {
                let j = dg->0 as int;
                assert(delta@ =~= delta_before.update(j, delta@[j]));
                assert(delta1[j] == (key@, crate::ydoc::HashChangeVal::Removed(rem_val)));
            }
            if dg is None {
                assert(delta@ =~= delta_before.push(delta@.last()));
                assert(delta1[delta1.len() - 1] == (
                    key@,
                    crate::ydoc::HashChangeVal::Removed(rem_val),
                ));
            }
            lemma_removal_delta_shape(
                delta_before,
                delta@,
                delta0,
                delta1,
                snapv,
                key@,
                match dg {
                    Some(j) => Some(j as int),
                    None => None,
                },
                entry_folded,
                rem_val,
            );
            lemma_hash_delta_removal(
                snapv,
                delta0,
                cur0,
                delta1,
                cur1,
                key@,
                dg is Some,
                match dg {
                    Some(j) => j as int,
                    None => 0,
                },
                delta_before,
            );
            assert_wf_after_hash_edit(
                &doc0,
                self,
                *tx,
                name@,
                i as int,
                pending1,
                match jg {
                    Some(j) => Some(j as int),
                    None => None,
                },
            );
            crate::ydoc::lemma_pending_others_preserved(
                &doc0,
                self,
                ContainerKind::Hash,
                name@,
                pending1,
                match jg {
                    Some(j) => Some(j as int),
                    None => None,
                },
            );
            assert(self.pending_rec(ContainerKind::Hash, name@) == self.pending@.last());
            assert(any_val_dict(self.pending@.last().data->Dict_snapshot@) == snapv);
            if jg is Some {
                let j = jg->0 as int;
                assert(doc0.pending_rec(ContainerKind::Hash, name@) == doc0.pending@[j]);
                assert(any_val_dict(doc0.pending@[j].data->Dict_snapshot@) == snapv);
                assert(doc0.hash_pending_snapshot(name@) == snapv);
            } else {
                assert(snapv == cur0);
                assert(doc0.hash_entries(name@) == cur0);
            }
        }
        Ok(Some(prior))
    }
}

/// Derives the shape facts of a map delta after one removal was composed
/// into it: which entries survived, that the keys stay unique, and what
/// the entry under the removed key says.
#[verifier::rlimit(60)]
proof fn lemma_removal_delta_shape(
    d_before: Seq<crate::ydoc::HashDeltaEntry>,
    d_after: Seq<crate::ydoc::HashDeltaEntry>,
    d0: Seq<(Seq<char>, crate::ydoc::HashChangeVal)>,
    d1: Seq<(Seq<char>, crate::ydoc::HashChangeVal)>,
    snap: Seq<(Seq<char>, AnyVal)>,
    key: Seq<char>,
    dg: Option<int>,
    key_gone: bool,
    rem_val: AnyVal,
)
    requires
        d0 == crate::ydoc::hash_delta_val(d_before),
        d1 == crate::ydoc::hash_delta_val(d_after),
        forall|a: int, b: int| 0 <= a < b < d0.len() ==> d0[a].0 != d0[b].0,
        match dg {
            Some(j) => 0 <= j < d_before.len() && d0[j].0 == key && (if key_gone {
                d_after == d_before.remove(j) && !dict_has_key(snap, key)
            } else {
                d_after.len() == d_before.len() && d_after == d_before.update(j, d_after[j])
                    && d1[j] == (key, crate::ydoc::HashChangeVal::Removed(rem_val)) && dict_get(
                    snap,
                    key,
                ) == Some(rem_val)
            }),
            None => !key_gone && (forall|l: int|
                0 <= l < d0.len() ==> (#[trigger] d0[l]).0 != key) && d_after == d_before.push(
                d_after.last(),
            ) && d1[d1.len() - 1] == (key, crate::ydoc::HashChangeVal::Removed(rem_val))
                && dict_get(snap, key) == Some(rem_val),
        },
    ensures
        forall|l: int|
            0 <= l < d1.len() && (#[trigger] d1[l]).0 != key ==> exists|l0: int|
                0 <= l0 < d0.len() && d1[l] == #[trigger] d0[l0],
        forall|l0: int|
            0 <= l0 < d0.len() && (#[trigger] d0[l0]).0 != key ==> exists|l: int|
                0 <= l < d1.len() && d0[l0] == #[trigger] d1[l],
        forall|a: int, b: int| 0 <= a < b < d1.len() ==> d1[a].0 != d1[b].0,
        forall|l: int|
            0 <= l < d1.len() && (#[trigger] d1[l]).0 == key ==> match d1[l].1 {
                crate::ydoc::HashChangeVal::Inserted(_) => false,
                crate::ydoc::HashChangeVal::Updated(_, _) => false,
                crate::ydoc::HashChangeVal::Removed(o) => dict_get(snap, key) == Some(o),
            },
        (forall|l: int| 0 <= l < d1.len() ==> (#[trigger] d1[l]).0 != key) ==> !dict_has_key(
            snap,
            key,
        ),
{
    assert forall|l: int|
        0 <= l < d1.len() && (#[trigger] d1[l]).0 != key implies exists|l0: int|
        0 <= l0 < d0.len() && d1[l] == #[trigger] d0[l0] by {
        if dg is Some {
            let j = dg->0;
            if key_gone {
                if l < j {
                    assert(d1[l] == d0[l]);
                } else {
                    assert(d_after[l] == d_before[l + 1]);
                    assert(d1[l] == d0[l + 1]);
                }
            } else {
                assert(d1[l] == d0[l]);
            }
        } else {
            assert(l < d0.len());
            assert(d1[l] == d0[l]);
        }
    }
    assert forall|l0: int|
        0 <= l0 < d0.len() && (#[trigger] d0[l0]).0 != key implies exists|l: int|
        0 <= l < d1.len() && d0[l0] == #[trigger] d1[l] by {
        if dg is Some {
            let j = dg->0;
            assert(l0 != j);
            if key_gone {
                if l0 < j {
                    assert(d1[l0] == d0[l0]);
                } else {
                    assert(d_after[l0 - 1] == d_before[l0]);
                    assert(d1[l0 - 1] == d0[l0]);
                }
            } else {
                assert(d1[l0] == d0[l0]);
            }
        } else {
            assert(d1[l0] == d0[l0]);
        }
    }
    assert forall|a: int, b: int| 0 <= a < b < d1.len() implies d1[a].0 != d1[b].0 by {
        if dg is Some {
            let j = dg->0;
            if key_gone {
                let a0: int = if a < j {
                    a
                } else {
                    a + 1
                };
                let b0: int = if b < j {
                    b
                } else {
                    b + 1
                };
                assert(d_after[a] == d_before[a0]);
                assert(d_after[b] == d_before[b0]);
                assert(d1[a] == d0[a0]);
                assert(d1[b] == d0[b0]);
            } else {
                if a != j {
                    assert(d1[a] == d0[a]);
                }
                if b != j {
                    assert(d1[b] == d0[b]);
                }
                if a == j {
                    assert(d1[a].0 == key);
                    assert(d0[b].0 != key);
                }
                if b == j {
                    assert(d1[b].0 == key);
                    assert(d0[a].0 != key);
                }
            }
        } else {
            if b == d1.len() - 1 {
                assert(d1[a] == d0[a]);
                assert(d1[b].0 == key);
            } else {
                assert(d1[a] == d0[a]);
                assert(d1[b] == d0[b]);
            }
        }
    }
    assert forall|l: int|
        0 <= l < d1.len() && (#[trigger] d1[l]).0 == key implies match d1[l].1 {
        crate::ydoc::HashChangeVal::Inserted(_) => false,
        crate::ydoc::HashChangeVal::Updated(_, _) => false,
        crate::ydoc::HashChangeVal::Removed(o) => dict_get(snap, key) == Some(o),
    } by {
        if dg is Some {
            let j = dg->0;
            if key_gone {
                if l < j {
                    assert(d1[l] == d0[l]);
                } else {
                    assert(d_after[l] == d_before[l + 1]);
                    assert(d1[l] == d0[l + 1]);
                }
                assert(false);
            } else {
                if l != j {
                    assert(d1[l] == d0[l]);
                    assert(false);
                }
            }
        } else {
            if l < d1.len() - 1 {
                assert(d1[l] == d0[l]);
                assert(false);
            }
        }
    }
    if forall|l: int| 0 <= l < d1.len() ==> (#[trigger] d1[l]).0 != key {
        if dg is Some && !key_gone {
            let j = dg->0;
            assert(d1[j].0 == key);
        } else if dg is None {
            assert(d1[d1.len() - 1].0 == key);
        }
    }
}

/// Composing one removal into a map delta keeps the delta describing
/// exactly the difference between the snapshot and the new contents.
proof fn lemma_hash_delta_removal(
    snap: Seq<(Seq<char>, AnyVal)>,
    d0: Seq<(Seq<char>, crate::ydoc::HashChangeVal)>,
    cur0: Seq<(Seq<char>, AnyVal)>,
    d1: Seq<(Seq<char>, crate::ydoc::HashChangeVal)>,
    cur1: Seq<(Seq<char>, AnyVal)>,
    key: Seq<char>,
    had_entry: bool,
    j: int,
    delta_mid: Seq<crate::ydoc::HashDeltaEntry>,
)
    requires
        crate::ydoc::hash_delta_ok(snap, d0, cur0),
        !dict_has_key(cur1, key),
        forall|k2: Seq<char>| k2 != key ==> #[trigger] dict_get(cur1, k2) == dict_get(cur0, k2),
        forall|k2: Seq<char>| k2 != key ==> (dict_has_key(cur1, k2) <==> dict_has_key(cur0, k2)),
        forall|l: int|
            0 <= l < d1.len() && (#[trigger] d1[l]).0 != key ==> exists|l0: int|
                0 <= l0 < d0.len() && d1[l] == #[trigger] d0[l0],
        forall|a: int, b: int| 0 <= a < b < d1.len() ==> d1[a].0 != d1[b].0,
        forall|l0: int|
            0 <= l0 < d0.len() && (#[trigger] d0[l0]).0 != key ==> exists|l: int|
                0 <= l < d1.len() && d0[l0] == #[trigger] d1[l],
        forall|l: int|
            0 <= l < d1.len() && (#[trigger] d1[l]).0 == key ==> match d1[l].1 {
                crate::ydoc::HashChangeVal::Inserted(_) => false,
                crate::ydoc::HashChangeVal::Updated(_, _) => false,
                crate::ydoc::HashChangeVal::Removed(o) => dict_get(snap, key) == Some(o),
            },
        (forall|l: int| 0 <= l < d1.len() ==> (#[trigger] d1[l]).0 != key) ==> !dict_has_key(
            snap,
            key,
        ),
    ensures
        crate::ydoc::hash_delta_ok(snap, d1, cur1),
{
    assert forall|l: int| 0 <= l < d1.len() implies match (#[trigger] d1[l]).1 {
        crate::ydoc::HashChangeVal::Inserted(v) => !dict_has_key(snap, d1[l].0) && dict_get(
            cur1,
            d1[l].0,
        ) == Some(v),
        crate::ydoc::HashChangeVal::Updated(o, n) => dict_get(snap, d1[l].0) == Some(o)
            && dict_get(cur1, d1[l].0) == Some(n),
        crate::ydoc::HashChangeVal::Removed(o) => dict_get(snap, d1[l].0) == Some(o)
            && !dict_has_key(cur1, d1[l].0),
    } by {
        if d1[l].0 == key {
        } else {
            let l0 = choose|l0: int| 0 <= l0 < d0.len() && d1[l] == #[trigger] d0[l0];
            assert(d0[l0].0 == d1[l].0);
        }
    }
    assert forall|k: Seq<char>|
        (forall|l: int| 0 <= l < d1.len() ==> (#[trigger] d1[l]).0 != k) implies #[trigger] dict_get(
        cur1,
        k,
    ) == dict_get(snap, k) by {
        if k == key {
            assert(!dict_has_key(snap, key));
            lemma_dict_get_char(snap, key);
            lemma_dict_get_char(cur1, key);
        } else {
            assert forall|l0: int| 0 <= l0 < d0.len() implies (#[trigger] d0[l0]).0 != k by {
                if d0[l0].0 == k {
                    let l = choose|l: int| 0 <= l < d1.len() && d0[l0] == #[trigger] d1[l];
                    assert(d1[l].0 == k);
                }
            }
            assert(dict_get(cur0, k) == dict_get(snap, k));
        }
    }
}

/// Composing one write into a map delta keeps the delta describing
/// exactly the difference between the snapshot and the new contents.
proof fn lemma_hash_delta_put(
    snap: Seq<(Seq<char>, AnyVal)>,
    d0: Seq<(Seq<char>, crate::ydoc::HashChangeVal)>,
    cur0: Seq<(Seq<char>, AnyVal)>,
    d1: Seq<(Seq<char>, crate::ydoc::HashChangeVal)>,
    cur1: Seq<(Seq<char>, AnyVal)>,
    key: Seq<char>,
    val: AnyVal,
)
    requires
        crate::ydoc::hash_delta_ok(snap, d0, cur0),
        dict_get(cur1, key) == Some(val),
        forall|k2: Seq<char>| k2 != key ==> #[trigger] dict_get(cur1, k2) == dict_get(cur0, k2),
        forall|k2: Seq<char>| k2 != key ==> (dict_has_key(cur1, k2) <==> dict_has_key(cur0, k2)),
        dict_has_key(cur1, key),
        // the new delta: entries for other keys stand; the entry for `key`
        // is consistent with the old entry or the old contents
        forall|l: int|
            0 <= l < d1.len() && (#[trigger] d1[l]).0 != key ==> exists|l0: int|
                0 <= l0 < d0.len() && d1[l] == #[trigger] d0[l0],
        forall|l0: int|
            0 <= l0 < d0.len() && (#[trigger] d0[l0]).0 != key ==> exists|l: int|
                0 <= l < d1.len() && d0[l0] == #[trigger] d1[l],
        forall|a: int, b: int| 0 <= a < b < d1.len() ==> d1[a].0 != d1[b].0,
        exists|l: int|
            0 <= l < d1.len() && (#[trigger] d1[l]).0 == key && match d1[l].1 {
                crate::ydoc::HashChangeVal::Inserted(v) => v == val && !dict_has_key(snap, key),
                crate::ydoc::HashChangeVal::Updated(o, n) => n == val && dict_get(snap, key)
                    == Some(o),
                crate::ydoc::HashChangeVal::Removed(_) => false,
            },
    ensures
        crate::ydoc::hash_delta_ok(snap, d1, cur1),
{
    assert forall|l: int| 0 <= l < d1.len() implies match (#[trigger] d1[l]).1 {
        crate::ydoc::HashChangeVal::Inserted(v) => !dict_has_key(snap, d1[l].0) && dict_get(
            cur1,
            d1[l].0,
        ) == Some(v),
        crate::ydoc::HashChangeVal::Updated(o, n) => dict_get(snap, d1[l].0) == Some(o)
            && dict_get(cur1, d1[l].0) == Some(n),
        crate::ydoc::HashChangeVal::Removed(o) => dict_get(snap, d1[l].0) == Some(o)
            && !dict_has_key(cur1, d1[l].0),
    } by {
        if d1[l].0 == key {
            let w = choose|w: int|
                0 <= w < d1.len() && (#[trigger] d1[w]).0 == key && match d1[w].1 {
                    crate::ydoc::HashChangeVal::Inserted(v) => v == val && !dict_has_key(
                        snap,
                        key,
                    ),
                    crate::ydoc::HashChangeVal::Updated(o, n) => n == val && dict_get(snap, key)
                        == Some(o),
                    crate::ydoc::HashChangeVal::Removed(_) => false,
                };
            if w != l {
                assert(d1[w].0 == d1[l].0);
                if w < l {
                    assert(d1[w].0 != d1[l].0);
                } else {
                    assert(d1[l].0 != d1[w].0);
                }
            }
            assert(w == l);
        } else {
            let l0 = choose|l0: int| 0 <= l0 < d0.len() && d1[l] == #[trigger] d0[l0];
            assert(d0[l0].0 == d1[l].0);
        }
    }
    assert forall|k: Seq<char>|
        (forall|l: int| 0 <= l < d1.len() ==> (#[trigger] d1[l]).0 != k) implies #[trigger] dict_get(
        cur1,
        k,
    ) == dict_get(snap, k) by {
        assert(k != key);
        assert forall|l0: int| 0 <= l0 < d0.len() implies (#[trigger] d0[l0]).0 != k by {
            if d0[l0].0 == k {
                let l = choose|l: int| 0 <= l < d1.len() && d0[l0] == #[trigger] d1[l];
                assert(d1[l].0 == k);
            }
        }
        assert(dict_get(cur0, k) == dict_get(snap, k));
    }
}

impl YMap {
    /// Stores `value` under `key` (a string or symbol; other key kinds
    /// are a conversion error); returns the prior value, nil if none.
    pub fn ymap_insert(
        &self,
        doc: &mut YDoc,
        tx: &YTransaction,
        key: &HostValue,
        value: &HostValue,
    ) -> (r: Result<HostValue, BridgeError>)
        requires
            old(doc).wf(),
        ensures
            final(doc).wf(),
            r is Err ==> *final(doc) == *old(doc),
            final(doc).hash_edit_frame(old(doc)),
            !old(doc).tx_live(*tx) ==> r is Err && r->Err_0 is TransactionState,
            old(doc).tx_live(*tx) && (crate::yvalue::host_key_string(key@) is None || h2e(
                value@,
            ) is None) ==> r is Err && r->Err_0 is Conversion,
            r is Ok <==> old(doc).tx_live(*tx) && crate::yvalue::host_key_string(key@) is Some
                && h2e(value@) is Some && old(doc).has_hash(self.name@),
            r is Ok ==> dict_get(
                final(doc).hash_entries(self.name@),
                crate::yvalue::host_key_string(key@)->Some_0,
            ) == Some(h2e(value@)->Some_0),
            r is Ok ==> forall|k2: Seq<char>|
                k2 != crate::yvalue::host_key_string(key@)->Some_0 ==> #[trigger] dict_get(
                    final(doc).hash_entries(self.name@),
                    k2,
                ) == dict_get(old(doc).hash_entries(self.name@), k2),
            r is Ok ==> r->Ok_0@ == ({
                match dict_get(
                    old(doc).hash_entries(self.name@),
                    crate::yvalue::host_key_string(key@)->Some_0,
                ) {
                    Some(p) => e2h(p),
                    None => crate::yvalue::HostVal::Nil,
                }
            }),
            r is Ok ==> final(doc).pending_after_edit(old(doc), ContainerKind::Hash, self.name@),
            r is Ok ==> final(doc).pending_rec(ContainerKind::Hash, self.name@).data is Dict
                && final(doc).pending_rec(
                ContainerKind::Hash,
                self.name@,
            ).data->Dict_delta@.len() > 0 && final(doc).hash_pending_snapshot(self.name@)
                == (if old(doc).has_pending(ContainerKind::Hash, self.name@) {
                old(doc).hash_pending_snapshot(self.name@)
            } else {
                old(doc).hash_entries(self.name@)
            }),
            forall|n: Seq<char>| old(doc).has_hash(n) <==> final(doc).has_hash(n),
            forall|n: Seq<char>|
                n != self.name@ && old(doc).has_hash(n) ==> final(doc).hash_entries(n) == old(
                    doc,
                ).hash_entries(n),
    {
        let live = match doc.open_tx {
            Some(id) => id == tx.id,
            None => false,
        };
        if !live {
            return Err(BridgeError::TransactionState(String::from_str(
                "the transaction handle is no longer valid",
            )));
        }
        let k = match host_key_to_string(key) {
            Ok(k) => k,
            Err(e) => {
                return Err(e);
            },
        };
        let v = match host_to_engine(value) {
            Ok(v) => v,
            Err(e) => {
                return Err(e);
            },
        };
        let ghost kv = k@;
        let r0 = doc.hash_put(tx, &self.name, k, v);
        proof {
            if old(doc).has_hash(self.name@) {
                crate::engine_any::lemma_dict_get_char(old(doc).hash_entries(self.name@), kv);
            }
        }
        match r0 {
            Ok(Some(p)) => Ok(engine_to_host(&p)),
            Ok(None) => Ok(HostValue::Nil),
            Err(e) => Err(e),
        }
    }

    /// Reads the value under `key`; an absent key reads as nil.  String
    /// and symbol keys with the same characters read the same entry.
    pub fn ymap_get(&self, doc: &YDoc, tx: &YTransaction, key: &HostValue) -> (r: Result<
        HostValue,
        BridgeError,
    >)
        requires
            doc.wf(),
        ensures
            !doc.tx_live(*tx) ==> r is Err && r->Err_0 is TransactionState,
            r is Ok <==> doc.tx_live(*tx) && crate::yvalue::host_key_string(key@) is Some
                && doc.has_hash(self.name@),
            r is Ok ==> r->Ok_0@ == ({
                match dict_get(
                    doc.hash_entries(self.name@),
                    crate::yvalue::host_key_string(key@)->Some_0,
                ) {
                    Some(p) => e2h(p),
                    None => crate::yvalue::HostVal::Nil,
                }
            }),
    {
        broadcast use crate::engine_any::lemma_any_val_dict_len,
            crate::engine_any::lemma_any_val_dict_index;

        let live = match doc.open_tx {
            Some(id) => id == tx.id,
            None => false,
        };
        if !live {
            return Err(BridgeError::TransactionState(String::from_str(
                "the transaction handle is no longer valid",
            )));
        }
        let k = match host_key_to_string(key) {
            Ok(k) => k,
            Err(e) => {
                return Err(e);
            },
        };
        let i = match doc.find_hash(&self.name) {
            Some(i) => i,
            None => {
                return Err(BridgeError::Conversion(String::from_str(
                    "unknown map container",
                )));
            },
        };
        proof {
            lemma_unique_hash_index(doc, self.name@);
            assert(doc.hash_index_of(self.name@) == i);
        }
        let ghost cur = any_val_dict(doc.hashes@[i as int].entries@);
        match dict_lookup(&doc.hashes[i].entries, &k) {
            Some(p) => {
                proof {
                    lemma_dict_get_at(cur, p as int);
                }
                Ok(engine_to_host(&doc.hashes[i].entries[p].val))
            },
            None => {
                proof {
                    lemma_dict_get_char(cur, k@);
                }
                Ok(HostValue::Nil)
            },
        }
    }

    /// Removes the entry under `key`; returns the removed value, nil if
    /// the key was absent (removing an absent key is not an error).
    pub fn ymap_remove(&self, doc: &mut YDoc, tx: &YTransaction, key: &HostValue) -> (r: Result<
        HostValue,
        BridgeError,
    >)
        requires
            old(doc).wf(),
        ensures
            final(doc).wf(),
            r is Err ==> *final(doc) == *old(doc),
            final(doc).hash_edit_frame(old(doc)),
            !old(doc).tx_live(*tx) ==> r is Err && r->Err_0 is TransactionState,
            r is Ok <==> old(doc).tx_live(*tx) && crate::yvalue::host_key_string(key@) is Some
                && old(doc).has_hash(self.name@),
            r is Ok ==> !dict_has_key(
                final(doc).hash_entries(self.name@),
                crate::yvalue::host_key_string(key@)->Some_0,
            ),
            r is Ok && dict_has_key(
                old(doc).hash_entries(self.name@),
                crate::yvalue::host_key_string(key@)->Some_0,
            ) ==> final(doc).pending_after_edit(old(doc), ContainerKind::Hash, self.name@)
                && final(doc).pending_rec(ContainerKind::Hash, self.name@).data is Dict
                && final(doc).hash_pending_snapshot(self.name@) == (if old(doc).has_pending(
                ContainerKind::Hash,
                self.name@,
            ) {
                old(doc).hash_pending_snapshot(self.name@)
            } else {
                old(doc).hash_entries(self.name@)
            }),
            r is Ok ==> forall|k2: Seq<char>|
                k2 != crate::yvalue::host_key_string(key@)->Some_0 ==> #[trigger] dict_get(
                    final(doc).hash_entries(self.name@),
                    k2,
                ) == dict_get(old(doc).hash_entries(self.name@), k2),
            r is Ok ==> r->Ok_0@ == ({
                match dict_get(
                    old(doc).hash_entries(self.name@),
                    crate::yvalue::host_key_string(key@)->Some_0,
                ) {
                    Some(p) => e2h(p),
                    None => crate::yvalue::HostVal::Nil,
                }
            }),
            forall|n: Seq<char>| old(doc).has_hash(n) <==> final(doc).has_hash(n),
            forall|n: Seq<char>|
                n != self.name@ && old(doc).has_hash(n) ==> final(doc).hash_entries(n) == old(
                    doc,
                ).hash_entries(n),
    {
        let live = match doc.open_tx {
            Some(id) => id == tx.id,
            None => false,
        };
        if !live {
            return Err(BridgeError::TransactionState(String::from_str(
                "the transaction handle is no longer valid",
            )));
        }
        let k = match host_key_to_string(key) {
            Ok(k) => k,
            Err(e) => {
                return Err(e);
            },
        };
        proof {
            if old(doc).has_hash(self.name@) {
                crate::engine_any::lemma_dict_get_char(
                    old(doc).hash_entries(self.name@),
                    k@,
                );
            }
        }
        match doc.hash_remove(tx, &self.name, &k) {
            Ok(Some(p)) => Ok(engine_to_host(&p)),
            Ok(None) => Ok(HostValue::Nil),
            Err(e) => Err(e),
        }
    }

    /// Whether the map holds an entry under `key`; a key of another kind
    /// is simply not contained.
    pub fn ymap_contains(&self, doc: &YDoc, tx: &YTransaction, key: &HostValue) -> (r: Result<
        bool,
        BridgeError,
    >)
        requires
            doc.wf(),
        ensures
            !doc.tx_live(*tx) ==> r is Err && r->Err_0 is TransactionState,
            r is Ok <==> doc.tx_live(*tx) && doc.has_hash(self.name@),
            r is Ok && crate::yvalue::host_key_string(key@) is None ==> r->Ok_0 == false,
            r is Ok && crate::yvalue::host_key_string(key@) is Some ==> r->Ok_0 == dict_has_key(
                doc.hash_entries(self.name@),
                crate::yvalue::host_key_string(key@)->Some_0,
            ),
    {
        broadcast use crate::engine_any::lemma_any_val_dict_len,
            crate::engine_any::lemma_any_val_dict_index;

        let live = match doc.open_tx {
            Some(id) => id == tx.id,
            None => false,
        };
        if !live {
            return Err(BridgeError::TransactionState(String::from_str(
                "the transaction handle is no longer valid",
            )));
        }
        let i = match doc.find_hash(&self.name) {
            Some(i) => i,
            None => {
                return Err(BridgeError::Conversion(String::from_str(
                    "unknown map container",
                )));
            },
        };
        proof {
            lemma_unique_hash_index(doc, self.name@);
            assert(doc.hash_index_of(self.name@) == i);
        }
        let k = match host_key_to_string(key) {
            Ok(k) => k,
            Err(_) => {
                return Ok(false);
            },
        };
        let ghost cur = any_val_dict(doc.hashes@[i as int].entries@);
        match dict_lookup(&doc.hashes[i].entries, &k) {
            Some(p) => {
                proof {
                    assert(cur[p as int].0 == k@);
                }
                Ok(true)
            },
            None => {
                proof {
                    lemma_dict_get_char(cur, k@);
                    if dict_has_key(cur, k@) {
                        let w = choose|w: int| 0 <= w < cur.len() && cur[w].0 == k@;
                        assert(doc.hashes@[i as int].entries@[w].key@ == k@);
                    }
                }
                Ok(false)
            },
        }
    }

    /// The number of entries in the map.
    pub fn ymap_size(&self, doc: &YDoc, tx: &YTransaction) -> (r: Result<usize, BridgeError>)
        requires
            doc.wf(),
        ensures
            !doc.tx_live(*tx) ==> r is Err && r->Err_0 is TransactionState,
            r is Ok <==> doc.tx_live(*tx) && doc.has_hash(self.name@),
            r is Ok ==> r->Ok_0 as nat == doc.hash_entries(self.name@).len(),
    {
        broadcast use crate::engine_any::lemma_any_val_dict_len;

        let live = match doc.open_tx {
            Some(id) => id == tx.id,
            None => false,
        };
        if !live {
            return Err(BridgeError::TransactionState(String::from_str(
                "the transaction handle is no longer valid",
            )));
        }
        match doc.find_hash(&self.name) {
            Some(i) => {
                proof {
                    lemma_unique_hash_index(doc, self.name@);
                }
                Ok(doc.hashes[i].entries.len())
            },
            None => Err(BridgeError::Conversion(String::from_str(
                "unknown map container",
            ))),
        }
    }

    /// A full, deep host-native snapshot of the map: every entry
    /// converted through the codec, with plain string keys, in insertion
    /// order.  The result does not alias the container.
    #[verifier::loop_isolation(false)]
    pub fn ymap_to_h(&self, doc: &YDoc, tx: &YTransaction) -> (r: Result<HostValue, BridgeError>)
        requires
            doc.wf(),
        ensures
            !doc.tx_live(*tx) ==> r is Err && r->Err_0 is TransactionState,
            r is Ok <==> doc.tx_live(*tx) && doc.has_hash(self.name@),
            r is Ok ==> r->Ok_0@ == crate::yvalue::HostVal::Dict(
                crate::yvalue::e2h_dict(doc.hash_entries(self.name@)),
            ),
    {
        broadcast use crate::engine_any::lemma_any_val_dict_len,
            crate::engine_any::lemma_any_val_dict_index;

        let live = match doc.open_tx {
            Some(id) => id == tx.id,
            None => false,
        };
        if !live {
            return Err(BridgeError::TransactionState(String::from_str(
                "the transaction handle is no longer valid",
            )));
        }
        let i = match doc.find_hash(&self.name) {
            Some(i) => i,
            None => {
                return Err(BridgeError::Conversion(String::from_str(
                    "unknown map container",
                )));
            },
        };
        proof {
            lemma_unique_hash_index(doc, self.name@);
            assert(doc.hash_index_of(self.name@) == i);
        }
        let ghost cur = any_val_dict(doc.hashes@[i as int].entries@);
        let entries = &doc.hashes[i].entries;
        let mut out: Vec<crate::yvalue::HostPair> = Vec::new();
        let mut k: usize = 0;
        while k < entries.len()
            invariant
                k <= entries@.len(),
                crate::yvalue::host_val_pairs(out@) == crate::yvalue::e2h_dict(
                    cur.take(k as int),
                ),
            decreases entries@.len() - k,
        {
            let y = engine_to_host(&entries[k].val);
            let ghost prev = out@;
            let ks = entries[k].key.clone();
            out.push(crate::yvalue::HostPair { key: HostValue::Str(ks), val: y });
            proof {
                assert(out@.drop_last() =~= prev);
                assert(crate::yvalue::host_val_pairs(out@)
                    == crate::yvalue::host_val_pairs(prev).push(
                    (crate::yvalue::host_val(out@.last().key), crate::yvalue::host_val(
                        out@.last().val,
                    )),
                ));
                assert(cur.take(k + 1 as int).drop_last() =~= cur.take(k as int));
                assert(cur.take(k + 1 as int).last() == cur[k as int]);
            }
            k += 1;
        }
        proof {
            assert(cur.take(entries@.len() as int) =~= cur);
        }
        Ok(HostValue::Dict(out))
    }

    /// Removes every entry of the map.
    #[verifier::loop_isolation(false)]
    pub fn ymap_clear(&self, doc: &mut YDoc, tx: &YTransaction) -> (r: Result<(), BridgeError>)
        requires
            old(doc).wf(),
        ensures
            final(doc).wf(),
            r is Err ==> *final(doc) == *old(doc),
            final(doc).hash_edit_frame(old(doc)),
            !old(doc).tx_live(*tx) ==> r is Err && r->Err_0 is TransactionState,
            r is Ok <==> old(doc).tx_live(*tx) && old(doc).has_hash(self.name@),
            r is Ok ==> final(doc).hash_entries(self.name@).len() == 0,
            forall|n: Seq<char>| old(doc).has_hash(n) <==> final(doc).has_hash(n),
            forall|n: Seq<char>|
                n != self.name@ && old(doc).has_hash(n) ==> final(doc).hash_entries(n) == old(
                    doc,
                ).hash_entries(n),
    {
        broadcast use crate::engine_any::lemma_any_val_dict_len,
            crate::engine_any::lemma_any_val_dict_index;

        let live = match doc.open_tx {
            Some(id) => id == tx.id,
            None => false,
        };
        if !live {
            return Err(BridgeError::TransactionState(String::from_str(
                "the transaction handle is no longer valid",
            )));
        }
        if doc.find_hash(&self.name).is_none() {
            return Err(BridgeError::Conversion(String::from_str(
                "unknown map container",
            )));
        }
        loop
            invariant
                doc.wf(),
                doc.tx_live(*tx),
                doc.has_hash(self.name@),
                doc.hash_edit_frame(old(doc)),
                forall|n: Seq<char>| old(doc).has_hash(n) <==> doc.has_hash(n),
                forall|n: Seq<char>|
                    n != self.name@ && old(doc).has_hash(n) ==> doc.hash_entries(n) == old(
                        doc,
                    ).hash_entries(n),
            decreases doc.hash_entries(self.name@).len(),
        {
            let i = match doc.find_hash(&self.name) {
                Some(i) => i,
                None => {
                    proof {
                        assert(false);
                    }
                    return Err(BridgeError::Conversion(String::new()));
                },
            };
            proof {
                lemma_unique_hash_index(doc, self.name@);
                assert(doc.hash_index_of(self.name@) == i);
            }
            if doc.hashes[i].entries.len() == 0 {
                proof {
                    assert(doc.hash_entries(self.name@).len() == 0);
                }
                return Ok(());
            }
            let k = doc.hashes[i].entries[0].key.clone();
            let ghost cur = any_val_dict(doc.hashes@[i as int].entries@);
            let ghost pre_len = doc.hash_entries(self.name@).len();
            let ghost mid = *doc;
            proof {
                lemma_dict_get_at(cur, 0);
                crate::engine_any::lemma_dict_get_char(cur, k@);
                assert(dict_has_key(doc.hash_entries(self.name@), k@));
            }
            match doc.hash_remove(tx, &self.name, &k) {
                Ok(Some(_)) => {
                    proof {
                        assert(doc.hash_entries(self.name@).len() == pre_len - 1);
                        assert(doc.hash_edit_frame(old(doc))) by {
                            assert forall|n: Seq<char>|
                                engine_roots(old(doc).engine).contains_key(n) implies engine_roots(
                                doc.engine,
                            ).contains_key(n) && engine_roots(doc.engine)[n] == engine_roots(
                                old(doc).engine,
                            )[n] by {
                                assert(engine_roots(mid.engine).contains_key(n));
                                assert(engine_roots(mid.engine)[n] == engine_roots(
                                    old(doc).engine,
                                )[n]);
                            }
                        }
                    }
                },
                Ok(None) => {
                    proof {
                        assert(false);
                    }
                    return Err(BridgeError::Conversion(String::new()));
                },
                Err(e) => {
                    proof {
                        assert(false);
                    }
                    return Err(e);
                },
            }
        }
    }

    /// Subscribes an observer to this container.
    pub fn ymap_observe(&self, doc: &mut YDoc) -> (r: Result<u64, BridgeError>)
        requires
            old(doc).wf(),
        ensures
            final(doc).wf(),
            final(doc).arrays@ == old(doc).arrays@,
            final(doc).hashes@ == old(doc).hashes@,
            final(doc).texts@ == old(doc).texts@,
            final(doc).pending@ == old(doc).pending@,
            final(doc).open_tx == old(doc).open_tx,
            old(doc).sub_counter < u64::MAX ==> r is Ok && final(doc).subs@ == old(doc).subs@.push(
                (Subscription {
                    id: old(doc).sub_counter,
                    target: SubTarget { kind: ContainerKind::Hash, root: self.name },
                    active: true,
                }),
            ),
            r is Ok ==> final(doc).subs@.last().target.kind == ContainerKind::Hash
                && final(doc).subs@.last().target.root@ == self.name@
                && final(doc).subs@.last().active && r->Ok_0 == final(doc).subs@.last().id,
    {
        doc.observe_target(SubTarget { kind: ContainerKind::Hash, root: self.name.clone() })
    }

    /// Unsubscribes one observer; an unknown subscription is a no-op.
    pub fn ymap_unobserve(&self, doc: &mut YDoc, subscription: u64)
        requires
            old(doc).wf(),
        ensures
            final(doc).wf(),
            final(doc).arrays@ == old(doc).arrays@,
            final(doc).hashes@ == old(doc).hashes@,
            final(doc).texts@ == old(doc).texts@,
            final(doc).pending@ == old(doc).pending@,
            final(doc).open_tx == old(doc).open_tx,
            final(doc).update_subs@ == old(doc).update_subs@,
            final(doc).engine == old(doc).engine,
            final(doc).subs@.len() == old(doc).subs@.len(),
            forall|i: int|
                0 <= i < old(doc).subs@.len() && old(doc).subs@[i].id != subscription
                    ==> final(doc).subs@[i] == old(doc).subs@[i],
            forall|i: int|
                0 <= i < old(doc).subs@.len() && old(doc).subs@[i].id == subscription
                    ==> final(doc).subs@[i].id == old(doc).subs@[i].id && final(doc).subs@[i].target
                    == old(doc).subs@[i].target && !final(doc).subs@[i].active,
    {
        doc.unobserve_id(subscription)
    }
}

/// Re-establishes the document invariant after one map edit.
proof fn assert_wf_after_hash_edit(
    doc0: &YDoc,
    doc1: &YDoc,
    tx: YTransaction,
    name: Seq<char>,
    i: int,
    pending1: Seq<PendingChange>,
    removed: Option<int>,
)
    requires
        doc0.wf(),
        doc0.tx_live(tx),
        doc1.hash_edit_frame(doc0),
        0 <= i < doc0.hashes@.len(),
        doc0.hashes@[i].name@ == name,
        doc1.hashes@ == doc0.hashes@.update(i, doc1.hashes@[i]),
        doc1.hashes@[i].name@ == name,
        crate::engine_any::dict_keys_unique(
            crate::engine_any::any_val_dict(doc1.hashes@[i].entries@),
        ),
        doc1.pending@.len() == pending1.len() + 1,
        doc1.pending@.take(pending1.len() as int) == pending1,
        doc1.pending@.last().target.kind is Hash,
        doc1.pending@.last().target.root@ == name,
        doc1.pending_entry_ok(&doc1.pending@.last()),
        match removed {
            Some(j) => 0 <= j < doc0.pending@.len() && doc0.pending@[j].target.kind
                == ContainerKind::Hash && doc0.pending@[j].target.root@ == name && pending1
                == doc0.pending@.remove(j),
            None => pending1 == doc0.pending@ && forall|l: int|
                0 <= l < doc0.pending@.len() ==> !((#[trigger] doc0.pending@[l]).target.kind
                    == ContainerKind::Hash && doc0.pending@[l].target.root@ == name),
        },
    ensures
        doc1.wf(),
{
    broadcast use crate::engine_any::lemma_any_val_dict_len,
        crate::engine_any::lemma_any_val_dict_index;

    assert(doc1.names_ok());
    assert(doc1.subs_ok());
    assert(doc1.arrays_ok()) by {
        assert forall|j: int| 0 <= j < doc1.arrays@.len() implies {
            &&& engine_roots(doc1.engine).contains_key(#[trigger] doc1.arrays@[j].name@)
            &&& doc1.arrays@[j].items@.len() <= engine_roots(doc1.engine)[doc1.arrays@[j].name@]
            &&& doc1.arrays@[j].items@.len() <= u32::MAX as nat
        } by {
            assert(doc1.arrays@[j] == doc0.arrays@[j]);
        }
    }
    assert(doc1.texts_ok()) by {
        assert forall|j: int| 0 <= j < doc1.texts@.len() implies {
            &&& engine_roots(doc1.engine).contains_key(#[trigger] doc1.texts@[j].name@)
            &&& doc1.texts@[j].items@.len() <= engine_roots(doc1.engine)[doc1.texts@[j].name@]
            &&& doc1.texts@[j].items@.len() <= u32::MAX as nat
        } by {
            assert(doc1.texts@[j] == doc0.texts@[j]);
        }
    }
    assert(doc1.hashes_ok()) by {
        assert forall|j: int, k: int, l: int|
            0 <= j < doc1.hashes@.len() && 0 <= k < l < doc1.hashes@[j].entries@.len()
                implies doc1.hashes@[j].entries@[k].key@ != doc1.hashes@[j].entries@[l].key@ by {
            if j != i {
                assert(doc1.hashes@[j] == doc0.hashes@[j]);
            } else {
                assert(crate::engine_any::any_val_dict(doc1.hashes@[i].entries@)[k].0
                    == doc1.hashes@[i].entries@[k].key@);
                assert(crate::engine_any::any_val_dict(doc1.hashes@[i].entries@)[l].0
                    == doc1.hashes@[i].entries@[l].key@);
            }
        }
    }
    let src_of = |l: int| -> int {
        match removed {
            Some(j) => if l < j {
                l
            } else {
                l + 1
            },
            None => l,
        }
    };
    assert forall|l: int| 0 <= l < pending1.len() implies pending1[l] == doc0.pending@[
        src_of(l)
    ] && 0 <= src_of(l) < doc0.pending@.len() by {
        if removed is Some {
            let j = removed->0;
            if l < j {
                assert(pending1[l] == doc0.pending@[l]);
            } else {
                assert(pending1[l] == doc0.pending@[l + 1]);
            }
        }
    }
    assert forall|l: int| 0 <= l < pending1.len() implies !((#[trigger] pending1[l]).target.kind
        == ContainerKind::Hash && pending1[l].target.root@ == name) by {
        let l0 = src_of(l);
        assert(pending1[l] == doc0.pending@[l0]);
        if removed is Some {
            let j = removed->0;
            if doc0.pending@[l0].target.kind == ContainerKind::Hash && doc0.pending@[
                l0
            ].target.root@ == name {
                assert(l0 != j);
                if l0 < j {
                    assert(!(doc0.pending@[l0].target.kind == doc0.pending@[j].target.kind
                        && doc0.pending@[l0].target.root@ == doc0.pending@[j].target.root@));
                } else {
                    assert(!(doc0.pending@[j].target.kind == doc0.pending@[l0].target.kind
                        && doc0.pending@[j].target.root@ == doc0.pending@[l0].target.root@));
                }
            }
        }
    }
    assert(doc1.tx_ok()) by {
        assert forall|j: int| 0 <= j < doc1.pending@.len() implies doc1.pending_entry_ok(
            #[trigger] &doc1.pending@[j],
        ) by {
            if j < pending1.len() {
                assert(doc1.pending@[j] == pending1[j]);
                assert(pending1[j] == doc0.pending@[src_of(j)]);
                assert(doc0.pending_entry_ok(&doc0.pending@[src_of(j)]));
                lemma_pending_entry_stable_hash(doc0, doc1, &doc1.pending@[j], name, i);
            }
        }
        assert forall|j: int, l: int| 0 <= j < l < doc1.pending@.len() implies !(doc1.pending@[
            j
        ].target.kind == doc1.pending@[l].target.kind && doc1.pending@[j].target.root@
            == doc1.pending@[l].target.root@) by {
            if l == pending1.len() as int {
                assert(doc1.pending@[j] == pending1[j]);
            } else {
                assert(doc1.pending@[j] == pending1[j]);
                assert(doc1.pending@[l] == pending1[l]);
                assert(pending1[j] == doc0.pending@[src_of(j)]);
                assert(pending1[l] == doc0.pending@[src_of(l)]);
            }
        }
    }
}

/// A pending record of a container other than the edited map still
/// satisfies its invariant.
proof fn lemma_pending_entry_stable_hash(
    doc0: &YDoc,
    doc1: &YDoc,
    p: &PendingChange,
    name: Seq<char>,
    i: int,
)
    requires
        doc0.wf(),
        doc0.pending_entry_ok(p),
        doc1.hash_edit_frame(doc0),
        0 <= i < doc0.hashes@.len(),
        doc0.hashes@[i].name@ == name,
        doc1.hashes@ == doc0.hashes@.update(i, doc1.hashes@[i]),
        doc1.hashes@[i].name@ == name,
        !(p.target.kind == ContainerKind::Hash && p.target.root@ == name),
    ensures
        doc1.pending_entry_ok(p),
{
    match p.data {
        PendingData::Dict { snapshot, delta } => {
            assert(p.target.root@ != name);
            lemma_unique_hash_index(doc0, p.target.root@);
            let j = doc0.hash_index_of(p.target.root@);
            assert(doc1.hashes@[j] == doc0.hashes@[j]);
            lemma_unique_hash_index(doc1, p.target.root@);
            assert(doc1.hash_entries(p.target.root@) == doc0.hash_entries(p.target.root@));
        },
        PendingData::Arr { snapshot, delta } => {
            assert(doc1.arrays@ == doc0.arrays@);
            assert(doc1.array_items(p.target.root@) == doc0.array_items(p.target.root@));
        },
        PendingData::Txt { snapshot, delta } => {
            assert(doc1.texts@ == doc0.texts@);
            assert(doc1.text_items(p.target.root@) == doc0.text_items(p.target.root@));
        },
    }
}

} // verus!
