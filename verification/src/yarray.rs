use vstd::prelude::*;

use crate::delta::{
    delta_apply, delta_identity, delta_insert_at, delta_new_len, delta_old_len, delta_remove_at,
    delta_val, SeqChange,
};
use crate::engine::{engine_array_insert, engine_array_remove, engine_roots};
use crate::engine_any::{AnyVal, EngineAny};
use crate::error::BridgeError;
use crate::ydoc::{
    items_duplicate, lemma_unique_array_index, PendingChange, PendingData, SubTarget, Subscription,
    YDoc, YTransaction,
};
use crate::yvalue::{
    e2h, engine_to_host, h2e, h2e_list, host_list_to_engine, host_to_engine, ContainerKind,
    HostValue,
};

verus! {

/// The mathematical values of a payload list.
pub open spec fn arr_v(xs: Seq<EngineAny>) -> Seq<AnyVal> {
    xs.map_values(|a: EngineAny| a@)
}

impl YDoc {
    /// What an array mutation leaves untouched (everything but the array
    /// containers, the engine replica and the pending record).
    pub open spec fn array_edit_frame(&self, o: &YDoc) -> bool {
        &&& self.hashes@ == o.hashes@
        &&& self.texts@ == o.texts@
        &&& self.subs@ == o.subs@
        &&& self.update_subs@ == o.update_subs@
        &&& self.sub_counter == o.sub_counter
        &&& self.open_tx == o.open_tx
        &&& self.tx_counter == o.tx_counter
        &&& self.tx_start_state@ == o.tx_start_state@
        &&& self.client_id == o.client_id
    }

    /// Whether an array splice is within bounds: the removed range lies
    /// inside the contents and the result still fits the engine's index
    /// type.
    pub open spec fn array_splice_in_bounds(
        &self,
        name: Seq<char>,
        index: nat,
        ins: nat,
        cnt: nat,
    ) -> bool {
        &&& index + cnt <= self.array_items(name).len()
        &&& self.array_items(name).len() - cnt + ins <= u32::MAX as nat
    }

    /// The shared body of every array mutation: removes `cnt` items at
    /// `index` and inserts `ins` there, in the model, in the engine
    /// replica, and in the transaction's recorded delta.
    #[verifier::loop_isolation(false)]
    #[verifier::rlimit(100)]
    pub(crate) fn array_splice(
        &mut self,
        tx: &YTransaction,
        name: &String,
        index: usize,
        ins: Vec<EngineAny>,
        cnt: usize,
    ) -> (r: Result<(), BridgeError>)
        requires
            old(self).wf(),
        ensures
            final(self).wf(),
            final(self).array_edit_frame(old(self)),
            r is Err ==> *final(self) == *old(self),
            !old(self).tx_live(*tx) ==> r is Err && r->Err_0 is TransactionState,
            old(self).tx_live(*tx) && !old(self).has_array(name@) ==> r is Err && r->Err_0
                is Conversion,
            old(self).tx_live(*tx) && old(self).has_array(name@) && !old(self).array_splice_in_bounds(name@, index as nat, ins@.len(), cnt as nat) ==> r is Err
                && r->Err_0 is Bounds,
            r is Ok <==> old(self).tx_live(*tx) && old(self).has_array(name@) && old(self).array_splice_in_bounds(name@, index as nat, ins@.len(), cnt as nat),
            r is Ok ==> final(self).array_items(name@) == old(self).array_items(name@).take(
                index as int,
            ) + arr_v(ins@) + old(self).array_items(name@).skip(index as int + cnt as int),
            r is Ok ==> final(self).pending_after_edit(old(self), ContainerKind::Array, name@),
            r is Ok ==> final(self).pending_rec(ContainerKind::Array, name@).data is Arr
                && final(self).arr_pending_snapshot(name@) == (if old(self).has_pending(
                ContainerKind::Array,
                name@,
            ) {
                old(self).arr_pending_snapshot(name@)
            } else {
                old(self).array_items(name@)
            }),
            forall|n: Seq<char>| old(self).has_array(n) <==> final(self).has_array(n),
            forall|n: Seq<char>|
                n != name@ && old(self).has_array(n) ==> final(self).array_items(n) == old(self).array_items(n),
    {
        let live = match self.open_tx {
            Some(id) => id == tx.id,
            None => false,
        };
        if !live {
            return Err(BridgeError::TransactionState(String::from_str(
                "the transaction handle is no longer valid",
            )));
        }
        let i = match self.find_array(name) {
            Some(i) => i,
            None => {
                return Err(BridgeError::Conversion(String::from_str(
                    "unknown array container",
                )));
            },
        };
        proof {
            lemma_unique_array_index(self, name@);
            assert(self.array_index_of(name@) == i);
        }
        let len = self.arrays[i].items.len();
        if index > len || cnt > len - index {
            return Err(BridgeError::Bounds(String::from_str(
                "index or range lies outside the sequence",
            )));
        }
        if ins.len() > (u32::MAX as usize) - (len - cnt) {
            return Err(BridgeError::Bounds(String::from_str(
                "the sequence would exceed the engine's capacity",
            )));
        }
        let ghost doc0 = *self;
        let ghost items0 = self.arrays@[i as int].items@;
        let ghost a0 = arr_v(items0);

        // Take over (or open) the transaction's record of this container.
        let found = self.pending_find(ContainerKind::Array, name);
        let ghost jg = found;
        let pe = match found {
            Some(j) => {
                let p = self.pending.remove(j);
                proof {
                    assert(p == doc0.pending@[j as int]);
                    assert(doc0.pending_entry_ok(&doc0.pending@[j as int]));
                }
                p
            },
            None => {
                let snap = items_duplicate(&self.arrays[i].items);
                let d = delta_identity::<EngineAny>(len);
                PendingChange {
                    target: SubTarget { kind: ContainerKind::Array, root: name.clone() },
                    data: PendingData::Arr { snapshot: snap, delta: d },
                }
            },
        };
        let ghost pending1 = self.pending@;
        proof {
            if jg is Some {
                let j = jg->0 as int;
                assert(pending1 =~= doc0.pending@.remove(j));
            }
        }
        let ghost peg = pe;
        proof {
            assert(pe.target.kind is Array);
            assert(pe.target.root@ == name@);
            assert(pe.data is Arr);
        }
        let (snapshot, delta) = match pe.data {
            PendingData::Arr { snapshot, delta } => (snapshot, delta),
            PendingData::Txt { snapshot, delta } => {
                proof {
                    assert(false);
                }
                return Err(BridgeError::Conversion(String::new()));
            },
            PendingData::Dict { snapshot, delta } => {
                proof {
                    assert(false);
                }
                return Err(BridgeError::Conversion(String::new()));
            },
        };
        let ghost s0 = snapshot@.map_values(|a: EngineAny| a@);
        proof {
            assert(delta_old_len(delta_val(delta@)) == s0.len());
            assert(delta_new_len(delta_val(delta@)) == a0.len());
            assert(delta_apply(delta_val(delta@), s0) == a0);
        }

        // Echo into the engine replica: the removal, then the insertions.
        let ghost al0 = engine_roots(self.engine);
        if cnt > 0 {
            engine_array_remove(&mut self.engine, name.as_str(), index as u32, cnt as u32);
        }
        let ghost al1 = engine_roots(self.engine);
        proof {
            assert(al1.insert(name@, (al1[name@] + 0) as nat) =~= al1);
        }
        let mut k: usize = 0;
        while k < ins.len()
            invariant
                k <= ins@.len(),
                engine_roots(self.engine) =~= al1.insert(name@, (al1[name@] + k) as nat),
                self.arrays@ == doc0.arrays@,
                self.hashes@ == doc0.hashes@,
                self.texts@ == doc0.texts@,
                self.subs@ == doc0.subs@,
                self.update_subs@ == doc0.update_subs@,
                self.sub_counter == doc0.sub_counter,
                self.open_tx == doc0.open_tx,
                self.tx_counter == doc0.tx_counter,
                self.tx_start_state@ == doc0.tx_start_state@,
                self.client_id == doc0.client_id,
                self.pending@ == pending1,
            decreases ins@.len() - k,
        {
            proof {
                assert(engine_roots(self.engine).contains_key(name@));
                assert(engine_roots(self.engine)[name@] == al1[name@] + k);
            }
            engine_array_insert(&mut self.engine, name.as_str(), (index + k) as u32, &ins[k]);
            k += 1;
            proof {
                assert(engine_roots(self.engine) =~= al1.insert(name@, (al1[name@] + k) as nat));
            }
        }

        // Splice the model contents.
        proof {
            assert(self.arrays@ == doc0.arrays@);
            assert(self.arrays@[i as int].items@ == items0);
        }
        let ins_copy = items_duplicate(&ins);
        let mut root = self.arrays.remove(i);
        proof {
            assert(root.items@ == items0);
        }
        let mut tail = root.items.split_off(index);
        let mut tail2 = tail.split_off(cnt);
        let mut ins = ins;
        root.items.append(&mut ins);
        root.items.append(&mut tail2);
        self.arrays.insert(i, root);
        proof {
            assert(self.arrays@ =~= doc0.arrays@.update(i as int, self.arrays@[i as int]));
            assert(self.arrays@[i as int].name@ == name@);
            assert(arr_v(self.arrays@[i as int].items@) =~= a0.take(index as int) + arr_v(
                ins_copy@,
            ) + a0.skip(index as int + cnt as int));
        }

        // Record the splice in the transaction's delta.
        let mut delta = delta;
        if cnt > 0 {
            delta = delta_remove_at(delta, index, cnt, Ghost(s0));
        }
        proof {
            assert(delta_apply(delta_val(delta@), s0) =~= a0.take(index as int) + a0.skip(
                index as int + cnt as int,
            ));
        }
        if ins_copy.len() > 0 {
            delta = delta_insert_at(delta, index, ins_copy, Ghost(s0));
        } else {
            proof {
                assert(arr_v(ins_copy@) =~= Seq::<AnyVal>::empty());
            }
        }
        proof {
            assert(delta_apply(delta_val(delta@), s0) =~= a0.take(index as int) + arr_v(ins_copy@)
                + a0.skip(index as int + cnt as int));
        }
        self.pending.push(
            PendingChange { target: pe.target, data: PendingData::Arr { snapshot, delta } },
        );

        proof {
            assert(self.arrays@[i as int].name@ == name@);
            assert(self.has_array(name@));
            assert(self.pending@.take(pending1.len() as int) =~= pending1);
            lemma_unique_array_index(self, name@);
            assert(self.array_index_of(name@) == i);
            assert(self.array_items(name@) == arr_v(self.arrays@[i as int].items@));
            assert forall|n: Seq<char>| n != name@ && doc0.has_array(n) implies self.has_array(n)
                && self.array_items(n) == doc0.array_items(n) by {
                lemma_unique_array_index(&doc0, n);
                let j = doc0.array_index_of(n);
                assert(self.arrays@[j] == doc0.arrays@[j]);
                lemma_unique_array_index(self, n);
            }
            assert_wf_after_array_splice(
                &doc0,
                self,
                *tx,
                name@,
                i as int,
                pending1,
                match jg {
                    Some(j) => Some(j as int),
                    None => None,
                },
            );
            crate::ydoc::lemma_pending_others_preserved(
                &doc0,
                self,
                ContainerKind::Array,
                name@,
                pending1,
                match jg {
                    Some(j) => Some(j as int),
                    None => None,
                },
            );
            assert(self.pending_rec(ContainerKind::Array, name@) == self.pending@.last());
            assert(self.pending@.last().data->Arr_snapshot@.map_values(|a: EngineAny| a@) == s0);
            if jg is Some {
                let j = jg->0 as int;
                assert(doc0.pending_rec(ContainerKind::Array, name@) == doc0.pending@[j]);
                assert(doc0.pending@[j].data->Arr_snapshot@.map_values(|a: EngineAny| a@) == s0);
                assert(doc0.arr_pending_snapshot(name@) == s0);
            } else {
                assert(s0 == a0);
                assert(doc0.array_items(name@) == a0);
            }
        }
        Ok(())
    }
}

/// Re-establishes the document invariant after one array splice: only the
/// spliced container, its engine length, and its pending record changed.
proof fn assert_wf_after_array_splice(
    doc0: &YDoc,
    doc1: &YDoc,
    tx: YTransaction,
    name: Seq<char>,
    i: int,
    pending1: Seq<PendingChange>,
    removed: Option<int>,
)
    requires
        doc0.wf(),
        doc0.tx_live(tx),
        doc1.array_edit_frame(doc0),
        0 <= i < doc0.arrays@.len(),
        doc0.arrays@[i].name@ == name,
        doc1.arrays@ == doc0.arrays@.update(i, doc1.arrays@[i]),
        doc1.arrays@[i].name@ == name,
        doc1.arrays@[i].items@.len() <= u32::MAX as nat,
        engine_roots(doc1.engine).contains_key(name),
        doc1.arrays@[i].items@.len() <= engine_roots(doc1.engine)[name],
        forall|n: Seq<char>|
            n != name && engine_roots(doc0.engine).contains_key(n) ==> engine_roots(
                doc1.engine,
            ).contains_key(n) && engine_roots(doc1.engine)[n] == engine_roots(doc0.engine)[n],
        // the pending list: the untouched entries, then the refreshed record
        doc1.pending@.len() == pending1.len() + 1,
        doc1.pending@.take(pending1.len() as int) == pending1,
        doc1.pending@.last().target.kind is Array,
        doc1.pending@.last().target.root@ == name,
        doc1.pending_entry_ok(&doc1.pending@.last()),
        match removed {
            Some(j) => 0 <= j < doc0.pending@.len() && doc0.pending@[j].target.kind
                == ContainerKind::Array && doc0.pending@[j].target.root@ == name && pending1
                == doc0.pending@.remove(j),
            None => pending1 == doc0.pending@ && forall|l: int|
                0 <= l < doc0.pending@.len() ==> !((#[trigger] doc0.pending@[l]).target.kind
                    == ContainerKind::Array && doc0.pending@[l].target.root@ == name),
        },
    ensures
        doc1.wf(),
{
    assert(doc1.names_ok());
    assert(doc1.hashes_ok());
    assert(doc1.subs_ok());
    assert(doc1.texts_ok()) by {
        assert forall|j: int| 0 <= j < doc1.texts@.len() implies {
            &&& engine_roots(doc1.engine).contains_key(#[trigger] doc1.texts@[j].name@)
            &&& doc1.texts@[j].items@.len() <= engine_roots(doc1.engine)[doc1.texts@[j].name@]
            &&& doc1.texts@[j].items@.len() <= u32::MAX as nat
        } by {
            assert(doc1.texts@[j] == doc0.texts@[j]);
            assert(doc1.texts@[j].name@ != name);
        }
    }
    assert(doc1.arrays_ok()) by {
        assert forall|j: int| 0 <= j < doc1.arrays@.len() implies {
            &&& engine_roots(doc1.engine).contains_key(#[trigger] doc1.arrays@[j].name@)
            &&& doc1.arrays@[j].items@.len() <= engine_roots(doc1.engine)[doc1.arrays@[j].name@]
            &&& doc1.arrays@[j].items@.len() <= u32::MAX as nat
        } by {
            if j != i {
                assert(doc1.arrays@[j] == doc0.arrays@[j]);
                assert(doc1.arrays@[j].name@ != name);
            }
        }
    }
    let src_of = |l: int| -> int {
        match removed {
            Some(j) => if l < j {
                l
            } else {
                l + 1
            },
            None => l,
        }
    };
    assert forall|l: int| 0 <= l < pending1.len() implies pending1[l] == doc0.pending@[
        src_of(l)
    ] && 0 <= src_of(l) < doc0.pending@.len() by {
        if removed is Some {
            let j = removed->0;
            if l < j {
                assert(pending1[l] == doc0.pending@[l]);
            } else {
                assert(pending1[l] == doc0.pending@[l + 1]);
            }
        }
    }
    assert forall|l: int| 0 <= l < pending1.len() implies !((#[trigger] pending1[l]).target.kind
        == ContainerKind::Array && pending1[l].target.root@ == name) by {
        let l0 = src_of(l);
        assert(pending1[l] == doc0.pending@[l0]);
        if removed is Some {
            let j = removed->0;
            if doc0.pending@[l0].target.kind == ContainerKind::Array && doc0.pending@[
                l0
            ].target.root@ == name {
                assert(l0 != j);
                if l0 < j {
                    assert(!(doc0.pending@[l0].target.kind == doc0.pending@[j].target.kind
                        && doc0.pending@[l0].target.root@ == doc0.pending@[j].target.root@));
                } else {
                    assert(!(doc0.pending@[j].target.kind == doc0.pending@[l0].target.kind
                        && doc0.pending@[j].target.root@ == doc0.pending@[l0].target.root@));
                }
            }
        }
    }
    assert(doc1.tx_ok()) by {
        assert forall|j: int| 0 <= j < doc1.pending@.len() implies doc1.pending_entry_ok(
            #[trigger] &doc1.pending@[j],
        ) by {
            if j < pending1.len() {
                assert(doc1.pending@[j] == pending1[j]);
                assert(pending1[j] == doc0.pending@[src_of(j)]);
                assert(doc0.pending_entry_ok(&doc0.pending@[src_of(j)]));
                lemma_pending_entry_stable(doc0, doc1, &doc1.pending@[j], name, i);
            }
        }
        assert forall|j: int, l: int| 0 <= j < l < doc1.pending@.len() implies !(doc1.pending@[
            j
        ].target.kind == doc1.pending@[l].target.kind && doc1.pending@[j].target.root@
            == doc1.pending@[l].target.root@) by {
            if l == pending1.len() as int {
                assert(doc1.pending@[j] == pending1[j]);
            } else {
                assert(doc1.pending@[j] == pending1[j]);
                assert(doc1.pending@[l] == pending1[l]);
                assert(pending1[j] == doc0.pending@[src_of(j)]);
                assert(pending1[l] == doc0.pending@[src_of(l)]);
            }
        }
    }
}

/// A pending record of a container other than the spliced array still
/// satisfies its invariant: its container's contents are unchanged.
proof fn lemma_pending_entry_stable(
    doc0: &YDoc,
    doc1: &YDoc,
    p: &PendingChange,
    name: Seq<char>,
    i: int,
)
    requires
        doc0.wf(),
        doc0.pending_entry_ok(p),
        doc1.array_edit_frame(doc0),
        0 <= i < doc0.arrays@.len(),
        doc0.arrays@[i].name@ == name,
        doc1.arrays@ == doc0.arrays@.update(i, doc1.arrays@[i]),
        doc1.arrays@[i].name@ == name,
        !(p.target.kind == ContainerKind::Array && p.target.root@ == name),
    ensures
        doc1.pending_entry_ok(p),
{
    match p.data {
        PendingData::Arr { snapshot, delta } => {
            assert(p.target.root@ != name);
            lemma_unique_array_index(doc0, p.target.root@);
            let j = doc0.array_index_of(p.target.root@);
            assert(doc1.arrays@[j] == doc0.arrays@[j]);
            lemma_unique_array_index(doc1, p.target.root@);
            assert(doc1.array_items(p.target.root@) == doc0.array_items(p.target.root@));
        },
        PendingData::Txt { snapshot, delta } => {
            assert(doc1.texts@ == doc0.texts@);
            assert(doc1.text_items(p.target.root@) == doc0.text_items(p.target.root@));
        },
        PendingData::Dict { snapshot, delta } => {
            assert(doc1.hashes@ == doc0.hashes@);
            assert(doc1.hash_entries(p.target.root@) == doc0.hash_entries(p.target.root@));
        },
    }
}

/// A host-held proxy for a root sequence container.  It aliases the
/// container by name: any two proxies with the same name read and write
/// the same contents, however they were obtained.
pub struct YArray {
    pub name: String,
}

impl YArray {
    /// Inserts one value at `index`; `index == length` appends, a larger
    /// index is a bounds error.  The value crosses the boundary through
    /// the codec; a value it rejects is a conversion error.
    pub fn yarray_insert(
        &self,
        doc: &mut YDoc,
        tx: &YTransaction,
        index: u32,
        value: &HostValue,
    ) -> (r: Result<(), BridgeError>)
        requires
            old(doc).wf(),
        ensures
            final(doc).wf(),
            final(doc).array_edit_frame(old(doc)),
            r is Err ==> *final(doc) == *old(doc),
            !old(doc).tx_live(*tx) ==> r is Err && r->Err_0 is TransactionState,
            old(doc).tx_live(*tx) && h2e(value@) is None ==> r is Err && r->Err_0 is Conversion,
            old(doc).tx_live(*tx) && h2e(value@) is Some && old(doc).has_array(self.name@)
                && !old(doc).array_splice_in_bounds(self.name@, index as nat, 1, 0) ==> r is Err
                && r->Err_0 is Bounds,
            r is Ok <==> old(doc).tx_live(*tx) && h2e(value@) is Some && old(doc).has_array(
                self.name@,
            ) && old(doc).array_splice_in_bounds(self.name@, index as nat, 1, 0),
            r is Ok ==> final(doc).array_items(self.name@) == old(doc).array_items(
                self.name@,
            ).insert(index as int, h2e(value@)->Some_0),
            r is Ok ==> final(doc).pending_after_edit(old(doc), ContainerKind::Array, self.name@),
            r is Ok ==> final(doc).pending_rec(ContainerKind::Array, self.name@).data is Arr
                && final(doc).arr_pending_snapshot(self.name@) == (if old(doc).has_pending(
                ContainerKind::Array,
                self.name@,
            ) {
                old(doc).arr_pending_snapshot(self.name@)
            } else {
                old(doc).array_items(self.name@)
            }),
            forall|n: Seq<char>| old(doc).has_array(n) <==> final(doc).has_array(n),
            forall|n: Seq<char>|
                n != self.name@ && old(doc).has_array(n) ==> final(doc).array_items(n) == old(doc).array_items(n),
    {
        let live = match doc.open_tx {
            Some(id) => id == tx.id,
            None => false,
        };
        if !live {
            return Err(BridgeError::TransactionState(String::from_str(
                "the transaction handle is no longer valid",
            )));
        }
        let v = match host_to_engine(value) {
            Ok(v) => v,
            Err(e) => {
                return Err(e);
            },
        };
        let mut ins: Vec<EngineAny> = Vec::new();
        ins.push(v);
        let ghost insg = ins@;
        let r = doc.array_splice(tx, &self.name, index as usize, ins, 0);
        proof {
            if r is Ok {
                assert(arr_v(insg) =~= seq![h2e(value@)->Some_0]);
                assert(old(doc).array_items(self.name@).take(index as int) + arr_v(insg) + old(doc).array_items(self.name@).skip(index as int) =~= old(doc).array_items(
                    self.name@,
                ).insert(index as int, h2e(value@)->Some_0));
            }
        }
        r
    }

    /// Inserts a list of values starting at `index`.
    pub fn yarray_insert_range(
        &self,
        doc: &mut YDoc,
        tx: &YTransaction,
        index: u32,
        values: &Vec<HostValue>,
    ) -> (r: Result<(), BridgeError>)
        requires
            old(doc).wf(),
        ensures
            final(doc).wf(),
            final(doc).array_edit_frame(old(doc)),
            r is Err ==> *final(doc) == *old(doc),
            !old(doc).tx_live(*tx) ==> r is Err && r->Err_0 is TransactionState,
            old(doc).tx_live(*tx) && h2e_list(values@.map_values(|v: HostValue| v@)) is Some
                && old(doc).has_array(self.name@) && !old(doc).array_splice_in_bounds(
                self.name@,
                index as nat,
                values@.len(),
                0,
            ) ==> r is Err && r->Err_0 is Bounds,
            r is Ok <==> old(doc).tx_live(*tx) && h2e_list(
                values@.map_values(|v: HostValue| v@),
            ) is Some && old(doc).has_array(self.name@) && old(doc).array_splice_in_bounds(
                self.name@,
                index as nat,
                values@.len(),
                0,
            ),
            r is Ok ==> final(doc).array_items(self.name@) == old(doc).array_items(
                self.name@,
            ).take(index as int) + h2e_list(values@.map_values(|v: HostValue| v@))->Some_0 + old(doc).array_items(self.name@).skip(index as int),
            r is Ok ==> final(doc).pending_after_edit(old(doc), ContainerKind::Array, self.name@),
            r is Ok ==> final(doc).pending_rec(ContainerKind::Array, self.name@).data is Arr
                && final(doc).arr_pending_snapshot(self.name@) == (if old(doc).has_pending(
                ContainerKind::Array,
                self.name@,
            ) {
                old(doc).arr_pending_snapshot(self.name@)
            } else {
                old(doc).array_items(self.name@)
            }),
            forall|n: Seq<char>| old(doc).has_array(n) <==> final(doc).has_array(n),
            forall|n: Seq<char>|
                n != self.name@ && old(doc).has_array(n) ==> final(doc).array_items(n) == old(doc).array_items(n),
    {
        let live = match doc.open_tx {
            Some(id) => id == tx.id,
            None => false,
        };
        if !live {
            return Err(BridgeError::TransactionState(String::from_str(
                "the transaction handle is no longer valid",
            )));
        }
        let ins = match host_list_to_engine(values) {
            Ok(v) => v,
            Err(e) => {
                return Err(e);
            },
        };
        proof {
            assert(ins@.len() == values@.len()) by {
                assert(ins@.map_values(|a: EngineAny| a@).len() == ins@.len());
                assert(values@.map_values(|v: HostValue| v@).len() == values@.len());
                crate::yvalue::lemma_h2e_list_some_len(values@.map_values(|v: HostValue| v@));
            }
        }
        doc.array_splice(tx, &self.name, index as usize, ins, 0)
    }

    /// Appends one value at the end of the sequence.
    pub fn yarray_push_back(&self, doc: &mut YDoc, tx: &YTransaction, value: &HostValue) -> (r:
        Result<(), BridgeError>)
        requires
            old(doc).wf(),
        ensures
            final(doc).wf(),
            final(doc).array_edit_frame(old(doc)),
            r is Err ==> *final(doc) == *old(doc),
            !old(doc).tx_live(*tx) ==> r is Err && r->Err_0 is TransactionState,
            old(doc).tx_live(*tx) && h2e(value@) is Some && old(doc).has_array(self.name@)
                && old(doc).array_items(self.name@).len() + 1 > u32::MAX as nat ==> r is Err
                && r->Err_0 is Bounds,
            r is Ok <==> old(doc).tx_live(*tx) && h2e(value@) is Some && old(doc).has_array(
                self.name@,
            ) && old(doc).array_items(self.name@).len() + 1 <= u32::MAX as nat,
            r is Ok ==> final(doc).array_items(self.name@) == old(doc).array_items(
                self.name@,
            ).push(h2e(value@)->Some_0),
            r is Ok ==> final(doc).pending_after_edit(old(doc), ContainerKind::Array, self.name@),
            r is Ok ==> final(doc).pending_rec(ContainerKind::Array, self.name@).data is Arr
                && final(doc).arr_pending_snapshot(self.name@) == (if old(doc).has_pending(
                ContainerKind::Array,
                self.name@,
            ) {
                old(doc).arr_pending_snapshot(self.name@)
            } else {
                old(doc).array_items(self.name@)
            }),
            forall|n: Seq<char>| old(doc).has_array(n) <==> final(doc).has_array(n),
            forall|n: Seq<char>|
                n != self.name@ && old(doc).has_array(n) ==> final(doc).array_items(n) == old(doc).array_items(n),
    {
        let live = match doc.open_tx {
            Some(id) => id == tx.id,
            None => false,
        };
        if !live {
            return Err(BridgeError::TransactionState(String::from_str(
                "the transaction handle is no longer valid",
            )));
        }
        let i = match doc.find_array(&self.name) {
            Some(i) => i,
            None => {
                return Err(BridgeError::Conversion(String::from_str(
                    "unknown array container",
                )));
            },
        };
        proof {
            lemma_unique_array_index(doc, self.name@);
        }
        let len = doc.arrays[i].items.len();
        let r = self.yarray_insert(doc, tx, if len < u32::MAX as usize {
            len as u32
        } else {
            u32::MAX
        }, value);
        proof {
            if r is Ok {
                assert(old(doc).array_items(self.name@).insert(
                    old(doc).array_items(self.name@).len() as int,
                    h2e(value@)->Some_0,
                ) =~= old(doc).array_items(self.name@).push(h2e(value@)->Some_0));
            }
        }
        r
    }

    /// Prepends one value at the front of the sequence.
    pub fn yarray_push_front(&self, doc: &mut YDoc, tx: &YTransaction, value: &HostValue) -> (r:
        Result<(), BridgeError>)
        requires
            old(doc).wf(),
        ensures
            final(doc).wf(),
            final(doc).array_edit_frame(old(doc)),
            r is Err ==> *final(doc) == *old(doc),
            !old(doc).tx_live(*tx) ==> r is Err && r->Err_0 is TransactionState,
            old(doc).tx_live(*tx) && h2e(value@) is Some && old(doc).has_array(self.name@)
                && old(doc).array_items(self.name@).len() + 1 > u32::MAX as nat ==> r is Err
                && r->Err_0 is Bounds,
            r is Ok <==> old(doc).tx_live(*tx) && h2e(value@) is Some && old(doc).has_array(
                self.name@,
            ) && old(doc).array_items(self.name@).len() + 1 <= u32::MAX as nat,
            r is Ok ==> final(doc).array_items(self.name@) == old(doc).array_items(
                self.name@,
            ).insert(0, h2e(value@)->Some_0),
            r is Ok ==> final(doc).pending_after_edit(old(doc), ContainerKind::Array, self.name@),
            r is Ok ==> final(doc).pending_rec(ContainerKind::Array, self.name@).data is Arr
                && final(doc).arr_pending_snapshot(self.name@) == (if old(doc).has_pending(
                ContainerKind::Array,
                self.name@,
            ) {
                old(doc).arr_pending_snapshot(self.name@)
            } else {
                old(doc).array_items(self.name@)
            }),
            forall|n: Seq<char>| old(doc).has_array(n) <==> final(doc).has_array(n),
            forall|n: Seq<char>|
                n != self.name@ && old(doc).has_array(n) ==> final(doc).array_items(n) == old(doc).array_items(n),
    {
        self.yarray_insert(doc, tx, 0, value)
    }

    /// Removes the single item at `index`.
    pub fn yarray_remove(&self, doc: &mut YDoc, tx: &YTransaction, index: u32) -> (r: Result<
        (),
        BridgeError,
    >)
        requires
            old(doc).wf(),
        ensures
            final(doc).wf(),
            final(doc).array_edit_frame(old(doc)),
            r is Err ==> *final(doc) == *old(doc),
            !old(doc).tx_live(*tx) ==> r is Err && r->Err_0 is TransactionState,
            old(doc).tx_live(*tx) && old(doc).has_array(self.name@) && index as nat + 1 > old(doc).array_items(self.name@).len() ==> r is Err && r->Err_0 is Bounds,
            r is Ok <==> old(doc).tx_live(*tx) && old(doc).has_array(self.name@) && (
            index as nat) < old(doc).array_items(self.name@).len(),
            r is Ok ==> final(doc).array_items(self.name@) == old(doc).array_items(
                self.name@,
            ).remove(index as int),
            r is Ok ==> final(doc).pending_after_edit(old(doc), ContainerKind::Array, self.name@),
            r is Ok ==> final(doc).pending_rec(ContainerKind::Array, self.name@).data is Arr
                && final(doc).arr_pending_snapshot(self.name@) == (if old(doc).has_pending(
                ContainerKind::Array,
                self.name@,
            ) {
                old(doc).arr_pending_snapshot(self.name@)
            } else {
                old(doc).array_items(self.name@)
            }),
            forall|n: Seq<char>| old(doc).has_array(n) <==> final(doc).has_array(n),
            forall|n: Seq<char>|
                n != self.name@ && old(doc).has_array(n) ==> final(doc).array_items(n) == old(doc).array_items(n),
    {
        let r = self.yarray_remove_range(doc, tx, index, 1);
        proof {
            if r is Ok {
                assert(old(doc).array_items(self.name@).take(index as int) + old(doc).array_items(self.name@).skip(index as int + 1) =~= old(doc).array_items(
                    self.name@,
                ).remove(index as int));
            }
        }
        r
    }

    /// Removes `len` items starting at `index`; a zero-length removal of
    /// a valid position is a no-op.
    pub fn yarray_remove_range(&self, doc: &mut YDoc, tx: &YTransaction, index: u32, len: u32)
        -> (r: Result<(), BridgeError>)
        requires
            old(doc).wf(),
        ensures
            final(doc).wf(),
            final(doc).array_edit_frame(old(doc)),
            r is Err ==> *final(doc) == *old(doc),
            !old(doc).tx_live(*tx) ==> r is Err && r->Err_0 is TransactionState,
            old(doc).tx_live(*tx) && old(doc).has_array(self.name@) && index as nat + len as nat
                > old(doc).array_items(self.name@).len() ==> r is Err && r->Err_0 is Bounds,
            r is Ok <==> old(doc).tx_live(*tx) && old(doc).has_array(self.name@) && index as nat
                + len as nat <= old(doc).array_items(self.name@).len(),
            r is Ok ==> final(doc).array_items(self.name@) == old(doc).array_items(
                self.name@,
            ).take(index as int) + old(doc).array_items(self.name@).skip(
                index as int + len as int,
            ),
            r is Ok ==> final(doc).pending_after_edit(old(doc), ContainerKind::Array, self.name@),
            r is Ok ==> final(doc).pending_rec(ContainerKind::Array, self.name@).data is Arr
                && final(doc).arr_pending_snapshot(self.name@) == (if old(doc).has_pending(
                ContainerKind::Array,
                self.name@,
            ) {
                old(doc).arr_pending_snapshot(self.name@)
            } else {
                old(doc).array_items(self.name@)
            }),
            forall|n: Seq<char>| old(doc).has_array(n) <==> final(doc).has_array(n),
            forall|n: Seq<char>|
                n != self.name@ && old(doc).has_array(n) ==> final(doc).array_items(n) == old(doc).array_items(n),
    {
        let r = doc.array_splice(tx, &self.name, index as usize, Vec::new(), len as usize);
        proof {
            if r is Ok {
                assert(arr_v(Seq::<EngineAny>::empty()) =~= Seq::<AnyVal>::empty());
                assert(old(doc).array_items(self.name@).take(index as int) + arr_v(
                    Seq::<EngineAny>::empty(),
                ) + old(doc).array_items(self.name@).skip(index as int + len as int) =~= old(doc).array_items(self.name@).take(index as int) + old(doc).array_items(
                    self.name@,
                ).skip(index as int + len as int));
            }
        }
        r
    }

    /// The number of items in the sequence.
    pub fn yarray_length(&self, doc: &YDoc, tx: &YTransaction) -> (r: Result<u32, BridgeError>)
        requires
            doc.wf(),
        ensures
            !doc.tx_live(*tx) ==> r is Err && r->Err_0 is TransactionState,
            r is Ok <==> doc.tx_live(*tx) && doc.has_array(self.name@),
            r is Ok ==> r->Ok_0 as nat == doc.array_items(self.name@).len(),
            r is Err && doc.tx_live(*tx) ==> r->Err_0 is Conversion,
    {
        let live = match doc.open_tx {
            Some(id) => id == tx.id,
            None => false,
        };
        if !live {
            return Err(BridgeError::TransactionState(String::from_str(
                "the transaction handle is no longer valid",
            )));
        }
        match doc.find_array(&self.name) {
            Some(i) => {
                proof {
                    lemma_unique_array_index(doc, self.name@);
                }
                Ok(doc.arrays[i].items.len() as u32)
            },
            None => Err(BridgeError::Conversion(String::from_str(
                "unknown array container",
            ))),
        }
    }

    /// Reads the item at `index`, converted to a host value; an
    /// out-of-range index is a bounds error.
    pub fn yarray_get(&self, doc: &YDoc, tx: &YTransaction, index: u32) -> (r: Result<
        HostValue,
        BridgeError,
    >)
        requires
            doc.wf(),
        ensures
            !doc.tx_live(*tx) ==> r is Err && r->Err_0 is TransactionState,
            r is Ok <==> doc.tx_live(*tx) && doc.has_array(self.name@) && (index as nat) < doc
                .array_items(self.name@).len(),
            r is Ok ==> r->Ok_0@ == e2h(doc.array_items(self.name@)[index as int]),
            doc.tx_live(*tx) && doc.has_array(self.name@) && index as nat >= doc.array_items(
                self.name@,
            ).len() ==> r is Err && r->Err_0 is Bounds,
    {
        let live = match doc.open_tx {
            Some(id) => id == tx.id,
            None => false,
        };
        if !live {
            return Err(BridgeError::TransactionState(String::from_str(
                "the transaction handle is no longer valid",
            )));
        }
        let i = match doc.find_array(&self.name) {
            Some(i) => i,
            None => {
                return Err(BridgeError::Conversion(String::from_str(
                    "unknown array container",
                )));
            },
        };
        proof {
            lemma_unique_array_index(doc, self.name@);
        }
        if (index as usize) >= doc.arrays[i].items.len() {
            return Err(BridgeError::Bounds(String::from_str(
                "index lies outside the sequence",
            )));
        }
        Ok(engine_to_host(&doc.arrays[i].items[index as usize]))
    }

    /// A full, deep host-native snapshot of the contents; the result does
    /// not alias the container.
    #[verifier::loop_isolation(false)]
    pub fn yarray_to_a(&self, doc: &YDoc, tx: &YTransaction) -> (r: Result<
        Vec<HostValue>,
        BridgeError,
    >)
        requires
            doc.wf(),
        ensures
            !doc.tx_live(*tx) ==> r is Err && r->Err_0 is TransactionState,
            r is Ok <==> doc.tx_live(*tx) && doc.has_array(self.name@),
            r is Ok ==> r->Ok_0@.len() == doc.array_items(self.name@).len() && forall|k: int|
                0 <= k < r->Ok_0@.len() ==> (#[trigger] r->Ok_0@[k])@ == e2h(
                    doc.array_items(self.name@)[k],
                ),
    {
        let live = match doc.open_tx {
            Some(id) => id == tx.id,
            None => false,
        };
        if !live {
            return Err(BridgeError::TransactionState(String::from_str(
                "the transaction handle is no longer valid",
            )));
        }
        let i = match doc.find_array(&self.name) {
            Some(i) => i,
            None => {
                return Err(BridgeError::Conversion(String::from_str(
                    "unknown array container",
                )));
            },
        };
        proof {
            lemma_unique_array_index(doc, self.name@);
        }
        let items = &doc.arrays[i].items;
        let mut out: Vec<HostValue> = Vec::new();
        let mut k: usize = 0;
        while k < items.len()
            invariant
                k <= items@.len(),
                out@.len() == k,
                forall|l: int|
                    0 <= l < k ==> (#[trigger] out@[l])@ == e2h(doc.array_items(self.name@)[l]),
            decreases items@.len() - k,
        {
            let y = engine_to_host(&items[k]);
            out.push(y);
            k += 1;
        }
        Ok(out)
    }

    /// Subscribes an observer to this container; see
    /// [`YDoc::observe_target`].
    pub fn yarray_observe(&self, doc: &mut YDoc) -> (r: Result<u64, BridgeError>)
        requires
            old(doc).wf(),
        ensures
            final(doc).wf(),
            old(doc).sub_counter < u64::MAX ==> r is Ok && final(doc).subs@ == old(doc).subs@.push(
                (Subscription {
                    id: old(doc).sub_counter,
                    target: SubTarget { kind: ContainerKind::Array, root: self.name },
                    active: true,
                }),
            ),
            final(doc).arrays@ == old(doc).arrays@,
            final(doc).hashes@ == old(doc).hashes@,
            final(doc).texts@ == old(doc).texts@,
            final(doc).pending@ == old(doc).pending@,
            final(doc).open_tx == old(doc).open_tx,
            r is Ok ==> final(doc).subs@.last().target.kind == ContainerKind::Array && final(doc).subs@.last().target.root@ == self.name@ && final(doc).subs@.last().active
                && r->Ok_0 == final(doc).subs@.last().id,
    {
        doc.observe_target(SubTarget { kind: ContainerKind::Array, root: self.name.clone() })
    }

    /// Unsubscribes one observer; an unknown subscription is a no-op.
    pub fn yarray_unobserve(&self, doc: &mut YDoc, subscription: u64)
        requires
            old(doc).wf(),
        ensures
            final(doc).wf(),
            final(doc).arrays@ == old(doc).arrays@,
            final(doc).hashes@ == old(doc).hashes@,
            final(doc).texts@ == old(doc).texts@,
            final(doc).pending@ == old(doc).pending@,
            final(doc).open_tx == old(doc).open_tx,
            final(doc).update_subs@ == old(doc).update_subs@,
            final(doc).engine == old(doc).engine,
            final(doc).subs@.len() == old(doc).subs@.len(),
            forall|i: int|
                0 <= i < old(doc).subs@.len() && old(doc).subs@[i].id != subscription
                    ==> final(doc).subs@[i] == old(doc).subs@[i],
            forall|i: int|
                0 <= i < old(doc).subs@.len() && old(doc).subs@[i].id == subscription
                    ==> final(doc).subs@[i].id == old(doc).subs@[i].id && final(doc).subs@[i].target
                    == old(doc).subs@[i].target && !final(doc).subs@[i].active,
    {
        doc.unobserve_id(subscription)
    }
}

} // verus!
