use vstd::prelude::*;

use crate::delta::{delta_apply, delta_val, SeqChange, SeqChangeVal};
use crate::engine::{
    engine_apply_update, engine_array_get_all, engine_encode_diff, engine_map_get_all,
    engine_roots, engine_state_vector, sv_decodes, update_decodes,
};
use crate::engine_any::{any_val_dict, AnyVal, EngineAny};
use crate::error::BridgeError;
use crate::yarray::YArray;
use crate::ydoc::{
    HashChange, HashChangeVal, HashDeltaEntry, PendingChange, PendingData, Subscription, YDoc,
    YTransaction,
};
use crate::ymap::YMap;
use crate::ytext::{Glyph, GlyphVal, TextItem, TextItemVal, YText};
use crate::yvalue::{
    e2h, e2h_dict, e2h_list, engine_to_host, lemma_e2h_list_char, ContainerKind, HostVal,
    HostValue,
};

verus! {

/// One unit of a text change payload: the inserted value (a one-character
/// string, or an embedded payload converted through the codec) and its
/// formatting attributes, if any.
pub struct TextDeltaItem {
    pub value: HostValue,
    pub attributes: Option<HostValue>,
}

/// The mathematical value of a [`TextDeltaItem`].
pub struct TextDeltaItemVal {
    pub value: HostVal,
    pub attributes: Option<HostVal>,
}

impl View for TextDeltaItem {
    type V = TextDeltaItemVal;

    open spec fn view(&self) -> TextDeltaItemVal {
        TextDeltaItemVal {
            value: self.value@,
            attributes: match self.attributes {
                Some(a) => Some(a@),
                None => None,
            },
        }
    }
}

/// The codec image of one sequence-change run.
pub open spec fn host_change_of(c: SeqChangeVal<AnyVal>) -> SeqChangeVal<HostVal> {
    match c {
        SeqChangeVal::Added(vs) => SeqChangeVal::Added(e2h_list(vs)),
        SeqChangeVal::Retained(k) => SeqChangeVal::Retained(k),
        SeqChangeVal::Removed(k) => SeqChangeVal::Removed(k),
    }
}

/// The payload image of one text item.
pub open spec fn text_payload_item_of(t: TextItemVal) -> TextDeltaItemVal {
    TextDeltaItemVal {
        value: match t.glyph {
            GlyphVal::Ch(c) => HostVal::Str(Seq::empty().push(c)),
            GlyphVal::Embed(a) => e2h(a),
        },
        attributes: if t.attrs.len() == 0 {
            None
        } else {
            Some(HostVal::Dict(e2h_dict(t.attrs)))
        },
    }
}

/// The payload image of one text-change run.
pub open spec fn text_change_of(c: SeqChangeVal<TextItemVal>) -> SeqChangeVal<TextDeltaItemVal> {
    match c {
        SeqChangeVal::Added(vs) => SeqChangeVal::Added(
            vs.map_values(|t: TextItemVal| text_payload_item_of(t)),
        ),
        SeqChangeVal::Retained(k) => SeqChangeVal::Retained(k),
        SeqChangeVal::Removed(k) => SeqChangeVal::Removed(k),
    }
}

/// One entry of a map change payload, with codec-converted values.
pub enum HashChangeHost {
    Inserted(HostValue),
    Updated(HostValue, HostValue),
    Removed(HostValue),
}

pub struct HashPayloadEntry {
    pub key: String,
    pub change: HashChangeHost,
}

/// The mathematical value of a [`HashChangeHost`].
pub enum HashChangeHostVal {
    Inserted(HostVal),
    Updated(HostVal, HostVal),
    Removed(HostVal),
}

impl View for HashChangeHost {
    type V = HashChangeHostVal;

    open spec fn view(&self) -> HashChangeHostVal {
        match self {
            HashChangeHost::Inserted(v) => HashChangeHostVal::Inserted(v@),
            HashChangeHost::Updated(o, n) => HashChangeHostVal::Updated(o@, n@),
            HashChangeHost::Removed(v) => HashChangeHostVal::Removed(v@),
        }
    }
}

/// The payload image of one map change.
pub open spec fn hash_change_of(c: HashChangeVal) -> HashChangeHostVal {
    match c {
        HashChangeVal::Inserted(v) => HashChangeHostVal::Inserted(e2h(v)),
        HashChangeVal::Updated(o, n) => HashChangeHostVal::Updated(e2h(o), e2h(n)),
        HashChangeVal::Removed(v) => HashChangeHostVal::Removed(e2h(v)),
    }
}

/// The change payload delivered to one observer: the transaction's delta
/// for the observed container, every value converted through the codec.
pub enum ChangePayload {
    Sequence(Vec<SeqChange<HostValue>>),
    Text(Vec<SeqChange<TextDeltaItem>>),
    Hash(Vec<HashPayloadEntry>),
    Update(Vec<u8>),
}

/// One observer delivery produced by a commit: which subscription fires,
/// the container it observes, and the payload.  The ghost fields carry
/// the engine-level delta and snapshot the payload was converted from, so
/// that the commit contract can state reconstruction exactly.
pub struct ObserverEvent {
    pub subscription: u64,
    pub kind: ContainerKind,
    pub root: String,
    pub payload: ChangePayload,
    pub origin: Ghost<int>,
}

/// Converts an array delta into its host payload.
#[verifier::loop_isolation(false)]
pub(crate) fn payload_for_arr(delta: &Vec<SeqChange<EngineAny>>) -> (r: Vec<SeqChange<HostValue>>)
    ensures
        delta_val(r@) == delta_val(delta@).map_values(|c: SeqChangeVal<AnyVal>| host_change_of(c)),
{
    let mut r: Vec<SeqChange<HostValue>> = Vec::new();
    let mut i: usize = 0;
    while i < delta.len()
        invariant
            i <= delta@.len(),
            r@.len() == i,
            forall|j: int|
                0 <= j < i ==> #[trigger] delta_val(r@)[j] == host_change_of(
                    delta_val(delta@)[j],
                ),
        decreases delta@.len() - i,
    {
        let e = match &delta[i] {
            SeqChange::Added(vs) => {
                let mut out: Vec<HostValue> = Vec::new();
                let mut k: usize = 0;
                while k < vs.len()
                    invariant
                        k <= vs@.len(),
                        out@.len() == k,
                        forall|l: int| 0 <= l < k ==> (#[trigger] out@[l])@ == e2h(vs@[l]@),
                    decreases vs@.len() - k,
                {
                    let y = engine_to_host(&vs[k]);
                    out.push(y);
                    k += 1;
                }
                proof {
                    lemma_e2h_list_char(vs@.map_values(|a: EngineAny| a@));
                    assert(out@.map_values(|h: HostValue| h@) =~= e2h_list(
                        vs@.map_values(|a: EngineAny| a@),
                    ));
                }
                SeqChange::Added(out)
            },
            SeqChange::Retained(k) => SeqChange::Retained(*k),
            SeqChange::Removed(k) => SeqChange::Removed(*k),
        };
        let ghost ev = crate::delta::change_val(e);
        let ghost prevr = r@;
        r.push(e);
        proof {
            assert(delta_val(r@)[i as int] == ev);
            assert(ev == host_change_of(delta_val(delta@)[i as int]));
            assert forall|j: int| 0 <= j < i implies #[trigger] delta_val(r@)[j]
                == host_change_of(delta_val(delta@)[j]) by {
                assert(r@[j] == prevr[j]);
                assert(delta_val(r@)[j] == crate::delta::change_val(r@[j]));
                assert(delta_val(prevr)[j] == crate::delta::change_val(prevr[j]));
            }
        }
        i += 1;
    }
    proof {
        assert(delta_val(r@) =~= delta_val(delta@).map_values(
            |c: SeqChangeVal<AnyVal>| host_change_of(c),
        ));
    }
    r
}

/// Converts one text item into its payload form.
#[verifier::loop_isolation(false)]
pub(crate) fn payload_text_item(t: &TextItem) -> (r: TextDeltaItem)
    ensures
        r@ == text_payload_item_of(t@),
{
    let value = match &t.glyph {
        Glyph::Ch(c) => {
            let s = crate::engine::char_to_string(*c);
            proof {
                assert(s@ =~= Seq::empty().push(*c));
            }
            HostValue::Str(s)
        },
        Glyph::Embed(a) => engine_to_host(a),
    };
    let attributes = if t.attrs.len() == 0 {
        None
    } else {
        let mut out: Vec<crate::yvalue::HostPair> = Vec::new();
        let ghost av = any_val_dict(t.attrs@);
        let mut k: usize = 0;
        proof {
            crate::engine_any::lemma_any_val_dict_len(t.attrs@);
        }
        while k < t.attrs.len()
            invariant
                k <= t.attrs@.len(),
                av == any_val_dict(t.attrs@),
                av.len() == t.attrs@.len(),
                crate::yvalue::host_val_pairs(out@) == e2h_dict(av.take(k as int)),
            decreases t.attrs@.len() - k,
        {
            proof {
                crate::engine_any::lemma_any_val_dict_index(t.attrs@, k as int);
            }
            let y = engine_to_host(&t.attrs[k].val);
            let ghost prev = out@;
            let ks = t.attrs[k].key.clone();
            out.push(crate::yvalue::HostPair { key: HostValue::Str(ks), val: y });
            proof {
                assert(out@.drop_last() =~= prev);
                assert(crate::yvalue::host_val_pairs(out@)
                    == crate::yvalue::host_val_pairs(prev).push(
                    (crate::yvalue::host_val(out@.last().key), crate::yvalue::host_val(
                        out@.last().val,
                    )),
                ));
                assert(av.take(k + 1 as int).drop_last() =~= av.take(k as int));
                assert(av.take(k + 1 as int).last() == av[k as int]);
            }
            k += 1;
        }
        proof {
            assert(av.take(t.attrs@.len() as int) =~= av);
        }
        Some(HostValue::Dict(out))
    };
    let r = TextDeltaItem { value, attributes };
    proof {
        assert(any_val_dict(t.attrs@).len() == t.attrs@.len()) by {
            crate::engine_any::lemma_any_val_dict_len(t.attrs@);
        }
    }
    r
}

/// Converts a text delta into its host payload.
#[verifier::loop_isolation(false)]
pub(crate) fn payload_for_text(delta: &Vec<SeqChange<TextItem>>) -> (r: Vec<
    SeqChange<TextDeltaItem>,
>)
    ensures
        delta_val(r@) == delta_val(delta@).map_values(
            |c: SeqChangeVal<TextItemVal>| text_change_of(c),
        ),
{
    let mut r: Vec<SeqChange<TextDeltaItem>> = Vec::new();
    let mut i: usize = 0;
    while i < delta.len()
        invariant
            i <= delta@.len(),
            r@.len() == i,
            forall|j: int|
                0 <= j < i ==> #[trigger] delta_val(r@)[j] == text_change_of(
                    delta_val(delta@)[j],
                ),
        decreases delta@.len() - i,
    {
        let e = match &delta[i] {
            SeqChange::Added(vs) => {
                let mut out: Vec<TextDeltaItem> = Vec::new();
                let mut k: usize = 0;
                while k < vs.len()
                    invariant
                        k <= vs@.len(),
                        out@.len() == k,
                        forall|l: int|
                            0 <= l < k ==> (#[trigger] out@[l])@ == text_payload_item_of(
                                vs@[l]@,
                            ),
                    decreases vs@.len() - k,
                {
                    let y = payload_text_item(&vs[k]);
                    out.push(y);
                    k += 1;
                }
                proof {
                    assert(out@.map_values(|h: TextDeltaItem| h@) =~= vs@.map_values(
                        |t: TextItem| t@,
                    ).map_values(|t: TextItemVal| text_payload_item_of(t)));
                }
                SeqChange::Added(out)
            },
            SeqChange::Retained(k) => SeqChange::Retained(*k),
            SeqChange::Removed(k) => SeqChange::Removed(*k),
        };
        let ghost ev = crate::delta::change_val(e);
        let ghost prevr = r@;
        r.push(e);
        proof {
            assert(delta_val(r@)[i as int] == ev);
            assert(ev == text_change_of(delta_val(delta@)[i as int]));
            assert forall|j: int| 0 <= j < i implies #[trigger] delta_val(r@)[j]
                == text_change_of(delta_val(delta@)[j]) by {
                assert(r@[j] == prevr[j]);
                assert(delta_val(r@)[j] == crate::delta::change_val(r@[j]));
                assert(delta_val(prevr)[j] == crate::delta::change_val(prevr[j]));
            }
        }
        i += 1;
    }
    proof {
        assert(delta_val(r@) =~= delta_val(delta@).map_values(
            |c: SeqChangeVal<TextItemVal>| text_change_of(c),
        ));
    }
    r
}

/// Converts a map delta into its host payload.
#[verifier::loop_isolation(false)]
pub(crate) fn payload_for_hash(delta: &Vec<HashDeltaEntry>) -> (r: Vec<HashPayloadEntry>)
    ensures
        r@.len() == delta@.len(),
        forall|j: int|
            0 <= j < delta@.len() ==> (#[trigger] r@[j]).key@ == delta@[j].key@ && r@[j].change@
                == hash_change_of(delta@[j].change@),
{
    let mut r: Vec<HashPayloadEntry> = Vec::new();
    let mut i: usize = 0;
    while i < delta.len()
        invariant
            i <= delta@.len(),
            r@.len() == i,
            forall|j: int|
                0 <= j < i ==> (#[trigger] r@[j]).key@ == delta@[j].key@ && r@[j].change@
                    == hash_change_of(delta@[j].change@),
        decreases delta@.len() - i,
    {
        let change = match &delta[i].change {
            HashChange::Inserted(v) => HashChangeHost::Inserted(engine_to_host(v)),
            HashChange::Updated(o, n) => HashChangeHost::Updated(
                engine_to_host(o),
                engine_to_host(n),
            ),
            HashChange::Removed(v) => HashChangeHost::Removed(engine_to_host(v)),
        };
        let kc = delta[i].key.clone();
        r.push(HashPayloadEntry { key: kc, change });
        i += 1;
    }
    r
}

/// Whether a sequence delta records an actual change (an addition or a
/// removal, not only retained runs).
pub open spec fn seq_delta_changes<V>(d: Seq<SeqChangeVal<V>>) -> bool {
    exists|i: int|
        0 <= i < d.len() && match #[trigger] d[i] {
            SeqChangeVal::Added(vs) => vs.len() > 0,
            SeqChangeVal::Retained(_) => false,
            SeqChangeVal::Removed(k) => k > 0,
        }
}

/// A delta that consumes and produces different lengths records an
/// actual change.
pub proof fn lemma_delta_len_change<V>(d: Seq<SeqChangeVal<V>>)
    requires
        crate::delta::delta_old_len(d) != crate::delta::delta_new_len(d),
    ensures
        seq_delta_changes(d),
    decreases d,
{
    let hit = match d.first() {
        SeqChangeVal::Added(vs) => vs.len() > 0,
        SeqChangeVal::Retained(_) => false,
        SeqChangeVal::Removed(k) => k > 0,
    };
    if hit {
        assert(seq_delta_changes(d)) by {
            assert(0 <= 0 < d.len());
        }
    } else {
        assert(crate::delta::change_old_len(d.first()) == crate::delta::change_new_len(d.first()));
        lemma_delta_len_change(d.drop_first());
        let i = choose|i: int|
            0 <= i < d.drop_first().len() && match #[trigger] d.drop_first()[i] {
                SeqChangeVal::Added(vs) => vs.len() > 0,
                SeqChangeVal::Retained(_) => false,
                SeqChangeVal::Removed(k) => k > 0,
            };
        assert(d[i + 1] == d.drop_first()[i]);
    }
}

/// Delivery is owed for a container whose recorded transaction-start
/// snapshot and current contents differ in length (or, for a map, whose
/// recorded delta is non-empty): the record then counts as changed, so
/// [`YTransaction::ytransaction_commit`] fires every active observer of
/// that container.
pub proof fn lemma_pending_length_change(doc: &YDoc, kind: ContainerKind, root: Seq<char>)
    requires
        doc.wf(),
        doc.has_pending(kind, root),
        match doc.pending_rec(kind, root).data {
            PendingData::Arr { snapshot, delta } => snapshot@.len() != doc.array_items(root).len(),
            PendingData::Txt { snapshot, delta } => snapshot@.len() != doc.text_items(root).len(),
            PendingData::Dict { snapshot, delta } => delta@.len() > 0,
        },
    ensures
        pending_changed(doc.pending_rec(kind, root).data),
{
    crate::ydoc::lemma_unique_pending_index(doc, kind, root);
    let i = doc.pending_index_of(kind, root);
    assert(doc.pending_entry_ok(&doc.pending@[i]));
    match doc.pending_rec(kind, root).data {
        PendingData::Arr { snapshot, delta } => {
            assert(crate::delta::delta_old_len(delta_val(delta@)) == snapshot@.len());
            assert(crate::delta::delta_new_len(delta_val(delta@)) == doc.array_items(root).len());
            lemma_delta_len_change(delta_val(delta@));
        },
        PendingData::Txt { snapshot, delta } => {
            assert(crate::delta::delta_old_len(delta_val(delta@)) == snapshot@.len());
            assert(crate::delta::delta_new_len(delta_val(delta@)) == doc.text_items(root).len());
            lemma_delta_len_change(delta_val(delta@));
        },
        PendingData::Dict { snapshot, delta } => {},
    }
}

/// The executable test for [`seq_delta_changes`].
fn seq_delta_changed<T: View>(d: &Vec<SeqChange<T>>) -> (r: bool)
    ensures
        r == seq_delta_changes(delta_val(d@)),
{
    let mut i: usize = 0;
    while i < d.len()
        invariant
            i <= d@.len(),
            forall|j: int|
                0 <= j < i ==> match #[trigger] delta_val(d@)[j] {
                    SeqChangeVal::Added(vs) => vs.len() == 0,
                    SeqChangeVal::Retained(_) => true,
                    SeqChangeVal::Removed(k) => k == 0,
                },
        decreases d@.len() - i,
    {
        let hit = match &d[i] {
            SeqChange::Added(vs) => vs.len() > 0,
            SeqChange::Retained(_) => false,
            SeqChange::Removed(k) => *k > 0,
        };
        if hit {
            proof {
                assert(match delta_val(d@)[i as int] {
                    SeqChangeVal::Added(vs) => vs.len() > 0,
                    SeqChangeVal::Retained(_) => false,
                    SeqChangeVal::Removed(k) => k > 0,
                });
            }
            return true;
        }
        i += 1;
    }
    false
}

/// One chunk of a rendering summary: an inserted value (a one-character
/// string or an embedded payload) and the formatting attributes on it.
pub struct YDiff {
    pub insert: HostValue,
    pub attrs: Option<HostValue>,
}

impl YDiff {
    /// The chunk's content.
    pub fn ydiff_insert(&self) -> (r: &HostValue)
        ensures
            r == &self.insert,
    {
        &self.insert
    }

    /// The chunk's formatting attributes, if any.
    pub fn ydiff_attrs(&self) -> (r: &Option<HostValue>)
        ensures
            r == &self.attrs,
    {
        &self.attrs
    }
}

impl YText {
    /// A content-and-formatting summary of the text for rendering: one
    /// chunk per position unit, in order, each carrying its value and
    /// formatting attributes, all converted through the codec.
    #[verifier::loop_isolation(false)]
    pub fn ytext_diff(&self, doc: &YDoc, tx: &YTransaction) -> (r: Result<Vec<YDiff>, BridgeError>)
        requires
            doc.wf(),
        ensures
            !doc.tx_live(*tx) ==> r is Err && r->Err_0 is TransactionState,
            r is Ok <==> doc.tx_live(*tx) && doc.has_text(self.name@),
            r is Ok ==> r->Ok_0@.len() == doc.text_items(self.name@).len(),
            r is Ok ==> forall|k: int|
                0 <= k < r->Ok_0@.len() ==> {
                    let img = text_payload_item_of(doc.text_items(self.name@)[k]);
                    (#[trigger] r->Ok_0@[k]).insert@ == img.value && (match (
                    r->Ok_0@[k].attrs, img.attributes) {
                        (Some(a), Some(b)) => a@ == b,
                        (None, None) => true,
                        _ => false,
                    })
                },
    {
        let live = match doc.open_tx {
            Some(id) => id == tx.id,
            None => false,
        };
        if !live {
            return Err(BridgeError::TransactionState(String::from_str(
                "the transaction handle is no longer valid",
            )));
        }
        let i = match doc.find_text(&self.name) {
            Some(i) => i,
            None => {
                return Err(BridgeError::Conversion(String::from_str(
                    "unknown text container",
                )));
            },
        };
        proof {
            crate::ydoc::lemma_unique_text_index(doc, self.name@);
            assert(doc.text_index_of(self.name@) == i);
        }
        let items = &doc.texts[i].items;
        let mut out: Vec<YDiff> = Vec::new();
        let mut k: usize = 0;
        while k < items.len()
            invariant
                k <= items@.len(),
                out@.len() == k,
                forall|l: int|
                    0 <= l < k ==> {
                        let img = text_payload_item_of(doc.text_items(self.name@)[l]);
                        (#[trigger] out@[l]).insert@ == img.value && (match (
                        out@[l].attrs, img.attributes) {
                            (Some(a), Some(b)) => a@ == b,
                            (None, None) => true,
                            _ => false,
                        })
                    },
            decreases items@.len() - k,
        {
            let item = payload_text_item(&items[k]);
            proof {
                assert(doc.text_items(self.name@)[k as int] == items@[k as int]@);
            }
            out.push(YDiff { insert: item.value, attrs: item.attributes });
            k += 1;
        }
        Ok(out)
    }
}

/// The position of the subscription with identifier `id` in the
/// registration order.
pub open spec fn sub_pos(subs: Seq<Subscription>, id: u64) -> int {
    choose|i: int| 0 <= i < subs.len() && subs[i].id == id
}

pub proof fn lemma_sub_pos(subs: Seq<Subscription>, i: int)
    requires
        0 <= i < subs.len(),
        forall|a: int, b: int| 0 <= a < b < subs.len() ==> subs[a].id != subs[b].id,
    ensures
        sub_pos(subs, subs[i].id) == i,
{
    let j = choose|j: int| 0 <= j < subs.len() && subs[j].id == subs[i].id;
    if j != i {
        if j < i {
            assert(subs[j].id != subs[i].id);
        } else {
            assert(subs[i].id != subs[j].id);
        }
    }
}

/// Whether one pending record holds an actual change.
pub open spec fn pending_changed(data: PendingData) -> bool {
    match data {
        PendingData::Arr { snapshot, delta } => seq_delta_changes(delta_val(delta@)),
        PendingData::Txt { snapshot, delta } => seq_delta_changes(delta_val(delta@)),
        PendingData::Dict { snapshot, delta } => delta@.len() > 0,
    }
}

/// Whether the subscription at `si` observes a container this
/// transaction changed, and so is owed an event at commit.
pub open spec fn sub_must_fire(doc0: YDoc, si: int) -> bool {
    &&& doc0.subs@[si].active
    &&& exists|j: int|
        0 <= j < doc0.pending@.len() && (#[trigger] doc0.pending@[j]).target.kind == doc0.subs@[
            si
        ].target.kind && doc0.pending@[j].target.root@ == doc0.subs@[si].target.root@
            && pending_changed(doc0.pending@[j].data)
}

/// Whether the delivered events include one for the subscription at `si`.
pub open spec fn sub_fired(events: Seq<ObserverEvent>, doc0: YDoc, si: int) -> bool {
    exists|k: int|
        0 <= k < events.len() && (#[trigger] events[k]).subscription == doc0.subs@[si].id
}

/// What one delivered observer event means, against the document as it
/// stood at commit time: the event names an active subscription and the
/// pending record of its container, and its payload is the codec image
/// of that record's delta — a delta that rewrites the recorded snapshot
/// into the container's contents at commit.
pub open spec fn valid_event(ev: ObserverEvent, doc0: YDoc) -> bool {
    let o = ev.origin@;
    &&& 0 <= o < doc0.pending@.len()
    &&& doc0.pending@[o].target.kind == ev.kind
    &&& doc0.pending@[o].target.root@ == ev.root@
    &&& pending_changed(doc0.pending@[o].data)
    &&& exists|si: int|
        0 <= si < doc0.subs@.len() && (#[trigger] doc0.subs@[si]).id == ev.subscription
            && doc0.subs@[si].active && doc0.subs@[si].target.kind == ev.kind
            && doc0.subs@[si].target.root@ == ev.root@
    &&& match doc0.pending@[o].data {
        PendingData::Arr { snapshot, delta } => {
            &&& ev.payload matches ChangePayload::Sequence(p) && delta_val(p@) == delta_val(
                delta@,
            ).map_values(|c: SeqChangeVal<AnyVal>| host_change_of(c))
            &&& crate::delta::delta_old_len(delta_val(delta@)) == snapshot@.len()
            &&& delta_apply(
                delta_val(delta@),
                snapshot@.map_values(|a: EngineAny| a@),
            ) == doc0.array_items(ev.root@)
        },
        PendingData::Txt { snapshot, delta } => {
            &&& ev.payload matches ChangePayload::Text(p) && delta_val(p@) == delta_val(
                delta@,
            ).map_values(|c: SeqChangeVal<TextItemVal>| text_change_of(c))
            &&& crate::delta::delta_old_len(delta_val(delta@)) == snapshot@.len()
            &&& delta_apply(
                delta_val(delta@),
                snapshot@.map_values(|t: TextItem| t@),
            ) == doc0.text_items(ev.root@)
        },
        PendingData::Dict { snapshot, delta } => {
            &&& ev.payload matches ChangePayload::Hash(p) && p@.len() == delta@.len() && (
            forall|j: int|
                0 <= j < delta@.len() ==> (#[trigger] p@[j]).key@ == delta@[j].key@
                    && p@[j].change@ == hash_change_of(delta@[j].change@))
            &&& crate::ydoc::hash_delta_ok(
                any_val_dict(snapshot@),
                crate::ydoc::hash_delta_val(delta@),
                doc0.hash_entries(ev.root@),
            )
        },
    }
}

/// Builds the update-observer deliveries of one commit: one event per
/// active document-update observer, each carrying the committed
/// transaction's v1-encoded binary update, appended after the container
/// events.  Nothing is delivered when the recorded transaction-start
/// state vector does not decode.
#[verifier::loop_isolation(false)]
fn deliver_update_events(doc: &YDoc, events: &mut Vec<ObserverEvent>)
    requires
        doc.wf(),
    ensures
        final(events)@.len() >= old(events)@.len(),
        forall|k: int|
            0 <= k < old(events)@.len() ==> #[trigger] final(events)@[k] == old(events)@[k],
        forall|k: int|
            old(events)@.len() <= k < final(events)@.len() ==> (#[trigger] final(events)@[
                k
            ]).payload is Update && exists|u: int|
                0 <= u < doc.update_subs@.len() && (#[trigger] doc.update_subs@[u]).active
                    && doc.update_subs@[u].id == final(events)@[k].subscription,
        forall|k1: int, k2: int|
            old(events)@.len() <= k1 < k2 < final(events)@.len() ==> (#[trigger] final(events)@[
                k1
            ]).subscription != (#[trigger] final(events)@[k2]).subscription,
        sv_decodes(doc.tx_start_state@) ==> forall|u: int|
            0 <= u < doc.update_subs@.len() && (#[trigger] doc.update_subs@[u]).active ==> exists|
                k: int,
            |
                old(events)@.len() <= k < final(events)@.len() && (#[trigger] final(events)@[
                    k
                ]).payload is Update && final(events)@[k].subscription == doc.update_subs@[u].id,
{
    let ghost prev_events = old(events)@;
    let mut has_update_sub = false;
    let mut ui: usize = 0;
    while ui < doc.update_subs.len()
        invariant
            ui <= doc.update_subs@.len(),
            events@ == prev_events,
            !has_update_sub ==> forall|u: int|
                0 <= u < ui ==> !(#[trigger] doc.update_subs@[u]).active,
        decreases doc.update_subs@.len() - ui,
    {
        if doc.update_subs[ui].active {
            has_update_sub = true;
        }
        ui += 1;
    }
    if !has_update_sub {
        return ;
    }
    let bytes = crate::engine::engine_encode_diff(&doc.engine, &doc.tx_start_state);
    let b = match bytes {
        Some(b) => b,
        None => {
            return ;
        },
    };
    let mut ui2: usize = 0;
    while ui2 < doc.update_subs.len()
        invariant
            doc.wf(),
            ui2 <= doc.update_subs@.len(),
            events@.len() >= prev_events.len(),
            forall|k: int| 0 <= k < prev_events.len() ==> #[trigger] events@[k] == prev_events[k],
            forall|k: int|
                prev_events.len() <= k < events@.len() ==> (#[trigger] events@[k]).payload
                    is Update && exists|u: int|
                    0 <= u < ui2 && (#[trigger] doc.update_subs@[u]).active && doc.update_subs@[
                        u
                    ].id == events@[k].subscription,
            forall|u: int|
                0 <= u < ui2 && (#[trigger] doc.update_subs@[u]).active ==> exists|k: int|
                    prev_events.len() <= k < events@.len() && (#[trigger] events@[k]).payload
                        is Update && events@[k].subscription == doc.update_subs@[u].id,
            forall|k1: int, k2: int|
                prev_events.len() <= k1 < k2 < events@.len() ==> (#[trigger] events@[
                    k1
                ]).subscription != (#[trigger] events@[k2]).subscription,
        decreases doc.update_subs@.len() - ui2,
    {
        let ghost events_before_push = events@;
        if doc.update_subs[ui2].active {
            let mut copy: Vec<u8> = Vec::new();
            let mut bi: usize = 0;
            while bi < b.len()
                invariant
                    copy@.len() == bi,
                    bi <= b@.len(),
                decreases b@.len() - bi,
            {
                copy.push(b[bi]);
                bi += 1;
            }
            events.push(
                ObserverEvent {
                    subscription: doc.update_subs[ui2].id,
                    kind: ContainerKind::Array,
                    root: String::new(),
                    payload: ChangePayload::Update(copy),
                    origin: Ghost(0),
                },
            );
            proof {
                assert(events@.last().subscription == doc.update_subs@[ui2 as int].id);
                assert forall|k1: int, k2: int|
                    prev_events.len() <= k1 < k2 < events@.len() implies (#[trigger] events@[
                    k1]).subscription != (#[trigger] events@[k2]).subscription by {
                    if k2 == events@.len() - 1 {
                        assert(events@[k1] == events_before_push[k1]);
                        let u = choose|u: int|
                            0 <= u < ui2 && (#[trigger] doc.update_subs@[u]).active
                                && doc.update_subs@[u].id == events_before_push[k1].subscription;
                        assert(doc.update_subs@[u].id != doc.update_subs@[ui2 as int].id);
                    } else {
                        assert(events@[k1] == events_before_push[k1]);
                        assert(events@[k2] == events_before_push[k2]);
                    }
                }
                assert forall|u: int|
                    0 <= u < ui2 + 1 && (#[trigger] doc.update_subs@[u]).active implies exists|
                        k: int,
                    |
                        prev_events.len() <= k < events@.len() && (#[trigger] events@[k]).payload
                            is Update && events@[k].subscription == doc.update_subs@[u].id by {
                    if u < ui2 {
                        let k = choose|k: int|
                            prev_events.len() <= k < events_before_push.len() && (
                            #[trigger] events_before_push[k]).payload is Update
                                && events_before_push[k].subscription == doc.update_subs@[u].id;
                        assert(events@[k] == events_before_push[k]);
                    } else {
                        assert(events@[events@.len() - 1].payload is Update);
                    }
                }
            }
        }
        ui2 += 1;
    }
}

impl YTransaction {
    /// Commits the transaction: delivers one event per active observer of
    /// each container the transaction changed, in subscription
    /// registration order, and disposes of the handle.  The contents are
    /// already in place (the engine applies mutations eagerly); commit is
    /// where observers fire.
    #[verifier::loop_isolation(false)]
    #[verifier::rlimit(100)]
    pub fn ytransaction_commit(&self, doc: &mut YDoc) -> (r: Result<
        Vec<ObserverEvent>,
        BridgeError,
    >)
        requires
            old(doc).wf(),
        ensures
            final(doc).wf(),
            r is Ok <==> old(doc).tx_live(*self),
            r is Err ==> *final(doc) == *old(doc) && r->Err_0 is TransactionState,
            r is Ok ==> !final(doc).tx_live(*self) && final(doc).open_tx is None,
            final(doc).arrays@ == old(doc).arrays@,
            final(doc).hashes@ == old(doc).hashes@,
            final(doc).texts@ == old(doc).texts@,
            final(doc).subs@ == old(doc).subs@,
            final(doc).update_subs@ == old(doc).update_subs@,
            final(doc).client_id == old(doc).client_id,
            r is Ok ==> forall|k: int|
                0 <= k < r->Ok_0@.len() && !((#[trigger] r->Ok_0@[k]).payload is Update)
                    ==> valid_event(r->Ok_0@[k], *old(doc)),
            r is Ok ==> forall|k1: int, k2: int|
                0 <= k1 < k2 < r->Ok_0@.len() && !(r->Ok_0@[k1].payload is Update) && !(r->Ok_0@[
                    k2
                ].payload is Update) ==> sub_pos(old(doc).subs@, r->Ok_0@[k1].subscription)
                    < sub_pos(old(doc).subs@, r->Ok_0@[k2].subscription),
            r is Ok ==> forall|si: int|
                0 <= si < old(doc).subs@.len() && sub_must_fire(*old(doc), si) ==> sub_fired(
                    r->Ok_0@,
                    *old(doc),
                    si,
                ),
            r is Ok && sv_decodes(old(doc).tx_start_state@) ==> forall|ui: int|
                0 <= ui < old(doc).update_subs@.len() && (#[trigger] old(doc).update_subs@[
                    ui
                ]).active ==> exists|k: int|
                    0 <= k < r->Ok_0@.len() && (#[trigger] r->Ok_0@[k]).payload is Update
                        && r->Ok_0@[k].subscription == old(doc).update_subs@[ui].id,
            r is Ok ==> forall|k: int|
                0 <= k < r->Ok_0@.len() && (#[trigger] r->Ok_0@[k]).payload is Update ==> exists|
                    ui: int,
                |
                    0 <= ui < old(doc).update_subs@.len() && (#[trigger] old(doc).update_subs@[
                        ui
                    ]).active && old(doc).update_subs@[ui].id == r->Ok_0@[k].subscription,
            r is Ok ==> forall|k1: int, k2: int|
                0 <= k1 < k2 < r->Ok_0@.len() && (#[trigger] r->Ok_0@[k1]).payload is Update && (
                #[trigger] r->Ok_0@[k2]).payload is Update ==> r->Ok_0@[k1].subscription
                    != r->Ok_0@[k2].subscription,
    {
        let live = match doc.open_tx {
            Some(id) => id == self.id,
            None => false,
        };
        if !live {
            return Err(BridgeError::TransactionState(String::from_str(
                "the transaction handle is no longer valid",
            )));
        }
        let ghost doc0 = *old(doc);
        let mut events: Vec<ObserverEvent> = Vec::new();
        let mut si: usize = 0;
        while si < doc.subs.len()
            invariant
                si <= doc.subs@.len(),
                *doc == doc0,
                forall|k: int|
                    0 <= k < events@.len() ==> valid_event(#[trigger] events@[k], doc0) && !(
                    events@[k].payload is Update),
                forall|k: int|
                    0 <= k < events@.len() ==> sub_pos(doc0.subs@, (#[trigger] events@[k]).subscription) < si,
                forall|k1: int, k2: int|
                    0 <= k1 < k2 < events@.len() ==> sub_pos(
                        doc0.subs@,
                        events@[k1].subscription,
                    ) < sub_pos(doc0.subs@, events@[k2].subscription),
                forall|s2: int|
                    0 <= s2 < si && sub_must_fire(doc0, s2) ==> sub_fired(events@, doc0, s2),
            decreases doc.subs@.len() - si,
        {
            let ghost events_before = events@;
            if doc.subs[si].active {
                let kind = doc.subs[si].target.kind;
                match doc.pending_find(kind, &doc.subs[si].target.root) {
                    Some(j) => {
                        let changed = match &doc.pending[j].data {
                            PendingData::Arr { snapshot, delta } => seq_delta_changed(delta),
                            PendingData::Txt { snapshot, delta } => seq_delta_changed(delta),
                            PendingData::Dict { snapshot, delta } => delta.len() > 0,
                        };
                        proof {
                            if !changed {
                                assert forall|j2: int|
                                    0 <= j2 < doc0.pending@.len() && (#[trigger] doc0.pending@[
                                        j2
                                    ]).target.kind == doc0.subs@[si as int].target.kind
                                        && doc0.pending@[j2].target.root@ == doc0.subs@[
                                        si as int
                                    ].target.root@ implies !pending_changed(
                                    doc0.pending@[j2].data,
                                ) by {
                                    if j2 != j {
                                        if j2 < j {
                                            assert(!(doc0.pending@[j2].target.kind
                                                == doc0.pending@[j as int].target.kind
                                                && doc0.pending@[j2].target.root@
                                                == doc0.pending@[j as int].target.root@));
                                        } else {
                                            assert(!(doc0.pending@[j as int].target.kind
                                                == doc0.pending@[j2].target.kind
                                                && doc0.pending@[j as int].target.root@
                                                == doc0.pending@[j2].target.root@));
                                        }
                                    }
                                }
                                assert(!sub_must_fire(doc0, si as int));
                            }
                        }
                        if changed {
                            let payload = match &doc.pending[j].data {
                                PendingData::Arr { snapshot, delta } => ChangePayload::Sequence(
                                    payload_for_arr(delta),
                                ),
                                PendingData::Txt { snapshot, delta } => ChangePayload::Text(
                                    payload_for_text(delta),
                                ),
                                PendingData::Dict { snapshot, delta } => ChangePayload::Hash(
                                    payload_for_hash(delta),
                                ),
                            };
                            let root = doc.pending[j].target.root.clone();
                            let ev = ObserverEvent {
                                subscription: doc.subs[si].id,
                                kind,
                                root,
                                payload,
                                origin: Ghost(j as int),
                            };
                            proof {
                                assert(doc0.pending_entry_ok(&doc0.pending@[j as int]));
                                lemma_sub_pos(doc0.subs@, si as int);
                                assert(valid_event(ev, doc0));
                            }
                            let ghost prev_events = events@;
                            events.push(ev);
                            proof {
                                assert forall|k: int| 0 <= k < events@.len() implies valid_event(
                                    #[trigger] events@[k],
                                    doc0,
                                ) && !(events@[k].payload is Update) by {
                                    if k < prev_events.len() {
                                        assert(events@[k] == prev_events[k]);
                                    }
                                }
                                assert(events@[events@.len() - 1].subscription == doc0.subs@[
                                    si as int
                                ].id);
                                assert(sub_fired(events@, doc0, si as int));
                            }
                        }
                    },
                    None => {
                        proof {
                            assert(!sub_must_fire(doc0, si as int));
                        }
                    },
                }
            } else {
                proof {
                    assert(!sub_must_fire(doc0, si as int));
                }
            }
            proof {
                assert forall|s2: int|
                    0 <= s2 < si as int + 1 && sub_must_fire(doc0, s2) implies sub_fired(
                    events@,
                    doc0,
                    s2,
                ) by {
                    if s2 < si as int {
                        let k = choose|k: int|
                            0 <= k < events_before.len() && (#[trigger] events_before[
                                k
                            ]).subscription == doc0.subs@[s2].id;
                        assert(events@[k] == events_before[k]);
                        assert(sub_fired(events@, doc0, s2));
                    }
                }
            }
            si += 1;
        }
        let ghost events_mid = events@;
        // Deliver the committed transaction's binary update to the
        // document-update observers, if any are registered.
        deliver_update_events(doc, &mut events);
        proof {
            assert forall|k: int|
                0 <= k < events@.len() && (#[trigger] events@[k]).payload is Update implies exists|
                    u: int,
                |
                    0 <= u < doc0.update_subs@.len() && (#[trigger] doc0.update_subs@[u]).active
                        && doc0.update_subs@[u].id == events@[k].subscription by {
                assert(k >= events_mid.len());
            }
            assert forall|k1: int, k2: int|
                0 <= k1 < k2 < events@.len() && (#[trigger] events@[k1]).payload is Update && (
                #[trigger] events@[k2]).payload is Update implies events@[k1].subscription
                    != events@[k2].subscription by {
                assert(k1 >= events_mid.len());
            }
        }
        doc.open_tx = None;
        doc.pending = Vec::new();
        proof {
            assert(doc.wf());
            assert forall|si: int|
                0 <= si < doc0.subs@.len() && sub_must_fire(doc0, si) implies sub_fired(
                events@,
                doc0,
                si,
            ) by {
                assert(sub_fired(events_mid, doc0, si));
                let k = choose|k: int|
                    0 <= k < events_mid.len() && (#[trigger] events_mid[k]).subscription
                        == doc0.subs@[si].id;
                assert(events@[k] == events_mid[k]);
            }
        }
        Ok(events)
    }
}

impl YDoc {
    /// Rebuilds the verified model from the engine replica: every known
    /// root container is re-read, root containers a remote update created
    /// are adopted (unless their name is taken by a container of another
    /// kind, in which case the local container stands), and the open
    /// transaction's recorded deltas are folded into fresh snapshots, so
    /// that observer payloads describe changes relative to the merged
    /// state.
    #[verifier::loop_isolation(false)]
    #[verifier::rlimit(100)]
    #[verifier::spinoff_prover]
    pub(crate) fn resync_from_engine(&mut self)
        requires
            old(self).names_ok(),
            old(self).subs_ok(),
            old(self).client_id <= crate::ydoc::CLIENT_ID_MASK,
            old(self).open_tx is None ==> old(self).pending@.len() == 0,
            old(self).open_tx is Some ==> old(self).open_tx->Some_0 < old(self).tx_counter,
            forall|i: int|
                0 <= i < old(self).arrays@.len() ==> engine_roots(old(self).engine).contains_key(
                    #[trigger] old(self).arrays@[i].name@,
                ),
            forall|i: int|
                0 <= i < old(self).texts@.len() ==> engine_roots(old(self).engine).contains_key(
                    #[trigger] old(self).texts@[i].name@,
                ),
            forall|i: int|
                0 <= i < old(self).pending@.len() ==> match (#[trigger] old(self).pending@[
                    i
                ]).data {
                    PendingData::Arr { snapshot, delta } => old(self).pending@[i].target.kind
                        is Array && old(self).has_array(old(self).pending@[i].target.root@),
                    PendingData::Txt { snapshot, delta } => old(self).pending@[i].target.kind
                        is Text && old(self).has_text(old(self).pending@[i].target.root@),
                    PendingData::Dict { snapshot, delta } => old(self).pending@[i].target.kind
                        is Hash && old(self).has_hash(old(self).pending@[i].target.root@),
                },
            forall|i: int, j: int|
                0 <= i < j < old(self).pending@.len() ==> !(old(self).pending@[i].target.kind
                    == old(self).pending@[j].target.kind && old(self).pending@[i].target.root@
                    == old(self).pending@[j].target.root@),
        ensures
            final(self).wf(),
            final(self).subs@ == old(self).subs@,
            final(self).update_subs@ == old(self).update_subs@,
            final(self).sub_counter == old(self).sub_counter,
            final(self).open_tx == old(self).open_tx,
            final(self).tx_counter == old(self).tx_counter,
            final(self).client_id == old(self).client_id,
            forall|n: Seq<char>| old(self).has_array(n) ==> final(self).has_array(n),
            forall|n: Seq<char>| old(self).has_hash(n) ==> final(self).has_hash(n),
            forall|n: Seq<char>| old(self).has_text(n) ==> final(self).has_text(n),
    {
        let ghost doc0 = *old(self);
        // Re-read every known array root.
        let mut i: usize = 0;
        while i < self.arrays.len()
            invariant
                i <= self.arrays@.len(),
                self.arrays@.len() == doc0.arrays@.len(),
                self.hashes@ == doc0.hashes@,
                self.texts@ == doc0.texts@,
                self.subs@ == doc0.subs@,
                self.update_subs@ == doc0.update_subs@,
                self.sub_counter == doc0.sub_counter,
                self.open_tx == doc0.open_tx,
                self.tx_counter == doc0.tx_counter,
                self.tx_start_state@ == doc0.tx_start_state@,
                self.client_id == doc0.client_id,
                self.pending@ == doc0.pending@,
                self.engine == doc0.engine,
                forall|j: int|
                    0 <= j < self.arrays@.len() ==> (#[trigger] self.arrays@[j]).name@
                        == doc0.arrays@[j].name@,
                forall|j: int|
                    0 <= j < i ==> {
                        &&& (#[trigger] self.arrays@[j]).items@.len() <= engine_roots(
                            self.engine,
                        )[self.arrays@[j].name@]
                        &&& self.arrays@[j].items@.len() <= u32::MAX as nat
                    },
            decreases self.arrays@.len() - i,
        {
            let name = self.arrays[i].name.clone();
            let mut items = engine_array_get_all(&self.engine, name.as_str());
            if items.len() > u32::MAX as usize {
                items.truncate(u32::MAX as usize);
            }
            self.arrays.set(i, crate::ydoc::ArrayRoot { name, items });
            i += 1;
        }
        // Re-read every known text root: the characters come back; the
        // formatting attributes and embedded payloads of a remote replica
        // do not cross the trusted boundary.
        let mut t: usize = 0;
        while t < self.texts.len()
            invariant
                t <= self.texts@.len(),
                self.texts@.len() == doc0.texts@.len(),
                self.hashes@ == doc0.hashes@,
                self.subs@ == doc0.subs@,
                self.update_subs@ == doc0.update_subs@,
                self.sub_counter == doc0.sub_counter,
                self.open_tx == doc0.open_tx,
                self.tx_counter == doc0.tx_counter,
                self.tx_start_state@ == doc0.tx_start_state@,
                self.client_id == doc0.client_id,
                self.pending@ == doc0.pending@,
                self.engine == doc0.engine,
                self.arrays@.len() == doc0.arrays@.len(),
                forall|j: int|
                    0 <= j < self.arrays@.len() ==> (#[trigger] self.arrays@[j]).name@
                        == doc0.arrays@[j].name@ && self.arrays@[j].items@.len()
                        <= engine_roots(self.engine)[self.arrays@[j].name@]
                        && self.arrays@[j].items@.len() <= u32::MAX as nat,
                forall|j: int|
                    0 <= j < self.texts@.len() ==> (#[trigger] self.texts@[j]).name@
                        == doc0.texts@[j].name@,
                forall|j: int|
                    0 <= j < t ==> {
                        &&& (#[trigger] self.texts@[j]).items@.len() <= engine_roots(
                            self.engine,
                        )[self.texts@[j].name@]
                        &&& self.texts@[j].items@.len() <= u32::MAX as nat
                    },
            decreases self.texts@.len() - t,
        {
            let name = self.texts[t].name.clone();
            let mut units = engine_array_get_all(&self.engine, name.as_str());
            if units.len() > u32::MAX as usize {
                units.truncate(u32::MAX as usize);
            }
            let items = crate::ytext::units_to_items(&units);
            self.texts.set(t, crate::ydoc::TextRoot { name, items });
            t += 1;
        }
        // Re-read every known map root.
        let mut h: usize = 0;
        while h < self.hashes.len()
            invariant
                h <= self.hashes@.len(),
                self.hashes@.len() == doc0.hashes@.len(),
                self.subs@ == doc0.subs@,
                self.update_subs@ == doc0.update_subs@,
                self.sub_counter == doc0.sub_counter,
                self.open_tx == doc0.open_tx,
                self.tx_counter == doc0.tx_counter,
                self.tx_start_state@ == doc0.tx_start_state@,
                self.client_id == doc0.client_id,
                self.pending@ == doc0.pending@,
                self.engine == doc0.engine,
                self.arrays@.len() == doc0.arrays@.len(),
                self.texts@.len() == doc0.texts@.len(),
                forall|j: int|
                    0 <= j < self.arrays@.len() ==> (#[trigger] self.arrays@[j]).name@
                        == doc0.arrays@[j].name@ && self.arrays@[j].items@.len()
                        <= engine_roots(self.engine)[self.arrays@[j].name@]
                        && self.arrays@[j].items@.len() <= u32::MAX as nat,
                forall|j: int|
                    0 <= j < self.texts@.len() ==> (#[trigger] self.texts@[j]).name@
                        == doc0.texts@[j].name@ && self.texts@[j].items@.len() <= engine_roots(
                        self.engine,
                    )[self.texts@[j].name@] && self.texts@[j].items@.len() <= u32::MAX as nat,
                forall|j: int|
                    0 <= j < self.hashes@.len() ==> (#[trigger] self.hashes@[j]).name@
                        == doc0.hashes@[j].name@,
                forall|j: int, a: int, b: int|
                    0 <= j < h && 0 <= a < b < self.hashes@[j].entries@.len()
                        ==> (#[trigger] self.hashes@[j].entries@[a]).key@
                        != (#[trigger] self.hashes@[j].entries@[b]).key@,
            decreases self.hashes@.len() - h,
        {
            let name = self.hashes[h].name.clone();
            let entries = engine_map_get_all(&self.engine, name.as_str());
            self.hashes.set(h, crate::ydoc::HashRoot { name, entries });
            h += 1;
        }
        // Fold the open transaction's records into fresh snapshots.
        let mut p: usize = 0;
        while p < self.pending.len()
            invariant
                p <= self.pending@.len(),
                self.pending@.len() == doc0.pending@.len(),
                self.subs@ == doc0.subs@,
                self.update_subs@ == doc0.update_subs@,
                self.sub_counter == doc0.sub_counter,
                self.open_tx == doc0.open_tx,
                self.tx_counter == doc0.tx_counter,
                self.tx_start_state@ == doc0.tx_start_state@,
                self.client_id == doc0.client_id,
                self.engine == doc0.engine,
                self.arrays@.len() == doc0.arrays@.len(),
                self.texts@.len() == doc0.texts@.len(),
                self.hashes@.len() == doc0.hashes@.len(),
                forall|j: int|
                    0 <= j < self.arrays@.len() ==> (#[trigger] self.arrays@[j]).name@
                        == doc0.arrays@[j].name@ && self.arrays@[j].items@.len()
                        <= engine_roots(self.engine)[self.arrays@[j].name@]
                        && self.arrays@[j].items@.len() <= u32::MAX as nat,
                forall|j: int|
                    0 <= j < self.texts@.len() ==> (#[trigger] self.texts@[j]).name@
                        == doc0.texts@[j].name@ && self.texts@[j].items@.len() <= engine_roots(
                        self.engine,
                    )[self.texts@[j].name@] && self.texts@[j].items@.len() <= u32::MAX as nat,
                forall|j: int|
                    0 <= j < self.hashes@.len() ==> (#[trigger] self.hashes@[j]).name@
                        == doc0.hashes@[j].name@,
                forall|j: int, a: int, b: int|
                    0 <= j < self.hashes@.len() && 0 <= a < b < self.hashes@[j].entries@.len()
                        ==> (#[trigger] self.hashes@[j].entries@[a]).key@
                        != (#[trigger] self.hashes@[j].entries@[b]).key@,
                forall|j: int|
                    0 <= j < self.pending@.len() ==> (#[trigger] self.pending@[j]).target
                        == doc0.pending@[j].target,
                forall|j: int|
                    0 <= j < self.pending@.len() ==> match (#[trigger] self.pending@[j]).data {
                        PendingData::Arr { snapshot, delta } => self.pending@[j].target.kind
                            is Array,
                        PendingData::Txt { snapshot, delta } => self.pending@[j].target.kind
                            is Text,
                        PendingData::Dict { snapshot, delta } => self.pending@[j].target.kind
                            is Hash,
                    },
                forall|j: int|
                    0 <= j < p ==> self.pending_entry_ok(#[trigger] &self.pending@[j]),
            decreases self.pending@.len() - p,
        {
            let kind = self.pending[p].target.kind;
            let root = self.pending[p].target.root.clone();
            let ghost mut cig: int = 0;
            let data: PendingData = match kind {
                ContainerKind::Array => {
                    let ci = match self.find_array(&root) {
                        Some(ci) => ci,
                        None => {
                            proof {
                                assert(doc0.has_array(root@));
                                crate::ydoc::lemma_unique_array_index(&doc0, root@);
                                let w = doc0.array_index_of(root@);
                                assert(self.arrays@[w].name@ == root@);
                                assert(false);
                            }
                            return ;
                        },
                    };
                    proof {
                        cig = ci as int;
                        crate::ydoc::lemma_unique_array_index(self, root@);
                        assert(self.array_index_of(root@) == ci as int);
                    }
                    let snap = crate::ydoc::items_duplicate(&self.arrays[ci].items);
                    let d = crate::delta::delta_identity::<EngineAny>(self.arrays[ci].items.len());
                    PendingData::Arr { snapshot: snap, delta: d }
                },
                ContainerKind::Text => {
                    let ci = match self.find_text(&root) {
                        Some(ci) => ci,
                        None => {
                            proof {
                                assert(doc0.has_text(root@));
                                crate::ydoc::lemma_unique_text_index(&doc0, root@);
                                let w = doc0.text_index_of(root@);
                                assert(self.texts@[w].name@ == root@);
                                assert(false);
                            }
                            return ;
                        },
                    };
                    proof {
                        cig = ci as int;
                        crate::ydoc::lemma_unique_text_index(self, root@);
                        assert(self.text_index_of(root@) == ci as int);
                    }
                    let snap = crate::ytext::text_items_duplicate(&self.texts[ci].items);
                    let d = crate::delta::delta_identity::<TextItem>(self.texts[ci].items.len());
                    PendingData::Txt { snapshot: snap, delta: d }
                },
                _ => {
                    let ci = match self.find_hash(&root) {
                        Some(ci) => ci,
                        None => {
                            proof {
                                assert(self.pending@[p as int].target.kind is Hash);
                                assert(doc0.has_hash(root@));
                                crate::ydoc::lemma_unique_hash_index(&doc0, root@);
                                let w = doc0.hash_index_of(root@);
                                assert(self.hashes@[w].name@ == root@);
                                assert(false);
                            }
                            return ;
                        },
                    };
                    proof {
                        cig = ci as int;
                        crate::ydoc::lemma_unique_hash_index(self, root@);
                        assert(self.hash_index_of(root@) == ci as int);
                    }
                    let snap = crate::ydoc::entries_duplicate(&self.hashes[ci].entries);
                    PendingData::Dict { snapshot: snap, delta: Vec::new() }
                },
            };
            let target = crate::ydoc::SubTarget { kind, root };
            let ghost pending_prev = self.pending@;
            let ghost self_pre = *self;
            self.pending.set(p, crate::ydoc::PendingChange { target, data });
            proof {
                assert(self.names_ok()) by {
                    assert forall|a: int, b: int|
                        0 <= a < b < self.arrays@.len() implies self.arrays@[a].name@
                        != self.arrays@[b].name@ by {
                        assert(self.arrays@[a].name@ == doc0.arrays@[a].name@);
                        assert(self.arrays@[b].name@ == doc0.arrays@[b].name@);
                    }
                    assert forall|a: int, b: int|
                        0 <= a < b < self.hashes@.len() implies self.hashes@[a].name@
                        != self.hashes@[b].name@ by {
                        assert(self.hashes@[a].name@ == doc0.hashes@[a].name@);
                        assert(self.hashes@[b].name@ == doc0.hashes@[b].name@);
                    }
                    assert forall|a: int, b: int|
                        0 <= a < b < self.texts@.len() implies self.texts@[a].name@
                        != self.texts@[b].name@ by {
                        assert(self.texts@[a].name@ == doc0.texts@[a].name@);
                        assert(self.texts@[b].name@ == doc0.texts@[b].name@);
                    }
                    assert forall|a: int, b: int|
                        0 <= a < self.arrays@.len() && 0 <= b < self.hashes@.len()
                            implies self.arrays@[a].name@ != self.hashes@[b].name@ by {
                        assert(self.arrays@[a].name@ == doc0.arrays@[a].name@);
                        assert(self.hashes@[b].name@ == doc0.hashes@[b].name@);
                    }
                    assert forall|a: int, b: int|
                        0 <= a < self.arrays@.len() && 0 <= b < self.texts@.len()
                            implies self.arrays@[a].name@ != self.texts@[b].name@ by {
                        assert(self.arrays@[a].name@ == doc0.arrays@[a].name@);
                        assert(self.texts@[b].name@ == doc0.texts@[b].name@);
                    }
                    assert forall|a: int, b: int|
                        0 <= a < self.hashes@.len() && 0 <= b < self.texts@.len()
                            implies self.hashes@[a].name@ != self.texts@[b].name@ by {
                        assert(self.hashes@[a].name@ == doc0.hashes@[a].name@);
                        assert(self.texts@[b].name@ == doc0.texts@[b].name@);
                    }
                }
                assert(self.pending@[p as int].target == doc0.pending@[p as int].target);
                assert(self.pending_entry_ok(&self.pending@[p as int])) by {
                    match self.pending@[p as int].data {
                        PendingData::Arr { snapshot, delta } => {
                            assert(0 <= cig < self.arrays@.len());
                            assert(self.arrays@[cig].name@ == root@);
                            assert(self.has_array(root@));
                            crate::ydoc::lemma_unique_array_index(self, root@);
                            assert(self.array_index_of(root@) == cig);
                            assert(self.array_items(root@) == self.arrays@[cig].items@.map_values(
                                |x: EngineAny| x@,
                            ));
                            assert(snapshot@.map_values(|x: EngineAny| x@) == self.array_items(
                                root@,
                            ));
                            assert(crate::delta::delta_apply(
                                crate::delta::delta_val(delta@),
                                snapshot@.map_values(|x: EngineAny| x@),
                            ) == snapshot@.map_values(|x: EngineAny| x@));
                        },
                        PendingData::Txt { snapshot, delta } => {
                            assert(0 <= cig < self.texts@.len());
                            assert(self.texts@[cig].name@ == root@);
                            assert(self.has_text(root@));
                            crate::ydoc::lemma_unique_text_index(self, root@);
                            assert(self.text_index_of(root@) == cig);
                            assert(self.text_items(root@) == self.texts@[cig].items@.map_values(
                                |x: TextItem| x@,
                            ));
                            assert(snapshot@.map_values(|x: TextItem| x@) == self.text_items(
                                root@,
                            ));
                            assert(crate::delta::delta_apply(
                                crate::delta::delta_val(delta@),
                                snapshot@.map_values(|x: TextItem| x@),
                            ) == snapshot@.map_values(|x: TextItem| x@));
                        },
                        PendingData::Dict { snapshot, delta } => {
                            assert(0 <= cig < self.hashes@.len());
                            assert(self.hashes@[cig].name@ == root@);
                            assert(self.has_hash(root@));
                            crate::ydoc::lemma_unique_hash_index(self, root@);
                            assert(self.hash_index_of(root@) == cig);
                            assert(crate::ydoc::hash_delta_ok(
                                any_val_dict(self.pending@[p as int].data->Dict_snapshot@),
                                crate::ydoc::hash_delta_val(Seq::empty()),
                                self.hash_entries(root@),
                            ));
                        },
                    }
                }
                assert forall|j: int| 0 <= j < p implies self.pending_entry_ok(
                    #[trigger] &self.pending@[j],
                ) by {
                    assert(self.pending@[j] == pending_prev[j]);
                    assert(self_pre.pending_entry_ok(&pending_prev[j]));
                    lemma_pending_entry_ok_same_containers(&self_pre, self, &pending_prev[j]);
                }
            }
            p += 1;
        }
        proof {
            assert forall|a: int, b: int|
                0 <= a < b < self.arrays@.len() implies self.arrays@[a].name@ != self.arrays@[
                b
            ].name@ by {
                assert(self.arrays@[a].name@ == doc0.arrays@[a].name@);
                assert(self.arrays@[b].name@ == doc0.arrays@[b].name@);
            }
            assert forall|n: Seq<char>| doc0.has_array(n) implies self.has_array(n) by {
                let w = choose|w: int| 0 <= w < doc0.arrays@.len() && doc0.arrays@[w].name@ == n;
                assert(self.arrays@[w].name@ == n);
            }
            assert forall|n: Seq<char>| doc0.has_hash(n) implies self.has_hash(n) by {
                let w = choose|w: int| 0 <= w < doc0.hashes@.len() && doc0.hashes@[w].name@ == n;
                assert(self.hashes@[w].name@ == n);
            }
            assert forall|n: Seq<char>| doc0.has_text(n) implies self.has_text(n) by {
                let w = choose|w: int| 0 <= w < doc0.texts@.len() && doc0.texts@[w].name@ == n;
                assert(self.texts@[w].name@ == n);
            }
            assert(self.wf()) by {
                assert(self.names_ok()) by {
                    assert forall|a: int, b: int|
                        0 <= a < b < self.hashes@.len() implies self.hashes@[a].name@
                        != self.hashes@[b].name@ by {
                        assert(self.hashes@[a].name@ == doc0.hashes@[a].name@);
                        assert(self.hashes@[b].name@ == doc0.hashes@[b].name@);
                    }
                    assert forall|a: int, b: int|
                        0 <= a < b < self.texts@.len() implies self.texts@[a].name@
                        != self.texts@[b].name@ by {
                        assert(self.texts@[a].name@ == doc0.texts@[a].name@);
                        assert(self.texts@[b].name@ == doc0.texts@[b].name@);
                    }
                    assert forall|a: int, b: int|
                        0 <= a < self.arrays@.len() && 0 <= b < self.hashes@.len()
                            implies self.arrays@[a].name@ != self.hashes@[b].name@ by {
                        assert(self.arrays@[a].name@ == doc0.arrays@[a].name@);
                        assert(self.hashes@[b].name@ == doc0.hashes@[b].name@);
                    }
                    assert forall|a: int, b: int|
                        0 <= a < self.arrays@.len() && 0 <= b < self.texts@.len()
                            implies self.arrays@[a].name@ != self.texts@[b].name@ by {
                        assert(self.arrays@[a].name@ == doc0.arrays@[a].name@);
                        assert(self.texts@[b].name@ == doc0.texts@[b].name@);
                    }
                    assert forall|a: int, b: int|
                        0 <= a < self.hashes@.len() && 0 <= b < self.texts@.len()
                            implies self.hashes@[a].name@ != self.texts@[b].name@ by {
                        assert(self.hashes@[a].name@ == doc0.hashes@[a].name@);
                        assert(self.texts@[b].name@ == doc0.texts@[b].name@);
                    }
                }
                assert(self.arrays_ok());
                assert(self.texts_ok());
                assert(self.hashes_ok());
                assert(self.subs_ok());
                assert(self.tx_ok());
            }
        }
    }
}

/// A pending record's invariant depends only on the container contents,
/// not on the rest of the document.
proof fn lemma_pending_entry_ok_same_containers(a: &YDoc, b: &YDoc, p: &PendingChange)
    requires
        a.pending_entry_ok(p),
        b.arrays@ == a.arrays@,
        b.texts@ == a.texts@,
        b.hashes@ == a.hashes@,
    ensures
        b.pending_entry_ok(p),
{
    match p.data {
        PendingData::Arr { snapshot, delta } => {
            assert(b.has_array(p.target.root@) == a.has_array(p.target.root@));
            assert(b.array_index_of(p.target.root@) == a.array_index_of(p.target.root@));
        },
        PendingData::Txt { snapshot, delta } => {
            assert(b.has_text(p.target.root@) == a.has_text(p.target.root@));
            assert(b.text_index_of(p.target.root@) == a.text_index_of(p.target.root@));
        },
        PendingData::Dict { snapshot, delta } => {
            assert(b.has_hash(p.target.root@) == a.has_hash(p.target.root@));
            assert(b.hash_index_of(p.target.root@) == a.hash_index_of(p.target.root@));
        },
    }
}

impl YTransaction {
    /// The engine's state vector for this document, v1-encoded: a compact
    /// summary of how much history this replica has seen.
    pub fn ytransaction_state_vector(&self, doc: &YDoc) -> (r: Result<Vec<u8>, BridgeError>)
        requires
            doc.wf(),
        ensures
            r is Ok <==> doc.tx_live(*self),
            r is Ok ==> sv_decodes(r->Ok_0@),
            r is Err ==> r->Err_0 is TransactionState,
    {
        let live = match doc.open_tx {
            Some(id) => id == self.id,
            None => false,
        };
        if !live {
            return Err(BridgeError::TransactionState(String::from_str(
                "the transaction handle is no longer valid",
            )));
        }
        Ok(engine_state_vector(&doc.engine))
    }

    /// Applies a v1-encoded binary update from another replica.  The
    /// engine merges it; the verified model is then rebuilt from the
    /// merged state, and the open transaction's recorded deltas are
    /// folded into fresh snapshots.  A payload that does not decode is a
    /// decode error and leaves the document untouched.
    pub fn ytransaction_apply_update(&self, doc: &mut YDoc, update: &[u8]) -> (r: Result<
        (),
        BridgeError,
    >)
        requires
            old(doc).wf(),
        ensures
            final(doc).wf(),
            r is Ok <==> old(doc).tx_live(*self) && update_decodes(update@),
            !old(doc).tx_live(*self) ==> r is Err && r->Err_0 is TransactionState && *final(doc)
                == *old(doc),
            r is Err && old(doc).tx_live(*self) ==> r->Err_0 is Decode && *final(doc) == *old(doc),
            final(doc).subs@ == old(doc).subs@,
            final(doc).update_subs@ == old(doc).update_subs@,
            final(doc).open_tx == old(doc).open_tx,
            final(doc).client_id == old(doc).client_id,
            forall|n: Seq<char>| old(doc).has_array(n) ==> final(doc).has_array(n),
            forall|n: Seq<char>| old(doc).has_hash(n) ==> final(doc).has_hash(n),
            forall|n: Seq<char>| old(doc).has_text(n) ==> final(doc).has_text(n),
    {
        let live = match doc.open_tx {
            Some(id) => id == self.id,
            None => false,
        };
        if !live {
            return Err(BridgeError::TransactionState(String::from_str(
                "the transaction handle is no longer valid",
            )));
        }
        let ok = engine_apply_update(&mut doc.engine, update);
        if !ok {
            return Err(BridgeError::Decode(String::from_str(
                "cannot decode update",
            )));
        }
        doc.resync_from_engine();
        Ok(())
    }

    /// Looks up an existing root sequence container by name.
    pub fn ytransaction_get_array(&self, doc: &YDoc, name: &str) -> (r: Option<YArray>)
        requires
            doc.wf(),
        ensures
            r is Some <==> doc.has_array(name@),
            r is Some ==> r->0.name@ == name@,
    {
        let key = name.to_owned();
        match doc.find_array(&key) {
            Some(_) => Some(YArray { name: key }),
            None => None,
        }
    }

    /// Looks up an existing root map container by name.
    pub fn ytransaction_get_map(&self, doc: &YDoc, name: &str) -> (r: Option<YMap>)
        requires
            doc.wf(),
        ensures
            r is Some <==> doc.has_hash(name@),
            r is Some ==> r->0.name@ == name@,
    {
        let key = name.to_owned();
        match doc.find_hash(&key) {
            Some(_) => Some(YMap { name: key }),
            None => None,
        }
    }

    /// Looks up an existing root text container by name.
    pub fn ytransaction_get_text(&self, doc: &YDoc, name: &str) -> (r: Option<YText>)
        requires
            doc.wf(),
        ensures
            r is Some <==> doc.has_text(name@),
            r is Some ==> r->0.name@ == name@,
    {
        let key = name.to_owned();
        match doc.find_text(&key) {
            Some(_) => Some(YText { name: key }),
            None => None,
        }
    }
}

impl YDoc {
    /// Encodes, against a v1-encoded state vector of another replica, the
    /// v1-encoded update that brings that replica up to this document's
    /// state.  A state vector that does not decode is a decode error.
    pub fn ydoc_encode_diff_v1(&self, tx: &YTransaction, state_vector: &[u8]) -> (r: Result<
        Vec<u8>,
        BridgeError,
    >)
        requires
            self.wf(),
        ensures
            r is Ok <==> self.tx_live(*tx) && sv_decodes(state_vector@),
            !self.tx_live(*tx) ==> r is Err && r->Err_0 is TransactionState,
            r is Err && self.tx_live(*tx) ==> r->Err_0 is Decode,
    {
        let live = match self.open_tx {
            Some(id) => id == tx.id,
            None => false,
        };
        if !live {
            return Err(BridgeError::TransactionState(String::from_str(
                "the transaction handle is no longer valid",
            )));
        }
        match engine_encode_diff(&self.engine, state_vector) {
            Some(b) => Ok(b),
            None => Err(BridgeError::Decode(String::from_str(
                "cannot decode state vector",
            ))),
        }
    }

    /// Registers a document-update observer: at each commit it receives
    /// the committed transaction's binary update.
    pub fn ydoc_observe_update(&mut self) -> (r: Result<u64, BridgeError>)
        requires
            old(self).wf(),
        ensures
            final(self).wf(),
            final(self).arrays@ == old(self).arrays@,
            final(self).hashes@ == old(self).hashes@,
            final(self).texts@ == old(self).texts@,
            final(self).subs@ == old(self).subs@,
            final(self).pending@ == old(self).pending@,
            final(self).open_tx == old(self).open_tx,
            old(self).sub_counter < u64::MAX ==> r is Ok && final(self).update_subs@ == old(
                self,
            ).update_subs@.push((crate::ydoc::UpdateSub { id: old(self).sub_counter, active: true })),
            r is Err ==> r->Err_0 is TransactionState,
    {
        if self.sub_counter == u64::MAX {
            return Err(BridgeError::TransactionState(String::from_str(
                "subscription identifiers exhausted",
            )));
        }
        let id = self.sub_counter;
        self.sub_counter = self.sub_counter + 1;
        self.update_subs.push(crate::ydoc::UpdateSub { id, active: true });
        Ok(id)
    }
}

} // verus!
