use vstd::prelude::*;

use crate::delta::{
    delta_apply, delta_identity, delta_insert_at, delta_new_len, delta_old_len, delta_remove_at,
    delta_val,
};
use crate::engine::{char_to_string, engine_array_insert, engine_array_remove, engine_roots};
use crate::engine_any::{any_val_dict, AnyVal, DictEntry, EngineAny};
use crate::error::BridgeError;
use crate::ydoc::{
    lemma_unique_text_index, PendingChange, PendingData, SubTarget, Subscription, YDoc,
    YTransaction,
};
use crate::yvalue::{host_to_attrs, host_to_engine, ContainerKind, HostValue};

verus! {

/// One unit of rich-text content: a single character or an embedded
/// payload.  Both count as one position unit of the text.
#[derive(Debug, PartialEq)]
pub enum Glyph {
    Ch(char),
    Embed(EngineAny),
}

/// The mathematical value of a [`Glyph`].
pub enum GlyphVal {
    Ch(char),
    Embed(AnyVal),
}

/// One position unit of a text container together with the formatting
/// attributes attached to it.
#[derive(Debug, PartialEq)]
pub struct TextItem {
    pub glyph: Glyph,
    pub attrs: Vec<DictEntry>,
}

/// The mathematical value of a [`TextItem`].
pub struct TextItemVal {
    pub glyph: GlyphVal,
    pub attrs: Seq<(Seq<char>, AnyVal)>,
}

impl View for Glyph {
    type V = GlyphVal;

    open spec fn view(&self) -> GlyphVal {
        match self {
            Glyph::Ch(c) => GlyphVal::Ch(*c),
            Glyph::Embed(a) => GlyphVal::Embed(a@),
        }
    }
}

impl View for TextItem {
    type V = TextItemVal;

    open spec fn view(&self) -> TextItemVal {
        TextItemVal { glyph: self.glyph@, attrs: any_val_dict(self.attrs@) }
    }
}

/// The characters of a sequence of text items: embedded payloads render as
/// no characters.
pub open spec fn items_chars(s: Seq<TextItemVal>) -> Seq<char>
    decreases s,
{
    if s.len() == 0 {
        Seq::empty()
    } else {
        match s.last().glyph {
            GlyphVal::Ch(c) => items_chars(s.drop_last()).push(c),
            GlyphVal::Embed(_) => items_chars(s.drop_last()),
        }
    }
}

/// The mathematical values of a text item list.
pub open spec fn txt_v(xs: Seq<TextItem>) -> Seq<TextItemVal> {
    xs.map_values(|t: TextItem| t@)
}

/// A deep copy of a text item, with the same mathematical value.
pub(crate) fn text_item_duplicate(it: &TextItem) -> (r: TextItem)
    ensures
        r@ == it@,
{
    let glyph = match &it.glyph {
        Glyph::Ch(c) => Glyph::Ch(*c),
        Glyph::Embed(a) => Glyph::Embed(crate::yvalue::any_duplicate(a)),
    };
    let attrs = crate::ydoc::entries_duplicate(&it.attrs);
    let r = TextItem { glyph, attrs };
    proof {
        assert(r@.attrs =~= it@.attrs);
    }
    r
}

/// A deep copy of a text item list.
pub(crate) fn text_items_duplicate(xs: &Vec<TextItem>) -> (r: Vec<TextItem>)
    ensures
        txt_v(r@) == txt_v(xs@),
        r@.len() == xs@.len(),
{
    let mut r: Vec<TextItem> = Vec::new();
    let mut i: usize = 0;
    while i < xs.len()
        invariant
            i <= xs@.len(),
            r@.len() == i,
            forall|j: int| 0 <= j < i ==> r@[j]@ == xs@[j]@,
        decreases xs@.len() - i,
    {
        let y = text_item_duplicate(&xs[i]);
        r.push(y);
        i += 1;
    }
    proof {
        assert(txt_v(r@) =~= txt_v(xs@));
    }
    r
}

/// A host-held proxy for a root rich-text container, aliasing it by name.
pub struct YText {
    pub name: String,
}

/// The engine element standing for one text position unit: a character
/// becomes a one-character string, an embedded payload travels as itself.
/// Formatting attributes stay in the verified model and do not cross the
/// trusted boundary.
pub(crate) fn glyph_unit(it: &TextItem) -> (r: EngineAny) {
    match &it.glyph {
        Glyph::Ch(c) => EngineAny::Str(char_to_string(*c)),
        Glyph::Embed(a) => crate::yvalue::any_duplicate(a),
    }
}

/// Rebuilds text items from the engine elements of a text root: a
/// one-character string element reads back as that character, any other
/// element as an embedded payload.  Formatting attributes do not cross
/// the trusted boundary and read back empty.
pub(crate) fn units_to_items(units: &Vec<EngineAny>) -> (r: Vec<TextItem>)
    ensures
        r@.len() == units@.len(),
{
    let mut r: Vec<TextItem> = Vec::new();
    let mut i: usize = 0;
    while i < units.len()
        invariant
            i <= units@.len(),
            r@.len() == i,
        decreases units@.len() - i,
    {
        let glyph = match &units[i] {
            EngineAny::Str(s) => {
                if s.as_str().unicode_len() == 1 {
                    Glyph::Ch(s.as_str().get_char(0))
                } else {
                    Glyph::Embed(crate::yvalue::any_duplicate(&units[i]))
                }
            },
            _ => Glyph::Embed(crate::yvalue::any_duplicate(&units[i])),
        };
        r.push(TextItem { glyph, attrs: Vec::new() });
        i += 1;
    }
    r
}

/// Echoes one text splice into the engine replica: removes `cnt` elements
/// at element index `index`, then inserts the items there one by one, one
/// element per position unit.
#[verifier::loop_isolation(false)]
pub(crate) fn echo_text_splice(
    eng: &mut yrs::Doc,
    name: &String,
    index: usize,
    cnt: usize,
    ins: &Vec<TextItem>,
)
    requires
        engine_roots(*old(eng)).contains_key(name@),
        index + cnt <= engine_roots(*old(eng))[name@],
        index + cnt <= u32::MAX as nat,
        index + ins@.len() <= u32::MAX as nat,
    ensures
        engine_roots(*final(eng)) =~= engine_roots(*old(eng)).insert(
            name@,
            (engine_roots(*old(eng))[name@] - cnt + ins@.len()) as nat,
        ),
{
    if cnt > 0 {
        engine_array_remove(eng, name.as_str(), index as u32, cnt as u32);
    }
    let ghost al1 = engine_roots(*eng);
    proof {
        assert(al1.insert(name@, (al1[name@] + 0) as nat) =~= al1);
    }
    let mut k: usize = 0;
    while k < ins.len()
        invariant
            k <= ins@.len(),
            engine_roots(*eng) =~= al1.insert(name@, (al1[name@] + k) as nat),
        decreases ins@.len() - k,
    {
        proof {
            assert(engine_roots(*eng).contains_key(name@));
            assert(engine_roots(*eng)[name@] == al1[name@] + k);
        }
        let unit = glyph_unit(&ins[k]);
        engine_array_insert(eng, name.as_str(), (index + k) as u32, &unit);
        k += 1;
        proof {
            assert(engine_roots(*eng) =~= al1.insert(name@, (al1[name@] + k) as nat));
        }
    }
    proof {
        if cnt > 0 {
            assert(al1 == engine_roots(*old(eng)).insert(
                name@,
                (engine_roots(*old(eng))[name@] - cnt) as nat,
            ));
        } else {
            assert(al1 == engine_roots(*old(eng)));
        }
        assert(al1.contains_key(name@));
        assert(al1[name@] == engine_roots(*old(eng))[name@] - cnt);
        assert(engine_roots(*eng) =~= engine_roots(*old(eng)).insert(
            name@,
            (engine_roots(*old(eng))[name@] - cnt + ins@.len()) as nat,
        ));
    }
}

impl YDoc {
    /// What a text mutation leaves untouched.
    pub open spec fn text_edit_frame(&self, o: &YDoc) -> bool {
        &&& self.hashes@ == o.hashes@
        &&& self.arrays@ == o.arrays@
        &&& self.subs@ == o.subs@
        &&& self.update_subs@ == o.update_subs@
        &&& self.sub_counter == o.sub_counter
        &&& self.open_tx == o.open_tx
        &&& self.tx_counter == o.tx_counter
        &&& self.tx_start_state@ == o.tx_start_state@
        &&& self.client_id == o.client_id
    }

    /// Whether a text splice is within bounds: the removed range lies
    /// inside the contents, and the result still fits the engine's index
    /// type.
    pub open spec fn text_splice_in_bounds(
        &self,
        name: Seq<char>,
        index: nat,
        ins: Seq<TextItemVal>,
        cnt: nat,
    ) -> bool {
        &&& index + cnt <= self.text_items(name).len()
        &&& self.text_items(name).len() - cnt + ins.len() <= u32::MAX as nat
    }

    /// The shared body of every text mutation: removes `cnt` position
    /// units at `index` and inserts `ins` there, in the model, in the
    /// engine replica, and in the transaction's recorded delta.
    #[verifier::loop_isolation(false)]
    #[verifier::rlimit(90)]
    pub(crate) fn text_splice(
        &mut self,
        tx: &YTransaction,
        name: &String,
        index: usize,
        ins: Vec<TextItem>,
        cnt: usize,
    ) -> (r: Result<(), BridgeError>)
        requires
            old(self).wf(),
        ensures
            final(self).wf(),
            final(self).text_edit_frame(old(self)),
            r is Err ==> *final(self) == *old(self),
            !old(self).tx_live(*tx) ==> r is Err && r->Err_0 is TransactionState,
            old(self).tx_live(*tx) && !old(self).has_text(name@) ==> r is Err && r->Err_0
                is Conversion,
            old(self).tx_live(*tx) && old(self).has_text(name@) && !old(self).text_splice_in_bounds(
                name@,
                index as nat,
                txt_v(ins@),
                cnt as nat,
            ) ==> r is Err && r->Err_0 is Bounds,
            r is Ok <==> old(self).tx_live(*tx) && old(self).has_text(name@) && old(self).text_splice_in_bounds(name@, index as nat, txt_v(ins@), cnt as nat),
            r is Ok ==> final(self).text_items(name@) == old(self).text_items(name@).take(
                index as int,
            ) + txt_v(ins@) + old(self).text_items(name@).skip(index as int + cnt as int),
            r is Ok ==> final(self).pending_after_edit(old(self), ContainerKind::Text, name@),
            r is Ok ==> final(self).pending_rec(ContainerKind::Text, name@).data is Txt
                && final(self).txt_pending_snapshot(name@) == (if old(self).has_pending(
                ContainerKind::Text,
                name@,
            ) {
                old(self).txt_pending_snapshot(name@)
            } else {
                old(self).text_items(name@)
            }),
            forall|n: Seq<char>| old(self).has_text(n) <==> final(self).has_text(n),
            forall|n: Seq<char>|
                n != name@ && old(self).has_text(n) ==> final(self).text_items(n) == old(self).text_items(n),
    {
        let live = match self.open_tx {
            Some(id) => id == tx.id,
            None => false,
        };
        if !live {
            return Err(BridgeError::TransactionState(String::from_str(
                "the transaction handle is no longer valid",
            )));
        }
        let i = match self.find_text(name) {
            Some(i) => i,
            None => {
                return Err(BridgeError::Conversion(String::from_str(
                    "unknown text container",
                )));
            },
        };
        proof {
            lemma_unique_text_index(self, name@);
            assert(self.text_index_of(name@) == i);
        }
        let len = self.texts[i].items.len();
        if index > len || cnt > len - index {
            return Err(BridgeError::Bounds(String::from_str(
                "index or range lies outside the text",
            )));
        }
        if ins.len() > (u32::MAX as usize) - (len - cnt) {
            return Err(BridgeError::Bounds(String::from_str(
                "the text would exceed the engine's capacity",
            )));
        }
        let ghost t0 = txt_v(self.texts@[i as int].items@);
        let ghost doc0 = *self;
        let ghost items0 = self.texts@[i as int].items@;

        // Take over (or open) the transaction's record of this container.
        let found = self.pending_find(ContainerKind::Text, name);
        let ghost jg = found;
        let pe = match found {
            Some(j) => {
                let p = self.pending.remove(j);
                proof {
                    assert(p == doc0.pending@[j as int]);
                    assert(doc0.pending_entry_ok(&doc0.pending@[j as int]));
                }
                p
            },
            None => {
                let snap = text_items_duplicate(&self.texts[i].items);
                let d = delta_identity::<TextItem>(len);
                PendingChange {
                    target: SubTarget { kind: ContainerKind::Text, root: name.clone() },
                    data: PendingData::Txt { snapshot: snap, delta: d },
                }
            },
        };
        let ghost pending1 = self.pending@;
        proof {
            if jg is Some {
                let j = jg->0 as int;
                assert(pending1 =~= doc0.pending@.remove(j));
            }
            assert(pe.target.kind is Text);
            assert(pe.target.root@ == name@);
            assert(pe.data is Txt);
        }
        let (snapshot, delta) = match pe.data {
            PendingData::Txt { snapshot, delta } => (snapshot, delta),
            PendingData::Arr { snapshot, delta } => {
                proof {
                    assert(false);
                }
                return Err(BridgeError::Conversion(String::new()));
            },
            PendingData::Dict { snapshot, delta } => {
                proof {
                    assert(false);
                }
                return Err(BridgeError::Conversion(String::new()));
            },
        };
        let ghost s0 = snapshot@.map_values(|t: TextItem| t@);
        proof {
            assert(delta_old_len(delta_val(delta@)) == s0.len());
            assert(delta_new_len(delta_val(delta@)) == t0.len());
            assert(delta_apply(delta_val(delta@), s0) == t0);
        }

        // Echo into the engine replica: the removal, then the insertions.
        echo_text_splice(&mut self.engine, name, index, cnt, &ins);

        // Splice the model contents.
        let ins_copy = text_items_duplicate(&ins);
        let mut root = self.texts.remove(i);
        proof {
            assert(root.items@ == items0);
        }
        let mut tail = root.items.split_off(index);
        let mut tail2 = tail.split_off(cnt);
        let mut ins = ins;
        root.items.append(&mut ins);
        root.items.append(&mut tail2);
        self.texts.insert(i, root);
        proof {
            assert(self.texts@ =~= doc0.texts@.update(i as int, self.texts@[i as int]));
            assert(self.texts@[i as int].name@ == name@);
            assert(txt_v(self.texts@[i as int].items@) =~= t0.take(index as int) + txt_v(ins_copy@)
                + t0.skip(index as int + cnt as int));
        }

        // Record the splice in the transaction's delta.
        let mut delta = delta;
        if cnt > 0 {
            delta = delta_remove_at(delta, index, cnt, Ghost(s0));
        }
        proof {
            assert(delta_apply(delta_val(delta@), s0) =~= t0.take(index as int) + t0.skip(
                index as int + cnt as int,
            ));
        }
        if ins_copy.len() > 0 {
            delta = delta_insert_at(delta, index, ins_copy, Ghost(s0));
        } else {
            proof {
                assert(txt_v(ins_copy@) =~= Seq::<TextItemVal>::empty());
            }
        }
        proof {
            assert(delta_apply(delta_val(delta@), s0) =~= t0.take(index as int) + txt_v(ins_copy@)
                + t0.skip(index as int + cnt as int));
        }
        self.pending.push(
            PendingChange { target: pe.target, data: PendingData::Txt { snapshot, delta } },
        );

        proof {
            assert(self.texts@[i as int].name@ == name@);
            assert(self.has_text(name@));
            assert(self.pending@.take(pending1.len() as int) =~= pending1);
            lemma_unique_text_index(self, name@);
            assert(self.text_index_of(name@) == i);
            assert(self.text_items(name@) == txt_v(self.texts@[i as int].items@));
            assert forall|n: Seq<char>| n != name@ && doc0.has_text(n) implies self.has_text(n)
                && self.text_items(n) == doc0.text_items(n) by {
                lemma_unique_text_index(&doc0, n);
                let j = doc0.text_index_of(n);
                assert(self.texts@[j] == doc0.texts@[j]);
                lemma_unique_text_index(self, n);
            }
            assert_wf_after_text_splice(
                &doc0,
                self,
                *tx,
                name@,
                i as int,
                pending1,
                match jg {
                    Some(j) => Some(j as int),
                    None => None,
                },
            );
            crate::ydoc::lemma_pending_others_preserved(
                &doc0,
                self,
                ContainerKind::Text,
                name@,
                pending1,
                match jg {
                    Some(j) => Some(j as int),
                    None => None,
                },
            );
            assert(self.pending_rec(ContainerKind::Text, name@) == self.pending@.last());
            assert(self.pending@.last().data->Txt_snapshot@.map_values(|t: TextItem| t@) == s0);
            if jg is Some {
                let j = jg->0 as int;
                assert(doc0.pending_rec(ContainerKind::Text, name@) == doc0.pending@[j]);
                assert(doc0.pending@[j].data->Txt_snapshot@.map_values(|t: TextItem| t@) == s0);
                assert(doc0.txt_pending_snapshot(name@) == s0);
            } else {
                assert(s0 == t0);
                assert(doc0.text_items(name@) == t0);
            }
        }
        Ok(())
    }
}

/// Re-establishes the document invariant after one text splice.
proof fn assert_wf_after_text_splice(
    doc0: &YDoc,
    doc1: &YDoc,
    tx: YTransaction,
    name: Seq<char>,
    i: int,
    pending1: Seq<PendingChange>,
    removed: Option<int>,
)
    requires
        doc0.wf(),
        doc0.tx_live(tx),
        doc1.text_edit_frame(doc0),
        0 <= i < doc0.texts@.len(),
        doc0.texts@[i].name@ == name,
        doc1.texts@ == doc0.texts@.update(i, doc1.texts@[i]),
        doc1.texts@[i].name@ == name,
        doc1.texts@[i].items@.len() <= u32::MAX as nat,
        engine_roots(doc1.engine).contains_key(name),
        doc1.texts@[i].items@.len() <= engine_roots(doc1.engine)[name],
        forall|n: Seq<char>|
            n != name && engine_roots(doc0.engine).contains_key(n) ==> engine_roots(
                doc1.engine,
            ).contains_key(n) && engine_roots(doc1.engine)[n] == engine_roots(doc0.engine)[n],
        doc1.pending@.len() == pending1.len() + 1,
        doc1.pending@.take(pending1.len() as int) == pending1,
        doc1.pending@.last().target.kind is Text,
        doc1.pending@.last().target.root@ == name,
        doc1.pending_entry_ok(&doc1.pending@.last()),
        match removed {
            Some(j) => 0 <= j < doc0.pending@.len() && doc0.pending@[j].target.kind
                == ContainerKind::Text && doc0.pending@[j].target.root@ == name && pending1
                == doc0.pending@.remove(j),
            None => pending1 == doc0.pending@ && forall|l: int|
                0 <= l < doc0.pending@.len() ==> !((#[trigger] doc0.pending@[l]).target.kind
                    == ContainerKind::Text && doc0.pending@[l].target.root@ == name),
        },
    ensures
        doc1.wf(),
{
    assert(doc1.names_ok());
    assert(doc1.hashes_ok());
    assert(doc1.subs_ok());
    assert(doc1.arrays_ok()) by {
        assert forall|j: int| 0 <= j < doc1.arrays@.len() implies {
            &&& engine_roots(doc1.engine).contains_key(#[trigger] doc1.arrays@[j].name@)
            &&& doc1.arrays@[j].items@.len() <= engine_roots(doc1.engine)[doc1.arrays@[j].name@]
            &&& doc1.arrays@[j].items@.len() <= u32::MAX as nat
        } by {
            assert(doc1.arrays@[j] == doc0.arrays@[j]);
            assert(doc1.arrays@[j].name@ != name);
        }
    }
    assert(doc1.texts_ok()) by {
        assert forall|j: int| 0 <= j < doc1.texts@.len() implies {
            &&& engine_roots(doc1.engine).contains_key(#[trigger] doc1.texts@[j].name@)
            &&& doc1.texts@[j].items@.len() <= engine_roots(doc1.engine)[doc1.texts@[j].name@]
            &&& doc1.texts@[j].items@.len() <= u32::MAX as nat
        } by {
            if j != i {
                assert(doc1.texts@[j] == doc0.texts@[j]);
                assert(doc1.texts@[j].name@ != name);
            }
        }
    }
    let src_of = |l: int| -> int {
        match removed {
            Some(j) => if l < j {
                l
            } else {
                l + 1
            },
            None => l,
        }
    };
    assert forall|l: int| 0 <= l < pending1.len() implies pending1[l] == doc0.pending@[
        src_of(l)
    ] && 0 <= src_of(l) < doc0.pending@.len() by {
        if removed is Some {
            let j = removed->0;
            if l < j {
                assert(pending1[l] == doc0.pending@[l]);
            } else {
                assert(pending1[l] == doc0.pending@[l + 1]);
            }
        }
    }
    assert forall|l: int| 0 <= l < pending1.len() implies !((#[trigger] pending1[l]).target.kind
        == ContainerKind::Text && pending1[l].target.root@ == name) by {
        let l0 = src_of(l);
        assert(pending1[l] == doc0.pending@[l0]);
        if removed is Some {
            let j = removed->0;
            if doc0.pending@[l0].target.kind == ContainerKind::Text && doc0.pending@[
                l0
            ].target.root@ == name {
                assert(l0 != j);
                if l0 < j {
                    assert(!(doc0.pending@[l0].target.kind == doc0.pending@[j].target.kind
                        && doc0.pending@[l0].target.root@ == doc0.pending@[j].target.root@));
                } else {
                    assert(!(doc0.pending@[j].target.kind == doc0.pending@[l0].target.kind
                        && doc0.pending@[j].target.root@ == doc0.pending@[l0].target.root@));
                }
            }
        }
    }
    assert(doc1.tx_ok()) by {
        assert forall|j: int| 0 <= j < doc1.pending@.len() implies doc1.pending_entry_ok(
            #[trigger] &doc1.pending@[j],
        ) by {
            if j < pending1.len() {
                assert(doc1.pending@[j] == pending1[j]);
                assert(pending1[j] == doc0.pending@[src_of(j)]);
                assert(doc0.pending_entry_ok(&doc0.pending@[src_of(j)]));
                lemma_pending_entry_stable_text(doc0, doc1, &doc1.pending@[j], name, i);
            }
        }
        assert forall|j: int, l: int| 0 <= j < l < doc1.pending@.len() implies !(doc1.pending@[
            j
        ].target.kind == doc1.pending@[l].target.kind && doc1.pending@[j].target.root@
            == doc1.pending@[l].target.root@) by {
            if l == pending1.len() as int {
                assert(doc1.pending@[j] == pending1[j]);
            } else {
                assert(doc1.pending@[j] == pending1[j]);
                assert(doc1.pending@[l] == pending1[l]);
                assert(pending1[j] == doc0.pending@[src_of(j)]);
                assert(pending1[l] == doc0.pending@[src_of(l)]);
            }
        }
    }
}

/// A pending record of a container other than the spliced text still
/// satisfies its invariant.
proof fn lemma_pending_entry_stable_text(
    doc0: &YDoc,
    doc1: &YDoc,
    p: &PendingChange,
    name: Seq<char>,
    i: int,
)
    requires
        doc0.wf(),
        doc0.pending_entry_ok(p),
        doc1.text_edit_frame(doc0),
        0 <= i < doc0.texts@.len(),
        doc0.texts@[i].name@ == name,
        doc1.texts@ == doc0.texts@.update(i, doc1.texts@[i]),
        doc1.texts@[i].name@ == name,
        !(p.target.kind == ContainerKind::Text && p.target.root@ == name),
    ensures
        doc1.pending_entry_ok(p),
{
    match p.data {
        PendingData::Txt { snapshot, delta } => {
            assert(p.target.root@ != name);
            lemma_unique_text_index(doc0, p.target.root@);
            let j = doc0.text_index_of(p.target.root@);
            assert(doc1.texts@[j] == doc0.texts@[j]);
            lemma_unique_text_index(doc1, p.target.root@);
            assert(doc1.text_items(p.target.root@) == doc0.text_items(p.target.root@));
        },
        PendingData::Arr { snapshot, delta } => {
            assert(doc1.arrays@ == doc0.arrays@);
            assert(doc1.array_items(p.target.root@) == doc0.array_items(p.target.root@));
        },
        PendingData::Dict { snapshot, delta } => {
            assert(doc1.hashes@ == doc0.hashes@);
            assert(doc1.hash_entries(p.target.root@) == doc0.hash_entries(p.target.root@));
        },
    }
}

/// Whether `m` is the item form of the character chunk `s`, each item
/// carrying the formatting attributes `attrs`.
pub open spec fn is_chunk_items(
    m: Seq<TextItemVal>,
    s: Seq<char>,
    attrs: Seq<(Seq<char>, AnyVal)>,
) -> bool {
    &&& m.len() == s.len()
    &&& forall|j: int|
        0 <= j < s.len() ==> (#[trigger] m[j]).glyph == GlyphVal::Ch(s[j]) && m[j].attrs == attrs
}

/// Builds the per-character items of a chunk, each carrying a copy of the
/// given attributes.
#[verifier::loop_isolation(false)]
pub(crate) fn chunk_items(chunk: &str, attrs: &Vec<DictEntry>) -> (r: Vec<TextItem>)
    ensures
        is_chunk_items(txt_v(r@), chunk@, any_val_dict(attrs@)),
        r@.len() == chunk@.len(),
{
    let n = chunk.unicode_len();
    let mut r: Vec<TextItem> = Vec::new();
    let mut i: usize = 0;
    while i < n
        invariant
            i <= chunk@.len(),
            r@.len() == i,
            forall|j: int|
                0 <= j < i ==> (#[trigger] r@[j])@ == (TextItemVal {
                    glyph: GlyphVal::Ch(chunk@[j]),
                    attrs: any_val_dict(attrs@),
                }),
        decreases n - i,
    {
        let c = chunk.get_char(i);
        let a = crate::ydoc::entries_duplicate(attrs);
        r.push(TextItem { glyph: Glyph::Ch(c), attrs: a });
        i += 1;
    }
    proof {
        assert forall|j: int| 0 <= j < chunk@.len() implies (#[trigger] txt_v(r@)[j]).glyph
            == GlyphVal::Ch(chunk@[j]) && txt_v(r@)[j].attrs == any_val_dict(attrs@) by {
            assert(txt_v(r@)[j] == r@[j]@);
        }
    }
    r
}

impl YDoc {
    /// Whether inserting `chunk` at `index` of the named text is within
    /// bounds.
    pub open spec fn text_insert_in_bounds(&self, name: Seq<char>, index: nat, chunk: Seq<char>)
        -> bool {
        &&& index <= self.text_items(name).len()
        &&& self.text_items(name).len() + chunk.len() <= u32::MAX as nat
    }
}

/// How an insertion rewrites a text: the prefix and suffix stand, and the
/// chunk's items appear in between.
pub open spec fn text_inserted(
    t1: Seq<TextItemVal>,
    t0: Seq<TextItemVal>,
    index: int,
    chunk: Seq<char>,
    attrs: Seq<(Seq<char>, AnyVal)>,
) -> bool {
    &&& t1.len() == t0.len() + chunk.len()
    &&& t1.take(index) == t0.take(index)
    &&& t1.skip(index + chunk.len()) == t0.skip(index)
    &&& is_chunk_items(t1.subrange(index, index + chunk.len()), chunk, attrs)
}

impl YText {
    /// Inserts `chunk` at position `index` (counted in position units:
    /// code points, embedded payloads counting one); `index == length`
    /// appends.
    pub fn ytext_insert(&self, doc: &mut YDoc, tx: &YTransaction, index: u32, chunk: &str) -> (r:
        Result<(), BridgeError>)
        requires
            old(doc).wf(),
        ensures
            final(doc).wf(),
            final(doc).text_edit_frame(old(doc)),
            r is Err ==> *final(doc) == *old(doc),
            !old(doc).tx_live(*tx) ==> r is Err && r->Err_0 is TransactionState,
            old(doc).tx_live(*tx) && old(doc).has_text(self.name@)
                && !old(doc).text_insert_in_bounds(self.name@, index as nat, chunk@) ==> r is Err
                && r->Err_0 is Bounds,
            r is Ok <==> old(doc).tx_live(*tx) && old(doc).has_text(self.name@) && old(doc).text_insert_in_bounds(self.name@, index as nat, chunk@),
            r is Ok ==> text_inserted(
                final(doc).text_items(self.name@),
                old(doc).text_items(self.name@),
                index as int,
                chunk@,
                Seq::empty(),
            ),
            r is Ok ==> final(doc).pending_after_edit(old(doc), ContainerKind::Text, self.name@),
            r is Ok ==> final(doc).pending_rec(ContainerKind::Text, self.name@).data is Txt
                && final(doc).txt_pending_snapshot(self.name@) == (if old(doc).has_pending(
                ContainerKind::Text,
                self.name@,
            ) {
                old(doc).txt_pending_snapshot(self.name@)
            } else {
                old(doc).text_items(self.name@)
            }),
            forall|n: Seq<char>| old(doc).has_text(n) <==> final(doc).has_text(n),
            forall|n: Seq<char>|
                n != self.name@ && old(doc).has_text(n) ==> final(doc).text_items(n) == old(doc).text_items(n),
    {
        let attrs: Vec<DictEntry> = Vec::new();
        let items = chunk_items(chunk, &attrs);
        proof {
            assert(any_val_dict(attrs@) =~= Seq::<(Seq<char>, AnyVal)>::empty());
        }
        let ghost iv = txt_v(items@);
        let r = doc.text_splice(tx, &self.name, index as usize, items, 0);
        proof {
            lemma_text_insert_bridge(
                old(doc),
                doc,
                self.name@,
                index as nat,
                chunk@,
                Seq::empty(),
                iv,
                old(doc).tx_live(*tx),
                r is Ok,
            );
        }
        r
    }

    /// Inserts `chunk` at `index`, wrapping it in the given formatting
    /// attributes (a host map with string-convertible keys).
    pub fn ytext_insert_with_attributes(
        &self,
        doc: &mut YDoc,
        tx: &YTransaction,
        index: u32,
        chunk: &str,
        attrs: &HostValue,
    ) -> (r: Result<(), BridgeError>)
        requires
            old(doc).wf(),
        ensures
            final(doc).wf(),
            final(doc).text_edit_frame(old(doc)),
            r is Err ==> *final(doc) == *old(doc),
            !old(doc).tx_live(*tx) ==> r is Err && r->Err_0 is TransactionState,
            old(doc).tx_live(*tx) && !(crate::yvalue::h2e(attrs@) is Some && crate::yvalue::h2e(
                attrs@,
            )->Some_0 is Dict) ==> r is Err && r->Err_0 is Conversion,
            old(doc).tx_live(*tx) && crate::yvalue::h2e(attrs@) is Some && crate::yvalue::h2e(
                attrs@,
            )->Some_0 is Dict && old(doc).has_text(self.name@) && !old(doc).text_insert_in_bounds(
                self.name@,
                index as nat,
                chunk@,
            ) ==> r is Err && r->Err_0 is Bounds,
            r is Ok <==> old(doc).tx_live(*tx) && crate::yvalue::h2e(attrs@) is Some
                && crate::yvalue::h2e(attrs@)->Some_0 is Dict && old(doc).has_text(self.name@)
                && old(doc).text_insert_in_bounds(self.name@, index as nat, chunk@),
            r is Ok ==> text_inserted(
                final(doc).text_items(self.name@),
                old(doc).text_items(self.name@),
                index as int,
                chunk@,
                crate::yvalue::h2e(attrs@)->Some_0->Dict_0,
            ),
            r is Ok ==> final(doc).pending_after_edit(old(doc), ContainerKind::Text, self.name@),
            r is Ok ==> final(doc).pending_rec(ContainerKind::Text, self.name@).data is Txt
                && final(doc).txt_pending_snapshot(self.name@) == (if old(doc).has_pending(
                ContainerKind::Text,
                self.name@,
            ) {
                old(doc).txt_pending_snapshot(self.name@)
            } else {
                old(doc).text_items(self.name@)
            }),
            forall|n: Seq<char>| old(doc).has_text(n) <==> final(doc).has_text(n),
            forall|n: Seq<char>|
                n != self.name@ && old(doc).has_text(n) ==> final(doc).text_items(n) == old(doc).text_items(n),
    {
        let live = match doc.open_tx {
            Some(id) => id == tx.id,
            None => false,
        };
        if !live {
            return Err(BridgeError::TransactionState(String::from_str(
                "the transaction handle is no longer valid",
            )));
        }
        let a = match host_to_attrs(attrs) {
            Ok(a) => a,
            Err(e) => {
                return Err(e);
            },
        };
        let items = chunk_items(chunk, &a);
        let ghost iv = txt_v(items@);
        let ghost av = any_val_dict(a@);
        let r = doc.text_splice(tx, &self.name, index as usize, items, 0);
        proof {
            lemma_text_insert_bridge(
                old(doc),
                doc,
                self.name@,
                index as nat,
                chunk@,
                av,
                iv,
                old(doc).tx_live(*tx),
                r is Ok,
            );
        }
        r
    }

    /// Appends `chunk` at the end of the text.
    pub fn ytext_push(&self, doc: &mut YDoc, tx: &YTransaction, chunk: &str) -> (r: Result<
        (),
        BridgeError,
    >)
        requires
            old(doc).wf(),
        ensures
            final(doc).wf(),
            final(doc).text_edit_frame(old(doc)),
            r is Err ==> *final(doc) == *old(doc),
            !old(doc).tx_live(*tx) ==> r is Err && r->Err_0 is TransactionState,
            old(doc).tx_live(*tx) && old(doc).has_text(self.name@)
                && !old(doc).text_insert_in_bounds(
                self.name@,
                old(doc).text_items(self.name@).len(),
                chunk@,
            ) ==> r is Err && r->Err_0 is Bounds,
            r is Ok <==> old(doc).tx_live(*tx) && old(doc).has_text(self.name@) && old(doc).text_insert_in_bounds(
                self.name@,
                old(doc).text_items(self.name@).len(),
                chunk@,
            ),
            r is Ok ==> text_inserted(
                final(doc).text_items(self.name@),
                old(doc).text_items(self.name@),
                old(doc).text_items(self.name@).len() as int,
                chunk@,
                Seq::empty(),
            ),
            r is Ok ==> final(doc).pending_after_edit(old(doc), ContainerKind::Text, self.name@),
            r is Ok ==> final(doc).pending_rec(ContainerKind::Text, self.name@).data is Txt
                && final(doc).txt_pending_snapshot(self.name@) == (if old(doc).has_pending(
                ContainerKind::Text,
                self.name@,
            ) {
                old(doc).txt_pending_snapshot(self.name@)
            } else {
                old(doc).text_items(self.name@)
            }),
            forall|n: Seq<char>| old(doc).has_text(n) <==> final(doc).has_text(n),
            forall|n: Seq<char>|
                n != self.name@ && old(doc).has_text(n) ==> final(doc).text_items(n) == old(doc).text_items(n),
    {
        let live = match doc.open_tx {
            Some(id) => id == tx.id,
            None => false,
        };
        if !live {
            return Err(BridgeError::TransactionState(String::from_str(
                "the transaction handle is no longer valid",
            )));
        }
        let i = match doc.find_text(&self.name) {
            Some(i) => i,
            None => {
                return Err(BridgeError::Conversion(String::from_str(
                    "unknown text container",
                )));
            },
        };
        proof {
            lemma_unique_text_index(doc, self.name@);
        }
        let len = doc.texts[i].items.len();
        proof {
            assert(doc.text_index_of(self.name@) == i);
            assert(len <= u32::MAX as usize);
        }
        let r = self.ytext_insert(doc, tx, len as u32, chunk);
        r
    }

    /// Removes `len` position units starting at `index`; a zero-length
    /// removal is a no-op.
    pub fn ytext_remove_range(&self, doc: &mut YDoc, tx: &YTransaction, index: u32, len: u32)
        -> (r: Result<(), BridgeError>)
        requires
            old(doc).wf(),
        ensures
            final(doc).wf(),
            final(doc).text_edit_frame(old(doc)),
            r is Err ==> *final(doc) == *old(doc),
            !old(doc).tx_live(*tx) ==> r is Err && r->Err_0 is TransactionState,
            old(doc).tx_live(*tx) && old(doc).has_text(self.name@) && index as nat + len as nat
                > old(doc).text_items(self.name@).len() ==> r is Err && r->Err_0 is Bounds,
            r is Ok <==> old(doc).tx_live(*tx) && old(doc).has_text(self.name@) && index as nat
                + len as nat <= old(doc).text_items(self.name@).len(),
            r is Ok ==> final(doc).text_items(self.name@) == old(doc).text_items(self.name@).take(
                index as int,
            ) + old(doc).text_items(self.name@).skip(index as int + len as int),
            r is Ok ==> final(doc).pending_after_edit(old(doc), ContainerKind::Text, self.name@),
            r is Ok ==> final(doc).pending_rec(ContainerKind::Text, self.name@).data is Txt
                && final(doc).txt_pending_snapshot(self.name@) == (if old(doc).has_pending(
                ContainerKind::Text,
                self.name@,
            ) {
                old(doc).txt_pending_snapshot(self.name@)
            } else {
                old(doc).text_items(self.name@)
            }),
            forall|n: Seq<char>| old(doc).has_text(n) <==> final(doc).has_text(n),
            forall|n: Seq<char>|
                n != self.name@ && old(doc).has_text(n) ==> final(doc).text_items(n) == old(doc).text_items(n),
    {
        let ghost t0 = old(doc).text_items(self.name@);
        let r = doc.text_splice(tx, &self.name, index as usize, Vec::new(), len as usize);
        proof {
            if old(doc).tx_live(*tx) && old(doc).has_text(self.name@) {
                assert(txt_v(Seq::<TextItem>::empty()) =~= Seq::<TextItemVal>::empty());
                if index as nat + len as nat <= t0.len() {
                    assert(t0.len() <= u32::MAX as nat) by {
                        lemma_unique_text_index(old(doc), self.name@);
                    }
                    assert(old(doc).text_splice_in_bounds(
                        self.name@,
                        index as nat,
                        txt_v(Seq::<TextItem>::empty()),
                        len as nat,
                    ));
                }
            }
            if r is Ok {
                assert(t0.take(index as int) + txt_v(Seq::<TextItem>::empty()) + t0.skip(
                    index as int + len as int,
                ) =~= t0.take(index as int) + t0.skip(index as int + len as int));
            }
        }
        r
    }

    /// The length of the text in position units.
    pub fn ytext_length(&self, doc: &YDoc, tx: &YTransaction) -> (r: Result<u32, BridgeError>)
        requires
            doc.wf(),
        ensures
            !doc.tx_live(*tx) ==> r is Err && r->Err_0 is TransactionState,
            r is Ok <==> doc.tx_live(*tx) && doc.has_text(self.name@),
            r is Ok ==> r->Ok_0 as nat == doc.text_items(self.name@).len(),
    {
        let live = match doc.open_tx {
            Some(id) => id == tx.id,
            None => false,
        };
        if !live {
            return Err(BridgeError::TransactionState(String::from_str(
                "the transaction handle is no longer valid",
            )));
        }
        match doc.find_text(&self.name) {
            Some(i) => {
                proof {
                    lemma_unique_text_index(doc, self.name@);
                }
                Ok(doc.texts[i].items.len() as u32)
            },
            None => Err(BridgeError::Conversion(String::from_str(
                "unknown text container",
            ))),
        }
    }

    /// The text's characters as a host string; embedded payloads render
    /// no characters.
    #[verifier::loop_isolation(false)]
    pub fn ytext_to_s(&self, doc: &YDoc, tx: &YTransaction) -> (r: Result<String, BridgeError>)
        requires
            doc.wf(),
        ensures
            !doc.tx_live(*tx) ==> r is Err && r->Err_0 is TransactionState,
            r is Ok <==> doc.tx_live(*tx) && doc.has_text(self.name@),
            r is Ok ==> r->Ok_0@ == items_chars(doc.text_items(self.name@)),
    {
        let live = match doc.open_tx {
            Some(id) => id == tx.id,
            None => false,
        };
        if !live {
            return Err(BridgeError::TransactionState(String::from_str(
                "the transaction handle is no longer valid",
            )));
        }
        let i = match doc.find_text(&self.name) {
            Some(i) => i,
            None => {
                return Err(BridgeError::Conversion(String::from_str(
                    "unknown text container",
                )));
            },
        };
        proof {
            lemma_unique_text_index(doc, self.name@);
        }
        let items = &doc.texts[i].items;
        let mut out = String::new();
        let mut k: usize = 0;
        while k < items.len()
            invariant
                k <= items@.len(),
                out@ == items_chars(txt_v(items@).take(k as int)),
            decreases items@.len() - k,
        {
            proof {
                assert(txt_v(items@).take(k + 1 as int).drop_last() =~= txt_v(items@).take(
                    k as int,
                ));
                assert(txt_v(items@).take(k + 1 as int).last() == txt_v(items@)[k as int]);
            }
            match &items[k].glyph {
                Glyph::Ch(c) => {
                    let sch = char_to_string(*c);
                    out.append(sch.as_str());
                },
                Glyph::Embed(_) => {},
            }
            k += 1;
        }
        proof {
            assert(txt_v(items@).take(items@.len() as int) =~= txt_v(items@));
        }
        Ok(out)
    }

    /// Inserts an embedded payload at `index`: an arbitrary engine value
    /// carried inline, occupying one position unit, wrapped in the given
    /// formatting attributes (pass an empty map for none).
    pub fn ytext_insert_embed_with_attributes(
        &self,
        doc: &mut YDoc,
        tx: &YTransaction,
        index: u32,
        content: &HostValue,
        attrs: &HostValue,
    ) -> (r: Result<(), BridgeError>)
        requires
            old(doc).wf(),
        ensures
            final(doc).wf(),
            final(doc).text_edit_frame(old(doc)),
            r is Err ==> *final(doc) == *old(doc),
            !old(doc).tx_live(*tx) ==> r is Err && r->Err_0 is TransactionState,
            old(doc).tx_live(*tx) && crate::yvalue::h2e(content@) is Some && crate::yvalue::h2e(
                attrs@,
            ) is Some && crate::yvalue::h2e(attrs@)->Some_0 is Dict && old(doc).has_text(
                self.name@,
            ) && !(index as nat <= old(doc).text_items(self.name@).len() && old(doc).text_items(
                self.name@,
            ).len() + 1 <= u32::MAX as nat) ==> r is Err && r->Err_0 is Bounds,
            r is Ok <==> old(doc).tx_live(*tx) && crate::yvalue::h2e(content@) is Some
                && crate::yvalue::h2e(attrs@) is Some && crate::yvalue::h2e(attrs@)->Some_0
                is Dict && old(doc).has_text(self.name@) && index as nat <= old(doc).text_items(
                self.name@,
            ).len() && old(doc).text_items(self.name@).len() + 1 <= u32::MAX as nat,
            r is Ok ==> final(doc).text_items(self.name@) == old(doc).text_items(
                self.name@,
            ).insert(
                index as int,
                (TextItemVal {
                    glyph: GlyphVal::Embed(crate::yvalue::h2e(content@)->Some_0),
                    attrs: crate::yvalue::h2e(attrs@)->Some_0->Dict_0,
                }),
            ),
            r is Ok ==> final(doc).pending_after_edit(old(doc), ContainerKind::Text, self.name@),
            r is Ok ==> final(doc).pending_rec(ContainerKind::Text, self.name@).data is Txt
                && final(doc).txt_pending_snapshot(self.name@) == (if old(doc).has_pending(
                ContainerKind::Text,
                self.name@,
            ) {
                old(doc).txt_pending_snapshot(self.name@)
            } else {
                old(doc).text_items(self.name@)
            }),
            forall|n: Seq<char>| old(doc).has_text(n) <==> final(doc).has_text(n),
            forall|n: Seq<char>|
                n != self.name@ && old(doc).has_text(n) ==> final(doc).text_items(n) == old(doc).text_items(n),
    {
        let live = match doc.open_tx {
            Some(id) => id == tx.id,
            None => false,
        };
        if !live {
            return Err(BridgeError::TransactionState(String::from_str(
                "the transaction handle is no longer valid",
            )));
        }
        let v = match host_to_engine(content) {
            Ok(v) => v,
            Err(e) => {
                return Err(e);
            },
        };
        let a = match host_to_attrs(attrs) {
            Ok(a) => a,
            Err(e) => {
                return Err(e);
            },
        };
        let mut ins: Vec<TextItem> = Vec::new();
        ins.push(TextItem { glyph: Glyph::Embed(v), attrs: a });
        let ghost iv = txt_v(ins@);
        let ghost t0 = old(doc).text_items(self.name@);
        proof {
            assert(iv.len() == 1);
            assert(iv[0] == ins@[0]@);
            assert(iv[0].glyph == ins@[0].glyph@);
            assert(iv[0].glyph is Embed);
        }
        let r = doc.text_splice(tx, &self.name, index as usize, ins, 0);
        proof {
            if r is Ok {
                assert(t0.take(index as int) + iv + t0.skip(index as int) =~= t0.insert(
                    index as int,
                    iv[0],
                ));
            }
        }
        r
    }

    /// Inserts an embedded payload at `index` with no formatting.
    pub fn ytext_insert_embed(
        &self,
        doc: &mut YDoc,
        tx: &YTransaction,
        index: u32,
        content: &HostValue,
    ) -> (r: Result<(), BridgeError>)
        requires
            old(doc).wf(),
        ensures
            final(doc).wf(),
            final(doc).text_edit_frame(old(doc)),
            r is Err ==> *final(doc) == *old(doc),
            !old(doc).tx_live(*tx) ==> r is Err && r->Err_0 is TransactionState,
            old(doc).tx_live(*tx) && crate::yvalue::h2e(content@) is Some && old(doc).has_text(
                self.name@,
            ) && !(index as nat <= old(doc).text_items(self.name@).len() && old(doc).text_items(
                self.name@,
            ).len() + 1 <= u32::MAX as nat) ==> r is Err && r->Err_0 is Bounds,
            r is Ok <==> old(doc).tx_live(*tx) && crate::yvalue::h2e(content@) is Some && old(doc).has_text(self.name@) && index as nat <= old(doc).text_items(self.name@).len()
                && old(doc).text_items(self.name@).len() + 1 <= u32::MAX as nat,
            r is Ok ==> final(doc).text_items(self.name@) == old(doc).text_items(
                self.name@,
            ).insert(
                index as int,
                (TextItemVal {
                    glyph: GlyphVal::Embed(crate::yvalue::h2e(content@)->Some_0),
                    attrs: Seq::empty(),
                }),
            ),
            r is Ok ==> final(doc).pending_after_edit(old(doc), ContainerKind::Text, self.name@),
            r is Ok ==> final(doc).pending_rec(ContainerKind::Text, self.name@).data is Txt
                && final(doc).txt_pending_snapshot(self.name@) == (if old(doc).has_pending(
                ContainerKind::Text,
                self.name@,
            ) {
                old(doc).txt_pending_snapshot(self.name@)
            } else {
                old(doc).text_items(self.name@)
            }),
            forall|n: Seq<char>| old(doc).has_text(n) <==> final(doc).has_text(n),
            forall|n: Seq<char>|
                n != self.name@ && old(doc).has_text(n) ==> final(doc).text_items(n) == old(doc).text_items(n),
    {
        let empty = HostValue::Dict(Vec::new());
        proof {
            assert(crate::yvalue::host_val_pairs(Seq::<crate::yvalue::HostPair>::empty())
                =~= Seq::<(crate::yvalue::HostVal, crate::yvalue::HostVal)>::empty());
            assert(crate::yvalue::h2e(empty@) == Some(
                crate::engine_any::AnyVal::Dict(Seq::empty()),
            ));
        }
        self.ytext_insert_embed_with_attributes(doc, tx, index, content, &empty)
    }

    /// Wraps `len` position units starting at `index` in the given
    /// formatting attributes, merging them over each covered item's
    /// existing attributes (the content stands).  Formatting lives in
    /// this document's model and in the change payloads it delivers; it
    /// does not cross the trusted boundary, so replicas synchronized
    /// through binary updates receive the content without it.
    #[verifier::loop_isolation(false)]
    #[verifier::rlimit(100)]
    pub fn ytext_format(
        &self,
        doc: &mut YDoc,
        tx: &YTransaction,
        index: u32,
        len: u32,
        attrs: &HostValue,
    ) -> (r: Result<(), BridgeError>)
        requires
            old(doc).wf(),
        ensures
            final(doc).wf(),
            final(doc).text_edit_frame(old(doc)),
            r is Err ==> *final(doc) == *old(doc),
            !old(doc).tx_live(*tx) ==> r is Err && r->Err_0 is TransactionState,
            old(doc).tx_live(*tx) && crate::yvalue::h2e(attrs@) is Some && crate::yvalue::h2e(
                attrs@,
            )->Some_0 is Dict && old(doc).has_text(self.name@) && index as nat + len as nat > old(
                doc,
            ).text_items(self.name@).len() ==> r is Err && r->Err_0 is Bounds,
            r is Ok <==> old(doc).tx_live(*tx) && crate::yvalue::h2e(attrs@) is Some
                && crate::yvalue::h2e(attrs@)->Some_0 is Dict && old(doc).has_text(self.name@)
                && index as nat + len as nat <= old(doc).text_items(self.name@).len(),
            r is Ok ==> final(doc).text_items(self.name@).len() == old(doc).text_items(
                self.name@,
            ).len(),
            r is Ok ==> forall|k: int|
                0 <= k < old(doc).text_items(self.name@).len() && !(index as int <= k < index as int
                    + len as int) ==> #[trigger] final(doc).text_items(self.name@)[k] == old(doc).text_items(self.name@)[k],
            r is Ok ==> forall|k: int|
                index as int <= k < index as int + len as int ==> (#[trigger] final(doc).text_items(self.name@)[k]).glyph == old(doc).text_items(self.name@)[k].glyph
                    && final(doc).text_items(self.name@)[k].attrs == dict_put_all(
                    old(doc).text_items(self.name@)[k].attrs,
                    crate::yvalue::h2e(attrs@)->Some_0->Dict_0,
                ),
            r is Ok ==> final(doc).pending_after_edit(old(doc), ContainerKind::Text, self.name@),
            r is Ok ==> final(doc).pending_rec(ContainerKind::Text, self.name@).data is Txt
                && final(doc).txt_pending_snapshot(self.name@) == (if old(doc).has_pending(
                ContainerKind::Text,
                self.name@,
            ) {
                old(doc).txt_pending_snapshot(self.name@)
            } else {
                old(doc).text_items(self.name@)
            }),
            forall|n: Seq<char>| old(doc).has_text(n) <==> final(doc).has_text(n),
            forall|n: Seq<char>|
                n != self.name@ && old(doc).has_text(n) ==> final(doc).text_items(n) == old(doc).text_items(n),
    {
        let live = match doc.open_tx {
            Some(id) => id == tx.id,
            None => false,
        };
        if !live {
            return Err(BridgeError::TransactionState(String::from_str(
                "the transaction handle is no longer valid",
            )));
        }
        let a = match host_to_attrs(attrs) {
            Ok(a) => a,
            Err(e) => {
                return Err(e);
            },
        };
        let i = match doc.find_text(&self.name) {
            Some(i) => i,
            None => {
                return Err(BridgeError::Conversion(String::from_str(
                    "unknown text container",
                )));
            },
        };
        proof {
            lemma_unique_text_index(doc, self.name@);
            assert(doc.text_index_of(self.name@) == i);
        }
        let total = doc.texts[i].items.len();
        if index as usize > total || len as usize > total - index as usize {
            return Err(BridgeError::Bounds(String::from_str(
                "index or range lies outside the text",
            )));
        }
        let ghost t0 = doc.text_items(self.name@);
        // Rebuild the covered items with the merged attributes.
        let ghost av = crate::engine_any::any_val_dict(a@);
        let mut ins: Vec<TextItem> = Vec::new();
        let mut k: usize = 0;
        while k < len as usize
            invariant
                k <= len as usize,
                ins@.len() == k,
                index as usize + len as usize <= doc.texts@[i as int].items@.len(),
                forall|l: int|
                    0 <= l < k ==> (#[trigger] txt_v(ins@)[l]).glyph == t0[index as int + l].glyph
                        && txt_v(ins@)[l].attrs == dict_put_all(t0[index as int + l].attrs, av),
            decreases len as usize - k,
        {
            let item = &doc.texts[i].items[index as usize + k];
            let glyph = match &item.glyph {
                Glyph::Ch(c) => Glyph::Ch(*c),
                Glyph::Embed(v) => Glyph::Embed(crate::yvalue::any_duplicate(v)),
            };
            let ghost gv = item.glyph@;
            proof {
                assert(t0[index as int + k as int] == doc.texts@[i as int].items@[index as int
                    + k as int]@);
            }
            let merged = merge_attrs(&item.attrs, &a);
            let ghost mv = any_val_dict(merged@);
            proof {
                assert(glyph@ == gv);
            }
            let ghost previns = ins@;
            ins.push(TextItem { glyph, attrs: merged });
            proof {
                assert(txt_v(ins@)[k as int] == ins@[k as int]@);
                assert(ins@[k as int]@.glyph == gv);
                assert(ins@[k as int]@.attrs == mv);
                assert(gv == t0[index as int + k as int].glyph);
                assert(mv == dict_put_all(t0[index as int + k as int].attrs, av));
                assert forall|l: int| 0 <= l < k implies (#[trigger] txt_v(ins@)[l]).glyph == t0[
                    index as int + l
                ].glyph && txt_v(ins@)[l].attrs == dict_put_all(t0[index as int + l].attrs, av)
                    by {
                    assert(ins@[l] == previns[l]);
                    assert(txt_v(ins@)[l] == ins@[l]@);
                    assert(txt_v(previns)[l] == previns[l]@);
                }
            }
            k += 1;
        }
        let ghost iv = txt_v(ins@);
        let r = doc.text_splice(tx, &self.name, index as usize, ins, len as usize);
        proof {
            if old(doc).has_text(self.name@) && index as nat + len as nat <= t0.len() {
                assert(t0.len() <= u32::MAX as nat);
            }
            if r is Ok {
                let t1 = doc.text_items(self.name@);
                assert(t1 == t0.take(index as int) + iv + t0.skip(index as int + len as int));
                assert forall|k2: int|
                    0 <= k2 < t0.len() && !(index as int <= k2 < index as int + len as int)
                        implies #[trigger] t1[k2] == t0[k2] by {
                    if k2 < index as int {
                        assert(t1[k2] == t0.take(index as int)[k2]);
                    } else {
                        assert(t1[k2] == t0.skip(index as int + len as int)[k2 - index - len]);
                    }
                }
                assert forall|k2: int|
                    index as int <= k2 < index as int + len as int implies (#[trigger] t1[
                    k2]).glyph == t0[k2].glyph && t1[k2].attrs == dict_put_all(t0[k2].attrs, av)
                    by {
                    assert(t1[k2] == iv[k2 - index]);
                }
            }
        }
        r
    }

    /// Subscribes an observer to this container.
    pub fn ytext_observe(&self, doc: &mut YDoc) -> (r: Result<u64, BridgeError>)
        requires
            old(doc).wf(),
        ensures
            final(doc).wf(),
            final(doc).arrays@ == old(doc).arrays@,
            final(doc).hashes@ == old(doc).hashes@,
            final(doc).texts@ == old(doc).texts@,
            final(doc).pending@ == old(doc).pending@,
            final(doc).open_tx == old(doc).open_tx,
            old(doc).sub_counter < u64::MAX ==> r is Ok && final(doc).subs@ == old(doc).subs@.push(
                (Subscription {
                    id: old(doc).sub_counter,
                    target: SubTarget { kind: ContainerKind::Text, root: self.name },
                    active: true,
                }),
            ),
            r is Ok ==> final(doc).subs@.last().target.kind == ContainerKind::Text
                && final(doc).subs@.last().target.root@ == self.name@
                && final(doc).subs@.last().active && r->Ok_0 == final(doc).subs@.last().id,
    {
        doc.observe_target(SubTarget { kind: ContainerKind::Text, root: self.name.clone() })
    }

    /// Unsubscribes one observer; an unknown subscription is a no-op.
    pub fn ytext_unobserve(&self, doc: &mut YDoc, subscription: u64)
        requires
            old(doc).wf(),
        ensures
            final(doc).wf(),
            final(doc).arrays@ == old(doc).arrays@,
            final(doc).hashes@ == old(doc).hashes@,
            final(doc).texts@ == old(doc).texts@,
            final(doc).pending@ == old(doc).pending@,
            final(doc).open_tx == old(doc).open_tx,
            final(doc).update_subs@ == old(doc).update_subs@,
            final(doc).engine == old(doc).engine,
            final(doc).subs@.len() == old(doc).subs@.len(),
            forall|i: int|
                0 <= i < old(doc).subs@.len() && old(doc).subs@[i].id != subscription
                    ==> final(doc).subs@[i] == old(doc).subs@[i],
            forall|i: int|
                0 <= i < old(doc).subs@.len() && old(doc).subs@[i].id == subscription
                    ==> final(doc).subs@[i].id == old(doc).subs@[i].id && final(doc).subs@[i].target
                    == old(doc).subs@[i].target && !final(doc).subs@[i].active,
    {
        doc.unobserve_id(subscription)
    }
}

/// Bridges the splice-level contract of a chunk insertion to the
/// insertion-shaped description of the result.
pub proof fn lemma_text_insert_bridge(
    doc0: &YDoc,
    doc1: &YDoc,
    name: Seq<char>,
    index: nat,
    chunk: Seq<char>,
    attrs: Seq<(Seq<char>, AnyVal)>,
    iv: Seq<TextItemVal>,
    live: bool,
    ok: bool,
)
    requires
        is_chunk_items(iv, chunk, attrs),
        ok <==> live && doc0.has_text(name) && doc0.text_splice_in_bounds(name, index, iv, 0),
        ok ==> doc1.text_items(name) == doc0.text_items(name).take(index as int) + iv
            + doc0.text_items(name).skip(index as int),
    ensures
        ok <==> live && doc0.has_text(name) && doc0.text_insert_in_bounds(name, index, chunk),
        ok ==> text_inserted(
            doc1.text_items(name),
            doc0.text_items(name),
            index as int,
            chunk,
            attrs,
        ),
{
    let t0 = doc0.text_items(name);
    if ok {
        let t1 = doc1.text_items(name);
        assert(t1.take(index as int) =~= t0.take(index as int));
        assert(t1.skip(index as int + chunk.len() as int) =~= t0.skip(index as int));
        assert(t1.subrange(index as int, index as int + chunk.len() as int) =~= iv);
    }
}

/// Applies each of `adds`, in order, over a base attribute map.
pub open spec fn dict_put_all(
    base: Seq<(Seq<char>, AnyVal)>,
    adds: Seq<(Seq<char>, AnyVal)>,
) -> Seq<(Seq<char>, AnyVal)>
    decreases adds,
{
    if adds.len() == 0 {
        base
    } else {
        crate::yvalue::dict_put(dict_put_all(base, adds.drop_last()), adds.last().0, adds.last().1)
    }
}

/// Merges formatting attributes into a copy of an item's attribute map.
#[verifier::loop_isolation(false)]
pub(crate) fn merge_attrs(base: &Vec<DictEntry>, adds: &Vec<DictEntry>) -> (r: Vec<DictEntry>)
    ensures
        any_val_dict(r@) == dict_put_all(any_val_dict(base@), any_val_dict(adds@)),
{
    broadcast use crate::engine_any::lemma_any_val_dict_len,
        crate::engine_any::lemma_any_val_dict_index;

    let mut r = crate::ydoc::entries_duplicate(base);
    let ghost addv = any_val_dict(adds@);
    let mut i: usize = 0;
    while i < adds.len()
        invariant
            i <= adds@.len(),
            any_val_dict(r@) == dict_put_all(any_val_dict(base@), addv.take(i as int)),
        decreases adds@.len() - i,
    {
        let k = adds[i].key.clone();
        let v = crate::yvalue::any_duplicate(&adds[i].val);
        let ghost before = any_val_dict(r@);
        crate::yvalue::dict_entry_put(&mut r, k, v);
        proof {
            assert(addv.take(i + 1 as int).drop_last() =~= addv.take(i as int));
            assert(addv.take(i + 1 as int).last() == addv[i as int]);
        }
        i += 1;
    }
    proof {
        assert(addv.take(adds@.len() as int) =~= addv);
    }
    r
}

} // verus!
