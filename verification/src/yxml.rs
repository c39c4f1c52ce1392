use vstd::prelude::*;

use crate::error::BridgeError;
use crate::ydoc::{SubTarget, Subscription, YDoc};
use crate::yvalue::ContainerKind;

verus! {

/// A host-held proxy for a root XML element container, aliasing it by
/// name.  The XML tree's own contents are not modelled by this library;
/// the proxy exists so that observers can be registered on the container
/// and disposed of through the same registry as the other kinds.
pub struct YXmlElement {
    pub name: String,
}

impl YXmlElement {
    /// Subscribes an observer to this container; see
    /// [`YDoc::observe_target`].
    pub fn yxml_element_observe(&self, doc: &mut YDoc) -> (r: Result<u64, BridgeError>)
        requires
            old(doc).wf(),
        ensures
            final(doc).wf(),
            final(doc).arrays@ == old(doc).arrays@,
            final(doc).hashes@ == old(doc).hashes@,
            final(doc).texts@ == old(doc).texts@,
            final(doc).pending@ == old(doc).pending@,
            final(doc).open_tx == old(doc).open_tx,
            old(doc).sub_counter < u64::MAX ==> r is Ok && final(doc).subs@ == old(doc).subs@.push(
                (Subscription {
                    id: old(doc).sub_counter,
                    target: SubTarget { kind: ContainerKind::XmlElement, root: self.name },
                    active: true,
                }),
            ),
            r is Ok ==> final(doc).subs@.last().target.kind == ContainerKind::XmlElement
                && final(doc).subs@.last().target.root@ == self.name@
                && final(doc).subs@.last().active && r->Ok_0 == final(doc).subs@.last().id,
    {
        doc.observe_target(SubTarget { kind: ContainerKind::XmlElement, root: self.name.clone() })
    }

    /// Unsubscribes one observer; an unknown subscription is a no-op.
    pub fn yxml_element_unobserve(&self, doc: &mut YDoc, subscription: u64)
        requires
            old(doc).wf(),
        ensures
            final(doc).wf(),
            final(doc).arrays@ == old(doc).arrays@,
            final(doc).hashes@ == old(doc).hashes@,
            final(doc).texts@ == old(doc).texts@,
            final(doc).pending@ == old(doc).pending@,
            final(doc).open_tx == old(doc).open_tx,
            final(doc).update_subs@ == old(doc).update_subs@,
            final(doc).engine == old(doc).engine,
            final(doc).subs@.len() == old(doc).subs@.len(),
            forall|i: int|
                0 <= i < old(doc).subs@.len() && old(doc).subs@[i].id != subscription
                    ==> final(doc).subs@[i] == old(doc).subs@[i],
            forall|i: int|
                0 <= i < old(doc).subs@.len() && old(doc).subs@[i].id == subscription
                    ==> final(doc).subs@[i].id == old(doc).subs@[i].id && final(doc).subs@[i].target
                    == old(doc).subs@[i].target && !final(doc).subs@[i].active,
    {
        doc.unobserve_id(subscription)
    }
}

} // verus!
