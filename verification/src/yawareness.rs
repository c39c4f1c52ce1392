use vstd::prelude::*;

use crate::engine::fresh_client_id;
use crate::error::BridgeError;

verus! {

/// One registered awareness-update observer slot.
pub struct AwarenessSub {
    pub id: u64,
    pub active: bool,
}

/// Presence bookkeeping for one client: the client's identity and the
/// JSON document it publishes about itself.  This layer keeps the local
/// client's state and notifies registered observers of every change;
/// observers receive the identifiers to call back, in registration order.
pub struct YAwareness {
    pub client: u64,
    pub local: Option<String>,
    pub subs: Vec<AwarenessSub>,
    pub sub_counter: u64,
}

impl YAwareness {
    pub open spec fn wf(&self) -> bool {
        &&& forall|i: int, j: int|
            0 <= i < j < self.subs@.len() ==> self.subs@[i].id != self.subs@[j].id
        &&& forall|i: int| 0 <= i < self.subs@.len() ==> self.subs@[i].id < self.sub_counter
    }

    /// Creates a presence record with a fresh client identifier.
    pub fn yawareness_new() -> (r: YAwareness)
        ensures
            r.wf(),
            r.local is None,
            r.subs@.len() == 0,
    {
        YAwareness { client: fresh_client_id(), local: None, subs: Vec::new(), sub_counter: 0 }
    }

    /// The client identifier this record publishes under.
    pub fn yawareness_client_id(&self) -> (r: u64)
        ensures
            r == self.client,
    {
        self.client
    }

    /// Publishes a new local state; returns the active observers to
    /// notify, in registration order.
    pub fn yawareness_set_local_state(&mut self, json: String) -> (r: Vec<u64>)
        requires
            old(self).wf(),
        ensures
            final(self).wf(),
            final(self).local == Some(json),
            final(self).subs@ == old(self).subs@,
            final(self).client == old(self).client,
            r@ == notify_list(old(self).subs@),
    {
        self.local = Some(json);
        self.notify()
    }

    /// Clears the local state; returns the active observers to notify.
    pub fn yawareness_clean_local_state(&mut self) -> (r: Vec<u64>)
        requires
            old(self).wf(),
        ensures
            final(self).wf(),
            final(self).local is None,
            final(self).subs@ == old(self).subs@,
            final(self).client == old(self).client,
            r@ == notify_list(old(self).subs@),
    {
        self.local = None;
        self.notify()
    }

    /// The currently published local state, if any.
    pub fn yawareness_local_state(&self) -> (r: Option<String>)
        ensures
            ({
                match (r, self.local) {
                    (Some(a), Some(b)) => a@ == b@,
                    (None, None) => true,
                    _ => false,
                }
            }),
    {
        match &self.local {
            Some(s) => Some(s.clone()),
            None => None,
        }
    }

    /// Registers an observer; observers fire on every local-state change.
    pub fn yawareness_on_update(&mut self) -> (r: Result<u64, BridgeError>)
        requires
            old(self).wf(),
        ensures
            final(self).wf(),
            final(self).local == old(self).local,
            final(self).client == old(self).client,
            old(self).sub_counter < u64::MAX ==> r is Ok && final(self).subs@ == old(
                self,
            ).subs@.push((AwarenessSub { id: old(self).sub_counter, active: true })) && r->Ok_0
                == old(self).sub_counter,
            r is Err ==> r->Err_0 is TransactionState,
    {
        if self.sub_counter == u64::MAX {
            return Err(BridgeError::TransactionState(String::from_str(
                "subscription identifiers exhausted",
            )));
        }
        let id = self.sub_counter;
        self.sub_counter = self.sub_counter + 1;
        self.subs.push(AwarenessSub { id, active: true });
        Ok(id)
    }

    /// Removes an observer; an unknown subscription is a no-op.
    pub fn yawareness_remove_on_update(&mut self, subscription: u64)
        requires
            old(self).wf(),
        ensures
            final(self).wf(),
            final(self).local == old(self).local,
            final(self).client == old(self).client,
            final(self).subs@.len() == old(self).subs@.len(),
            forall|i: int|
                0 <= i < old(self).subs@.len() && old(self).subs@[i].id != subscription
                    ==> final(self).subs@[i] == old(self).subs@[i],
            forall|i: int|
                0 <= i < old(self).subs@.len() && old(self).subs@[i].id == subscription
                    ==> final(self).subs@[i].id == old(self).subs@[i].id
                    && !final(self).subs@[i].active,
    {
        let ghost subs0 = self.subs@;
        let mut i: usize = 0;
        while i < self.subs.len()
            invariant
                old(self).wf(),
                i <= self.subs@.len(),
                self.subs@.len() == subs0.len(),
                self.local == old(self).local,
                self.client == old(self).client,
                self.sub_counter == old(self).sub_counter,
                forall|j: int| i <= j < subs0.len() ==> self.subs@[j] == subs0[j],
                forall|j: int|
                    0 <= j < i && subs0[j].id != subscription ==> self.subs@[j] == subs0[j],
                forall|j: int|
                    0 <= j < i && subs0[j].id == subscription ==> self.subs@[j].id == subs0[j].id
                        && !self.subs@[j].active,
            decreases self.subs@.len() - i,
        {
            if self.subs[i].id == subscription {
                let id = self.subs[i].id;
                self.subs.set(i, AwarenessSub { id, active: false });
            }
            i += 1;
        }
        proof {
            assert forall|a: int, b: int| 0 <= a < b < self.subs@.len() implies self.subs@[a].id
                != self.subs@[b].id by {
                assert(self.subs@[a].id == subs0[a].id);
                assert(self.subs@[b].id == subs0[b].id);
            }
            assert forall|a: int| 0 <= a < self.subs@.len() implies self.subs@[a].id < self
                .sub_counter by {
                assert(self.subs@[a].id == subs0[a].id);
            }
        }
    }

    /// Collects the active observer identifiers, in registration order.
    #[verifier::loop_isolation(false)]
    fn notify(&self) -> (r: Vec<u64>)
        ensures
            r@ == notify_list(self.subs@),
    {
        let mut r: Vec<u64> = Vec::new();
        let mut i: usize = 0;
        while i < self.subs.len()
            invariant
                i <= self.subs@.len(),
                r@ == notify_list(self.subs@.take(i as int)),
            decreases self.subs@.len() - i,
        {
            proof {
                assert(self.subs@.take(i + 1 as int).drop_last() =~= self.subs@.take(i as int));
                assert(self.subs@.take(i + 1 as int).last() == self.subs@[i as int]);
            }
            if self.subs[i].active {
                r.push(self.subs[i].id);
            }
            i += 1;
        }
        proof {
            assert(self.subs@.take(self.subs@.len() as int) =~= self.subs@);
        }
        r
    }
}

/// The identifiers of the active observer slots, in registration order.
pub open spec fn notify_list(subs: Seq<AwarenessSub>) -> Seq<u64>
    decreases subs,
{
    if subs.len() == 0 {
        Seq::empty()
    } else if subs.last().active {
        notify_list(subs.drop_last()).push(subs.last().id)
    } else {
        notify_list(subs.drop_last())
    }
}

} // verus!
