use vstd::prelude::*;

use crate::error::RegistryError;

verus! {

/// One stored mapping: an identifier and the content hash it points to.
struct MappingEntry {
    token_id: String,
    cid: String,
}

/// Abstract state of the mapping registry.
pub struct IpcmState {
    pub owner: Option<Seq<char>>,
    pub mappings: Map<Seq<char>, Seq<char>>,
}

impl IpcmState {
    /// The current content hash of `t`; an identifier never set reads as empty.
    pub open spec fn cid_of(self, t: Seq<char>) -> Seq<char> {
        if self.mappings.contains_key(t) {
            self.mappings[t]
        } else {
            Seq::empty()
        }
    }
}

/// The single authorization policy of the mapping registry: the error that a
/// call by `caller` (with or without a valid proof of control) meets, if any.
pub open spec fn owner_check(
    owner: Option<Seq<char>>,
    caller: Seq<char>,
    authorized: bool,
) -> Option<RegistryError> {
    match owner {
        None => Some(RegistryError::NotInitialized),
        Some(o) => if caller != o {
            Some(RegistryError::NotOwner)
        } else if !authorized {
            Some(RegistryError::NotAuthorized)
        } else {
            None
        },
    }
}

/// Event published by a successful mapping update.
pub struct MappingUpdated {
    pub token_id: String,
    pub old_cid: String,
    pub new_cid: String,
    pub caller: String,
}

/// Abstract content of a [`MappingUpdated`] event.
pub struct MappingUpdatedView {
    pub token_id: Seq<char>,
    pub old_cid: Seq<char>,
    pub new_cid: Seq<char>,
    pub caller: Seq<char>,
}

impl View for MappingUpdated {
    type V = MappingUpdatedView;

    open spec fn view(&self) -> MappingUpdatedView {
        MappingUpdatedView {
            token_id: self.token_id@,
            old_cid: self.old_cid@,
            new_cid: self.new_cid@,
            caller: self.caller@,
        }
    }
}

/// Event published by a successful ownership transfer.
pub struct OwnershipTransferred {
    pub old_owner: String,
    pub new_owner: String,
}

/// `post` is `pre` after the mapping change that event `ev` records: the event
/// carries the value that was overwritten, and only that identifier changed.
pub open spec fn applies_update(pre: IpcmState, ev: MappingUpdatedView, post: IpcmState) -> bool {
    &&& ev.old_cid == pre.cid_of(ev.token_id)
    &&& post.mappings == pre.mappings.insert(ev.token_id, ev.new_cid)
    &&& post.owner == pre.owner
}

/// The content-address mapping registry: an owner, set once, and a mutable
/// pointer from each identifier to a content hash.
pub struct OctopusIPCMContract {
    owner: Option<String>,
    entries: Vec<MappingEntry>,
    mappings: Ghost<Map<Seq<char>, Seq<char>>>,
}

impl View for OctopusIPCMContract {
    type V = IpcmState;

    closed spec fn view(&self) -> IpcmState {
        IpcmState {
            owner: match self.owner {
                Some(o) => Some(o@),
                None => None,
            },
            mappings: self.mappings@,
        }
    }
}

impl OctopusIPCMContract {
    /// The stored entries hold one entry per identifier, and they are exactly
    /// the abstract mappings.
    pub closed spec fn wf(&self) -> bool {
        &&& forall|i: int, j: int|
            0 <= i < j < self.entries@.len() ==> self.entries@[i].token_id@
                != self.entries@[j].token_id@
        &&& forall|i: int|
            0 <= i < self.entries@.len() ==> #[trigger] self.mappings@.contains_key(
                self.entries@[i].token_id@,
            ) && self.mappings@[self.entries@[i].token_id@] == self.entries@[i].cid@
        &&& forall|k: Seq<char>|
            #[trigger] self.mappings@.contains_key(k) ==> exists|i: int|
                0 <= i < self.entries@.len() && self.entries@[i].token_id@ == k
    }

    /// An uninitialized registry with no mappings.
    pub fn new() -> (r: Self)
        ensures
            r.wf(),
            r@.owner is None,
            r@.mappings == Map::<Seq<char>, Seq<char>>::empty(),
    {
        OctopusIPCMContract { owner: None, entries: Vec::new(), mappings: Ghost(Map::empty()) }
    }

    /// Sets the owner; fails if an owner is already set.
    pub fn initialize(&mut self, owner: String) -> (r: Result<(), RegistryError>)
        requires
            old(self).wf(),
        ensures
            final(self).wf(),
            old(self)@.owner is Some ==> r == Err::<(), RegistryError>(
                RegistryError::AlreadyInitialized,
            ) && final(self)@ == old(self)@,
            old(self)@.owner is None ==> r is Ok && final(self)@.owner == Some(owner@)
                && final(self)@.mappings == old(self)@.mappings,
    {
        if self.owner.is_some() {
            return Err(RegistryError::AlreadyInitialized);
        }
        self.owner = Some(owner);
        assert(self.entries@ == old(self).entries@);
        assert(self.mappings@ == old(self).mappings@);
        Ok(())
    }

    /// Authorization for owner-only operations: the caller must be the owner
    /// and must prove control of that principal.
    fn require_owner(&self, caller: &String, authorized: bool) -> (r: Result<(), RegistryError>)
        ensures
            match owner_check(self@.owner, caller@, authorized) {
                Some(e) => r == Err::<(), RegistryError>(e),
                None => r is Ok,
            },
    {
        match &self.owner {
            None => Err(RegistryError::NotInitialized),
            Some(o) => {
                if *caller != *o {
                    Err(RegistryError::NotOwner)
                } else if !authorized {
                    Err(RegistryError::NotAuthorized)
                } else {
                    Ok(())
                }
            },
        }
    }

    /// The position of the entry for `token_id`, if there is one.
    fn find(&self, token_id: &String) -> (r: Option<usize>)
        requires
            self.wf(),
        ensures
            match r {
                Some(i) => i < self.entries@.len() && self.entries@[i as int].token_id@
                    == token_id@,
                None => !self@.mappings.contains_key(token_id@),
            },
    {
        let mut i: usize = 0;
        while i < self.entries.len()
            invariant
                self.wf(),
                i <= self.entries@.len(),
                forall|j: int| 0 <= j < i ==> self.entries@[j].token_id@ != token_id@,
            decreases self.entries@.len() - i,
        {
            if self.entries[i].token_id == *token_id {
                return Some(i);
            }
            i = i + 1;
        }
        None
    }

    /// Points `token_id` at `cid`. Only the owner, with a proof of control, may
    /// do so. The published event carries the overwritten value (empty if the
    /// identifier was never set), which makes the history reconstructable.
    pub fn update_mapping(
        &mut self,
        caller: String,
        authorized: bool,
        token_id: String,
        cid: String,
    ) -> (r: Result<MappingUpdated, RegistryError>)
        requires
            old(self).wf(),
        ensures
            final(self).wf(),
            match owner_check(old(self)@.owner, caller@, authorized) {
                Some(e) => r == Err::<MappingUpdated, RegistryError>(e) && final(self)@
                    == old(self)@,
                None => match r {
                    Ok(ev) => applies_update(old(self)@, ev@, final(self)@) && ev@.token_id
                        == token_id@ && ev@.new_cid == cid@ && ev@.caller == caller@,
                    Err(_) => false,
                },
            },
    {
        if let Err(e) = self.require_owner(&caller, authorized) {
            return Err(e);
        }
        let ghost old_entries = self.entries@;
        let ghost old_map = self.mappings@;
        let ghost pos: int;
        let old_cid = match self.find(&token_id) {
            Some(i) => {
                let old_cid = self.entries[i].cid.clone();
                self.entries.set(i, MappingEntry { token_id: token_id.clone(), cid: cid.clone() });
                proof {
                    pos = i as int;
                }
                old_cid
            },
            None => {
                self.entries.push(MappingEntry { token_id: token_id.clone(), cid: cid.clone() });
                proof {
                    pos = old_entries.len() as int;
                }
                String::new()
            },
        };
        self.mappings = Ghost(old_map.insert(token_id@, cid@));
        proof {
            assert(self.entries@[pos].token_id@ == token_id@);
            assert(self.entries@[pos].cid@ == cid@);
            assert forall|i: int| 0 <= i < self.entries@.len() && i != pos implies #[trigger] self.entries@[i]
                == old_entries[i] && self.entries@[i].token_id@ != token_id@ by {
                assert(old_map.contains_key(old_entries[i].token_id@));
            }
            assert forall|k: Seq<char>| #[trigger] self.mappings@.contains_key(k) implies exists|
                i: int,
            | 0 <= i < self.entries@.len() && self.entries@[i].token_id@ == k by {
                if k == token_id@ {
                    assert(self.entries@[pos].token_id@ == k);
                } else {
                    assert(old_map.contains_key(k));
                    let j = choose|j: int|
                        0 <= j < old_entries.len() && old_entries[j].token_id@ == k;
                    assert(self.entries@[j].token_id@ == k);
                }
            }
        }
        Ok(MappingUpdated { token_id, old_cid, new_cid: cid, caller })
    }

    /// The current content hash of `token_id`, or an empty string if it was
    /// never set. Needs no authorization and never fails.
    pub fn get_mapping(&self, token_id: &String) -> (r: String)
        requires
            self.wf(),
        ensures
            r@ == self@.cid_of(token_id@),
    {
        match self.find(token_id) {
            Some(i) => self.entries[i].cid.clone(),
            None => String::new(),
        }
    }

    /// Hands the registry to `new_owner`. Only the owner, with a proof of
    /// control, may do so.
    pub fn transfer_ownership(
        &mut self,
        caller: String,
        authorized: bool,
        new_owner: String,
    ) -> (r: Result<OwnershipTransferred, RegistryError>)
        requires
            old(self).wf(),
        ensures
            final(self).wf(),
            match owner_check(old(self)@.owner, caller@, authorized) {
                Some(e) => r == Err::<OwnershipTransferred, RegistryError>(e) && final(self)@
                    == old(self)@,
                None => match r {
                    Ok(ev) => ev.old_owner@ == caller@ && ev.new_owner@ == new_owner@ 
                        && final(self)@.owner == Some(new_owner@)
                        && final(self)@.mappings == old(self)@.mappings,
                    Err(_) => false,
                },
            },
    {
        if let Err(e) = self.require_owner(&caller, authorized) {
            return Err(e);
        }
        self.owner = Some(new_owner.clone());
        assert(self.entries@ == old(self).entries@);
        assert(self.mappings@ == old(self).mappings@);
        Ok(OwnershipTransferred { old_owner: caller, new_owner })
    }
}

/// Reading a mapping twice with no update in between gives the same value:
/// what `get_mapping` returns depends on the registry's state alone.
pub proof fn lemma_reread_is_stable(first: IpcmState, second: IpcmState, t: Seq<char>)
    requires
        first == second,
    ensures
        first.cid_of(t) == second.cid_of(t),
{
}

/// Replaying the events of successive updates of one identifier reconstructs
/// its value sequence: each event carries the value before it and the value
/// after it, each event's old value is the previous event's new value, and
/// the last new value is the value the registry now returns.
pub proof fn lemma_history_reconstructs(
    states: Seq<IpcmState>,
    events: Seq<MappingUpdatedView>,
    t: Seq<char>,
)
    requires
        states.len() == events.len() + 1,
        forall|i: int|
            0 <= i < events.len() ==> applies_update(states[i], #[trigger] events[i], states[i + 1])
                && events[i].token_id == t,
    ensures
        forall|i: int|
            0 <= i < events.len() ==> #[trigger] events[i].old_cid == states[i].cid_of(t)
                && events[i].new_cid == states[i + 1].cid_of(t),
        forall|i: int|
            0 < i < events.len() ==> #[trigger] events[i].old_cid == events[i - 1].new_cid,
        events.len() > 0 ==> events[events.len() - 1].new_cid == states[events.len() as int].cid_of(
            t,
        ),
{
    assert forall|i: int| 0 <= i < events.len() implies #[trigger] events[i].old_cid
        == states[i].cid_of(t) && events[i].new_cid == states[i + 1].cid_of(t) by {
        assert(applies_update(states[i], events[i], states[i + 1]));
        assert(states[i + 1].mappings == states[i].mappings.insert(t, events[i].new_cid));
        assert(states[i + 1].mappings.contains_key(t));
    }
    assert forall|i: int| 0 < i < events.len() implies #[trigger] events[i].old_cid == events[i
        - 1].new_cid by {
        assert(applies_update(states[i - 1], events[i - 1], states[i]));
        assert(events[i - 1].token_id == t);
        assert(states[i].mappings == states[i - 1].mappings.insert(t, events[i - 1].new_cid));
        assert(states[i].mappings.contains_key(t));
    }
    if events.len() > 0 {
        let n = events.len() - 1;
        assert(applies_update(states[n], events[n], states[n + 1]));
        assert(events[n].token_id == t);
        assert(states[n + 1].mappings == states[n].mappings.insert(t, events[n].new_cid));
        assert(states[n + 1].mappings.contains_key(t));
    }
}

} // verus!
