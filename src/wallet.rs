use vstd::prelude::*;

use crate::types::{
    apply_action, apply_actions, copy_actions, copy_names, dispatches_of, Dispatch,
    MultiSigAction, MultiSigRequest, MultiSigRequestInput, MultiSigRequestView, WalletError,
    WalletInfo,
};

verus! {

/// The names behind a list of accounts.
pub open spec fn names(v: Seq<String>) -> Seq<Seq<char>> {
    v.map_values(|s: String| s@)
}

/// A pending request together with the members who confirmed it.
pub struct PendingEntry {
    pub id: u32,
    pub request: MultiSigRequest,
    pub confirmations: Vec<String>,
}

/// The wallet: members, threshold, request counter and pending requests.
pub struct MultisigWallet {
    members: Vec<String>,
    num_confirmations: u32,
    request_nonce: u32,
    entries: Vec<PendingEntry>,
}

/// Index of the first position of `v` that holds `s`, if any.
fn position_of(v: &Vec<String>, s: &String) -> (r: Option<usize>)
    ensures
        r is Some <==> names(v@).contains(s@),
        r matches Some(i) ==> i < v@.len() && v@[i as int]@ == s@ && forall|j: int|
            0 <= j < i ==> v@[j]@ != s@,
{
    let mut i: usize = 0;
    while i < v.len()
        invariant
            i <= v.len(),
            forall|j: int| 0 <= j < i ==> v@[j]@ != s@,
        decreases v.len() - i,
    {
        if v[i] == *s {
            assert(names(v@)[i as int] == s@);
            return Some(i);
        }
        i = i + 1;
    }
    assert(!names(v@).contains(s@));
    None
}

impl MultisigWallet {
    pub closed spec fn wf(&self) -> bool {
        &&& 1 <= self.num_confirmations <= self.members@.len()
        &&& self.entries@.len() <= self.request_nonce
        &&& names(self.members@).no_duplicates()
        &&& forall|i: int, j: int|
            0 <= i < j < self.entries@.len() ==> self.entries@[i].id != self.entries@[j].id
        &&& forall|i: int|
            0 <= i < self.entries@.len() ==> self.entries@[i].id < self.request_nonce
        &&& forall|i: int|
            0 <= i < self.entries@.len() ==> names(self.entries@[i].confirmations@).no_duplicates()
    }

    /// The member names, in listing order.
    pub closed spec fn member_names(&self) -> Seq<Seq<char>> {
        names(self.members@)
    }

    pub closed spec fn threshold(&self) -> u32 {
        self.num_confirmations
    }

    pub closed spec fn nonce(&self) -> u32 {
        self.request_nonce
    }

    pub open spec fn is_member(&self, who: Seq<char>) -> bool {
        self.member_names().contains(who)
    }

    /// The ids of the pending requests, in listing order.
    pub closed spec fn pending_ids(&self) -> Seq<u32> {
        self.entries@.map_values(|e: PendingEntry| e.id)
    }

    pub open spec fn is_pending(&self, id: u32) -> bool {
        self.pending_ids().contains(id)
    }

    /// The stored request with id `id` (meaningful when it is pending).
    pub closed spec fn request_of(&self, id: u32) -> MultiSigRequest {
        self.entries@[self.pending_ids().index_of(id)].request
    }

    /// The names of the members who confirmed request `id`.
    pub closed spec fn confirmers_of(&self, id: u32) -> Seq<Seq<char>> {
        names(self.entries@[self.pending_ids().index_of(id)].confirmations@)
    }

    /// Every request other than `id` that was pending in `before` is still
    /// pending in `after`, with the same request and confirmers.
    pub open spec fn others_unchanged(before: &Self, after: &Self, id: u32) -> bool {
        forall|j: u32|
            j != id && before.is_pending(j) ==> {
                &&& after.is_pending(j)
                &&& after.request_of(j) == before.request_of(j)
                &&& after.confirmers_of(j) == before.confirmers_of(j)
            }
    }

    /// What every wallet built by `new` and kept by the operations satisfies:
    /// no member twice, no pending id twice, every pending id below the
    /// request counter, and no confirmer twice on any request.
    pub proof fn lemma_wf_facts(&self)
        requires
            self.wf(),
        ensures
            self.member_names().no_duplicates(),
            self.pending_ids().no_duplicates(),
            self.pending_ids().len() <= self.nonce(),
            forall|j: u32|
                #[trigger] self.is_pending(j) ==> j < self.nonce()
                    && self.confirmers_of(j).no_duplicates(),
    {
        assert forall|j: u32| #[trigger] self.is_pending(j) implies j < self.nonce()
            && self.confirmers_of(j).no_duplicates() by {
            let k = self.pending_ids().index_of(j);
            assert(0 <= k < self.pending_ids().len() && self.pending_ids()[k] == j);
        }
    }

    /// The position of pending request `j`, found through its id.
    proof fn lemma_pending_position(&self, j: u32) -> (k: int)
        requires
            self.wf(),
            self.is_pending(j),
        ensures
            0 <= k < self.entries@.len(),
            self.entries@[k].id == j,
            self.pending_ids().index_of(j) == k,
    {
        let k = self.pending_ids().index_of(j);
        assert(0 <= k < self.pending_ids().len() && self.pending_ids()[k] == j);
        k
    }

    proof fn lemma_frame_remove(before: &Self, after: &Self, idx: int)
        requires
            before.wf(),
            after.wf(),
            0 <= idx < before.entries@.len(),
            after.entries@ == before.entries@.remove(idx),
        ensures
            Self::others_unchanged(before, after, before.entries@[idx].id),
            !after.is_pending(before.entries@[idx].id),
    {
        let id = before.entries@[idx].id;
        assert forall|j: u32| j != id && before.is_pending(j) implies {
            &&& after.is_pending(j)
            &&& after.request_of(j) == before.request_of(j)
            &&& after.confirmers_of(j) == before.confirmers_of(j)
        } by {
            let k = before.lemma_pending_position(j);
            let nk = if k < idx { k } else { k - 1 };
            assert(after.entries@[nk] == before.entries@[k]);
            after.lemma_index_of_entry(nk);
        }
        if after.is_pending(id) {
            let nk = after.lemma_pending_position(id);
            if nk < idx {
                assert(after.entries@[nk] == before.entries@[nk]);
                assert(before.entries@[nk].id != before.entries@[idx].id);
            } else {
                assert(after.entries@[nk] == before.entries@[nk + 1]);
                assert(before.entries@[idx].id != before.entries@[nk + 1].id);
            }
        }
    }

    proof fn lemma_frame_keep_positions(before: &Self, after: &Self, id: u32)
        requires
            before.wf(),
            after.wf(),
            before.entries@.len() <= after.entries@.len(),
            forall|k: int|
                0 <= k < before.entries@.len() && before.entries@[k].id != id ==> after.entries@[k]
                    == before.entries@[k],
        ensures
            Self::others_unchanged(before, after, id),
    {
        assert forall|j: u32| j != id && before.is_pending(j) implies {
            &&& after.is_pending(j)
            &&& after.request_of(j) == before.request_of(j)
            &&& after.confirmers_of(j) == before.confirmers_of(j)
        } by {
            let k = before.lemma_pending_position(j);
            after.lemma_index_of_entry(k);
        }
    }

    /// Builds a wallet from a list of members and a threshold.
    pub fn new(members: Vec<String>, num_confirmations: u32) -> (r: Result<Self, WalletError>)
        ensures
            members@.len() == 0 ==> r == Err::<Self, WalletError>(WalletError::NoMembers),
            members@.len() > 0 && !(1 <= num_confirmations <= members@.len()) ==> r == Err::<
                Self,
                WalletError,
            >(WalletError::InvalidThreshold),
            members@.len() > 0 && 1 <= num_confirmations <= members@.len() && !names(
                members@,
            ).no_duplicates() ==> r == Err::<Self, WalletError>(WalletError::DuplicateMember),
            r is Ok <==> (members@.len() > 0 && 1 <= num_confirmations <= members@.len()
                && names(members@).no_duplicates()),
            r matches Ok(w) ==> {
                &&& w.wf()
                &&& w.member_names() == names(members@)
                &&& w.threshold() == num_confirmations
                &&& w.nonce() == 0
                &&& w.pending_ids().len() == 0
            },
    {
        if members.len() == 0 {
            return Err(WalletError::NoMembers);
        }
        if num_confirmations == 0 || num_confirmations as usize > members.len() {
            return Err(WalletError::InvalidThreshold);
        }
        let mut set: Vec<String> = Vec::new();
        let mut i: usize = 0;
        while i < members.len()
            invariant
                i <= members.len(),
                set@ == members@.subrange(0, i as int),
                names(set@).no_duplicates(),
                members@.len() > 0 && 1 <= num_confirmations <= members@.len(),
            decreases members.len() - i,
        {
            let found = position_of(&set, &members[i]);
            if found.is_some() {
                proof {
                    let k = found->Some_0 as int;
                    assert(names(members@)[k] == names(members@)[i as int]);
                }
                return Err(WalletError::DuplicateMember);
            }
            let ghost before = names(set@);
            set.push(members[i].clone());
            i = i + 1;
            assert(set@ =~= members@.subrange(0, i as int));
            assert(names(set@) =~= before.push(members@[i - 1]@));
            assert(names(set@).no_duplicates()) by {
                assert forall|a: int, b: int|
                    0 <= a < b < names(set@).len() implies names(set@)[a] != names(set@)[b] by {
                    if b == i - 1 {
                        assert(before.contains(before[a]));
                    }
                }
            }
        }
        assert(set@ =~= members@);
        Ok(MultisigWallet { members: set, num_confirmations, request_nonce: 0, entries: Vec::new() })
    }

    fn find_entry(&self, id: u32) -> (r: Option<usize>)
        requires
            self.wf(),
        ensures
            r is Some <==> self.is_pending(id),
            r matches Some(i) ==> i < self.entries@.len() && self.entries@[i as int].id == id
                && self.pending_ids().index_of(id) == i,
    {
        let mut i: usize = 0;
        while i < self.entries.len()
            invariant
                self.wf(),
                i <= self.entries@.len(),
                forall|j: int| 0 <= j < i ==> self.entries@[j].id != id,
            decreases self.entries@.len() - i,
        {
            if self.entries[i].id == id {
                assert(self.pending_ids()[i as int] == id);
                assert(self.is_pending(id));
                proof {
                    let k = self.pending_ids().index_of(id);
                    assert(0 <= k < self.pending_ids().len() && self.pending_ids()[k] == id);
                    assert(self.pending_ids().len() == self.entries@.len());
                    assert(self.entries@[k].id == id);
                    if k < i {
                        assert(self.entries@[k].id != self.entries@[i as int].id);
                    } else if k > i {
                        assert(self.entries@[i as int].id != self.entries@[k].id);
                    }
                }
                return Some(i);
            }
            i = i + 1;
        }
        assert(!self.is_pending(id));
        None
    }

    /// Applies one membership action to the current members and threshold.
    fn apply_one(&mut self, a: &MultiSigAction)
        requires
            old(self).wf(),
        ensures
            final(self).wf(),
            (final(self).member_names(), final(self).threshold()) == apply_action(
                old(self).member_names(),
                old(self).threshold(),
                *a,
            ),
            final(self).entries == old(self).entries,
            final(self).request_nonce == old(self).request_nonce,
    {
        match a {
            MultiSigAction::AddMember { member } => {
                if position_of(&self.members, member).is_none() {
                    let ghost before = names(self.members@);
                    self.members.push(member.clone());
                    assert(names(self.members@) =~= before.push(member@));
                    assert(names(self.members@).no_duplicates()) by {
                        assert forall|x: int, y: int|
                            0 <= x < y < names(self.members@).len() implies names(
                            self.members@,
                        )[x] != names(self.members@)[y] by {
                            if y == before.len() {
                                assert(before.contains(before[x]));
                            }
                        }
                    }
                }
            },
            MultiSigAction::RemoveMember { member } => {
                let found = position_of(&self.members, member);
                match found {
                    Some(i) => {
                        if self.members.len() - 1 >= self.num_confirmations as usize {
                            let ghost before = names(self.members@);
                            proof {
                                let k = before.index_of(member@);
                                assert(before[i as int] == member@);
                                assert(before[k] == member@);
                            }
                            self.members.remove(i);
                            assert(names(self.members@) =~= before.remove(i as int));
                        }
                    },
                    None => {},
                }
            },
            MultiSigAction::ChangeNumConfirmations { num_confirmations } => {
                if 1 <= *num_confirmations && *num_confirmations as usize <= self.members.len() {
                    self.num_confirmations = *num_confirmations;
                }
            },
            _ => {},
        }
    }

    /// Runs the pending request at position `idx`: applies its actions in
    /// order, then drops the request and its confirmations.
    fn execute(&mut self, idx: usize) -> (r: Vec<Dispatch>)
        requires
            old(self).wf(),
            idx < old(self).entries@.len(),
        ensures
            final(self).wf(),
            ({
                let req = old(self).entries@[idx as int].request;
                &&& r@ == dispatches_of(req.receiver_id, req.actions@)
                &&& (final(self).member_names(), final(self).threshold()) == apply_actions(
                    old(self).member_names(),
                    old(self).threshold(),
                    req.actions@,
                )
            }),
            final(self).entries@ == old(self).entries@.remove(idx as int),
            final(self).request_nonce == old(self).request_nonce,
            Self::others_unchanged(old(self), final(self), old(self).entries@[idx as int].id),
            !final(self).is_pending(old(self).entries@[idx as int].id),
    {
        let entry = self.entries.remove(idx);
        let ghost mid = *self;
        assert(self.wf()) by {
            assert forall|i: int| 0 <= i < self.entries@.len() implies names(
                self.entries@[i].confirmations@,
            ).no_duplicates() by {
                if i >= idx {
                    assert(self.entries@[i] == old(self).entries@[i + 1]);
                }
            }
            assert forall|i: int, j: int|
                0 <= i < j < self.entries@.len() implies self.entries@[i].id
                != self.entries@[j].id by {
                if i >= idx {
                    assert(self.entries@[i] == old(self).entries@[i + 1]);
                }
                if j >= idx {
                    assert(self.entries@[j] == old(self).entries@[j + 1]);
                }
            }
        }
        let req = entry.request;
        let mut out: Vec<Dispatch> = Vec::new();
        let mut k: usize = 0;
        while k < req.actions.len()
            invariant
                self.wf(),
                k <= req.actions@.len(),
                req == old(self).entries@[idx as int].request,
                out@ == dispatches_of(req.receiver_id, req.actions@.subrange(0, k as int)),
                (self.member_names(), self.threshold()) == apply_actions(
                    old(self).member_names(),
                    old(self).threshold(),
                    req.actions@.subrange(0, k as int),
                ),
                self.entries == mid.entries,
                self.request_nonce == old(self).request_nonce,
            decreases req.actions@.len() - k,
        {
            let ghost pre = req.actions@.subrange(0, k as int);
            let ghost next = req.actions@.subrange(0, k + 1);
            assert(next.drop_last() =~= pre);
            assert(next.last() == req.actions@[k as int]);
            match &req.actions[k] {
                MultiSigAction::Transfer { amount } => {
                    out.push(Dispatch::Transfer { receiver_id: req.receiver_id.clone(), amount: *amount });
                },
                MultiSigAction::FunctionCall { method_name, args, deposit, gas } => {
                    out.push(
                        Dispatch::FunctionCall {
                            receiver_id: req.receiver_id.clone(),
                            method_name: method_name.clone(),
                            args: args.clone(),
                            deposit: *deposit,
                            gas: *gas,
                        },
                    );
                },
                _ => {},
            }
            self.apply_one(&req.actions[k]);
            k = k + 1;
        }
        assert(req.actions@.subrange(0, k as int) =~= req.actions@);
        proof {
            Self::lemma_frame_remove(old(self), self, idx as int);
        }
        out
    }

    /// Replaces the confirmations of the entry at `idx`.
    fn set_confirmations(&mut self, idx: usize, c: Vec<String>)
        requires
            old(self).wf(),
            idx < old(self).entries@.len(),
            names(c@).no_duplicates(),
        ensures
            final(self).wf(),
            final(self).entries@.len() == old(self).entries@.len(),
            final(self).entries@[idx as int].confirmations == c,
            final(self).entries@[idx as int].id == old(self).entries@[idx as int].id,
            final(self).entries@[idx as int].request == old(self).entries@[idx as int].request,
            forall|j: int|
                0 <= j < final(self).entries@.len() && j != idx ==> final(self).entries@[j]
                    == old(self).entries@[j],
            final(self).members == old(self).members,
            final(self).num_confirmations == old(self).num_confirmations,
            final(self).request_nonce == old(self).request_nonce,
            final(self).pending_ids() == old(self).pending_ids(),
            Self::others_unchanged(old(self), final(self), old(self).entries@[idx as int].id),
    {
        let e = self.entries.remove(idx);
        let updated = PendingEntry { id: e.id, request: e.request, confirmations: c };
        self.entries.insert(idx, updated);
        assert(self.pending_ids() =~= old(self).pending_ids());
        proof {
            Self::lemma_frame_keep_positions(old(self), self, old(self).entries@[idx as int].id);
        }
    }

    /// Proposes a request on behalf of `caller`, who confirms it at once; with
    /// a threshold of one it runs before this returns.
    pub fn add_request(&mut self, caller: &String, request: MultiSigRequestInput) -> (r: Result<
        (u32, Vec<Dispatch>),
        WalletError,
    >)
        requires
            old(self).wf(),
            old(self).nonce() < u32::MAX,
        ensures
            final(self).wf(),
            !old(self).is_member(caller@) ==> r == Err::<(u32, Vec<Dispatch>), WalletError>(
                WalletError::Unauthorized,
            ) && *final(self) == *old(self),
            old(self).is_member(caller@) ==> r is Ok,
            r matches Ok((id, d)) ==> {
                &&& id == old(self).nonce()
                &&& final(self).nonce() == old(self).nonce() + 1
                &&& !old(self).is_pending(id)
                &&& Self::others_unchanged(old(self), final(self), id)
                &&& old(self).threshold() == 1 ==> {
                    &&& !final(self).is_pending(id)
                    &&& final(self).pending_ids() == old(self).pending_ids()
                    &&& d@ == dispatches_of(request.receiver_id, request.actions@)
                    &&& (final(self).member_names(), final(self).threshold()) == apply_actions(
                        old(self).member_names(),
                        old(self).threshold(),
                        request.actions@,
                    )
                }
                &&& old(self).threshold() > 1 ==> {
                    &&& final(self).is_pending(id)
                    &&& final(self).pending_ids() == old(self).pending_ids().push(id)
                    &&& final(self).request_of(id) == (MultiSigRequest {
                        requester: *caller,
                        receiver_id: request.receiver_id,
                        actions: request.actions,
                        description: request.description,
                    })
                    &&& final(self).confirmers_of(id) == seq![caller@]
                    &&& d@.len() == 0
                    &&& final(self).member_names() == old(self).member_names()
                    &&& final(self).threshold() == old(self).threshold()
                }
            },
    {
        if position_of(&self.members, caller).is_none() {
            return Err(WalletError::Unauthorized);
        }
        let id = self.request_nonce;
        let ghost req_in = request;
        let stored = MultiSigRequest {
            requester: caller.clone(),
            receiver_id: request.receiver_id,
            actions: request.actions,
            description: request.description,
        };
        let mut conf: Vec<String> = Vec::new();
        conf.push(caller.clone());
        assert(names(conf@) =~= seq![caller@]);
        proof {
            if self.is_pending(id) {
                let k = self.pending_ids().index_of(id);
                assert(self.entries@[k].id == id);
            }
        }
        let ghost start = *self;
        self.entries.push(PendingEntry { id, request: stored, confirmations: conf });
        self.request_nonce = self.request_nonce + 1;
        let last = self.entries.len() - 1;
        assert(self.pending_ids() =~= old(self).pending_ids().push(id));
        proof {
            let k = self.pending_ids().index_of(id);
            assert(self.pending_ids()[last as int] == id);
            assert(self.entries@[k].id == id);
            if k != last {
                assert(old(self).pending_ids()[k] == id);
            }
        }
        proof {
            Self::lemma_frame_keep_positions(&start, self, id);
        }
        assert(self.pending_ids()[last as int] == id);
        if self.num_confirmations <= 1 {
            let ghost pushed = *self;
            let d = self.execute(last);
            assert(self.pending_ids() =~= old(self).pending_ids());
            assert(Self::others_unchanged(old(self), self, id)) by {
                assert forall|j: u32| j != id && old(self).is_pending(j) implies {
                    &&& self.is_pending(j)
                    &&& self.request_of(j) == old(self).request_of(j)
                    &&& self.confirmers_of(j) == old(self).confirmers_of(j)
                } by {
                    assert(Self::others_unchanged(&start, &pushed, id));
                    assert(start.is_pending(j));
                    assert(pushed.is_pending(j));
                }
            }
            Ok((id, d))
        } else {
            Ok((id, Vec::new()))
        }
    }

    /// Records `caller`'s confirmation of request `id`; the request runs once
    /// its confirmations reach the threshold.
    pub fn confirm(&mut self, caller: &String, id: u32) -> (r: Result<Vec<Dispatch>, WalletError>)
        requires
            old(self).wf(),
        ensures
            final(self).wf(),
            r is Err ==> *final(self) == *old(self),
            !old(self).is_member(caller@) ==> r == Err::<Vec<Dispatch>, WalletError>(
                WalletError::Unauthorized,
            ),
            old(self).is_member(caller@) && !old(self).is_pending(id) ==> r == Err::<
                Vec<Dispatch>,
                WalletError,
            >(WalletError::NotFound),
            old(self).is_member(caller@) && old(self).is_pending(id) && old(self).confirmers_of(
                id,
            ).contains(caller@) ==> r == Err::<Vec<Dispatch>, WalletError>(
                WalletError::AlreadyConfirmed,
            ),
            old(self).is_member(caller@) && old(self).is_pending(id) && !old(self).confirmers_of(
                id,
            ).contains(caller@) ==> r is Ok,
            r matches Ok(d) ==> {
                let req = old(self).request_of(id);
                let c = old(self).confirmers_of(id).push(caller@);
                &&& final(self).nonce() == old(self).nonce()
                &&& Self::others_unchanged(old(self), final(self), id)
                &&& c.len() >= old(self).threshold() ==> {
                    &&& !final(self).is_pending(id)
                    &&& final(self).pending_ids() == old(self).pending_ids().remove(
                        old(self).pending_ids().index_of(id),
                    )
                    &&& d@ == dispatches_of(req.receiver_id, req.actions@)
                    &&& (final(self).member_names(), final(self).threshold()) == apply_actions(
                        old(self).member_names(),
                        old(self).threshold(),
                        req.actions@,
                    )
                }
                &&& c.len() < old(self).threshold() ==> {
                    &&& final(self).is_pending(id)
                    &&& final(self).pending_ids() == old(self).pending_ids()
                    &&& final(self).confirmers_of(id) == c
                    &&& final(self).request_of(id) == req
                    &&& d@.len() == 0
                    &&& final(self).member_names() == old(self).member_names()
                    &&& final(self).threshold() == old(self).threshold()
                }
            },
    {
        if position_of(&self.members, caller).is_none() {
            return Err(WalletError::Unauthorized);
        }
        let idx = match self.find_entry(id) {
            Some(i) => i,
            None => {
                return Err(WalletError::NotFound);
            },
        };
        if position_of(&self.entries[idx].confirmations, caller).is_some() {
            return Err(WalletError::AlreadyConfirmed);
        }
        let mut c = copy_names(&self.entries[idx].confirmations);
        let ghost before = names(c@);
        c.push(caller.clone());
        assert(names(c@) =~= before.push(caller@));
        assert(names(c@).no_duplicates()) by {
            assert forall|x: int, y: int|
                0 <= x < y < names(c@).len() implies names(c@)[x] != names(c@)[y] by {
                if y == before.len() {
                    assert(before.contains(before[x]));
                }
            }
        }
        let count = c.len();
        self.set_confirmations(idx, c);
        if count >= self.num_confirmations as usize {
            let ghost mid = *self;
            let d = self.execute(idx);
            assert(self.pending_ids() =~= old(self).pending_ids().remove(idx as int));
            assert(Self::others_unchanged(old(self), self, id)) by {
                assert forall|j: u32| j != id && old(self).is_pending(j) implies {
                    &&& self.is_pending(j)
                    &&& self.request_of(j) == old(self).request_of(j)
                    &&& self.confirmers_of(j) == old(self).confirmers_of(j)
                } by {
                    assert(Self::others_unchanged(old(self), &mid, id));
                    assert(mid.is_pending(j));
                }
            }
            Ok(d)
        } else {
            Ok(Vec::new())
        }
    }

    /// Withdraws `caller`'s confirmation of request `id`.
    pub fn revoke_confirmation(&mut self, caller: &String, id: u32) -> (r: Result<(), WalletError>)
        requires
            old(self).wf(),
        ensures
            final(self).wf(),
            r is Err ==> *final(self) == *old(self),
            !old(self).is_member(caller@) ==> r == Err::<(), WalletError>(WalletError::Unauthorized),
            old(self).is_member(caller@) && !old(self).is_pending(id) ==> r == Err::<
                (),
                WalletError,
            >(WalletError::NotFound),
            old(self).is_member(caller@) && old(self).is_pending(id) && !old(self).confirmers_of(
                id,
            ).contains(caller@) ==> r == Err::<(), WalletError>(WalletError::NotConfirmed),
            old(self).is_member(caller@) && old(self).is_pending(id) && old(self).confirmers_of(
                id,
            ).contains(caller@) ==> r is Ok,
            r is Ok ==> {
                let c = old(self).confirmers_of(id);
                &&& final(self).confirmers_of(id) == c.remove(c.index_of(caller@))
                &&& !final(self).confirmers_of(id).contains(caller@)
                &&& final(self).is_pending(id)
                &&& Self::others_unchanged(old(self), final(self), id)
                &&& final(self).pending_ids() == old(self).pending_ids()
                &&& final(self).request_of(id) == old(self).request_of(id)
                &&& final(self).member_names() == old(self).member_names()
                &&& final(self).threshold() == old(self).threshold()
                &&& final(self).nonce() == old(self).nonce()
            },
    {
        if position_of(&self.members, caller).is_none() {
            return Err(WalletError::Unauthorized);
        }
        let idx = match self.find_entry(id) {
            Some(i) => i,
            None => {
                return Err(WalletError::NotFound);
            },
        };
        let pos = match position_of(&self.entries[idx].confirmations, caller) {
            Some(p) => p,
            None => {
                return Err(WalletError::NotConfirmed);
            },
        };
        let mut c = copy_names(&self.entries[idx].confirmations);
        let ghost before = names(c@);
        proof {
            let k = before.index_of(caller@);
            assert(before[pos as int] == caller@);
            assert(before[k] == caller@);
        }
        c.remove(pos);
        assert(names(c@) =~= before.remove(pos as int));
        assert(names(c@).no_duplicates()) by {
            assert forall|x: int, y: int|
                0 <= x < y < names(c@).len() implies names(c@)[x] != names(c@)[y] by {
                if x >= pos {
                    assert(names(c@)[x] == before[x + 1]);
                } else {
                    assert(names(c@)[x] == before[x]);
                }
                if y >= pos {
                    assert(names(c@)[y] == before[y + 1]);
                } else {
                    assert(names(c@)[y] == before[y]);
                }
            }
        }
        self.set_confirmations(idx, c);
        proof {
            self.lemma_index_of_entry(idx as int);
            assert(before[pos as int] == caller@);
            if names(c@).contains(caller@) {
                let q = choose|q: int| 0 <= q < names(c@).len() && names(c@)[q] == caller@;
                if q < pos {
                    assert(before[q] == before[pos as int]);
                } else {
                    assert(before[q + 1] == before[pos as int]);
                }
            }
        }
        Ok(())
    }

    /// Deletes request `id`; only the member who proposed it may.
    pub fn delete_request(&mut self, caller: &String, id: u32) -> (r: Result<(), WalletError>)
        requires
            old(self).wf(),
        ensures
            final(self).wf(),
            r is Err ==> *final(self) == *old(self),
            !old(self).is_member(caller@) ==> r == Err::<(), WalletError>(WalletError::Unauthorized),
            old(self).is_member(caller@) && !old(self).is_pending(id) ==> r == Err::<
                (),
                WalletError,
            >(WalletError::NotFound),
            old(self).is_member(caller@) && old(self).is_pending(id) && old(self).request_of(
                id,
            ).requester@ != caller@ ==> r == Err::<(), WalletError>(WalletError::Forbidden),
            old(self).is_member(caller@) && old(self).is_pending(id) && old(self).request_of(
                id,
            ).requester@ == caller@ ==> r is Ok,
            r is Ok ==> {
                &&& !final(self).is_pending(id)
                &&& Self::others_unchanged(old(self), final(self), id)
                &&& final(self).pending_ids() == old(self).pending_ids().remove(
                    old(self).pending_ids().index_of(id),
                )
                &&& final(self).member_names() == old(self).member_names()
                &&& final(self).threshold() == old(self).threshold()
                &&& final(self).nonce() == old(self).nonce()
            },
    {
        if position_of(&self.members, caller).is_none() {
            return Err(WalletError::Unauthorized);
        }
        let idx = match self.find_entry(id) {
            Some(i) => i,
            None => {
                return Err(WalletError::NotFound);
            },
        };
        if self.entries[idx].request.requester != *caller {
            return Err(WalletError::Forbidden);
        }
        let _gone = self.entries.remove(idx);
        assert(self.pending_ids() =~= old(self).pending_ids().remove(idx as int));
        assert(self.wf()) by {
            assert forall|i: int| 0 <= i < self.entries@.len() implies names(
                self.entries@[i].confirmations@,
            ).no_duplicates() by {
                if i >= idx {
                    assert(self.entries@[i] == old(self).entries@[i + 1]);
                }
            }
            assert forall|i: int, j: int|
                0 <= i < j < self.entries@.len() implies self.entries@[i].id
                != self.entries@[j].id by {
                if i >= idx {
                    assert(self.entries@[i] == old(self).entries@[i + 1]);
                }
                if j >= idx {
                    assert(self.entries@[j] == old(self).entries@[j + 1]);
                }
            }
        }
        proof {
            Self::lemma_frame_remove(old(self), self, idx as int);
        }
        Ok(())
    }

    /// `v` shows pending request `v.id` as it stands, with the threshold.
    pub open spec fn shows(&self, v: MultiSigRequestView) -> bool {
        let req = self.request_of(v.id);
        &&& self.is_pending(v.id)
        &&& v.requester == req.requester
        &&& v.receiver_id == req.receiver_id
        &&& v.actions@ == req.actions@
        &&& v.description == req.description
        &&& names(v.confirmations@) == self.confirmers_of(v.id)
        &&& v.required == self.threshold()
    }

    proof fn lemma_index_of_entry(&self, i: int)
        requires
            self.wf(),
            0 <= i < self.entries@.len(),
        ensures
            self.pending_ids().index_of(self.entries@[i].id) == i,
            self.is_pending(self.entries@[i].id),
    {
        let id = self.entries@[i].id;
        assert(self.pending_ids()[i] == id);
        let k = self.pending_ids().index_of(id);
        assert(0 <= k < self.pending_ids().len() && self.pending_ids()[k] == id);
        if k < i {
            assert(self.entries@[k].id != self.entries@[i].id);
        } else if k > i {
            assert(self.entries@[i].id != self.entries@[k].id);
        }
    }

    fn view_at(&self, idx: usize) -> (v: MultiSigRequestView)
        requires
            self.wf(),
            idx < self.entries@.len(),
        ensures
            v.id == self.entries@[idx as int].id,
            self.shows(v),
    {
        let e = &self.entries[idx];
        proof {
            self.lemma_index_of_entry(idx as int);
        }
        MultiSigRequestView {
            id: e.id,
            requester: e.request.requester.clone(),
            receiver_id: e.request.receiver_id.clone(),
            actions: copy_actions(&e.request.actions),
            description: e.request.description.clone(),
            confirmations: copy_names(&e.confirmations),
            required: self.num_confirmations,
        }
    }

    /// The pending request `id`, if there is one.
    pub fn get_request(&self, id: u32) -> (r: Option<MultiSigRequestView>)
        requires
            self.wf(),
        ensures
            r is Some <==> self.is_pending(id),
            r matches Some(v) ==> v.id == id && self.shows(v),
    {
        match self.find_entry(id) {
            Some(i) => Some(self.view_at(i)),
            None => None,
        }
    }

    /// Every pending request, in listing order.
    pub fn get_requests(&self) -> (r: Vec<MultiSigRequestView>)
        requires
            self.wf(),
        ensures
            r@.map_values(|v: MultiSigRequestView| v.id) == self.pending_ids(),
            forall|i: int| 0 <= i < r@.len() ==> self.shows(#[trigger] r@[i]),
    {
        let mut r: Vec<MultiSigRequestView> = Vec::new();
        let mut i: usize = 0;
        while i < self.entries.len()
            invariant
                self.wf(),
                i <= self.entries@.len(),
                r@.map_values(|v: MultiSigRequestView| v.id) == self.pending_ids().subrange(0, i as int),
                forall|j: int| 0 <= j < r@.len() ==> self.shows(#[trigger] r@[j]),
            decreases self.entries@.len() - i,
        {
            let v = self.view_at(i);
            let ghost before = r@;
            r.push(v);
            i = i + 1;
            assert(r@ == before.push(v));
            assert(r@.map_values(|v: MultiSigRequestView| v.id) =~= before.map_values(
                |v: MultiSigRequestView| v.id,
            ).push(v.id));
            assert(self.pending_ids().subrange(0, i as int) =~= self.pending_ids().subrange(
                0,
                i - 1,
            ).push(self.pending_ids()[i - 1]));
        }
        assert(self.pending_ids().subrange(0, i as int) =~= self.pending_ids());
        r
    }

    /// The members, in listing order.
    pub fn get_members(&self) -> (r: Vec<String>)
        requires
            self.wf(),
        ensures
            names(r@) == self.member_names(),
            names(r@).no_duplicates(),
    {
        copy_names(&self.members)
    }

    pub fn get_num_confirmations(&self) -> (r: u32)
        ensures
            r == self.threshold(),
    {
        self.num_confirmations
    }

    pub fn get_request_nonce(&self) -> (r: u32)
        ensures
            r == self.nonce(),
    {
        self.request_nonce
    }

    /// Members, threshold, request counter and the number of pending requests.
    pub fn get_wallet_info(&self) -> (r: WalletInfo)
        requires
            self.wf(),
        ensures
            names(r.members@) == self.member_names(),
            names(r.members@).no_duplicates(),
            r.num_confirmations == self.threshold(),
            r.request_nonce == self.nonce(),
            r.active_requests == self.pending_ids().len(),
    {
        WalletInfo {
            members: copy_names(&self.members),
            num_confirmations: self.num_confirmations,
            request_nonce: self.request_nonce,
            active_requests: self.entries.len() as u32,
        }
    }

    /// Every well-formed wallet, which each operation keeps well-formed,
    /// has a threshold between one and its number of members.
    pub proof fn lemma_threshold_in_bounds(&self)
        requires
            self.wf(),
        ensures
            1 <= self.threshold() <= self.member_names().len(),
    {
    }

    /// Withdrawing a confirmation and then giving it again leaves the set of
    /// confirming members as it was.
    pub proof fn lemma_revoke_then_confirm(c: Seq<Seq<char>>, who: Seq<char>)
        requires
            c.no_duplicates(),
            c.contains(who),
        ensures
            c.remove(c.index_of(who)).push(who).to_set() == c.to_set(),
            c.remove(c.index_of(who)).push(who).len() == c.len(),
    {
        let i = c.index_of(who);
        let c2 = c.remove(i).push(who);
        assert forall|y: Seq<char>| c2.to_set().contains(y) <==> c.to_set().contains(y) by {
            if c.to_set().contains(y) {
                let j = choose|j: int| 0 <= j < c.len() && c[j] == y;
                if j < i {
                    assert(c2[j] == y);
                } else if j > i {
                    assert(c2[j - 1] == y);
                } else {
                    assert(c2[c2.len() - 1] == y);
                }
            }
            if c2.to_set().contains(y) {
                let j = choose|j: int| 0 <= j < c2.len() && c2[j] == y;
                if j < i {
                    assert(c[j] == y);
                } else if j < c2.len() - 1 {
                    assert(c[j + 1] == y);
                }
            }
        }
        assert(c2.to_set() =~= c.to_set());
    }

    /// A request that only its proposer has confirmed is shown with that one
    /// confirmation and the wallet's threshold as the number required.
    pub proof fn lemma_fresh_request_view(&self, id: u32, caller: Seq<char>, v: MultiSigRequestView)
        requires
            self.wf(),
            self.is_pending(id),
            self.confirmers_of(id) == seq![caller],
            v.id == id,
            self.shows(v),
        ensures
            names(v.confirmations@) == seq![caller],
            v.required == self.threshold(),
    {
    }
}

} // verus!
