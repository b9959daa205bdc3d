use vstd::prelude::*;

verus! {

/// Why an operation on the wallet was refused.
#[derive(Debug, PartialEq, Eq)]
pub enum WalletError {
    NoMembers,
    DuplicateMember,
    InvalidThreshold,
    Unauthorized,
    Forbidden,
    NotFound,
    AlreadyConfirmed,
    NotConfirmed,
}

/// One step of a request.
#[derive(Debug, PartialEq, Eq)]
pub enum MultiSigAction {
    Transfer { amount: u128 },
    FunctionCall { method_name: String, args: String, deposit: u128, gas: u128 },
    AddMember { member: String },
    RemoveMember { member: String },
    ChangeNumConfirmations { num_confirmations: u32 },
}

impl MultiSigAction {
    /// An equal copy of this action.
    pub fn duplicate(&self) -> (r: Self)
        ensures
            r == *self,
    {
        match self {
            MultiSigAction::Transfer { amount } => MultiSigAction::Transfer { amount: *amount },
            MultiSigAction::FunctionCall { method_name, args, deposit, gas } => {
                MultiSigAction::FunctionCall {
                    method_name: method_name.clone(),
                    args: args.clone(),
                    deposit: *deposit,
                    gas: *gas,
                }
            },
            MultiSigAction::AddMember { member } => MultiSigAction::AddMember {
                member: member.clone(),
            },
            MultiSigAction::RemoveMember { member } => MultiSigAction::RemoveMember {
                member: member.clone(),
            },
            MultiSigAction::ChangeNumConfirmations { num_confirmations } => {
                MultiSigAction::ChangeNumConfirmations { num_confirmations: *num_confirmations }
            },
        }
    }
}

/// An equal copy of a list of actions.
pub fn copy_actions(v: &Vec<MultiSigAction>) -> (r: Vec<MultiSigAction>)
    ensures
        r@ == v@,
{
    let mut r: Vec<MultiSigAction> = Vec::new();
    let mut i: usize = 0;
    while i < v.len()
        invariant
            i <= v.len(),
            r@ == v@.subrange(0, i as int),
        decreases v.len() - i,
    {
        r.push(v[i].duplicate());
        i = i + 1;
        assert(r@ =~= v@.subrange(0, i as int));
    }
    assert(r@ =~= v@);
    r
}

/// An equal copy of a list of names.
pub fn copy_names(v: &Vec<String>) -> (r: Vec<String>)
    ensures
        r@ == v@,
{
    let mut r: Vec<String> = Vec::new();
    let mut i: usize = 0;
    while i < v.len()
        invariant
            i <= v.len(),
            r@ == v@.subrange(0, i as int),
        decreases v.len() - i,
    {
        r.push(v[i].clone());
        i = i + 1;
        assert(r@ =~= v@.subrange(0, i as int));
    }
    assert(r@ =~= v@);
    r
}

/// A stored request.
#[derive(Debug, PartialEq, Eq)]
pub struct MultiSigRequest {
    pub requester: String,
    pub receiver_id: String,
    pub actions: Vec<MultiSigAction>,
    pub description: String,
}

/// What a member hands in to propose a request; the requester is the caller.
#[derive(Debug, PartialEq, Eq)]
pub struct MultiSigRequestInput {
    pub receiver_id: String,
    pub actions: Vec<MultiSigAction>,
    pub description: String,
}

/// A pending request as callers see it.
#[derive(Debug, PartialEq, Eq)]
pub struct MultiSigRequestView {
    pub id: u32,
    pub requester: String,
    pub receiver_id: String,
    pub actions: Vec<MultiSigAction>,
    pub description: String,
    pub confirmations: Vec<String>,
    pub required: u32,
}

/// A summary of the wallet's state.
#[derive(Debug, PartialEq, Eq)]
pub struct WalletInfo {
    pub members: Vec<String>,
    pub num_confirmations: u32,
    pub request_nonce: u32,
    pub active_requests: u32,
}

/// An effect that execution hands to the ledger, which sends it without
/// waiting for its outcome.
#[derive(Debug, PartialEq, Eq)]
pub enum Dispatch {
    Transfer { receiver_id: String, amount: u128 },
    FunctionCall {
        receiver_id: String,
        method_name: String,
        args: String,
        deposit: u128,
        gas: u128,
    },
}

/// The effects that a list of actions sends to `receiver`, in order.
pub open spec fn dispatches_of(receiver: String, actions: Seq<MultiSigAction>) -> Seq<Dispatch>
    decreases actions.len(),
{
    if actions.len() == 0 {
        Seq::empty()
    } else {
        let rest = dispatches_of(receiver, actions.drop_last());
        match actions.last() {
            MultiSigAction::Transfer { amount } => rest.push(
                Dispatch::Transfer { receiver_id: receiver, amount },
            ),
            MultiSigAction::FunctionCall { method_name, args, deposit, gas } => rest.push(
                Dispatch::FunctionCall { receiver_id: receiver, method_name, args, deposit, gas },
            ),
            _ => rest,
        }
    }
}

/// Membership after one action: a list of member names and the threshold.
pub open spec fn apply_action(members: Seq<Seq<char>>, threshold: u32, a: MultiSigAction) -> (
    Seq<Seq<char>>,
    u32,
) {
    match a {
        MultiSigAction::AddMember { member } => {
            if members.contains(member@) {
                (members, threshold)
            } else {
                (members.push(member@), threshold)
            }
        },
        MultiSigAction::RemoveMember { member } => {
            if members.contains(member@) && members.len() - 1 >= threshold {
                (members.remove(members.index_of(member@)), threshold)
            } else {
                (members, threshold)
            }
        },
        MultiSigAction::ChangeNumConfirmations { num_confirmations } => {
            if 1 <= num_confirmations <= members.len() {
                (members, num_confirmations)
            } else {
                (members, threshold)
            }
        },
        _ => (members, threshold),
    }
}

/// Membership after a list of actions, applied left to right.
pub open spec fn apply_actions(members: Seq<Seq<char>>, threshold: u32, actions: Seq<MultiSigAction>) -> (
    Seq<Seq<char>>,
    u32,
)
    decreases actions.len(),
{
    if actions.len() == 0 {
        (members, threshold)
    } else {
        let (m, t) = apply_actions(members, threshold, actions.drop_last());
        apply_action(m, t, actions.last())
    }
}

} // verus!
