use vstd::prelude::*;

verus! {

/// An amount of one currency.
#[derive(Debug, Clone, PartialEq, Eq)]
pub struct Coin {
    pub denom: String,
    pub amount: u128,
}

impl View for Coin {
    type V = (Seq<char>, u128);

    open spec fn view(&self) -> (Seq<char>, u128) {
        (self.denom@, self.amount)
    }
}

/// A record of a state change, handed back to the host's event log.
#[derive(Debug, Clone, PartialEq, Eq)]
pub enum Event {
    AdminAdded { addr: String },
    BeneficiarySet { addr: String },
    RoundEnded { round_id: u64 },
    BatchVoted {
        sender: String,
        round_id: u64,
        project_ids: Vec<u64>,
        amounts: Vec<u128>,
        denom: String,
    },
}

/// An instruction to the host to move funds to an account.
#[derive(Debug, Clone, PartialEq, Eq)]
pub struct Transfer {
    pub to_address: String,
    pub denom: String,
    pub amount: u128,
}

/// What a successful batch vote hands back: the transfer of the pooled funds to
/// the beneficiary and the event that records the vote.
#[derive(Debug, Clone, PartialEq, Eq)]
pub struct VoteReceipt {
    pub transfer: Transfer,
    pub event: Event,
}

/// The admins, ascending by the bytes of their addresses.
#[derive(Debug, Clone, PartialEq, Eq)]
pub struct AdminListResp {
    pub admins: Vec<String>,
}

} // verus!
