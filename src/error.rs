use vstd::prelude::*;

verus! {

/// Why the attached funds of a call were refused.
#[derive(Debug, Clone, PartialEq, Eq)]
pub enum PaymentError {
    MissingDenom(String),
    ExtraDenom(String),
    MultipleDenoms,
    NoFunds,
    NonPayable,
}

/// Every failure of a ledger operation. A failed operation leaves the ledger
/// as it found it.
#[derive(Debug, Clone, PartialEq, Eq)]
pub enum ContractError {
    /// The caller is not an admin.
    Unauthorized { sender: String },
    /// The address validator refused an address, for the reason given.
    InvalidAddress { reason: String },
    /// The address is an admin already.
    DuplicateAdmin { address: String },
    /// The ledger was never initialized, or holds no such record.
    NotFound,
    /// The declared amounts add up to `expected`, the attached funds to `actual`.
    InvalidAmount { expected: u128, actual: u128 },
    /// An amount or a counter would leave its numeric range.
    Overflow,
    /// The attached funds are not exactly one coin of nonzero amount.
    Payment(PaymentError),
}

} // verus!
