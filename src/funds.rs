//! The coin attached to a call.
use vstd::prelude::*;
use crate::error::PaymentError;
use crate::types::Coin;

verus! {

/// Relies on cw_utils::one_coin: with exactly one attached coin of nonzero
/// amount it hands that coin back; with none, or one of amount zero, it fails
/// with `NoFunds`; with more than one, with `MultipleDenoms`.
#[verifier::external_body]
pub(crate) fn single_coin(funds: &Vec<Coin>) -> (r: Result<Coin, PaymentError>)
    ensures
        funds@.len() == 1 && funds@[0].amount > 0 ==> r is Ok && r->Ok_0@ == funds@[0]@,
        funds@.len() == 1 && funds@[0].amount == 0 ==> r is Err && r->Err_0 == PaymentError::NoFunds,
        funds@.len() == 0 ==> r is Err && r->Err_0 == PaymentError::NoFunds,
        funds@.len() > 1 ==> r is Err && r->Err_0 == PaymentError::MultipleDenoms,
{
    let info = cosmwasm_std::MessageInfo {
        sender: cosmwasm_std::Addr::unchecked(""),
        funds: funds.iter().map(|c| cosmwasm_std::coin(c.amount, c.denom.clone())).collect(),
    };
    match cw_utils::one_coin(&info) {
        Ok(c) => Ok(Coin { denom: c.denom, amount: c.amount.u128() }),
        Err(cw_utils::PaymentError::MissingDenom(d)) => Err(PaymentError::MissingDenom(d)),
        Err(cw_utils::PaymentError::ExtraDenom(d)) => Err(PaymentError::ExtraDenom(d)),
        Err(cw_utils::PaymentError::MultipleDenoms {}) => Err(PaymentError::MultipleDenoms),
        Err(cw_utils::PaymentError::NoFunds {}) => Err(PaymentError::NoFunds),
        Err(cw_utils::PaymentError::NonPayable {}) => Err(PaymentError::NonPayable),
    }
}

} // verus!
