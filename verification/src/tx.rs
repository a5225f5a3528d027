//! The records of what happened to an account.

use vstd::prelude::*;

verus! {

/// A change of one account's balance.
#[derive(Debug, PartialEq, Eq)]
pub enum Tx {
    /// Funds were added to the account.
    Deposit { account: String, amount: u64 },
    /// Funds were taken from the account.
    Withdraw { account: String, amount: u64 },
}

/// The model of a [`Tx`].
pub enum TxView {
    Deposit { account: Seq<char>, amount: nat },
    Withdraw { account: Seq<char>, amount: nat },
}

impl View for Tx {
    type V = TxView;

    open spec fn view(&self) -> TxView {
        match self {
            Tx::Deposit { account, amount } => TxView::Deposit {
                account: account@,
                amount: *amount as nat,
            },
            Tx::Withdraw { account, amount } => TxView::Withdraw {
                account: account@,
                amount: *amount as nat,
            },
        }
    }
}

} // verus!
