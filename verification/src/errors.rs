//! The errors of the platform.

use vstd::prelude::*;

verus! {

/// Why an operation was refused.
#[derive(Debug, PartialEq, Eq)]
pub enum ApplicationError {
    /// There is no account for this signer.
    AccountNotFound(String),
    /// The account of this signer holds less than the amount that is needed.
    AccountUnderFunded(String, u64),
    /// The account of this signer cannot take the amount: its balance would
    /// pass `u64::MAX`.
    AccountOverFunded(String, u64),
    /// The funds that the order of this signer needs pass `u64::MAX`.
    FundsOverflow(String),
}

/// The model of an [`ApplicationError`].
pub enum ApplicationErrorView {
    AccountNotFound(Seq<char>),
    AccountUnderFunded(Seq<char>, nat),
    AccountOverFunded(Seq<char>, nat),
    FundsOverflow(Seq<char>),
}

impl View for ApplicationError {
    type V = ApplicationErrorView;

    open spec fn view(&self) -> ApplicationErrorView {
        match self {
            ApplicationError::AccountNotFound(signer) => ApplicationErrorView::AccountNotFound(
                signer@,
            ),
            ApplicationError::AccountUnderFunded(signer, amount) => {
                ApplicationErrorView::AccountUnderFunded(signer@, *amount as nat)
            },
            ApplicationError::AccountOverFunded(signer, amount) => {
                ApplicationErrorView::AccountOverFunded(signer@, *amount as nat)
            },
            ApplicationError::FundsOverflow(signer) => ApplicationErrorView::FundsOverflow(
                signer@,
            ),
        }
    }
}

} // verus!
