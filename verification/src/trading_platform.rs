//! The trading platform: a matching engine beside a ledger.

use crate::accounting::{after_send, send_error, Accounts, Ledger};
use crate::errors::{ApplicationError, ApplicationErrorView};
use crate::matching::MatchingEngine;
use crate::model::{all_orders, initial, receipt_for, step, EngineView};
use crate::soundness::engine_ok;
use crate::tx::{Tx, TxView};
use crate::types::{
    funds_error, order_views, Order, OrderView, PartialOrder, PartialOrderView, Receipt, Side,
};
use vstd::prelude::*;

verus! {

/// The state of a trading platform.
pub struct PlatformView {
    pub engine: EngineView,
    pub ledger: Ledger,
}

/// Why the platform refuses `order`, if it does: the signer has no account,
/// or cannot fund the order.
pub open spec fn order_error(ledger: Ledger, order: OrderView) -> Option<ApplicationErrorView> {
    if !ledger.contains_key(order.signer) {
        Some(ApplicationErrorView::AccountNotFound(order.signer))
    } else {
        funds_error(order, ledger[order.signer])
    }
}

/// The ledger after one match record was settled for the incoming signer
/// `taker`: the price times the amount of the resting order goes from the
/// buyer to the seller. A transfer that the ledger refuses, or whose amount
/// would pass `u64::MAX`, does not take place.
pub open spec fn settle_one(ledger: Ledger, taker: Seq<char>, record: PartialOrderView) -> Ledger {
    let payer = match record.side {
        Side::Buy => record.signer,
        Side::Sell => taker,
    };
    let payee = match record.side {
        Side::Buy => taker,
        Side::Sell => record.signer,
    };
    let funds = record.price * record.amount;
    if funds > u64::MAX || send_error(ledger, payer, payee, funds) is Some {
        ledger
    } else {
        after_send(ledger, payer, payee, funds)
    }
}

/// The ledger after all match records were settled, one after the other.
pub open spec fn settle(ledger: Ledger, taker: Seq<char>, records: Seq<PartialOrderView>) -> Ledger
    decreases records.len(),
{
    if records.len() == 0 {
        ledger
    } else {
        settle(settle_one(ledger, taker, records.first()), taker, records.drop_first())
    }
}

/// The core of the core: the [`TradingPlatform`]. Manages accounts,
/// validates-, and orchestrates the processing of each order.
#[derive(Debug)]
pub struct TradingPlatform {
    matching_engine: MatchingEngine,
    accounts: Accounts,
}

impl View for TradingPlatform {
    type V = PlatformView;

    closed spec fn view(&self) -> PlatformView {
        PlatformView { engine: self.matching_engine@, ledger: self.accounts@ }
    }
}

impl TradingPlatform {
    /// Creates a new instance without any data.
    pub fn new() -> (platform: Self)
        ensures
            platform@.engine == initial(),
            platform@.ledger == Map::<Seq<char>, nat>::empty(),
    {
        TradingPlatform { matching_engine: MatchingEngine::new(), accounts: Accounts::new() }
    }

    /// The matching engine of the platform.
    pub fn matching_engine(&self) -> (engine: &MatchingEngine)
        ensures
            engine@ == self@.engine,
    {
        &self.matching_engine
    }

    /// The ledger of the platform.
    pub fn accounts(&self) -> (accounts: &Accounts)
        ensures
            accounts@ == self@.ledger,
    {
        &self.accounts
    }

    /// Fetches the complete order book at this time
    pub fn orderbook(&self) -> (all: Vec<PartialOrder>)
        ensures
            order_views(all@) == all_orders(self@.engine.bids) + all_orders(self@.engine.asks),
    {
        self.matching_engine.orderbook()
    }

    /// The balance of `signer`.
    pub fn balance_of(&mut self, signer: &str) -> (result: Result<&u64, ApplicationError>)
        ensures
            final(self)@ == old(self)@,
            match result {
                Ok(balance) => old(self)@.ledger.contains_key(signer@) && old(self)@.ledger[signer@]
                    == *balance,
                Err(error) => !old(self)@.ledger.contains_key(signer@) && error@
                    == ApplicationErrorView::AccountNotFound(signer@),
            },
    {
        self.accounts.balance_of(signer)
    }

    /// Deposit funds
    pub fn deposit(&mut self, signer: &str, amount: u64) -> (result: Result<Tx, ApplicationError>)
        ensures
            final(self)@.engine == old(self)@.engine,
            match crate::accounting::deposit_error(old(self)@.ledger, signer@, amount as nat) {
                Some(error) => {
                    &&& result matches Err(e) && e@ == error
                    &&& final(self)@.ledger == old(self)@.ledger
                },
                None => {
                    &&& result matches Ok(tx) && tx@ == (TxView::Deposit {
                        account: signer@,
                        amount: amount as nat,
                    })
                    &&& final(self)@.ledger == crate::accounting::after_deposit(
                        old(self)@.ledger,
                        signer@,
                        amount as nat,
                    )
                },
            },
    {
        self.accounts.deposit(signer, amount)
    }

    /// Withdraw funds
    pub fn withdraw(&mut self, signer: &str, amount: u64) -> (result: Result<Tx, ApplicationError>)
        ensures
            final(self)@.engine == old(self)@.engine,
            match crate::accounting::withdraw_error(old(self)@.ledger, signer@, amount as nat) {
                Some(error) => {
                    &&& result matches Err(e) && e@ == error
                    &&& final(self)@.ledger == old(self)@.ledger
                },
                None => {
                    &&& result matches Ok(tx) && tx@ == (TxView::Withdraw {
                        account: signer@,
                        amount: amount as nat,
                    })
                    &&& final(self)@.ledger == crate::accounting::after_withdraw(
                        old(self)@.ledger,
                        signer@,
                        amount as nat,
                    )
                },
            },
    {
        self.accounts.withdraw(signer, amount)
    }

    /// Transfer funds between sender and recipient
    pub fn send(&mut self, sender: &str, recipient: &str, amount: u64) -> (result: Result<
        (Tx, Tx),
        ApplicationError,
    >)
        ensures
            final(self)@.engine == old(self)@.engine,
            match send_error(old(self)@.ledger, sender@, recipient@, amount as nat) {
                Some(error) => {
                    &&& result matches Err(e) && e@ == error
                    &&& final(self)@.ledger == old(self)@.ledger
                },
                None => {
                    &&& result matches Ok(txs) && txs.0@ == (TxView::Withdraw {
                        account: sender@,
                        amount: amount as nat,
                    }) && txs.1@ == (TxView::Deposit { account: recipient@, amount: amount as nat })
                    &&& final(self)@.ledger == after_send(
                        old(self)@.ledger,
                        sender@,
                        recipient@,
                        amount as nat,
                    )
                },
            },
    {
        self.accounts.send(sender, recipient, amount)
    }

    /// Settles one match record for the incoming signer `taker`.
    fn settle_match(&mut self, taker: &String, record: &PartialOrder)
        ensures
            final(self)@.engine == old(self)@.engine,
            final(self)@.ledger == settle_one(old(self)@.ledger, taker@, record@),
    {
        let funds = match record.price.checked_mul(record.amount) {
            Some(funds) => funds,
            None => {
                return ;
            },
        };
        let _ = match record.side {
            Side::Buy => self.accounts.send(record.signer.as_str(), taker.as_str(), funds),
            Side::Sell => self.accounts.send(taker.as_str(), record.signer.as_str(), funds),
        };
    }

    /// Process a given order and apply the outcome to the accounts involved.
    ///
    /// The signer must have an account, and a buyer must hold the funds for
    /// the whole order. The order is then processed by the matching engine,
    /// and each match record of the receipt is settled in turn.
    pub fn order(&mut self, order: Order) -> (result: Result<Receipt, ApplicationError>)
        requires
            old(self)@.engine.ordinal < u64::MAX,
        ensures
            engine_ok(final(self)@.engine),
            match order_error(old(self)@.ledger, order@) {
                Some(error) => {
                    &&& result matches Err(e) && e@ == error
                    &&& final(self)@ == old(self)@
                },
                None => {
                    &&& result matches Ok(receipt) && receipt@ == receipt_for(
                        old(self)@.engine,
                        order@,
                    )
                    &&& final(self)@.engine == step(old(self)@.engine, order@)
                    &&& final(self)@.ledger == settle(
                        old(self)@.ledger,
                        order@.signer,
                        receipt_for(old(self)@.engine, order@).matches,
                    )
                },
            },
    {
        proof {
            use_type_invariant(&self.matching_engine);
        }
        let balance = match self.accounts.balance_of(order.signer.as_str()) {
            Ok(balance) => *balance,
            Err(error) => {
                return Err(error);
            },
        };
        match order.solvable_for(balance) {
            Ok(()) => {},
            Err(error) => {
                return Err(error);
            },
        }
        let taker = order.signer.clone();
        let receipt = match self.matching_engine.process(order) {
            Ok(receipt) => receipt,
            Err(error) => {
                return Err(error);
            },
        };
        let ghost records = order_views(receipt.matches@);
        let ghost ledger = self@.ledger;
        let mut settled: usize = 0;
        assert(records.skip(0) =~= records);
        while settled < receipt.matches.len()
            invariant
                settled <= records.len(),
                records == order_views(receipt.matches@),
                self@.engine == step(old(self)@.engine, order@),
                settle(ledger, taker@, records) == settle(
                    self@.ledger,
                    taker@,
                    records.skip(settled as int),
                ),
            decreases records.len() - settled,
        {
            assert(records.skip(settled as int).drop_first() =~= records.skip(settled + 1));
            self.settle_match(&taker, &receipt.matches[settled]);
            settled = settled + 1;
        }
        Ok(receipt)
    }
}

} // verus!
