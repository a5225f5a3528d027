//! The matching engine: sequencer, both sides of the book, and history.

use crate::book::BookSide;
use crate::errors::ApplicationError;
use crate::model::{all_orders, initial, receipt_for, reserved, step, EngineView};
use crate::soundness::{engine_ok, lemma_step_ok};
use crate::types::{order_views, Order, PartialOrder, Receipt, ReceiptView, Side};
use vstd::prelude::*;

verus! {

/// Matches incoming orders against the resting orders of one instrument.
#[derive(Debug)]
pub struct MatchingEngine {
    /// The last sequence number
    ordinal: u64,
    /// The "Bid" or "Buy" side of the order book
    bids: BookSide,
    /// The "Ask" or "Sell" side of the order book
    asks: BookSide,
    /// Previous matches for record keeping
    history: Vec<Receipt>,
}

/// The models of a sequence of receipts, one by one.
pub open spec fn receipt_views(receipts: Seq<Receipt>) -> Seq<ReceiptView> {
    receipts.map_values(|receipt: Receipt| receipt@)
}

impl View for MatchingEngine {
    type V = EngineView;

    closed spec fn view(&self) -> EngineView {
        EngineView {
            ordinal: self.ordinal as nat,
            bids: self.bids@,
            asks: self.asks@,
            history: receipt_views(self.history@),
        }
    }
}

impl MatchingEngine {
    /// Every engine is sound: see [`engine_ok`].
    #[verifier::type_invariant]
    pub open spec fn sound(self) -> bool {
        engine_ok(self@)
    }

    /// Creates a new [`MatchingEngine`] with an ordinal of 0 and empty books
    pub fn new() -> (engine: Self)
        ensures
            engine@ == initial(),
            engine_ok(engine@),
    {
        let bids = BookSide::new();
        let asks = BookSide::new();
        let history: Vec<Receipt> = Vec::new();
        proof {
            assert(receipt_views(history@) =~= Seq::<ReceiptView>::empty());
        }
        MatchingEngine { ordinal: 0, bids, asks, history }
    }

    /// The last sequence number given out.
    pub fn ordinal(&self) -> (ordinal: u64)
        ensures
            ordinal == self@.ordinal,
    {
        self.ordinal
    }

    /// The buy side of the book.
    pub fn bids(&self) -> (bids: &BookSide)
        ensures
            bids@ == self@.bids,
    {
        &self.bids
    }

    /// The sell side of the book.
    pub fn asks(&self) -> (asks: &BookSide)
        ensures
            asks@ == self@.asks,
    {
        &self.asks
    }

    /// The receipts of all processed orders, oldest first.
    pub fn history(&self) -> (history: &Vec<Receipt>)
        ensures
            receipt_views(history@) == self@.history,
    {
        &self.history
    }

    /// Copies of all resting orders: the bids, then the asks, each side
    /// level by level in ascending price and earliest first within a level.
    pub fn orderbook(&self) -> (all: Vec<PartialOrder>)
        ensures
            order_views(all@) == all_orders(self@.bids) + all_orders(self@.asks),
    {
        let mut all = self.bids.orders();
        let mut asks = self.asks.orders();
        all.append(&mut asks);
        all
    }

    /// The funds that the resting bids of `signer` reserve: the sum of amount
    /// times price. Where the sum would pass `u64::MAX` the result is 0, so
    /// that 0 stands for no reserved funds as well as for a sum that has no
    /// value.
    pub fn reserved_amount(&self, signer: &str) -> (funds: u64)
        ensures
            funds == if reserved(self@.bids, signer@) <= u64::MAX {
                reserved(self@.bids, signer@)
            } else {
                0
            },
    {
        match self.bids.reserved(signer) {
            Some(funds) => funds,
            None => 0,
        }
    }

    /// Processes an [`Order`] and returns a [`Receipt`].
    ///
    /// The order takes the next sequence number and is matched against the
    /// opposite side of the book, best price first and earliest order first
    /// within a price. What is left of it rests on its own side. Levels
    /// without orders are removed on both sides, and the receipt is added to
    /// the history.
    ///
    /// The engine must have a sequence number left to give. It refuses no
    /// order: the result is always `Ok`.
    pub fn process(&mut self, order: Order) -> (result: Result<Receipt, ApplicationError>)
        requires
            old(self)@.ordinal < u64::MAX,
        ensures
            final(self)@ == step(old(self)@, order@),
            engine_ok(final(self)@),
            result matches Ok(receipt) && receipt@ == receipt_for(old(self)@, order@),
    {
        proof {
            use_type_invariant(&*self);
            lemma_step_ok(self@, order@);
        }
        let mut taken = MatchingEngine::new();
        std::mem::swap(self, &mut taken);
        let MatchingEngine { ordinal, mut bids, mut asks, mut history } = taken;
        let ordinal = ordinal + 1;
        let mut matches: Vec<PartialOrder> = Vec::new();
        let left = match order.side {
            Side::Buy => asks.match_order(&order, &mut matches),
            Side::Sell => bids.match_order(&order, &mut matches),
        };
        if left > 0 {
            let mut resting = order.into_partial_order(ordinal, left);
            resting.amount = left;
            match resting.side {
                Side::Buy => bids.insert(resting),
                Side::Sell => asks.insert(resting),
            }
        }
        asks.prune();
        bids.prune();
        let receipt = Receipt { ordinal, matches };
        let ghost earlier = receipt_views(history@);
        history.push(receipt.clone());
        assert(receipt_views(history@) =~= earlier.push(receipt@));
        *self = MatchingEngine { ordinal, bids, asks, history };
        Ok(receipt)
    }
}

impl Default for MatchingEngine {
    /// The engine that [`MatchingEngine::new`] gives.
    fn default() -> (engine: Self)
        ensures
            engine@ == initial(),
    {
        MatchingEngine::new()
    }
}

} // verus!
