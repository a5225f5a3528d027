//! Orders, resting orders and receipts, each with its mathematical view.

use crate::errors::{ApplicationError, ApplicationErrorView};
use vstd::prelude::*;

verus! {

/// Side of the book an order is placed on.
#[derive(Clone, Copy, PartialEq, Eq, PartialOrd, Ord, Debug, Structural)]
pub enum Side {
    /// Want to buy
    Buy,
    /// Want to sell
    Sell,
}

/// The lowercase form of a text, as `str::to_lowercase` gives it.
pub uninterp spec fn lowercase(text: Seq<char>) -> Seq<char>;

/// The lowercase form of `text`. The body calls `str::to_lowercase`, whose
/// result depends on the text alone. The contract, which is not proved,
/// gives that result its name, [`lowercase`], and says nothing more of it.
#[verifier::external_body]
fn to_lowercase(text: &str) -> (lowered: String)
    ensures
        lowered@ == lowercase(text@),
{
    text.to_lowercase()
}

/// The side that a word names: `buy` or `sell`, spelled so exactly.
pub open spec fn side_of_word(word: Seq<char>) -> Result<Side, ()> {
    if word == "buy"@ {
        Ok(Side::Buy)
    } else if word == "sell"@ {
        Ok(Side::Sell)
    } else {
        Err(())
    }
}

impl Side {
    /// The side that `word` names: `buy` or `sell`, spelled so exactly.
    pub fn from_word(word: &str) -> (side: Result<Side, ()>)
        ensures
            side == side_of_word(word@),
    {
        proof {
            reveal_strlit("buy");
            reveal_strlit("sell");
        }
        let letters = word.unicode_len();
        if letters == 3 && word.get_char(0) == 'b' && word.get_char(1) == 'u' && word.get_char(2)
            == 'y' {
            assert(word@ =~= "buy"@);
            Ok(Side::Buy)
        } else if letters == 4 && word.get_char(0) == 's' && word.get_char(1) == 'e'
            && word.get_char(2) == 'l' && word.get_char(3) == 'l' {
            assert(word@ =~= "sell"@);
            Ok(Side::Sell)
        } else {
            Err(())
        }
    }
}

impl TryFrom<String> for Side {
    type Error = ();

    /// The side that `string` names when put in lowercase.
    fn try_from(string: String) -> (side: Result<Self, ()>)
        ensures
            side == side_of_word(lowercase(string@)),
    {
        let lowered = to_lowercase(string.as_str());
        Side::from_word(lowered.as_str())
    }
}

impl vstd::std_specs::convert::TryFromSpecImpl<String> for Side {
    open spec fn obeys_try_from_spec() -> bool {
        true
    }

    open spec fn try_from_spec(string: String) -> Result<Self, ()> {
        side_of_word(lowercase(string@))
    }
}

/// An incoming request to buy or sell an amount at a limit price.
#[derive(PartialEq, Eq, Debug)]
pub struct Order {
    /// Highest price a buyer pays, lowest price a seller accepts
    pub price: u64,
    /// Number of units to trade
    pub amount: u64,
    /// The side of the order book (buy or sell)
    pub side: Side,
    /// The account that signed the order
    pub signer: String,
}

/// The model of an [`Order`].
pub struct OrderView {
    pub price: nat,
    pub amount: nat,
    pub side: Side,
    pub signer: Seq<char>,
}

impl View for Order {
    type V = OrderView;

    open spec fn view(&self) -> OrderView {
        OrderView {
            price: self.price as nat,
            amount: self.amount as nat,
            side: self.side,
            signer: self.signer@,
        }
    }
}

impl Clone for Order {
    fn clone(&self) -> (copy: Self)
        ensures
            copy == *self,
    {
        Order {
            price: self.price,
            amount: self.amount,
            side: self.side,
            signer: self.signer.clone(),
        }
    }
}

/// Why a signer who holds `balance` cannot place `order`, if that is so: a
/// buyer must hold `amount * price`, which must not pass `u64::MAX`. A
/// seller can always place an order.
pub open spec fn funds_error(order: OrderView, balance: nat) -> Option<ApplicationErrorView> {
    match order.side {
        Side::Sell => None,
        Side::Buy => if order.amount * order.price > u64::MAX {
            Some(ApplicationErrorView::FundsOverflow(order.signer))
        } else if balance < order.amount * order.price {
            Some(
                ApplicationErrorView::AccountUnderFunded(order.signer, order.amount * order.price),
            )
        } else {
            None
        },
    }
}

impl Order {
    /// The order stamped with `ordinal` and with `remaining` units unmatched.
    pub fn into_partial_order(self, ordinal: u64, remaining: u64) -> (partial: PartialOrder)
        ensures
            partial@ == (PartialOrderView {
                price: self@.price,
                amount: self@.amount,
                remaining: remaining as nat,
                side: self@.side,
                signer: self@.signer,
                ordinal: ordinal as nat,
            }),
    {
        let Order { price, amount, side, signer } = self;
        PartialOrder { price, amount, remaining, side, signer, ordinal }
    }

    /// The funds a buyer must hold for the whole order: `amount * price`.
    /// A seller needs none, and a product beyond `u64::MAX` has no value.
    pub fn required_fund_to_fulfill(&self) -> (funds: Option<u64>)
        ensures
            funds == match self.side {
                Side::Sell => None::<u64>,
                Side::Buy => if self.amount * self.price <= u64::MAX {
                    Some((self.amount * self.price) as u64)
                } else {
                    None
                },
            },
    {
        match self.side {
            Side::Sell => None,
            Side::Buy => self.amount.checked_mul(self.price),
        }
    }

    /// Checks that a signer who holds `balance` can place this order.
    pub fn solvable_for(&self, balance: u64) -> (result: Result<(), ApplicationError>)
        ensures
            match funds_error(self@, balance as nat) {
                Some(error) => result matches Err(e) && e@ == error,
                None => result is Ok,
            },
    {
        match self.side {
            Side::Sell => Ok(()),
            Side::Buy => match self.required_fund_to_fulfill() {
                None => Err(ApplicationError::FundsOverflow(self.signer.clone())),
                Some(funds) => if balance < funds {
                    Err(ApplicationError::AccountUnderFunded(self.signer.clone(), funds))
                } else {
                    Ok(())
                },
            },
        }
    }
}

/// An order stamped with its sequence number and the quantity still unmatched.
/// It is both what rests in the book and what a receipt reports of a match.
#[derive(PartialEq, Eq, Debug)]
pub struct PartialOrder {
    /// Price per unit
    pub price: u64,
    /// Initial number of units in the order
    pub amount: u64,
    /// Remaining number of units after potential matches
    pub remaining: u64,
    /// Buy or sell side of the book
    pub side: Side,
    /// Signer of the order
    pub signer: String,
    /// Sequence number
    pub ordinal: u64,
}

/// The model of a [`PartialOrder`].
pub struct PartialOrderView {
    pub price: nat,
    pub amount: nat,
    pub remaining: nat,
    pub side: Side,
    pub signer: Seq<char>,
    pub ordinal: nat,
}

impl View for PartialOrder {
    type V = PartialOrderView;

    open spec fn view(&self) -> PartialOrderView {
        PartialOrderView {
            price: self.price as nat,
            amount: self.amount as nat,
            remaining: self.remaining as nat,
            side: self.side,
            signer: self.signer@,
            ordinal: self.ordinal as nat,
        }
    }
}

impl Clone for PartialOrder {
    fn clone(&self) -> (copy: Self)
        ensures
            copy == *self,
    {
        PartialOrder {
            price: self.price,
            amount: self.amount,
            remaining: self.remaining,
            side: self.side,
            signer: self.signer.clone(),
            ordinal: self.ordinal,
        }
    }
}

impl PartialOrder {
    /// Splits `take` units off `pos`: `pos` keeps the rest as its remaining
    /// quantity, and the returned order is a copy of the reduced `pos` whose
    /// amount is `take` and whose price is `price`.
    pub fn take_from(pos: &mut PartialOrder, take: u64, price: u64) -> (taken: PartialOrder)
        requires
            take <= old(pos).remaining,
        ensures
            final(pos)@ == (PartialOrderView {
                remaining: (old(pos).remaining - take) as nat,
                ..old(pos)@
            }),
            taken@ == (PartialOrderView {
                price: price as nat,
                amount: take as nat,
                ..final(pos)@
            }),
    {
        pos.remaining = pos.remaining - take;
        let mut new = pos.clone();
        new.amount = take;
        new.price = price;
        new
    }
}

/// What the caller receives for an accepted [`Order`].
#[derive(PartialEq, Eq, Debug)]
pub struct Receipt {
    /// Sequence number of the order
    pub ordinal: u64,
    /// Resting orders consumed by the order, in the order they were matched
    pub matches: Vec<PartialOrder>,
}

/// The model of a [`Receipt`].
pub struct ReceiptView {
    pub ordinal: nat,
    pub matches: Seq<PartialOrderView>,
}

/// The models of a sequence of resting orders, one by one.
pub open spec fn order_views(orders: Seq<PartialOrder>) -> Seq<PartialOrderView> {
    orders.map_values(|o: PartialOrder| o@)
}

impl View for Receipt {
    type V = ReceiptView;

    open spec fn view(&self) -> ReceiptView {
        ReceiptView { ordinal: self.ordinal as nat, matches: order_views(self.matches@) }
    }
}

impl Clone for Receipt {
    fn clone(&self) -> (copy: Self)
        ensures
            copy@ == self@,
    {
        let copy = Receipt { ordinal: self.ordinal, matches: self.matches.clone() };
        copy
    }
}

} // verus!
