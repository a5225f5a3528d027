//! One side of the order book: price levels in ascending price, each with
//! its resting orders in time priority.

use crate::model::{
    all_orders, by_priority, crosses, insert_order, lemma_all_orders_concat,
    lemma_all_orders_single, lemma_prune_occupied, lemma_prune_vacant, lemma_reserved_concat,
    match_levels, match_queue, match_side, occupied, orders_at, prune, reserved, reserved_in_queue,
    side_after_match, LevelView,
};
use crate::types::{order_views, Order, PartialOrder, PartialOrderView, Side};
use std::collections::VecDeque;
use vstd::prelude::*;

verus! {

/// The orders resting at one price, earliest first.
#[derive(Debug)]
struct Level {
    price: u64,
    orders: VecDeque<PartialOrder>,
}

impl View for Level {
    type V = LevelView;

    closed spec fn view(&self) -> LevelView {
        LevelView { price: self.price as nat, orders: order_views(self.orders@) }
    }
}

/// Matches `remaining` units signed by `signer` against `queue` and appends
/// the match records to `fragments`. Returns the quantity still unmatched.
fn take_from_queue(
    queue: &mut VecDeque<PartialOrder>,
    signer: &String,
    remaining: u64,
    fragments: &mut Vec<PartialOrder>,
) -> (left: u64)
    ensures
        order_views(final(queue)@) == match_queue(
            order_views(old(queue)@),
            signer@,
            remaining as nat,
        ).rest,
        order_views(final(fragments)@) == order_views(old(fragments)@) + match_queue(
            order_views(old(queue)@),
            signer@,
            remaining as nat,
        ).fragments,
        left == match_queue(order_views(old(queue)@), signer@, remaining as nat).remaining,
{
    let ghost whole = match_queue(order_views(queue@), signer@, remaining as nat);
    let ghost recorded = order_views(fragments@);
    let mut kept: VecDeque<PartialOrder> = VecDeque::new();
    let mut left = remaining;
    while left > 0 && queue.len() > 0
        invariant
            whole.rest == order_views(kept@) + match_queue(
                order_views(queue@),
                signer@,
                left as nat,
            ).rest,
            recorded + whole.fragments == order_views(fragments@) + match_queue(
                order_views(queue@),
                signer@,
                left as nat,
            ).fragments,
            whole.remaining == match_queue(order_views(queue@), signer@, left as nat).remaining,
        decreases queue.len(),
    {
        let ghost before = order_views(queue@);
        let head = queue.pop_front().unwrap();
        assert(order_views(queue@) =~= before.drop_first());
        if head.signer == *signer {
            kept.push_back(head);
        } else {
            let taken = if left <= head.remaining {
                left
            } else {
                head.remaining
            };
            // The incoming quantity loses all that remained of the resting
            // order and stops at zero.
            left = left.saturating_sub(head.remaining);
            let record = PartialOrder {
                price: head.price,
                amount: head.amount,
                remaining: head.remaining - taken,
                side: head.side,
                signer: head.signer,
                ordinal: head.ordinal,
            };
            if record.remaining > 0 {
                fragments.push(record.clone());
                kept.push_back(record);
            } else {
                fragments.push(record);
            }
        }
    }
    kept.append(queue);
    std::mem::swap(queue, &mut kept);
    left
}

/// Appends copies of the orders of `queue` to `all`, earliest first.
fn copy_queue(queue: &VecDeque<PartialOrder>, all: &mut Vec<PartialOrder>)
    ensures
        order_views(final(all)@) == order_views(old(all)@) + order_views(queue@),
{
    let ghost given = order_views(all@);
    let mut at: usize = 0;
    while at < queue.len()
        invariant
            at <= queue@.len(),
            order_views(all@) == given + order_views(queue@).take(at as int),
        decreases queue@.len() - at,
    {
        let ghost copied = order_views(all@);
        all.push(queue[at].clone());
        assert(order_views(all@) =~= copied.push(queue@[at as int]@));
        at = at + 1;
    }
}

/// Adds to `total` the funds that the orders of `owner` in `queue` reserve.
/// There is no sum where it would pass `u64::MAX`.
fn reserve_queue(queue: &VecDeque<PartialOrder>, owner: &String, total: u64) -> (sum: Option<u64>)
    ensures
        sum == if total + reserved_in_queue(order_views(queue@), owner@) <= u64::MAX {
            Some((total + reserved_in_queue(order_views(queue@), owner@)) as u64)
        } else {
            None::<u64>
        },
{
    let ghost orders = order_views(queue@);
    let mut sum = total;
    let mut at: usize = 0;
    while at < queue.len()
        invariant
            at <= queue@.len(),
            orders == order_views(queue@),
            sum == total + reserved_in_queue(orders.take(at as int), owner@),
        decreases queue@.len() - at,
    {
        let order = &queue[at];
        proof {
            assert(orders.take(at + 1).drop_last() =~= orders.take(at as int));
            assert(orders =~= orders.take(at + 1) + orders.skip(at + 1));
            lemma_reserved_concat(orders.take(at + 1), orders.skip(at + 1), owner@);
        }
        if order.signer == *owner {
            let funds = match order.amount.checked_mul(order.price) {
                Some(funds) => funds,
                None => {
                    return None;
                },
            };
            sum = match sum.checked_add(funds) {
                Some(sum) => sum,
                None => {
                    return None;
                },
            };
        }
        at = at + 1;
    }
    assert(orders.take(at as int) =~= orders);
    Some(sum)
}

/// One side of the order book.
#[derive(Debug)]
pub struct BookSide {
    levels: Vec<Level>,
}

impl View for BookSide {
    type V = Seq<LevelView>;

    closed spec fn view(&self) -> Seq<LevelView> {
        self.levels@.map_values(|level: Level| level@)
    }
}

/// Whether an incoming order on `side` with limit `limit` may trade at `price`.
fn price_crosses(side: Side, limit: u64, price: u64) -> (yes: bool)
    ensures
        yes == crosses(side, limit as nat, price as nat),
{
    match side {
        Side::Buy => price <= limit,
        Side::Sell => price >= limit,
    }
}

impl BookSide {
    /// A side without any level.
    pub fn new() -> (side: BookSide)
        ensures
            side@ == Seq::<LevelView>::empty(),
    {
        let side = BookSide { levels: Vec::new() };
        side
    }

    /// The number of price levels.
    pub fn len(&self) -> (count: usize)
        ensures
            count == self@.len(),
    {
        self.levels.len()
    }

    /// Whether the side has no price level.
    pub fn is_empty(&self) -> (empty: bool)
        ensures
            empty == (self@.len() == 0),
    {
        self.levels.len() == 0
    }

    /// Copies of all resting orders: level by level in ascending price,
    /// earliest first within a level.
    pub fn orders(&self) -> (all: Vec<PartialOrder>)
        ensures
            order_views(all@) == all_orders(self@),
    {
        let mut all: Vec<PartialOrder> = Vec::new();
        let mut at: usize = 0;
        while at < self.levels.len()
            invariant
                at <= self@.len(),
                order_views(all@) == all_orders(self@.take(at as int)),
            decreases self@.len() - at,
        {
            proof {
                assert(self@.take(at + 1) =~= self@.take(at as int) + seq![self@[at as int]]);
                lemma_all_orders_concat(self@.take(at as int), seq![self@[at as int]]);
                lemma_all_orders_single(self@[at as int]);
            }
            copy_queue(&self.levels[at].orders, &mut all);
            at = at + 1;
        }
        assert(self@.take(at as int) =~= self@);
        all
    }

    /// Copies of the orders resting at `price`, earliest first; none where
    /// the price has no level.
    pub fn orders_at(&self, price: u64) -> (found: Vec<PartialOrder>)
        ensures
            order_views(found@) == orders_at(self@, price as nat),
    {
        let mut found: Vec<PartialOrder> = Vec::new();
        let mut at: usize = 0;
        assert(self@.skip(0) =~= self@);
        while at < self.levels.len()
            invariant
                at <= self@.len(),
                found@.len() == 0,
                orders_at(self@, price as nat) == orders_at(self@.skip(at as int), price as nat),
            decreases self@.len() - at,
        {
            assert(self@.skip(at as int).drop_first() =~= self@.skip(at + 1));
            if self.levels[at].price == price {
                copy_queue(&self.levels[at].orders, &mut found);
                return found;
            }
            at = at + 1;
        }
        found
    }

    /// The funds that the resting orders of `signer` reserve on this side:
    /// the sum of amount times price. There is no sum where it would pass
    /// `u64::MAX`.
    pub fn reserved(&self, signer: &str) -> (funds: Option<u64>)
        ensures
            funds == if reserved(self@, signer@) <= u64::MAX {
                Some(reserved(self@, signer@) as u64)
            } else {
                None::<u64>
            },
    {
        let owner = signer.to_owned();
        let mut total: u64 = 0;
        let mut at: usize = 0;
        while at < self.levels.len()
            invariant
                at <= self@.len(),
                owner@ == signer@,
                total == reserved_in_queue(all_orders(self@.take(at as int)), signer@),
            decreases self@.len() - at,
        {
            proof {
                let done = self@.take(at as int);
                let here = seq![self@[at as int]];
                let ahead = self@.skip(at + 1);
                assert(self@.take(at + 1) =~= done + here);
                assert(self@ =~= self@.take(at + 1) + ahead);
                lemma_all_orders_concat(done, here);
                lemma_all_orders_single(self@[at as int]);
                lemma_all_orders_concat(self@.take(at + 1), ahead);
                lemma_reserved_concat(all_orders(done), self@[at as int].orders, signer@);
                lemma_reserved_concat(all_orders(self@.take(at + 1)), all_orders(ahead), signer@);
            }
            total = match reserve_queue(&self.levels[at].orders, &owner, total) {
                Some(sum) => sum,
                None => {
                    return None;
                },
            };
            at = at + 1;
        }
        assert(self@.take(at as int) =~= self@);
        Some(total)
    }

    /// Adds `order` behind the orders resting at its price. The level is
    /// created, in ascending price, where the price has none yet.
    pub(crate) fn insert(&mut self, order: PartialOrder)
        ensures
            final(self)@ == insert_order(old(self)@, order@),
    {
        let ghost given = self@;
        let mut at: usize = 0;
        assert(given.skip(0) =~= given);
        while at < self.levels.len() && self.levels[at].price < order.price
            invariant
                at <= given.len(),
                self@ == given,
                insert_order(given, order@) == given.take(at as int) + insert_order(
                    given.skip(at as int),
                    order@,
                ),
            decreases given.len() - at,
        {
            proof {
                let ahead = given.skip(at as int);
                assert(ahead.drop_first() =~= given.skip(at + 1));
            }
            at = at + 1;
        }
        let ghost ahead = given.skip(at as int);
        if at < self.levels.len() && self.levels[at].price == order.price {
            let ghost joined = LevelView {
                price: order@.price,
                orders: ahead.first().orders.push(order@),
            };
            self.levels[at].orders.push_back(order);
            proof {
                assert(self@[at as int].orders =~= joined.orders);
            }
        } else {
            let ghost created = LevelView { price: order@.price, orders: seq![order@] };
            let price = order.price;
            let mut orders: VecDeque<PartialOrder> = VecDeque::new();
            orders.push_back(order);
            let level = Level { price, orders };
            proof {
                assert(level@.orders =~= created.orders);
            }
            self.levels.insert(at, level);
        }
    }

    /// Removes every level that holds no order.
    pub(crate) fn prune(&mut self)
        ensures
            final(self)@ == prune(old(self)@),
    {
        let mut at: usize = 0;
        while at < self.levels.len()
            invariant
                at <= self@.len(),
                prune(self@) == prune(old(self)@),
                forall|i: int| 0 <= i < at ==> occupied(#[trigger] self@[i]),
            decreases self@.len() - at,
        {
            if self.levels[at].orders.len() == 0 {
                let ghost before = self@;
                proof {
                    lemma_prune_vacant(before, at as int);
                }
                self.levels.remove(at);
                assert(self@ =~= before.remove(at as int));
            } else {
                at = at + 1;
            }
        }
        proof {
            lemma_prune_occupied(self@);
        }
    }

    /// Matches `order` against this side, which is opposite to its own:
    /// best price first, and earliest order first within a price. The match
    /// records are appended to `matches`. Returns the quantity still unmatched.
    pub(crate) fn match_order(&mut self, order: &Order, matches: &mut Vec<PartialOrder>) -> (left:
        u64)
        ensures
            final(self)@ == side_after_match(old(self)@, order@),
            order_views(final(matches)@) == order_views(old(matches)@) + match_side(
                old(self)@,
                order@,
            ).fragments,
            left == match_side(old(self)@, order@).remaining,
    {
        let side = order.side;
        let limit = order.price;
        let signer = &order.signer;
        let remaining = order.amount;
        let ghost recorded = order_views(matches@);
        let ghost given = by_priority(self@, side);
        let ghost whole = match_side(self@, order@);
        let count = self.levels.len();
        let mut visited: usize = 0;
        let mut left = remaining;
        proof {
            assert(given.skip(0) =~= given);
        }
        loop
            invariant
                visited <= count,
                self@.len() == count,
                given.len() == count,
                by_priority(self@, side).skip(visited as int) == given.skip(visited as int),
                whole.levels == by_priority(self@, side).take(visited as int) + match_levels(
                    given.skip(visited as int),
                    side,
                    limit as nat,
                    signer@,
                    left as nat,
                ).levels,
                recorded + whole.fragments == order_views(matches@) + match_levels(
                    given.skip(visited as int),
                    side,
                    limit as nat,
                    signer@,
                    left as nat,
                ).fragments,
                whole.remaining == match_levels(
                    given.skip(visited as int),
                    side,
                    limit as nat,
                    signer@,
                    left as nat,
                ).remaining,
            ensures
                match_levels(
                    given.skip(visited as int),
                    side,
                    limit as nat,
                    signer@,
                    left as nat,
                ).levels == given.skip(visited as int),
                match_levels(
                    given.skip(visited as int),
                    side,
                    limit as nat,
                    signer@,
                    left as nat,
                ).fragments == Seq::<PartialOrderView>::empty(),
                match_levels(
                    given.skip(visited as int),
                    side,
                    limit as nat,
                    signer@,
                    left as nat,
                ).remaining == left,
            decreases count - visited,
        {
            if visited >= count || left == 0 {
                break ;
            }
            let at = match side {
                Side::Buy => visited,
                Side::Sell => count - 1 - visited,
            };
            let ghost ahead = given.skip(visited as int);
            if !price_crosses(side, limit, self.levels[at].price) {
                break ;
            }
            left = take_from_queue(&mut self.levels[at].orders, signer, left, matches);
            proof {
                assert(ahead.drop_first() =~= given.skip(visited + 1));
            }
            visited = visited + 1;
        }
        left
    }
}

} // verus!
