//! The mathematical model of the order book and of matching.
//!
//! One side of the book is a sequence of price levels in ascending price. A
//! level holds its resting orders in time priority, earliest first. Matching
//! is defined on these sequences alone; the executable book is specified
//! against the definitions of this module.

use crate::types::{OrderView, PartialOrderView, ReceiptView, Side};
use vstd::prelude::*;
use vstd::seq_lib::lemma_flatten_concat;

verus! {

/// One price level: the orders resting at `price`, earliest first.
pub struct LevelView {
    pub price: nat,
    pub orders: Seq<PartialOrderView>,
}

/// The quantity that changes hands when `incoming` units meet a resting
/// order with `resting` units left: the smaller of the two.
pub open spec fn matched_amount(incoming: nat, resting: nat) -> nat {
    if incoming <= resting {
        incoming
    } else {
        resting
    }
}

/// What is left of `incoming` units after they met a resting order with
/// `resting` units left. The resting order's whole remaining quantity is
/// taken off the incoming quantity, and the result stops at zero.
pub open spec fn left_after(incoming: nat, resting: nat) -> nat {
    if incoming <= resting {
        0
    } else {
        (incoming - resting) as nat
    }
}

/// The record of a match of `incoming` units against `resting`: the resting
/// order as it was, with the matched quantity taken off its remaining quantity.
pub open spec fn fragment(resting: PartialOrderView, incoming: nat) -> PartialOrderView {
    PartialOrderView {
        remaining: (resting.remaining - matched_amount(incoming, resting.remaining)) as nat,
        ..resting
    }
}

/// The outcome of matching against one queue.
pub struct QueueMatch {
    /// The queue after the match, earliest first
    pub rest: Seq<PartialOrderView>,
    /// The match records, in the order the matches happened
    pub fragments: Seq<PartialOrderView>,
    /// The incoming quantity still unmatched
    pub remaining: nat,
}

/// Matches `remaining` units signed by `signer` against `queue`, earliest
/// resting order first. An order of `signer` itself is passed over and keeps
/// its place. Any other order is matched: it leaves the queue when nothing of
/// it remains and stays in place with what remains otherwise. Matching stops
/// when the incoming quantity is used up or the queue has been walked.
pub open spec fn match_queue(
    queue: Seq<PartialOrderView>,
    signer: Seq<char>,
    remaining: nat,
) -> QueueMatch
    decreases queue.len(),
{
    if queue.len() == 0 || remaining == 0 {
        QueueMatch { rest: queue, fragments: Seq::empty(), remaining }
    } else if queue.first().signer == signer {
        let later = match_queue(queue.drop_first(), signer, remaining);
        QueueMatch { rest: seq![queue.first()] + later.rest, ..later }
    } else {
        let record = fragment(queue.first(), remaining);
        let later = match_queue(
            queue.drop_first(),
            signer,
            left_after(remaining, queue.first().remaining),
        );
        QueueMatch {
            rest: if record.remaining > 0 {
                seq![record] + later.rest
            } else {
                later.rest
            },
            fragments: seq![record] + later.fragments,
            remaining: later.remaining,
        }
    }
}

/// Whether an incoming order on `side` with limit `limit` may trade at
/// `price`: a buyer pays at most its limit, a seller accepts at least its limit.
pub open spec fn crosses(side: Side, limit: nat, price: nat) -> bool {
    match side {
        Side::Buy => price <= limit,
        Side::Sell => price >= limit,
    }
}

/// The levels of the side opposite to an incoming order on `side`, best
/// price first: the asks from the cheapest up for a buyer, the bids from the
/// richest down for a seller. Applied twice it gives the levels back.
pub open spec fn by_priority(levels: Seq<LevelView>, side: Side) -> Seq<LevelView> {
    match side {
        Side::Buy => levels,
        Side::Sell => levels.reverse(),
    }
}

/// The outcome of matching against one side of the book.
pub struct SideMatch {
    /// The levels after the match, in the order they were given
    pub levels: Seq<LevelView>,
    /// The match records, in the order the matches happened
    pub fragments: Seq<PartialOrderView>,
    /// The incoming quantity still unmatched
    pub remaining: nat,
}

/// Matches an incoming order against `levels`, given best price first. Levels
/// are visited in turn while the incoming quantity lasts and the level's
/// price crosses the limit; each visited level is matched by [`match_queue`].
pub open spec fn match_levels(
    levels: Seq<LevelView>,
    side: Side,
    limit: nat,
    signer: Seq<char>,
    remaining: nat,
) -> SideMatch
    decreases levels.len(),
{
    if levels.len() == 0 || remaining == 0 || !crosses(side, limit, levels.first().price) {
        SideMatch { levels, fragments: Seq::empty(), remaining }
    } else {
        let here = match_queue(levels.first().orders, signer, remaining);
        let later = match_levels(levels.drop_first(), side, limit, signer, here.remaining);
        SideMatch {
            levels: seq![LevelView { price: levels.first().price, orders: here.rest }]
                + later.levels,
            fragments: here.fragments + later.fragments,
            remaining: later.remaining,
        }
    }
}

/// The match of `order` against `levels`, a side of the book in ascending
/// price: the levels are taken best price first.
pub open spec fn match_side(levels: Seq<LevelView>, order: OrderView) -> SideMatch {
    match_levels(
        by_priority(levels, order.side),
        order.side,
        order.price,
        order.signer,
        order.amount,
    )
}

/// A side of the book after `order` was matched against it, in ascending price.
pub open spec fn side_after_match(levels: Seq<LevelView>, order: OrderView) -> Seq<LevelView> {
    by_priority(match_side(levels, order).levels, order.side)
}

/// Whether a level holds at least one order.
pub open spec fn occupied(level: LevelView) -> bool {
    level.orders.len() > 0
}

/// The levels that hold at least one order, in their order.
pub open spec fn prune(levels: Seq<LevelView>) -> Seq<LevelView> {
    levels.filter(|level: LevelView| occupied(level))
}

/// The levels with `order` added behind the orders of its price. The level
/// is created, in ascending price, where the price has none yet.
pub open spec fn insert_order(levels: Seq<LevelView>, order: PartialOrderView) -> Seq<LevelView>
    decreases levels.len(),
{
    if levels.len() == 0 || order.price < levels.first().price {
        seq![LevelView { price: order.price, orders: seq![order] }] + levels
    } else if levels.first().price == order.price {
        seq![LevelView { price: order.price, orders: levels.first().orders.push(order) }]
            + levels.drop_first()
    } else {
        seq![levels.first()] + insert_order(levels.drop_first(), order)
    }
}

/// All orders of a side: level by level in ascending price, earliest first
/// within a level.
pub open spec fn all_orders(levels: Seq<LevelView>) -> Seq<PartialOrderView> {
    levels.map_values(|level: LevelView| level.orders).flatten()
}

/// The orders resting at `price`, earliest first; none where the price has no level.
pub open spec fn orders_at(levels: Seq<LevelView>, price: nat) -> Seq<PartialOrderView>
    decreases levels.len(),
{
    if levels.len() == 0 {
        Seq::empty()
    } else if levels.first().price == price {
        levels.first().orders
    } else {
        orders_at(levels.drop_first(), price)
    }
}

/// The funds that the orders of `signer` among `orders` reserve: the sum of
/// amount times price.
pub open spec fn reserved_in_queue(orders: Seq<PartialOrderView>, signer: Seq<char>) -> nat
    decreases orders.len(),
{
    if orders.len() == 0 {
        0
    } else {
        reserved_in_queue(orders.drop_last(), signer) + if orders.last().signer == signer {
            orders.last().amount * orders.last().price
        } else {
            0
        }
    }
}

/// The funds that the orders of `signer` reserve on one side of the book.
pub open spec fn reserved(levels: Seq<LevelView>, signer: Seq<char>) -> nat {
    reserved_in_queue(all_orders(levels), signer)
}

/// The state of a matching engine.
pub struct EngineView {
    /// The last sequence number given out
    pub ordinal: nat,
    /// The buy side, in ascending price
    pub bids: Seq<LevelView>,
    /// The sell side, in ascending price
    pub asks: Seq<LevelView>,
    /// The receipts of all processed orders, oldest first
    pub history: Seq<ReceiptView>,
}

/// The engine that has processed nothing.
pub open spec fn initial() -> EngineView {
    EngineView {
        ordinal: 0,
        bids: Seq::<LevelView>::empty(),
        asks: Seq::<LevelView>::empty(),
        history: Seq::<ReceiptView>::empty(),
    }
}

/// The side opposite to `side`.
pub open spec fn other_side(side: Side) -> Side {
    match side {
        Side::Buy => Side::Sell,
        Side::Sell => Side::Buy,
    }
}

/// The side of the book that an order on `side` rests on.
pub open spec fn own_side(engine: EngineView, side: Side) -> Seq<LevelView> {
    match side {
        Side::Buy => engine.bids,
        Side::Sell => engine.asks,
    }
}

/// The side of the book that an order on `side` is matched against.
pub open spec fn opposite_side(engine: EngineView, side: Side) -> Seq<LevelView> {
    own_side(engine, other_side(side))
}

/// The match of `order` against the opposite side of the book.
pub open spec fn sweep(engine: EngineView, order: OrderView) -> SideMatch {
    match_side(opposite_side(engine, order.side), order)
}

/// The receipt for `order`: the next sequence number and the match records.
pub open spec fn receipt_for(engine: EngineView, order: OrderView) -> ReceiptView {
    ReceiptView { ordinal: engine.ordinal + 1, matches: sweep(engine, order).fragments }
}

/// The resting order that stands for the unmatched part of `order`: an
/// order of its own for the quantity that is left, which is its amount and
/// its remaining quantity alike.
pub open spec fn remainder(engine: EngineView, order: OrderView) -> PartialOrderView {
    PartialOrderView {
        price: order.price,
        amount: sweep(engine, order).remaining,
        remaining: sweep(engine, order).remaining,
        side: order.side,
        signer: order.signer,
        ordinal: engine.ordinal + 1,
    }
}

/// The opposite side of the book after `order` was processed: matched and pruned.
pub open spec fn opposite_after(engine: EngineView, order: OrderView) -> Seq<LevelView> {
    prune(side_after_match(opposite_side(engine, order.side), order))
}

/// The order's own side of the book after `order` was processed: the
/// unmatched part, if any, rests at the limit price, and the side is pruned.
pub open spec fn own_after(engine: EngineView, order: OrderView) -> Seq<LevelView> {
    prune(
        if sweep(engine, order).remaining > 0 {
            insert_order(own_side(engine, order.side), remainder(engine, order))
        } else {
            own_side(engine, order.side)
        },
    )
}

/// The engine after `order` was processed.
pub open spec fn step(engine: EngineView, order: OrderView) -> EngineView {
    EngineView {
        ordinal: engine.ordinal + 1,
        bids: match order.side {
            Side::Buy => own_after(engine, order),
            Side::Sell => opposite_after(engine, order),
        },
        asks: match order.side {
            Side::Buy => opposite_after(engine, order),
            Side::Sell => own_after(engine, order),
        },
        history: engine.history.push(receipt_for(engine, order)),
    }
}

/// Pruning passes over a level without orders.
pub proof fn lemma_prune_vacant(levels: Seq<LevelView>, at: int)
    requires
        0 <= at < levels.len(),
        !occupied(levels[at]),
    ensures
        prune(levels.remove(at)) == prune(levels),
{
    let kept = |level: LevelView| occupied(level);
    let before = levels.take(at);
    let after = levels.skip(at + 1);
    let vacant = seq![levels[at]];
    assert(vacant.filter(kept) =~= Seq::<LevelView>::empty()) by {
        reveal_with_fuel(Seq::filter, 2);
    }
    assert(levels =~= before + vacant + after);
}

/// Pruning leaves levels alone that all hold an order.
pub proof fn lemma_prune_occupied(levels: Seq<LevelView>)
    requires
        forall|i: int| 0 <= i < levels.len() ==> occupied(#[trigger] levels[i]),
    ensures
        prune(levels) == levels,
    decreases levels.len(),
{
    reveal(Seq::filter);
    if levels.len() > 0 {
        lemma_prune_occupied(levels.drop_last());
    }
}

/// The orders of two runs of levels, one behind the other.
pub proof fn lemma_all_orders_concat(front: Seq<LevelView>, back: Seq<LevelView>)
    ensures
        all_orders(front + back) == all_orders(front) + all_orders(back),
{
    let queues = |level: LevelView| level.orders;
    assert((front + back).map_values(queues) =~= front.map_values(queues) + back.map_values(
        queues,
    ));
    lemma_flatten_concat(front.map_values(queues), back.map_values(queues));
}

/// The orders of a single level are its queue.
pub proof fn lemma_all_orders_single(level: LevelView)
    ensures
        all_orders(seq![level]) == level.orders,
{
    let queues = |level: LevelView| level.orders;
    assert(seq![level].map_values(queues) =~= seq![level.orders]);
    seq![level.orders].lemma_flatten_singleton();
}

/// Reserved funds add up over two runs of orders.
pub proof fn lemma_reserved_concat(
    front: Seq<PartialOrderView>,
    back: Seq<PartialOrderView>,
    signer: Seq<char>,
)
    ensures
        reserved_in_queue(front + back, signer) == reserved_in_queue(front, signer)
            + reserved_in_queue(back, signer),
    decreases back.len(),
{
    if back.len() > 0 {
        assert((front + back).drop_last() =~= front + back.drop_last());
        lemma_reserved_concat(front, back.drop_last(), signer);
    }
}

} // verus!
