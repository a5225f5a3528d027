//! What holds of every book the engine can reach, and the proof that
//! processing an order keeps it.

use crate::model::{
    all_orders, by_priority, crosses, fragment, insert_order, left_after, lemma_all_orders_concat,
    lemma_all_orders_single, lemma_prune_occupied, match_levels, match_queue, occupied,
    opposite_side, other_side, own_side, prune, remainder, side_after_match, step, sweep,
    EngineView, LevelView,
};
use crate::types::{OrderView, PartialOrderView, Side};
use vstd::prelude::*;

verus! {

/// A resting order is sound where it rests at its own price on its own side,
/// something of it remains, no more than its amount, and it carries a
/// sequence number that was given out.
pub open spec fn resting_ok(order: PartialOrderView, price: nat, side: Side, newest: nat) -> bool {
    &&& order.price == price
    &&& order.side == side
    &&& 0 < order.remaining <= order.amount
    &&& 0 < order.ordinal <= newest
}

/// A queue is sound where each of its orders is and the sequence numbers
/// ascend: the earliest order stands first.
pub open spec fn queue_ok(
    queue: Seq<PartialOrderView>,
    price: nat,
    side: Side,
    newest: nat,
) -> bool {
    &&& forall|k: int| 0 <= k < queue.len() ==> resting_ok(#[trigger] queue[k], price, side, newest)
    &&& forall|k: int, l: int|
        0 <= k < l < queue.len() ==> (#[trigger] queue[k]).ordinal < (#[trigger] queue[l]).ordinal
}

/// The queue of every level is sound.
pub open spec fn levels_ok(levels: Seq<LevelView>, side: Side, newest: nat) -> bool {
    forall|i: int|
        0 <= i < levels.len() ==> queue_ok(
            (#[trigger] levels[i]).orders,
            levels[i].price,
            side,
            newest,
        )
}

/// The prices ascend: no price has two levels.
pub open spec fn prices_ascend(levels: Seq<LevelView>) -> bool {
    forall|i: int, j: int|
        0 <= i < j < levels.len() ==> (#[trigger] levels[i]).price < (#[trigger] levels[j]).price
}

/// Every level holds an order.
pub open spec fn all_occupied(levels: Seq<LevelView>) -> bool {
    forall|i: int| 0 <= i < levels.len() ==> occupied(#[trigger] levels[i])
}

/// One side of the book is sound where its prices ascend, no level is
/// without orders, and every queue is sound.
pub open spec fn side_ok(levels: Seq<LevelView>, side: Side, newest: nat) -> bool {
    &&& prices_ascend(levels)
    &&& all_occupied(levels)
    &&& levels_ok(levels, side, newest)
}

/// How many of `orders` carry the sequence number `ordinal`.
pub open spec fn carriers(orders: Seq<PartialOrderView>, ordinal: nat) -> nat
    decreases orders.len(),
{
    if orders.len() == 0 {
        0
    } else {
        carriers(orders.drop_last(), ordinal) + if orders.last().ordinal == ordinal {
            1nat
        } else {
            0nat
        }
    }
}

/// How many resting orders of the book carry the sequence number `ordinal`.
pub open spec fn resting_carriers(engine: EngineView, ordinal: nat) -> nat {
    carriers(all_orders(engine.bids), ordinal) + carriers(all_orders(engine.asks), ordinal)
}

/// The engine is sound where both sides of its book are, no sequence number
/// rests twice in the book, and its history holds one receipt for each
/// sequence number given out, in sequence.
pub open spec fn engine_ok(engine: EngineView) -> bool {
    &&& side_ok(engine.bids, Side::Buy, engine.ordinal)
    &&& side_ok(engine.asks, Side::Sell, engine.ordinal)
    &&& forall|ordinal: nat| #[trigger] resting_carriers(engine, ordinal) <= 1
    &&& engine.history.len() == engine.ordinal
    &&& forall|i: int|
        0 <= i < engine.history.len() ==> (#[trigger] engine.history[i]).ordinal == i + 1
}

/// Matching leaves a sound queue sound, and what stays in the queue is no
/// earlier than what stood first.
pub proof fn lemma_match_queue_ok(
    queue: Seq<PartialOrderView>,
    signer: Seq<char>,
    remaining: nat,
    price: nat,
    side: Side,
    newest: nat,
)
    requires
        queue_ok(queue, price, side, newest),
    ensures
        queue_ok(match_queue(queue, signer, remaining).rest, price, side, newest),
        match_queue(queue, signer, remaining).rest.len() > 0 ==> queue.len() > 0 && match_queue(
            queue,
            signer,
            remaining,
        ).rest.first().ordinal >= queue.first().ordinal,
    decreases queue.len(),
{
    if queue.len() == 0 || remaining == 0 {
    } else {
        let head = queue.first();
        let tail = queue.drop_first();
        if head.signer == signer {
            lemma_match_queue_ok(tail, signer, remaining, price, side, newest);
        } else {
            let after = left_after(remaining, head.remaining);
            lemma_match_queue_ok(tail, signer, after, price, side, newest);
        }
    }
}

/// Matching keeps the number of levels and their prices, and leaves sound
/// queues sound.
pub proof fn lemma_match_levels_ok(
    levels: Seq<LevelView>,
    taker: Side,
    limit: nat,
    signer: Seq<char>,
    remaining: nat,
    side: Side,
    newest: nat,
)
    requires
        levels_ok(levels, side, newest),
    ensures
        match_levels(levels, taker, limit, signer, remaining).levels.len() == levels.len(),
        forall|i: int|
            0 <= i < levels.len() ==> (#[trigger] match_levels(
                levels,
                taker,
                limit,
                signer,
                remaining,
            ).levels[i]).price == levels[i].price,
        levels_ok(match_levels(levels, taker, limit, signer, remaining).levels, side, newest),
    decreases levels.len(),
{
    if levels.len() == 0 || remaining == 0 || !crosses(taker, limit, levels.first().price) {
    } else {
        let here = match_queue(levels.first().orders, signer, remaining);
        let tail = levels.drop_first();
        lemma_match_levels_ok(tail, taker, limit, signer, here.remaining, side, newest);
        lemma_match_queue_ok(
            levels.first().orders,
            signer,
            remaining,
            levels.first().price,
            side,
            newest,
        );
    }
}

/// Pruning leaves ascending prices ascending and sound queues sound, and
/// every level it leaves holds an order.
pub proof fn lemma_prune_ok(levels: Seq<LevelView>, side: Side, newest: nat)
    requires
        prices_ascend(levels),
        levels_ok(levels, side, newest),
    ensures
        side_ok(prune(levels), side, newest),
    decreases levels.len(),
{
    let kept = |level: LevelView| occupied(level);
    let pruned = prune(levels);
    if levels.len() > 0 {
        let front = levels.drop_last();
        let last = levels.last();
        lemma_prune_ok(front, side, newest);
        assert(pruned == if occupied(last) {
            prune(front).push(last)
        } else {
            prune(front)
        }) by {
            reveal(Seq::filter);
        }
        if occupied(last) {
            assert forall|i: int| 0 <= i < prune(front).len() implies (#[trigger] prune(
                front,
            )[i]).price < last.price by {
                let level = prune(front)[i];
                front.lemma_filter_contains_rev(kept, level);
            }
        }
    }
}

/// A sound level in front of a sound side of higher prices makes a sound side.
proof fn lemma_side_ok_cons(level: LevelView, rest: Seq<LevelView>, side: Side, newest: nat)
    requires
        occupied(level),
        queue_ok(level.orders, level.price, side, newest),
        side_ok(rest, side, newest),
        rest.len() > 0 ==> level.price < rest.first().price,
    ensures
        side_ok(seq![level] + rest, side, newest),
{
}

/// A sound side stays sound when an order with a sequence number later
/// than all of its orders is added.
proof fn lemma_insert_ok(levels: Seq<LevelView>, order: PartialOrderView, side: Side, newest: nat)
    requires
        side_ok(levels, side, newest),
        resting_ok(order, order.price, side, newest + 1),
        order.ordinal == newest + 1,
    ensures
        side_ok(insert_order(levels, order), side, newest + 1),
    decreases levels.len(),
{
    if levels.len() == 0 || order.price < levels.first().price {
    } else {
        let first = levels.first();
        let tail = levels.drop_first();
        if first.price != order.price {
            lemma_insert_ok(tail, order, side, newest);
            lemma_side_ok_cons(first, insert_order(tail, order), side, newest + 1);
        }
    }
}

/// A side keeps the number of its levels and their prices when an order is
/// matched against it, and sound queues stay sound.
pub proof fn lemma_side_after_match_ok(
    levels: Seq<LevelView>,
    order: OrderView,
    side: Side,
    newest: nat,
)
    requires
        levels_ok(levels, side, newest),
    ensures
        side_after_match(levels, order).len() == levels.len(),
        forall|i: int|
            0 <= i < levels.len() ==> (#[trigger] side_after_match(levels, order)[i]).price
                == levels[i].price,
        levels_ok(side_after_match(levels, order), side, newest),
        prices_ascend(levels) ==> prices_ascend(side_after_match(levels, order)),
{
    let given = by_priority(levels, order.side);
    lemma_match_levels_ok(
        given,
        order.side,
        order.price,
        order.signer,
        order.amount,
        side,
        newest,
    );
}

/// Carriers add up over two runs of orders.
pub proof fn lemma_carriers_concat(
    front: Seq<PartialOrderView>,
    back: Seq<PartialOrderView>,
    ordinal: nat,
)
    ensures
        carriers(front + back, ordinal) == carriers(front, ordinal) + carriers(back, ordinal),
    decreases back.len(),
{
    if back.len() > 0 {
        assert((front + back).drop_last() =~= front + back.drop_last());
        lemma_carriers_concat(front, back.drop_last(), ordinal);
    }
}

/// The carriers of a sequence number in a side: those of its first level
/// and those of the levels behind.
pub proof fn lemma_carriers_first(levels: Seq<LevelView>, ordinal: nat)
    requires
        levels.len() > 0,
    ensures
        carriers(all_orders(levels), ordinal) == carriers(levels.first().orders, ordinal)
            + carriers(all_orders(levels.drop_first()), ordinal),
{
    assert(levels =~= seq![levels.first()] + levels.drop_first());
    lemma_all_orders_concat(seq![levels.first()], levels.drop_first());
    lemma_all_orders_single(levels.first());
    lemma_carriers_concat(levels.first().orders, all_orders(levels.drop_first()), ordinal);
}

/// The carriers of a sequence number in a side: those of its last level and
/// those of the levels before.
pub proof fn lemma_carriers_last(levels: Seq<LevelView>, ordinal: nat)
    requires
        levels.len() > 0,
    ensures
        carriers(all_orders(levels), ordinal) == carriers(all_orders(levels.drop_last()), ordinal)
            + carriers(levels.last().orders, ordinal),
{
    assert(levels =~= levels.drop_last() + seq![levels.last()]);
    lemma_all_orders_concat(levels.drop_last(), seq![levels.last()]);
    lemma_all_orders_single(levels.last());
    lemma_carriers_concat(all_orders(levels.drop_last()), levels.last().orders, ordinal);
}

/// A sequence number that one of the orders carries has a carrier.
pub proof fn lemma_carriers_some(orders: Seq<PartialOrderView>, at: int)
    requires
        0 <= at < orders.len(),
    ensures
        carriers(orders, orders[at].ordinal) >= 1,
    decreases orders.len(),
{
    if at < orders.len() - 1 {
        lemma_carriers_some(orders.drop_last(), at);
    }
}

/// A sequence number without a carrier is carried by none of the orders.
pub proof fn lemma_carriers_none(orders: Seq<PartialOrderView>, ordinal: nat)
    requires
        carriers(orders, ordinal) == 0,
    ensures
        forall|k: int| 0 <= k < orders.len() ==> (#[trigger] orders[k]).ordinal != ordinal,
{
    assert forall|k: int| 0 <= k < orders.len() implies (#[trigger] orders[k]).ordinal
        != ordinal by {
        if orders[k].ordinal == ordinal {
            lemma_carriers_some(orders, k);
        }
    }
}

/// Matching adds no carrier to a queue.
proof fn lemma_match_queue_carriers(
    queue: Seq<PartialOrderView>,
    signer: Seq<char>,
    remaining: nat,
    ordinal: nat,
)
    ensures
        carriers(match_queue(queue, signer, remaining).rest, ordinal) <= carriers(queue, ordinal),
    decreases queue.len(),
{
    if queue.len() == 0 || remaining == 0 {
    } else {
        let head = queue.first();
        let tail = queue.drop_first();
        assert(queue =~= seq![head] + tail);
        lemma_carriers_concat(seq![head], tail, ordinal);
        if head.signer == signer {
            let later = match_queue(tail, signer, remaining);
            lemma_match_queue_carriers(tail, signer, remaining, ordinal);
            lemma_carriers_concat(seq![head], later.rest, ordinal);
        } else {
            let after = left_after(remaining, head.remaining);
            let later = match_queue(tail, signer, after);
            let record = fragment(head, remaining);
            lemma_match_queue_carriers(tail, signer, after, ordinal);
            lemma_carriers_concat(seq![record], later.rest, ordinal);
            assert(carriers(seq![record], ordinal) == carriers(seq![head], ordinal)) by {
                reveal_with_fuel(carriers, 2);
            }
        }
    }
}

/// Matching adds no carrier to a side.
proof fn lemma_match_levels_carriers(
    levels: Seq<LevelView>,
    side: Side,
    limit: nat,
    signer: Seq<char>,
    remaining: nat,
    ordinal: nat,
)
    ensures
        carriers(all_orders(match_levels(levels, side, limit, signer, remaining).levels), ordinal)
            <= carriers(all_orders(levels), ordinal),
    decreases levels.len(),
{
    if levels.len() == 0 || remaining == 0 || !crosses(side, limit, levels.first().price) {
    } else {
        let here = match_queue(levels.first().orders, signer, remaining);
        let later = match_levels(levels.drop_first(), side, limit, signer, here.remaining);
        let swept = match_levels(levels, side, limit, signer, remaining).levels;
        lemma_match_queue_carriers(levels.first().orders, signer, remaining, ordinal);
        lemma_match_levels_carriers(
            levels.drop_first(),
            side,
            limit,
            signer,
            here.remaining,
            ordinal,
        );
        lemma_carriers_first(levels, ordinal);
        assert(swept.drop_first() =~= later.levels);
        lemma_carriers_first(swept, ordinal);
    }
}

/// A side holds the same carriers in either order of its levels.
pub proof fn lemma_by_priority_carriers(levels: Seq<LevelView>, side: Side, ordinal: nat)
    ensures
        carriers(all_orders(by_priority(levels, side)), ordinal) == carriers(
            all_orders(levels),
            ordinal,
        ),
    decreases levels.len(),
{
    if side == Side::Sell && levels.len() > 0 {
        let turned = levels.reverse();
        assert(turned.drop_last() =~= levels.drop_first().reverse());
        lemma_by_priority_carriers(levels.drop_first(), side, ordinal);
        lemma_carriers_first(levels, ordinal);
        lemma_carriers_last(turned, ordinal);
    }
}

/// Pruning changes nothing about the orders of a side.
pub proof fn lemma_all_orders_pruned(levels: Seq<LevelView>)
    ensures
        all_orders(prune(levels)) == all_orders(levels),
    decreases levels.len(),
{
    reveal(Seq::filter);
    if levels.len() > 0 {
        let front = levels.drop_last();
        let last = levels.last();
        lemma_all_orders_pruned(front);
        assert(levels =~= front + seq![last]);
        lemma_all_orders_concat(front, seq![last]);
        lemma_all_orders_single(last);
        if occupied(last) {
            assert(prune(levels) =~= prune(front) + seq![last]);
            lemma_all_orders_concat(prune(front), seq![last]);
        }
    }
}

/// An added order is one more carrier of its sequence number and of no other.
proof fn lemma_insert_carriers(levels: Seq<LevelView>, order: PartialOrderView, ordinal: nat)
    ensures
        carriers(all_orders(insert_order(levels, order)), ordinal) == carriers(
            all_orders(levels),
            ordinal,
        ) + if order.ordinal == ordinal {
            1nat
        } else {
            0nat
        },
    decreases levels.len(),
{
    let added = insert_order(levels, order);
    assert(carriers(seq![order], ordinal) == if order.ordinal == ordinal {
        1nat
    } else {
        0nat
    }) by {
        reveal_with_fuel(carriers, 2);
    }
    if levels.len() == 0 || order.price < levels.first().price {
        assert(added.drop_first() =~= levels);
        lemma_carriers_first(added, ordinal);
    } else {
        let first = levels.first();
        let tail = levels.drop_first();
        lemma_carriers_first(levels, ordinal);
        if first.price == order.price {
            assert(added.drop_first() =~= tail);
            lemma_carriers_first(added, ordinal);
            assert(first.orders.push(order) =~= first.orders + seq![order]);
            lemma_carriers_concat(first.orders, seq![order], ordinal);
        } else {
            lemma_insert_carriers(tail, order, ordinal);
            assert(added.drop_first() =~= insert_order(tail, order));
            lemma_carriers_first(added, ordinal);
        }
    }
}

/// A sequence number that was not given out yet has no carrier in a sound side.
proof fn lemma_carriers_newer(levels: Seq<LevelView>, side: Side, newest: nat, ordinal: nat)
    requires
        levels_ok(levels, side, newest),
        ordinal > newest,
    ensures
        carriers(all_orders(levels), ordinal) == 0,
    decreases levels.len(),
{
    if levels.len() > 0 {
        let tail = levels.drop_first();
        lemma_carriers_newer(tail, side, newest, ordinal);
        lemma_carriers_first(levels, ordinal);
        let queue = levels.first().orders;
        if carriers(queue, ordinal) > 0 {
            lemma_carriers_found(queue, ordinal);
        }
    }
}

/// A sequence number with a carrier is carried by one of the orders.
pub proof fn lemma_carriers_found(orders: Seq<PartialOrderView>, ordinal: nat)
    requires
        carriers(orders, ordinal) > 0,
    ensures
        exists|k: int| 0 <= k < orders.len() && orders[k].ordinal == ordinal,
    decreases orders.len(),
{
    if orders.last().ordinal != ordinal {
        lemma_carriers_found(orders.drop_last(), ordinal);
    }
}

/// Processing an order keeps the engine sound.
pub proof fn lemma_step_ok(engine: EngineView, order: OrderView)
    requires
        engine_ok(engine),
    ensures
        engine_ok(step(engine, order)),
{
    let next = step(engine, order);
    let own = own_side(engine, order.side);
    let other = other_side(order.side);
    let opposite = opposite_side(engine, order.side);
    lemma_side_after_match_ok(opposite, order, other, engine.ordinal);
    lemma_prune_ok(side_after_match(opposite, order), other, engine.ordinal);
    if sweep(engine, order).remaining > 0 {
        lemma_insert_ok(own, remainder(engine, order), order.side, engine.ordinal);
        lemma_prune_occupied(insert_order(own, remainder(engine, order)));
    } else {
        lemma_prune_occupied(own);
    }
    assert forall|ordinal: nat| #[trigger] resting_carriers(next, ordinal) <= 1 by {
        let matched = side_after_match(opposite, order);
        let given = by_priority(opposite, order.side);
        let swept = sweep(engine, order).levels;
        assert(resting_carriers(engine, ordinal) <= 1);
        lemma_all_orders_pruned(matched);
        lemma_by_priority_carriers(swept, order.side, ordinal);
        lemma_match_levels_carriers(
            given,
            order.side,
            order.price,
            order.signer,
            order.amount,
            ordinal,
        );
        lemma_by_priority_carriers(opposite, order.side, ordinal);
        lemma_carriers_newer(opposite, other, engine.ordinal, engine.ordinal + 1);
        lemma_carriers_newer(own, order.side, engine.ordinal, engine.ordinal + 1);
        if sweep(engine, order).remaining > 0 {
            lemma_insert_carriers(own, remainder(engine, order), ordinal);
        }
    }
}

} // verus!
