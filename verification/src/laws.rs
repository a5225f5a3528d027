//! The laws of the matching engine, proved from the model of the book.

use crate::model::{
    all_orders, by_priority, crosses, initial, match_queue, occupied, opposite_side, orders_at,
    other_side, receipt_for, side_after_match, step, EngineView, LevelView,
};
use crate::queue_laws::{
    law_queue_remaining_conserved, law_queue_time_priority, lemma_queue_exhausted,
    lemma_queue_record_origin, lemma_queue_records_ascend, lemma_with_ordinal_absent,
    lemma_with_ordinal_concat, signed_by, with_ordinal,
};
use crate::side_laws::{
    arrival, carried_only_at, lemma_arrival, lemma_carried_once, lemma_level_match,
    lemma_level_records, lemma_levels_record_origin, lemma_match_levels_keeps_own,
    lemma_match_levels_no_self, lemma_match_levels_records, lemma_orders_at_level,
    lemma_orders_at_nowhere, lemma_orders_at_pruned, priority_of, records_before,
};
use crate::soundness::{
    carriers, engine_ok, lemma_by_priority_carriers, lemma_side_after_match_ok, lemma_step_ok,
    queue_ok, resting_carriers,
};
use crate::types::{OrderView, PartialOrderView, Side};
use vstd::prelude::*;

verus! {

/// Whether an incoming order on `side` meets the price `better` before the
/// price `worse`: a buyer meets lower prices first, a seller higher ones.
pub open spec fn better_price(side: Side, better: nat, worse: nat) -> bool {
    match side {
        Side::Buy => better < worse,
        Side::Sell => better > worse,
    }
}

/// What the match of an order against a sound book is for one resting
/// order of the opposite side: its level is matched as a queue with the
/// quantity that arrives there, the records that carry its sequence number
/// are records of that queue, and the level, seen by its price, holds
/// afterwards what the queue holds.
proof fn lemma_match_in_book(engine: EngineView, order: OrderView, level: int, at: int)
    requires
        engine_ok(engine),
        0 <= level < opposite_side(engine, order.side).len(),
        0 <= at < opposite_side(engine, order.side)[level].orders.len(),
    ensures
        ({
            let side = opposite_side(engine, order.side);
            let given = by_priority(side, order.side);
            let place = priority_of(side, order.side, level);
            let arrived = arrival(
                given,
                order.side,
                order.price,
                order.signer,
                order.amount,
                place,
            );
            let queue = match_queue(side[level].orders, order.signer, arrived);
            &&& 0 <= place < given.len()
            &&& given[place] == side[level]
            &&& carried_only_at(given, place, side[level].orders[at].ordinal)
            &&& queue_ok(
                side[level].orders,
                side[level].price,
                other_side(order.side),
                engine.ordinal,
            )
            &&& orders_at(opposite_side(step(engine, order), order.side), side[level].price)
                == queue.rest
        }),
{
    let side = opposite_side(engine, order.side);
    let given = by_priority(side, order.side);
    let place = priority_of(side, order.side, level);
    let ordinal = side[level].orders[at].ordinal;
    let other = other_side(order.side);
    let matched = side_after_match(side, order);
    assert(carriers(all_orders(side), ordinal) <= 1) by {
        assert(resting_carriers(engine, ordinal) <= 1);
    }
    lemma_by_priority_carriers(side, order.side, ordinal);
    lemma_carried_once(given, place, at);
    lemma_side_after_match_ok(side, order, other, engine.ordinal);
    lemma_orders_at_pruned(matched, other, engine.ordinal, side[level].price);
    lemma_orders_at_level(matched, level);
    lemma_level_match(given, order.side, order.price, order.signer, order.amount, place);
}

/// A new engine is sound, and processing an order keeps an engine sound:
/// every state that an engine can reach is sound.
pub proof fn law_always_sound(engine: EngineView, order: OrderView)
    ensures
        engine_ok(initial()),
        engine_ok(engine) ==> engine_ok(step(engine, order)),
{
    assert(all_orders(Seq::<LevelView>::empty()) =~= Seq::<PartialOrderView>::empty());
    if engine_ok(engine) {
        lemma_step_ok(engine, order);
    }
}

/// Sequence numbers start at 1: the first order that an engine processes
/// gets the number 1.
pub proof fn law_first_ordinal(order: OrderView)
    ensures
        receipt_for(initial(), order).ordinal == 1,
{
}

/// Sequence numbers increase: of two orders processed one after the other,
/// the second gets the number that follows the number of the first.
pub proof fn law_ordinals_increase(engine: EngineView, first: OrderView, second: OrderView)
    ensures
        receipt_for(step(engine, first), second).ordinal == receipt_for(engine, first).ordinal
            + 1,
{
}

/// The history of a sound engine is in sequence: an earlier receipt carries
/// a smaller sequence number than a later one.
pub proof fn law_history_in_sequence(engine: EngineView, earlier: int, later: int)
    requires
        engine_ok(engine),
        0 <= earlier < later < engine.history.len(),
    ensures
        engine.history[earlier].ordinal < engine.history[later].ordinal,
{
}

/// The history only grows: processing an order adds its receipt behind the
/// receipts that were there and changes none of them.
pub proof fn law_history_grows(engine: EngineView, order: OrderView)
    ensures
        step(engine, order).history.len() == engine.history.len() + 1,
        step(engine, order).history.drop_last() == engine.history,
        step(engine, order).history.last() == receipt_for(engine, order),
{
}

/// Price-time priority within a price. Where two orders rest at one price
/// of a sound book, on the side that `order` is matched against, the earlier
/// of them not signed by the signer of `order`, and a match record in the
/// receipt shows the later one, an earlier record shows the earlier one with
/// nothing remaining: the earlier order is exhausted before the later one is
/// touched. The result is the place of that earlier record.
pub proof fn law_time_priority(
    engine: EngineView,
    order: OrderView,
    level: int,
    earlier: int,
    later: int,
    touched: int,
) -> (exhausted: int)
    requires
        engine_ok(engine),
        0 <= level < opposite_side(engine, order.side).len(),
        0 <= earlier < later < opposite_side(engine, order.side)[level].orders.len(),
        opposite_side(engine, order.side)[level].orders[earlier].signer != order.signer,
        0 <= touched < receipt_for(engine, order).matches.len(),
        receipt_for(engine, order).matches[touched].ordinal == opposite_side(
            engine,
            order.side,
        )[level].orders[later].ordinal,
    ensures
        0 <= exhausted < touched,
        receipt_for(engine, order).matches[exhausted].ordinal == opposite_side(
            engine,
            order.side,
        )[level].orders[earlier].ordinal,
        receipt_for(engine, order).matches[exhausted].remaining == 0,
{
    let side = opposite_side(engine, order.side);
    let given = by_priority(side, order.side);
    let place = priority_of(side, order.side, level);
    let arrived = arrival(given, order.side, order.price, order.signer, order.amount, place);
    let before = records_before(given, order.side, order.price, order.signer, order.amount, place);
    lemma_match_in_book(engine, order, level, later);
    lemma_level_match(given, order.side, order.price, order.signer, order.amount, place);
    lemma_level_records(
        given,
        order.side,
        order.price,
        order.signer,
        order.amount,
        place,
        side[level].orders[later].ordinal,
        touched,
    );
    let found = law_queue_time_priority(
        side[level].orders,
        order.signer,
        arrived,
        side[level].price,
        other_side(order.side),
        engine.ordinal,
        earlier,
        later,
        touched - before,
    );
    before + found
}

/// Price priority. Where an order rests in a sound book at a better price
/// than another on the side that `order` is matched against, the order at
/// the better price not signed by the signer of `order`, and a match record
/// in the receipt shows the order at the worse price, an earlier record
/// shows the order at the better price with nothing remaining: the better
/// price is exhausted before a worse price is touched. The result is the
/// place of that earlier record.
pub proof fn law_price_priority(
    engine: EngineView,
    order: OrderView,
    better: int,
    first: int,
    worse: int,
    second: int,
    touched: int,
) -> (exhausted: int)
    requires
        engine_ok(engine),
        0 <= better < opposite_side(engine, order.side).len(),
        0 <= worse < opposite_side(engine, order.side).len(),
        0 <= first < opposite_side(engine, order.side)[better].orders.len(),
        0 <= second < opposite_side(engine, order.side)[worse].orders.len(),
        better_price(
            order.side,
            opposite_side(engine, order.side)[better].price,
            opposite_side(engine, order.side)[worse].price,
        ),
        opposite_side(engine, order.side)[better].orders[first].signer != order.signer,
        0 <= touched < receipt_for(engine, order).matches.len(),
        receipt_for(engine, order).matches[touched].ordinal == opposite_side(
            engine,
            order.side,
        )[worse].orders[second].ordinal,
    ensures
        0 <= exhausted < touched,
        receipt_for(engine, order).matches[exhausted].ordinal == opposite_side(
            engine,
            order.side,
        )[better].orders[first].ordinal,
        receipt_for(engine, order).matches[exhausted].remaining == 0,
{
    let side = opposite_side(engine, order.side);
    let given = by_priority(side, order.side);
    let near = priority_of(side, order.side, better);
    let far = priority_of(side, order.side, worse);
    lemma_match_in_book(engine, order, worse, second);
    lemma_level_match(given, order.side, order.price, order.signer, order.amount, near);
    lemma_level_records(
        given,
        order.side,
        order.price,
        order.signer,
        order.amount,
        far,
        side[worse].orders[second].ordinal,
        touched,
    );
    lemma_arrival(given, order.side, order.price, order.signer, order.amount, near, far);
    let arrived = arrival(given, order.side, order.price, order.signer, order.amount, near);
    let before = records_before(given, order.side, order.price, order.signer, order.amount, near);
    let found = lemma_queue_exhausted(
        side[better].orders,
        order.signer,
        arrived,
        side[better].price,
        other_side(order.side),
        engine.ordinal,
        first,
    );
    before + found
}

/// The limit is kept. Every match record in the receipt for an order that
/// was processed by a sound engine shows an order of the opposite side at a
/// price that crosses the limit: a buyer pays no more than its limit, and a
/// seller gets no less.
pub proof fn law_limit_kept(engine: EngineView, order: OrderView, at: int)
    requires
        engine_ok(engine),
        0 <= at < receipt_for(engine, order).matches.len(),
    ensures
        crosses(order.side, order.price, receipt_for(engine, order).matches[at].price),
        receipt_for(engine, order).matches[at].side == other_side(order.side),
{
    let side = opposite_side(engine, order.side);
    let given = by_priority(side, order.side);
    lemma_match_levels_records(
        given,
        order.side,
        order.price,
        order.signer,
        order.amount,
        other_side(order.side),
        engine.ordinal,
    );
}

/// Self-trades are excluded: no match record in the receipt for `order`
/// shows an order that the signer of `order` signed.
pub proof fn law_no_self_match(engine: EngineView, order: OrderView, at: int)
    requires
        0 <= at < receipt_for(engine, order).matches.len(),
    ensures
        receipt_for(engine, order).matches[at].signer != order.signer,
{
    lemma_match_levels_no_self(
        by_priority(opposite_side(engine, order.side), order.side),
        order.side,
        order.price,
        order.signer,
        order.amount,
    );
}

/// Resting orders of the incoming signer are left alone. At every price
/// the orders that the signer of `order` has resting on the opposite side of
/// a sound book are the same after `order` was processed as before: each at
/// its price, with its remaining quantity, in the same order.
pub proof fn law_own_orders_stay(engine: EngineView, order: OrderView, price: nat)
    requires
        engine_ok(engine),
    ensures
        signed_by(orders_at(opposite_side(step(engine, order), order.side), price), order.signer)
            == signed_by(orders_at(opposite_side(engine, order.side), price), order.signer),
{
    let before = opposite_side(engine, order.side);
    let matched = side_after_match(before, order);
    let other = other_side(order.side);
    lemma_side_after_match_ok(before, order, other, engine.ordinal);
    lemma_orders_at_pruned(matched, other, engine.ordinal, price);
    let given = by_priority(before, order.side);
    lemma_match_levels_keeps_own(given, order.side, order.price, order.signer, order.amount);
    if exists|i: int| 0 <= i < before.len() && (#[trigger] before[i]).price == price {
        let i = choose|i: int| 0 <= i < before.len() && (#[trigger] before[i]).price == price;
        lemma_orders_at_level(before, i);
        lemma_orders_at_level(matched, i);
    } else {
        lemma_orders_at_nowhere(before, price);
        lemma_orders_at_nowhere(matched, price);
    }
}

/// Every match record has its resting order. A match record in the receipt
/// for an order that a sound engine processed shows an order that rested on
/// the opposite side of the book, not signed by the incoming signer, as it
/// was but for a smaller remaining quantity. The result is the place of that
/// order: its level and its place in the queue of the level.
pub proof fn law_record_origin(engine: EngineView, order: OrderView, record: int) -> (place: (
    int,
    int,
))
    requires
        engine_ok(engine),
        0 <= record < receipt_for(engine, order).matches.len(),
    ensures
        0 <= place.0 < opposite_side(engine, order.side).len(),
        0 <= place.1 < opposite_side(engine, order.side)[place.0].orders.len(),
        opposite_side(engine, order.side)[place.0].orders[place.1].signer != order.signer,
        receipt_for(engine, order).matches[record] == (PartialOrderView {
            remaining: receipt_for(engine, order).matches[record].remaining,
            ..opposite_side(engine, order.side)[place.0].orders[place.1]
        }),
        receipt_for(engine, order).matches[record].remaining < opposite_side(
            engine,
            order.side,
        )[place.0].orders[place.1].remaining,
{
    let side = opposite_side(engine, order.side);
    let given = by_priority(side, order.side);
    let met = lemma_levels_record_origin(
        given,
        order.side,
        order.price,
        order.signer,
        order.amount,
        record,
    );
    let level = priority_of(side, order.side, met);
    let arrived = arrival(given, order.side, order.price, order.signer, order.amount, met);
    let before = records_before(given, order.side, order.price, order.signer, order.amount, met);
    lemma_level_match(given, order.side, order.price, order.signer, order.amount, met);
    let at = lemma_queue_record_origin(side[level].orders, order.signer, arrived, record - before);
    (level, at)
}

/// One record for one order. No two match records in the receipt for an
/// order that a sound engine processed carry the same sequence number.
pub proof fn law_one_record_each(engine: EngineView, order: OrderView, first: int, second: int)
    requires
        engine_ok(engine),
        0 <= first < second < receipt_for(engine, order).matches.len(),
    ensures
        receipt_for(engine, order).matches[first].ordinal != receipt_for(
            engine,
            order,
        ).matches[second].ordinal,
{
    let side = opposite_side(engine, order.side);
    let given = by_priority(side, order.side);
    let records = receipt_for(engine, order).matches;
    let (level, at) = law_record_origin(engine, order, first);
    let met = priority_of(side, order.side, level);
    let ordinal = side[level].orders[at].ordinal;
    let arrived = arrival(given, order.side, order.price, order.signer, order.amount, met);
    let before = records_before(given, order.side, order.price, order.signer, order.amount, met);
    lemma_match_in_book(engine, order, level, at);
    lemma_level_match(given, order.side, order.price, order.signer, order.amount, met);
    lemma_level_records(
        given,
        order.side,
        order.price,
        order.signer,
        order.amount,
        met,
        ordinal,
        first,
    );
    if records[second].ordinal == ordinal {
        lemma_level_records(
            given,
            order.side,
            order.price,
            order.signer,
            order.amount,
            met,
            ordinal,
            second,
        );
        lemma_queue_records_ascend(
            side[level].orders,
            order.signer,
            arrived,
            side[level].price,
            other_side(order.side),
            engine.ordinal,
            first - before,
            second - before,
        );
    }
}

/// Remaining quantities are conserved. Of an order that rests in a sound
/// book on the side that `order` is matched against, one of two things
/// holds. Either no match record in the receipt carries its sequence number,
/// and it rests at its price as it was. Or the record that carries its number
/// is the order itself with a smaller remaining quantity, and the order
/// rests at its price, as the record shows it, exactly if something of it
/// remains.
pub proof fn law_remaining_conserved(engine: EngineView, order: OrderView, level: int, at: int)
    requires
        engine_ok(engine),
        0 <= level < opposite_side(engine, order.side).len(),
        0 <= at < opposite_side(engine, order.side)[level].orders.len(),
    ensures
        ({
            let resting = opposite_side(engine, order.side)[level].orders[at];
            let after = orders_at(opposite_side(step(engine, order), order.side), resting.price);
            match with_ordinal(receipt_for(engine, order).matches, resting.ordinal) {
                Some(record) => {
                    &&& record == PartialOrderView { remaining: record.remaining, ..resting }
                    &&& record.remaining < resting.remaining
                    &&& with_ordinal(after, resting.ordinal) == if record.remaining > 0 {
                        Some(record)
                    } else {
                        None
                    }
                },
                None => with_ordinal(after, resting.ordinal) == Some(resting),
            }
        }),
{
    let side = opposite_side(engine, order.side);
    let given = by_priority(side, order.side);
    let place = priority_of(side, order.side, level);
    let resting = side[level].orders[at];
    let arrived = arrival(given, order.side, order.price, order.signer, order.amount, place);
    let before = records_before(given, order.side, order.price, order.signer, order.amount, place);
    let queue = match_queue(side[level].orders, order.signer, arrived);
    let records = receipt_for(engine, order).matches;
    lemma_match_in_book(engine, order, level, at);
    law_queue_remaining_conserved(
        side[level].orders,
        order.signer,
        arrived,
        side[level].price,
        other_side(order.side),
        engine.ordinal,
        at,
    );
    lemma_level_match(given, order.side, order.price, order.signer, order.amount, place);
    let front = records.subrange(0, before as int);
    let back = records.subrange(
        (before + queue.fragments.len()) as int,
        records.len() as int,
    );
    assert(records =~= front + queue.fragments + back);
    assert(with_ordinal(front, resting.ordinal) is None) by {
        assert forall|k: int| 0 <= k < front.len() implies (#[trigger] front[k]).ordinal
            != resting.ordinal by {
            if front[k].ordinal == resting.ordinal {
                lemma_level_records(
                    given,
                    order.side,
                    order.price,
                    order.signer,
                    order.amount,
                    place,
                    resting.ordinal,
                    k,
                );
            }
        }
        lemma_with_ordinal_absent(front, resting.ordinal);
    }
    assert(with_ordinal(back, resting.ordinal) is None) by {
        assert forall|k: int| 0 <= k < back.len() implies (#[trigger] back[k]).ordinal
            != resting.ordinal by {
            if back[k].ordinal == resting.ordinal {
                lemma_level_records(
                    given,
                    order.side,
                    order.price,
                    order.signer,
                    order.amount,
                    place,
                    resting.ordinal,
                    before + queue.fragments.len() + k,
                );
            }
        }
        lemma_with_ordinal_absent(back, resting.ordinal);
    }
    lemma_with_ordinal_concat(front + queue.fragments, back, resting.ordinal);
    lemma_with_ordinal_concat(front, queue.fragments, resting.ordinal);
}

/// No level is left without orders: after an order was processed, every
/// level on either side of the book holds an order.
pub proof fn law_book_pruned(engine: EngineView, order: OrderView)
    ensures
        forall|i: int|
            0 <= i < step(engine, order).bids.len() ==> occupied(
                #[trigger] step(engine, order).bids[i],
            ),
        forall|i: int|
            0 <= i < step(engine, order).asks.len() ==> occupied(
                #[trigger] step(engine, order).asks[i],
            ),
{
}

} // verus!
