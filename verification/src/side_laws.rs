//! What holds of matching an incoming order against one side of the book,
//! level by level.

use crate::model::{
    all_orders, crosses, match_levels, match_queue, occupied, orders_at, prune, LevelView,
};
use crate::queue_laws::{
    lemma_match_queue_foreign, lemma_match_queue_keeps_own, lemma_match_queue_no_self,
    lemma_match_queue_records, lemma_with_ordinal_concat, lemma_with_ordinal_missing, signed_by,
    with_ordinal,
};
use crate::soundness::{
    carriers, lemma_carriers_first, lemma_carriers_none, lemma_carriers_some, lemma_prune_ok,
    levels_ok, prices_ascend,
};
use crate::types::{PartialOrderView, Side};
use vstd::prelude::*;

verus! {

/// The quantity with which an incoming order arrives at level `at` of
/// `levels`, given best price first: what the levels before it left, and
/// zero where the match ends before that level.
pub open spec fn arrival(
    levels: Seq<LevelView>,
    side: Side,
    limit: nat,
    signer: Seq<char>,
    remaining: nat,
    at: int,
) -> nat
    decreases levels.len(),
{
    if levels.len() == 0 || at < 0 || remaining == 0 || !crosses(
        side,
        limit,
        levels.first().price,
    ) {
        0
    } else if at == 0 {
        remaining
    } else {
        arrival(
            levels.drop_first(),
            side,
            limit,
            signer,
            match_queue(levels.first().orders, signer, remaining).remaining,
            at - 1,
        )
    }
}

/// The number of match records that the levels before level `at` give.
pub open spec fn records_before(
    levels: Seq<LevelView>,
    side: Side,
    limit: nat,
    signer: Seq<char>,
    remaining: nat,
    at: int,
) -> nat
    decreases levels.len(),
{
    if levels.len() == 0 || at <= 0 || remaining == 0 || !crosses(
        side,
        limit,
        levels.first().price,
    ) {
        0
    } else {
        match_queue(levels.first().orders, signer, remaining).fragments.len() + records_before(
            levels.drop_first(),
            side,
            limit,
            signer,
            match_queue(levels.first().orders, signer, remaining).remaining,
            at - 1,
        )
    }
}

/// No order at another level than `at` carries the sequence number `ordinal`.
pub open spec fn carried_only_at(levels: Seq<LevelView>, at: int, ordinal: nat) -> bool {
    forall|i: int, k: int|
        0 <= i < levels.len() && i != at && 0 <= k < levels[i].orders.len() ==> (
        #[trigger] levels[i].orders[k]).ordinal != ordinal
}

/// The place that level `level` of a side has when the side is taken best
/// price first for an incoming order on `side`.
pub open spec fn priority_of(levels: Seq<LevelView>, side: Side, level: int) -> int {
    match side {
        Side::Buy => level,
        Side::Sell => levels.len() - 1 - level,
    }
}

/// Matching keeps the number of levels.
proof fn lemma_match_levels_len(
    levels: Seq<LevelView>,
    side: Side,
    limit: nat,
    signer: Seq<char>,
    remaining: nat,
)
    ensures
        match_levels(levels, side, limit, signer, remaining).levels.len() == levels.len(),
    decreases levels.len(),
{
    if levels.len() == 0 || remaining == 0 || !crosses(side, limit, levels.first().price) {
    } else {
        let here = match_queue(levels.first().orders, signer, remaining);
        lemma_match_levels_len(levels.drop_first(), side, limit, signer, here.remaining);
    }
}

/// The match of a side, seen from one of its levels. The level is matched
/// as a queue with the quantity that arrives at it, and its match records
/// stand together among the records of the side, behind those of the levels
/// before it.
pub proof fn lemma_level_match(
    levels: Seq<LevelView>,
    side: Side,
    limit: nat,
    signer: Seq<char>,
    remaining: nat,
    at: int,
)
    requires
        0 <= at < levels.len(),
    ensures
        match_levels(levels, side, limit, signer, remaining).levels.len() == levels.len(),
        match_levels(levels, side, limit, signer, remaining).levels[at].orders == match_queue(
            levels[at].orders,
            signer,
            arrival(levels, side, limit, signer, remaining, at),
        ).rest,
        records_before(levels, side, limit, signer, remaining, at) + match_queue(
            levels[at].orders,
            signer,
            arrival(levels, side, limit, signer, remaining, at),
        ).fragments.len() <= match_levels(levels, side, limit, signer, remaining).fragments.len(),
        match_levels(levels, side, limit, signer, remaining).fragments.subrange(
            records_before(levels, side, limit, signer, remaining, at) as int,
            (records_before(levels, side, limit, signer, remaining, at) + match_queue(
                levels[at].orders,
                signer,
                arrival(levels, side, limit, signer, remaining, at),
            ).fragments.len()) as int,
        ) == match_queue(
            levels[at].orders,
            signer,
            arrival(levels, side, limit, signer, remaining, at),
        ).fragments,
    decreases levels.len(),
{
    if remaining == 0 || !crosses(side, limit, levels.first().price) {
    } else {
        let here = match_queue(levels.first().orders, signer, remaining);
        let tail = levels.drop_first();
        if at == 0 {
            lemma_match_levels_len(tail, side, limit, signer, here.remaining);
        } else {
            lemma_level_match(tail, side, limit, signer, here.remaining, at - 1);
        }
    }
}

/// A sequence number that no order of a side carries is carried by no
/// match record of the side.
proof fn lemma_match_levels_foreign(
    levels: Seq<LevelView>,
    side: Side,
    limit: nat,
    signer: Seq<char>,
    remaining: nat,
    ordinal: nat,
)
    requires
        carried_only_at(levels, -1, ordinal),
    ensures
        with_ordinal(match_levels(levels, side, limit, signer, remaining).fragments, ordinal)
            is None,
    decreases levels.len(),
{
    if levels.len() == 0 || remaining == 0 || !crosses(side, limit, levels.first().price) {
    } else {
        let here = match_queue(levels.first().orders, signer, remaining);
        let later = match_levels(levels.drop_first(), side, limit, signer, here.remaining);
        lemma_match_queue_foreign(levels.first().orders, signer, remaining, ordinal);
        lemma_match_levels_foreign(
            levels.drop_first(),
            side,
            limit,
            signer,
            here.remaining,
            ordinal,
        );
        lemma_with_ordinal_concat(here.fragments, later.fragments, ordinal);
    }
}

/// The match records of the other levels. Where only level `at` of a side
/// may carry a sequence number, every match record of the side that carries
/// it is among the records of level `at`.
pub proof fn lemma_level_records(
    levels: Seq<LevelView>,
    side: Side,
    limit: nat,
    signer: Seq<char>,
    remaining: nat,
    at: int,
    ordinal: nat,
    place: int,
)
    requires
        0 <= at < levels.len(),
        carried_only_at(levels, at, ordinal),
        0 <= place < match_levels(levels, side, limit, signer, remaining).fragments.len(),
        match_levels(levels, side, limit, signer, remaining).fragments[place].ordinal == ordinal,
    ensures
        records_before(levels, side, limit, signer, remaining, at) <= place < records_before(
            levels,
            side,
            limit,
            signer,
            remaining,
            at,
        ) + match_queue(
            levels[at].orders,
            signer,
            arrival(levels, side, limit, signer, remaining, at),
        ).fragments.len(),
    decreases levels.len(),
{
    if remaining == 0 || !crosses(side, limit, levels.first().price) {
    } else {
        let here = match_queue(levels.first().orders, signer, remaining);
        let tail = levels.drop_first();
        let later = match_levels(tail, side, limit, signer, here.remaining);
        if at == 0 {
            if place >= here.fragments.len() {
                lemma_match_levels_foreign(tail, side, limit, signer, here.remaining, ordinal);
                lemma_with_ordinal_missing(later.fragments, ordinal);
            }
        } else {
            if place < here.fragments.len() {
                lemma_match_queue_foreign(levels.first().orders, signer, remaining, ordinal);
                lemma_with_ordinal_missing(here.fragments, ordinal);
            } else {
                lemma_level_records(
                    tail,
                    side,
                    limit,
                    signer,
                    here.remaining,
                    at - 1,
                    ordinal,
                    place - here.fragments.len(),
                );
            }
        }
    }
}

/// Every match record of a side is a match record of one of its levels.
/// The result is the place of that level.
pub proof fn lemma_levels_record_origin(
    levels: Seq<LevelView>,
    side: Side,
    limit: nat,
    signer: Seq<char>,
    remaining: nat,
    record: int,
) -> (level: int)
    requires
        0 <= record < match_levels(levels, side, limit, signer, remaining).fragments.len(),
    ensures
        0 <= level < levels.len(),
        records_before(levels, side, limit, signer, remaining, level) <= record < records_before(
            levels,
            side,
            limit,
            signer,
            remaining,
            level,
        ) + match_queue(
            levels[level].orders,
            signer,
            arrival(levels, side, limit, signer, remaining, level),
        ).fragments.len(),
    decreases levels.len(),
{
    let here = match_queue(levels.first().orders, signer, remaining);
    let tail = levels.drop_first();
    if record < here.fragments.len() {
        0
    } else {
        let found = lemma_levels_record_origin(
            tail,
            side,
            limit,
            signer,
            here.remaining,
            record - here.fragments.len(),
        );
        found + 1
    }
}

/// Where an incoming order arrives at a level with something left, it
/// left every level before it with something left, and the match records of
/// a level before it stand before its own.
pub proof fn lemma_arrival(
    levels: Seq<LevelView>,
    side: Side,
    limit: nat,
    signer: Seq<char>,
    remaining: nat,
    better: int,
    worse: int,
)
    requires
        0 <= better < worse < levels.len(),
        arrival(levels, side, limit, signer, remaining, worse) > 0,
    ensures
        match_queue(
            levels[better].orders,
            signer,
            arrival(levels, side, limit, signer, remaining, better),
        ).remaining > 0,
        records_before(levels, side, limit, signer, remaining, better) + match_queue(
            levels[better].orders,
            signer,
            arrival(levels, side, limit, signer, remaining, better),
        ).fragments.len() <= records_before(levels, side, limit, signer, remaining, worse),
    decreases levels.len(),
{
    let here = match_queue(levels.first().orders, signer, remaining);
    let tail = levels.drop_first();
    assert(arrival(tail, side, limit, signer, here.remaining, worse - 1) > 0);
    if better > 0 {
        lemma_arrival(tail, side, limit, signer, here.remaining, better - 1, worse - 1);
    }
}

/// Every match record of a side with sound queues shows an order of that
/// side at a price that crosses the limit.
pub proof fn lemma_match_levels_records(
    levels: Seq<LevelView>,
    taker: Side,
    limit: nat,
    signer: Seq<char>,
    remaining: nat,
    side: Side,
    newest: nat,
)
    requires
        levels_ok(levels, side, newest),
    ensures
        forall|i: int|
            0 <= i < match_levels(levels, taker, limit, signer, remaining).fragments.len() ==> {
                &&& crosses(
                    taker,
                    limit,
                    (#[trigger] match_levels(
                        levels,
                        taker,
                        limit,
                        signer,
                        remaining,
                    ).fragments[i]).price,
                )
                &&& match_levels(levels, taker, limit, signer, remaining).fragments[i].side == side
            },
    decreases levels.len(),
{
    if levels.len() == 0 || remaining == 0 || !crosses(taker, limit, levels.first().price) {
    } else {
        let here = match_queue(levels.first().orders, signer, remaining);
        let tail = levels.drop_first();
        lemma_match_queue_records(
            levels.first().orders,
            signer,
            remaining,
            levels.first().price,
            side,
            newest,
        );
        lemma_match_levels_records(tail, taker, limit, signer, here.remaining, side, newest);
    }
}

/// No match record of a side shows an order of the incoming signer.
pub proof fn lemma_match_levels_no_self(
    levels: Seq<LevelView>,
    side: Side,
    limit: nat,
    signer: Seq<char>,
    remaining: nat,
)
    ensures
        forall|i: int|
            0 <= i < match_levels(levels, side, limit, signer, remaining).fragments.len() ==> (
            #[trigger] match_levels(levels, side, limit, signer, remaining).fragments[i]).signer
                != signer,
    decreases levels.len(),
{
    if levels.len() == 0 || remaining == 0 || !crosses(side, limit, levels.first().price) {
    } else {
        let here = match_queue(levels.first().orders, signer, remaining);
        lemma_match_queue_no_self(levels.first().orders, signer, remaining);
        lemma_match_levels_no_self(levels.drop_first(), side, limit, signer, here.remaining);
    }
}

/// Level by level, the orders of the incoming signer stay as they were.
pub proof fn lemma_match_levels_keeps_own(
    levels: Seq<LevelView>,
    side: Side,
    limit: nat,
    signer: Seq<char>,
    remaining: nat,
)
    ensures
        match_levels(levels, side, limit, signer, remaining).levels.len() == levels.len(),
        forall|i: int|
            0 <= i < levels.len() ==> signed_by(
                (#[trigger] match_levels(levels, side, limit, signer, remaining).levels[i]).orders,
                signer,
            ) == signed_by(levels[i].orders, signer),
    decreases levels.len(),
{
    if levels.len() == 0 || remaining == 0 || !crosses(side, limit, levels.first().price) {
    } else {
        let here = match_queue(levels.first().orders, signer, remaining);
        let tail = levels.drop_first();
        lemma_match_queue_keeps_own(levels.first().orders, signer, remaining);
        lemma_match_levels_keeps_own(tail, side, limit, signer, here.remaining);
    }
}

/// A level carries no more of a sequence number than its side.
proof fn lemma_carriers_level(levels: Seq<LevelView>, at: int, ordinal: nat)
    requires
        0 <= at < levels.len(),
    ensures
        carriers(levels[at].orders, ordinal) <= carriers(all_orders(levels), ordinal),
    decreases levels.len(),
{
    lemma_carriers_first(levels, ordinal);
    if at > 0 {
        lemma_carriers_level(levels.drop_first(), at - 1, ordinal);
    }
}

/// Two levels together carry no more of a sequence number than their side.
proof fn lemma_carriers_levels(levels: Seq<LevelView>, first: int, second: int, ordinal: nat)
    requires
        0 <= first < second < levels.len(),
    ensures
        carriers(levels[first].orders, ordinal) + carriers(levels[second].orders, ordinal)
            <= carriers(all_orders(levels), ordinal),
    decreases levels.len(),
{
    lemma_carriers_first(levels, ordinal);
    let tail = levels.drop_first();
    if first > 0 {
        lemma_carriers_levels(tail, first - 1, second - 1, ordinal);
    } else {
        lemma_carriers_level(tail, second - 1, ordinal);
    }
}

/// Where no sequence number rests twice on a side, the number of an order
/// is carried at no other level.
pub proof fn lemma_carried_once(levels: Seq<LevelView>, at: int, order: int)
    requires
        0 <= at < levels.len(),
        0 <= order < levels[at].orders.len(),
        carriers(all_orders(levels), levels[at].orders[order].ordinal) <= 1,
    ensures
        carried_only_at(levels, at, levels[at].orders[order].ordinal),
{
    let ordinal = levels[at].orders[order].ordinal;
    lemma_carriers_some(levels[at].orders, order);
    assert forall|i: int, k: int|
        0 <= i < levels.len() && i != at && 0 <= k < levels[i].orders.len() implies (
    #[trigger] levels[i].orders[k]).ordinal != ordinal by {
        if i < at {
            lemma_carriers_levels(levels, i, at, ordinal);
        } else {
            lemma_carriers_levels(levels, at, i, ordinal);
        }
        lemma_carriers_none(levels[i].orders, ordinal);
    }
}

/// Where prices ascend, the orders at the price of a level are those of the level.
pub proof fn lemma_orders_at_level(levels: Seq<LevelView>, at: int)
    requires
        prices_ascend(levels),
        0 <= at < levels.len(),
    ensures
        orders_at(levels, levels[at].price) == levels[at].orders,
    decreases levels.len(),
{
    if at > 0 {
        let tail = levels.drop_first();
        lemma_orders_at_level(tail, at - 1);
    }
}

/// No orders are at a price that has no level.
pub proof fn lemma_orders_at_nowhere(levels: Seq<LevelView>, price: nat)
    requires
        forall|i: int| 0 <= i < levels.len() ==> (#[trigger] levels[i]).price != price,
    ensures
        orders_at(levels, price) == Seq::<PartialOrderView>::empty(),
    decreases levels.len(),
{
    if levels.len() > 0 {
        let tail = levels.drop_first();
        lemma_orders_at_nowhere(tail, price);
    }
}

/// Where prices ascend, pruning changes the orders at no price.
pub proof fn lemma_orders_at_pruned(levels: Seq<LevelView>, side: Side, newest: nat, price: nat)
    requires
        prices_ascend(levels),
        levels_ok(levels, side, newest),
    ensures
        orders_at(prune(levels), price) == orders_at(levels, price),
{
    let kept = |level: LevelView| occupied(level);
    let pruned = prune(levels);
    lemma_prune_ok(levels, side, newest);
    if exists|i: int| 0 <= i < levels.len() && (#[trigger] levels[i]).price == price {
        let i = choose|i: int| 0 <= i < levels.len() && (#[trigger] levels[i]).price == price;
        lemma_orders_at_level(levels, i);
        if occupied(levels[i]) {
            levels.lemma_filter_contains(kept, i);
            let j = choose|j: int| 0 <= j < pruned.len() && pruned[j] == levels[i];
            lemma_orders_at_level(pruned, j);
        } else {
            assert forall|j: int| 0 <= j < pruned.len() implies (#[trigger] pruned[j]).price
                != price by {
                if pruned[j].price == price {
                    levels.lemma_filter_contains_rev(kept, pruned[j]);
                }
            }
            lemma_orders_at_nowhere(pruned, price);
        }
    } else {
        assert forall|j: int| 0 <= j < pruned.len() implies (#[trigger] pruned[j]).price
            != price by {
            levels.lemma_filter_contains_rev(kept, pruned[j]);
        }
        lemma_orders_at_nowhere(levels, price);
        lemma_orders_at_nowhere(pruned, price);
    }
}

} // verus!
