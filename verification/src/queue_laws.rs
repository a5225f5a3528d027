//! What holds of matching an incoming order against one queue.

use crate::model::{fragment, left_after, match_queue, QueueMatch};
use crate::soundness::queue_ok;
use crate::types::{PartialOrderView, Side};
use vstd::prelude::*;

verus! {

/// The first order among `orders` that carries the sequence number `ordinal`.
pub open spec fn with_ordinal(orders: Seq<PartialOrderView>, ordinal: nat) -> Option<
    PartialOrderView,
>
    decreases orders.len(),
{
    if orders.len() == 0 {
        None
    } else if orders.first().ordinal == ordinal {
        Some(orders.first())
    } else {
        with_ordinal(orders.drop_first(), ordinal)
    }
}

/// The orders among `orders` that `signer` signed, in their order.
pub open spec fn signed_by(orders: Seq<PartialOrderView>, signer: Seq<char>) -> Seq<
    PartialOrderView,
> {
    orders.filter(|order: PartialOrderView| order.signer == signer)
}

/// The carrier of a sequence number among an order and those behind it.
proof fn lemma_with_ordinal_cons(
    head: PartialOrderView,
    tail: Seq<PartialOrderView>,
    ordinal: nat,
)
    ensures
        with_ordinal(seq![head] + tail, ordinal) == if head.ordinal == ordinal {
            Some(head)
        } else {
            with_ordinal(tail, ordinal)
        },
{
    assert((seq![head] + tail).drop_first() =~= tail);
}

/// The carrier of a sequence number among two runs of orders is the one in
/// the front run, or else the one in the back run.
pub proof fn lemma_with_ordinal_concat(
    front: Seq<PartialOrderView>,
    back: Seq<PartialOrderView>,
    ordinal: nat,
)
    ensures
        with_ordinal(front + back, ordinal) == match with_ordinal(front, ordinal) {
            Some(order) => Some(order),
            None => with_ordinal(back, ordinal),
        },
    decreases front.len(),
{
    if front.len() > 0 {
        assert((front + back).drop_first() =~= front.drop_first() + back);
        lemma_with_ordinal_concat(front.drop_first(), back, ordinal);
    }
}

/// A sequence number that none of the orders carries has no carrier.
pub proof fn lemma_with_ordinal_absent(orders: Seq<PartialOrderView>, ordinal: nat)
    requires
        forall|k: int| 0 <= k < orders.len() ==> (#[trigger] orders[k]).ordinal != ordinal,
    ensures
        with_ordinal(orders, ordinal) is None,
    decreases orders.len(),
{
    if orders.len() > 0 {
        let tail = orders.drop_first();
        lemma_with_ordinal_absent(tail, ordinal);
    }
}

/// A sequence number without a carrier is carried by none of the orders.
pub proof fn lemma_with_ordinal_missing(orders: Seq<PartialOrderView>, ordinal: nat)
    requires
        with_ordinal(orders, ordinal) is None,
    ensures
        forall|k: int| 0 <= k < orders.len() ==> (#[trigger] orders[k]).ordinal != ordinal,
    decreases orders.len(),
{
    if orders.len() > 0 {
        let tail = orders.drop_first();
        lemma_with_ordinal_missing(tail, ordinal);
        assert forall|k: int| 0 <= k < orders.len() implies (#[trigger] orders[k]).ordinal
            != ordinal by {
            if k > 0 {
                assert(orders[k] == tail[k - 1]);
            }
        }
    }
}

/// In a queue of ascending sequence numbers each order is the one that
/// carries its number.
proof fn lemma_with_ordinal_finds(
    queue: Seq<PartialOrderView>,
    price: nat,
    side: Side,
    newest: nat,
    at: int,
)
    requires
        queue_ok(queue, price, side, newest),
        0 <= at < queue.len(),
    ensures
        with_ordinal(queue, queue[at].ordinal) == Some(queue[at]),
    decreases queue.len(),
{
    if at > 0 {
        let tail = queue.drop_first();
        lemma_with_ordinal_finds(tail, price, side, newest, at - 1);
    }
}

/// A sequence number that no order of the queue carries is carried by no
/// match record and by no order that stays.
pub proof fn lemma_match_queue_foreign(
    queue: Seq<PartialOrderView>,
    signer: Seq<char>,
    remaining: nat,
    ordinal: nat,
)
    requires
        forall|k: int| 0 <= k < queue.len() ==> (#[trigger] queue[k]).ordinal != ordinal,
    ensures
        with_ordinal(match_queue(queue, signer, remaining).fragments, ordinal) is None,
        with_ordinal(match_queue(queue, signer, remaining).rest, ordinal) is None,
    decreases queue.len(),
{
    if queue.len() == 0 {
    } else if remaining == 0 {
        lemma_with_ordinal_absent(queue, ordinal);
    } else {
        let head = queue.first();
        let tail = queue.drop_first();
        if head.signer == signer {
            let later = match_queue(tail, signer, remaining);
            lemma_match_queue_foreign(tail, signer, remaining, ordinal);
            lemma_with_ordinal_cons(head, later.rest, ordinal);
        } else {
            let after = left_after(remaining, head.remaining);
            let later = match_queue(tail, signer, after);
            let record = fragment(head, remaining);
            lemma_match_queue_foreign(tail, signer, after, ordinal);
            lemma_with_ordinal_cons(record, later.rest, ordinal);
            lemma_with_ordinal_cons(record, later.fragments, ordinal);
        }
    }
}

/// Remaining quantities are conserved. Of a resting order in a sound queue
/// that an incoming order is matched against, one of two things holds.
/// Either no match record carries its sequence number, and it stays in the
/// queue as it was. Or the record that carries its number is the order
/// itself with a smaller remaining quantity, and the order stays in the
/// queue, as the record shows it, exactly if something of it remains.
pub proof fn law_queue_remaining_conserved(
    queue: Seq<PartialOrderView>,
    signer: Seq<char>,
    remaining: nat,
    price: nat,
    side: Side,
    newest: nat,
    at: int,
)
    requires
        queue_ok(queue, price, side, newest),
        0 <= at < queue.len(),
    ensures
        match with_ordinal(match_queue(queue, signer, remaining).fragments, queue[at].ordinal) {
            Some(record) => {
                &&& record == PartialOrderView { remaining: record.remaining, ..queue[at] }
                &&& record.remaining < queue[at].remaining
                &&& with_ordinal(match_queue(queue, signer, remaining).rest, queue[at].ordinal)
                    == if record.remaining > 0 {
                    Some(record)
                } else {
                    None
                }
            },
            None => with_ordinal(match_queue(queue, signer, remaining).rest, queue[at].ordinal)
                == Some(queue[at]),
        },
    decreases queue.len(),
{
    let ordinal = queue[at].ordinal;
    if remaining == 0 {
        lemma_with_ordinal_finds(queue, price, side, newest, at);
    } else {
        let head = queue.first();
        let tail = queue.drop_first();
        if head.signer == signer {
            let later = match_queue(tail, signer, remaining);
            lemma_with_ordinal_cons(head, later.rest, ordinal);
            if at == 0 {
                lemma_match_queue_foreign(tail, signer, remaining, ordinal);
            } else {
                law_queue_remaining_conserved(
                    tail,
                    signer,
                    remaining,
                    price,
                    side,
                    newest,
                    at - 1,
                );
            }
        } else {
            let after = left_after(remaining, head.remaining);
            let later = match_queue(tail, signer, after);
            let record = fragment(head, remaining);
            lemma_with_ordinal_cons(record, later.rest, ordinal);
            lemma_with_ordinal_cons(record, later.fragments, ordinal);
            if at == 0 {
                lemma_match_queue_foreign(tail, signer, after, ordinal);
            } else {
                law_queue_remaining_conserved(tail, signer, after, price, side, newest, at - 1);
            }
        }
    }
}

/// Time priority. Where two orders rest in a sound queue, the earlier of
/// them not signed by the incoming signer, and a match record shows the
/// later one, an earlier record shows the earlier one with nothing remaining:
/// the earlier order is exhausted before the later one is touched. The
/// result is the place of that earlier record.
pub proof fn law_queue_time_priority(
    queue: Seq<PartialOrderView>,
    signer: Seq<char>,
    remaining: nat,
    price: nat,
    side: Side,
    newest: nat,
    earlier: int,
    later: int,
    touched: int,
) -> (exhausted: int)
    requires
        queue_ok(queue, price, side, newest),
        0 <= earlier < later < queue.len(),
        queue[earlier].signer != signer,
        0 <= touched < match_queue(queue, signer, remaining).fragments.len(),
        match_queue(queue, signer, remaining).fragments[touched].ordinal == queue[later].ordinal,
    ensures
        0 <= exhausted < touched,
        match_queue(queue, signer, remaining).fragments[exhausted].ordinal
            == queue[earlier].ordinal,
        match_queue(queue, signer, remaining).fragments[exhausted].remaining == 0,
    decreases queue.len(),
{
    let head = queue.first();
    let tail = queue.drop_first();
    if head.signer == signer {
        law_queue_time_priority(
            tail,
            signer,
            remaining,
            price,
            side,
            newest,
            earlier - 1,
            later - 1,
            touched,
        )
    } else {
        let after = left_after(remaining, head.remaining);
        if touched == 0 || earlier == 0 {
            // The first record shows the first order, which is the earlier one.
            0
        } else {
            let found = law_queue_time_priority(
                tail,
                signer,
                after,
                price,
                side,
                newest,
                earlier - 1,
                later - 1,
                touched - 1,
            );
            found + 1
        }
    }
}

/// A resting order larger than what comes in. Where the first order of a
/// queue is not signed by the incoming signer and more of it remains than
/// comes in, the record shows it with the incoming quantity taken off, it
/// stays first in the queue as the record shows it, nothing else is touched,
/// and nothing is left of the incoming quantity.
pub proof fn law_larger_resting_order(
    head: PartialOrderView,
    tail: Seq<PartialOrderView>,
    signer: Seq<char>,
    remaining: nat,
)
    requires
        head.signer != signer,
        0 < remaining < head.remaining,
    ensures
        match_queue(seq![head] + tail, signer, remaining) == (QueueMatch {
            rest: seq![
                PartialOrderView { remaining: (head.remaining - remaining) as nat, ..head },
            ] + tail,
            fragments: seq![
                PartialOrderView { remaining: (head.remaining - remaining) as nat, ..head },
            ],
            remaining: 0,
        }),
{
    assert((seq![head] + tail).drop_first() =~= tail);
    assert(match_queue(tail, signer, 0).rest == tail);
}

/// Where something of the incoming quantity is left behind a sound queue,
/// every order of the queue that the incoming signer did not sign has a
/// match record that shows it with nothing remaining. The result is the
/// place of that record.
pub proof fn lemma_queue_exhausted(
    queue: Seq<PartialOrderView>,
    signer: Seq<char>,
    remaining: nat,
    price: nat,
    side: Side,
    newest: nat,
    at: int,
) -> (place: int)
    requires
        queue_ok(queue, price, side, newest),
        0 <= at < queue.len(),
        queue[at].signer != signer,
        match_queue(queue, signer, remaining).remaining > 0,
    ensures
        0 <= place < match_queue(queue, signer, remaining).fragments.len(),
        match_queue(queue, signer, remaining).fragments[place].ordinal == queue[at].ordinal,
        match_queue(queue, signer, remaining).fragments[place].remaining == 0,
    decreases queue.len(),
{
    let head = queue.first();
    let tail = queue.drop_first();
    if head.signer == signer {
        lemma_queue_exhausted(tail, signer, remaining, price, side, newest, at - 1)
    } else {
        let after = left_after(remaining, head.remaining);
        if at == 0 {
            0
        } else {
            let found = lemma_queue_exhausted(tail, signer, after, price, side, newest, at - 1);
            found + 1
        }
    }
}

/// Every match record of a queue shows one of its orders, not signed by the
/// incoming signer, with a smaller remaining quantity where something of the
/// order remained. The result is the place of that order in the queue.
pub proof fn lemma_queue_record_origin(
    queue: Seq<PartialOrderView>,
    signer: Seq<char>,
    remaining: nat,
    record: int,
) -> (at: int)
    requires
        0 <= record < match_queue(queue, signer, remaining).fragments.len(),
    ensures
        0 <= at < queue.len(),
        queue[at].signer != signer,
        match_queue(queue, signer, remaining).fragments[record] == (PartialOrderView {
            remaining: match_queue(queue, signer, remaining).fragments[record].remaining,
            ..queue[at]
        }),
        queue[at].remaining > 0 ==> match_queue(
            queue,
            signer,
            remaining,
        ).fragments[record].remaining < queue[at].remaining,
    decreases queue.len(),
{
    let head = queue.first();
    let tail = queue.drop_first();
    if head.signer == signer {
        let found = lemma_queue_record_origin(tail, signer, remaining, record);
        found + 1
    } else {
        let after = left_after(remaining, head.remaining);
        if record == 0 {
            0
        } else {
            let found = lemma_queue_record_origin(tail, signer, after, record - 1);
            found + 1
        }
    }
}

/// The match records of a sound queue carry ascending sequence numbers.
pub proof fn lemma_queue_records_ascend(
    queue: Seq<PartialOrderView>,
    signer: Seq<char>,
    remaining: nat,
    price: nat,
    side: Side,
    newest: nat,
    first: int,
    second: int,
)
    requires
        queue_ok(queue, price, side, newest),
        0 <= first < second < match_queue(queue, signer, remaining).fragments.len(),
    ensures
        match_queue(queue, signer, remaining).fragments[first].ordinal < match_queue(
            queue,
            signer,
            remaining,
        ).fragments[second].ordinal,
    decreases queue.len(),
{
    let head = queue.first();
    let tail = queue.drop_first();
    if head.signer == signer {
        lemma_queue_records_ascend(tail, signer, remaining, price, side, newest, first, second);
    } else {
        let after = left_after(remaining, head.remaining);
        if first == 0 {
            lemma_queue_record_origin(tail, signer, after, second - 1);
        } else {
            lemma_queue_records_ascend(
                tail,
                signer,
                after,
                price,
                side,
                newest,
                first - 1,
                second - 1,
            );
        }
    }
}

/// Every match record of a sound queue shows an order of the queue's price
/// and side.
pub proof fn lemma_match_queue_records(
    queue: Seq<PartialOrderView>,
    signer: Seq<char>,
    remaining: nat,
    price: nat,
    side: Side,
    newest: nat,
)
    requires
        queue_ok(queue, price, side, newest),
    ensures
        forall|i: int|
            0 <= i < match_queue(queue, signer, remaining).fragments.len() ==> {
                &&& (#[trigger] match_queue(queue, signer, remaining).fragments[i]).price == price
                &&& match_queue(queue, signer, remaining).fragments[i].side == side
            },
    decreases queue.len(),
{
    if queue.len() == 0 || remaining == 0 {
    } else {
        let head = queue.first();
        let tail = queue.drop_first();
        if head.signer == signer {
            lemma_match_queue_records(tail, signer, remaining, price, side, newest);
        } else {
            let after = left_after(remaining, head.remaining);
            lemma_match_queue_records(tail, signer, after, price, side, newest);
        }
    }
}

/// No match record of a queue shows an order of the incoming signer.
pub proof fn lemma_match_queue_no_self(
    queue: Seq<PartialOrderView>,
    signer: Seq<char>,
    remaining: nat,
)
    ensures
        forall|i: int|
            0 <= i < match_queue(queue, signer, remaining).fragments.len() ==> (
            #[trigger] match_queue(queue, signer, remaining).fragments[i]).signer != signer,
    decreases queue.len(),
{
    if queue.len() == 0 || remaining == 0 {
    } else if queue.first().signer == signer {
        lemma_match_queue_no_self(queue.drop_first(), signer, remaining);
    } else {
        let after = left_after(remaining, queue.first().remaining);
        lemma_match_queue_no_self(queue.drop_first(), signer, after);
    }
}

/// The orders of a signer among an order and those behind it.
proof fn lemma_signed_by_cons(
    head: PartialOrderView,
    tail: Seq<PartialOrderView>,
    signer: Seq<char>,
)
    ensures
        signed_by(seq![head] + tail, signer) == if head.signer == signer {
            seq![head] + signed_by(tail, signer)
        } else {
            signed_by(tail, signer)
        },
{
    let own = |order: PartialOrderView| order.signer == signer;
    assert(seq![head].filter(own) =~= if head.signer == signer {
        seq![head]
    } else {
        Seq::empty()
    }) by {
        reveal_with_fuel(Seq::filter, 2);
    }
}

/// The orders of the incoming signer stay in the queue as they were, in
/// their order.
pub proof fn lemma_match_queue_keeps_own(
    queue: Seq<PartialOrderView>,
    signer: Seq<char>,
    remaining: nat,
)
    ensures
        signed_by(match_queue(queue, signer, remaining).rest, signer) == signed_by(queue, signer),
    decreases queue.len(),
{
    if queue.len() == 0 || remaining == 0 {
    } else {
        let head = queue.first();
        let tail = queue.drop_first();
        assert(queue =~= seq![head] + tail);
        lemma_signed_by_cons(head, tail, signer);
        if head.signer == signer {
            lemma_match_queue_keeps_own(tail, signer, remaining);
        } else {
            let after = left_after(remaining, head.remaining);
            let later = match_queue(tail, signer, after);
            lemma_match_queue_keeps_own(tail, signer, after);
            lemma_signed_by_cons(fragment(head, remaining), later.rest, signer);
        }
    }
}

} // verus!
