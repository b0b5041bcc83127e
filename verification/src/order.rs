//! The order of a report: ascending by elapsed time, equal times in the
//! order in which the store held them.

use crate::time::Elapsed;
use vstd::prelude::*;
use vstd::set_lib::lemma_int_range;
use vstd::set_lib::lemma_subset_equality;
use vstd::set_lib::set_int_range;

verus! {

/// Whether the place `first` is reported ahead of the place `second`: its
/// span is the smaller one, or the two are equal and it is the earlier place.
pub open spec fn comes_before(spans: Seq<int>, first: int, second: int) -> bool {
    spans[first] < spans[second] || (spans[first] == spans[second] && first < second)
}

/// Whether `order` lists places of `spans`, as many as there are, each ahead
/// of all that follow it.
pub open spec fn is_stable_order(order: Seq<int>, spans: Seq<int>) -> bool {
    &&& order.len() == spans.len()
    &&& forall|i: int| 0 <= i < order.len() ==> 0 <= #[trigger] order[i] < spans.len()
    &&& forall|i: int, j: int|
        0 <= i < j < order.len() ==> comes_before(spans, #[trigger] order[i], #[trigger] order[j])
}

/// The order in which the places of `spans` are reported.
pub open spec fn report_order(spans: Seq<int>) -> Seq<int> {
    choose|order: Seq<int>| is_stable_order(order, spans)
}

/// The spans of a list in nanoseconds.
pub open spec fn lengths(spans: Seq<Elapsed>) -> Seq<int> {
    Seq::new(spans.len(), |at: int| spans[at]@)
}

/// The places of a list as integers.
pub open spec fn places(order: Seq<usize>) -> Seq<int> {
    Seq::new(order.len(), |at: int| order[at] as int)
}

/// A report goes by ascending span.
pub proof fn lemma_order_ascends(order: Seq<int>, spans: Seq<int>, earlier: int, later: int)
    requires
        is_stable_order(order, spans),
        0 <= earlier <= later < order.len(),
    ensures
        spans[order[earlier]] <= spans[order[later]],
{
    if earlier < later {
        assert(comes_before(spans, order[earlier], order[later]));
    }
}

/// A report leaves no place out.
pub proof fn lemma_order_covers(order: Seq<int>, spans: Seq<int>, place: int)
    requires
        is_stable_order(order, spans),
        0 <= place < spans.len(),
    ensures
        order.contains(place),
{
    let all = set_int_range(0, spans.len() as int);
    assert forall|i: int, j: int|
        0 <= i < order.len() && 0 <= j < order.len() && i != j implies order[i] != order[j] by {
        if i < j {
            assert(comes_before(spans, order[i], order[j]));
        } else {
            assert(comes_before(spans, order[j], order[i]));
        }
    }
    order.unique_seq_to_set();
    lemma_int_range(0, spans.len() as int);
    assert forall|other: int| order.to_set().contains(other) implies all.contains(other) by {
        let at = choose|at: int| 0 <= at < order.len() && order[at] == other;
        assert(0 <= order[at] < spans.len());
    }
    vstd::set_lib::lemma_len_subset(order.to_set(), all);
    lemma_subset_equality(order.to_set(), all);
    assert(all.contains(place));
}

/// Two orders of the same spans agree in their first `upto` places.
proof fn lemma_orders_agree(first: Seq<int>, second: Seq<int>, spans: Seq<int>, upto: int)
    requires
        is_stable_order(first, spans),
        is_stable_order(second, spans),
        0 <= upto <= spans.len(),
    ensures
        forall|i: int| 0 <= i < upto ==> first[i] == second[i],
    decreases upto,
{
    if upto > 0 {
        lemma_orders_agree(first, second, spans, upto - 1);
        let at = upto - 1;
        lemma_order_covers(second, spans, first[at]);
        lemma_order_covers(first, spans, second[at]);
        let there = choose|j: int| 0 <= j < second.len() && second[j] == first[at];
        let here = choose|k: int| 0 <= k < first.len() && first[k] == second[at];
        if there < at {
            assert(first[there] == second[there]);
            assert(comes_before(spans, first[there], first[at]));
        } else if here < at {
            assert(first[here] == second[here]);
            assert(comes_before(spans, second[here], second[at]));
        } else if there > at && here > at {
            assert(comes_before(spans, second[at], second[there]));
            assert(comes_before(spans, first[at], first[here]));
        }
    }
}

/// The order of a report is settled by the spans: there is one and no other.
pub proof fn lemma_order_unique(order: Seq<int>, spans: Seq<int>)
    requires
        is_stable_order(order, spans),
    ensures
        order == report_order(spans),
{
    let chosen = report_order(spans);
    lemma_orders_agree(order, chosen, spans, spans.len() as int);
    assert(order =~= chosen);
}

/// Where a span goes among places that stand by ascending span: behind all
/// that are no longer than it, ahead of all that are longer.
proof fn lemma_slot(order: Seq<int>, spans: Seq<int>, span: int, upto: int) -> (slot: int)
    requires
        forall|i: int| 0 <= i < order.len() ==> 0 <= #[trigger] order[i] < spans.len(),
        forall|i: int, j: int|
            0 <= i < j < order.len() ==> spans[#[trigger] order[i]] <= spans[#[trigger] order[j]],
        0 <= upto <= order.len(),
        forall|i: int| upto <= i < order.len() ==> span < spans[#[trigger] order[i]],
    ensures
        0 <= slot <= upto,
        forall|i: int| 0 <= i < slot ==> spans[#[trigger] order[i]] <= span,
        forall|i: int| slot <= i < order.len() ==> span < spans[#[trigger] order[i]],
    decreases upto,
{
    if upto == 0 {
        0
    } else if spans[order[upto - 1]] <= span {
        assert forall|i: int| 0 <= i < upto implies spans[#[trigger] order[i]] <= span by {
            if i < upto - 1 {
                assert(spans[order[i]] <= spans[order[upto - 1]]);
            }
        }
        upto
    } else {
        lemma_slot(order, spans, span, upto - 1)
    }
}

/// Every list of spans has its order: the places by ascending span, equal
/// spans by ascending place, none left out.
pub proof fn lemma_report_order(spans: Seq<int>)
    ensures
        is_stable_order(report_order(spans), spans),
    decreases spans.len(),
{
    if spans.len() == 0 {
        assert(is_stable_order(Seq::<int>::empty(), spans));
    } else {
        let fewer = spans.drop_last();
        let last = spans.len() - 1;
        lemma_report_order(fewer);
        let before = report_order(fewer);
        assert forall|i: int, j: int| 0 <= i < j < before.len() implies spans[#[trigger] before[i]]
            <= spans[#[trigger] before[j]] by {
            assert(comes_before(fewer, before[i], before[j]));
        }
        let slot = lemma_slot(before, spans, spans[last], before.len() as int);
        let order = before.insert(slot, last);
        assert forall|i: int, j: int| 0 <= i < j < order.len() implies comes_before(
            spans,
            #[trigger] order[i],
            #[trigger] order[j],
        ) by {
            if j < slot {
                assert(comes_before(fewer, before[i], before[j]));
            } else if j == slot {
                assert(order[i] == before[i]);
                assert(spans[before[i]] <= spans[last]);
            } else if i < slot {
                assert(order[j] == before[j - 1]);
                assert(comes_before(fewer, before[i], before[j - 1]));
            } else if i == slot {
                assert(order[j] == before[j - 1]);
                assert(spans[last] < spans[before[j - 1]]);
            } else {
                assert(order[i] == before[i - 1]);
                assert(order[j] == before[j - 1]);
                assert(comes_before(fewer, before[i - 1], before[j - 1]));
            }
        }
        assert forall|i: int| 0 <= i < order.len() implies 0 <= #[trigger] order[i]
            < spans.len() by {
            if i < slot {
                assert(order[i] == before[i]);
            } else if i > slot {
                assert(order[i] == before[i - 1]);
            }
        }
        assert(is_stable_order(order, spans));
    }
}

/// The order in which the places of `spans` are reported.
pub fn arrange(spans: &Vec<Elapsed>) -> (order: Vec<usize>)
    ensures
        places(order@) == report_order(lengths(spans@)),
        order.len() == spans.len(),
        forall|i: int| 0 <= i < order.len() ==> (#[trigger] order[i]) < spans.len(),
{
    let ghost keys = lengths(spans@);
    let mut order: Vec<usize> = Vec::new();
    let mut next: usize = 0;
    while next < spans.len()
        invariant
            next <= spans.len(),
            keys == lengths(spans@),
            order.len() == next,
            forall|i: int| 0 <= i < order.len() ==> (#[trigger] order[i]) < next,
            forall|i: int, j: int|
                0 <= i < j < order.len() ==> comes_before(
                    keys,
                    (#[trigger] order[i]) as int,
                    (#[trigger] order[j]) as int,
                ),
        decreases spans.len() - next,
    {
        let mut slot: usize = order.len();
        while slot > 0 && spans[next].shorter_than(&spans[order[slot - 1]])
            invariant
                slot <= order.len(),
                next < spans.len(),
                keys == lengths(spans@),
                forall|i: int| 0 <= i < order.len() ==> (#[trigger] order[i]) < next,
                forall|i: int| slot <= i < order.len() ==> keys[next as int] < keys[(#[trigger] order[i]) as int],
            decreases slot,
        {
            slot -= 1;
        }
        let ghost before = order@;
        order.insert(slot, next);
        proof {
            assert forall|i: int, j: int| 0 <= i < j < order.len() implies comes_before(
                keys,
                (#[trigger] order[i]) as int,
                (#[trigger] order[j]) as int,
            ) by {
                if j < slot {
                    assert(comes_before(keys, before[i] as int, before[j] as int));
                } else if j == slot {
                    assert(order[i] == before[i]);
                    if i < slot - 1 {
                        assert(comes_before(keys, before[i] as int, before[slot - 1] as int));
                    }
                    assert(keys[before[slot - 1] as int] <= keys[next as int]);
                } else if i < slot {
                    assert(order[j] == before[j - 1]);
                    assert(comes_before(keys, before[i] as int, before[j - 1] as int));
                } else if i == slot {
                    assert(order[j] == before[j - 1]);
                    assert(keys[next as int] < keys[before[j - 1] as int]);
                } else {
                    assert(order[i] == before[i - 1]);
                    assert(order[j] == before[j - 1]);
                    assert(comes_before(keys, before[i - 1] as int, before[j - 1] as int));
                }
            }
            assert forall|i: int| 0 <= i < order.len() implies (#[trigger] order[i]) < next + 1 by {
                if i < slot {
                    assert(order[i] == before[i]);
                } else if i > slot {
                    assert(order[i] == before[i - 1]);
                }
            }
        }
        next += 1;
    }
    proof {
        assert(is_stable_order(places(order@), keys));
        lemma_order_unique(places(order@), keys);
    }
    order
}

} // verus!
