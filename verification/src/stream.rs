//! What a tracker holds after it has been offered a whole stream of values.

use crate::model::{above, capped, lemma_place, lemma_see_max, lemma_see_wf, TopView};
use vstd::multiset::Multiset;
use vstd::prelude::*;
use vstd::seq_lib::{lemma_multiset_commutative, lemma_sorted_unique};
use vstd::seq_lib::{to_multiset_build, to_multiset_contains, to_multiset_insert, to_multiset_len};

verus! {

/// The order in which a tracker hands its values out: largest first.
pub open spec fn largest_first() -> spec_fn(u32, u32) -> bool {
    |a: u32, b: u32| a >= b
}

/// The sixteen largest values of `stream` that exceed `cutoff`, or all that
/// exceed it if there are fewer, largest first: the head of the stream's
/// values above the cutoff, fully sorted.
pub open spec fn top_of(stream: Seq<u32>, cutoff: u32) -> Seq<u32> {
    capped(stream.filter(above(cutoff)).sort_by(largest_first()))
}

/// Offering a stream keeps the tracker well formed and its cutoff.
pub proof fn lemma_ingest_wf(m: TopView, stream: Seq<u32>)
    requires
        m.wf(),
    ensures
        m.ingest(stream).wf(),
        m.ingest(stream).cutoff == m.cutoff,
    decreases stream.len(),
{
    if stream.len() > 0 {
        lemma_ingest_wf(m, stream.drop_last());
        lemma_see_wf(m.ingest(stream.drop_last()), stream.last());
    }
}

/// The values above the cutoff that a new tracker does not hold after a
/// stream: it holds sixteen then, and none of them is smaller than a value
/// it does not hold.
proof fn lemma_ingest_rest(cutoff: u32, stream: Seq<u32>) -> (rest: Seq<u32>)
    ensures
        TopView::empty(cutoff).ingest(stream).wf(),
        stream.filter(above(cutoff)).to_multiset() == TopView::empty(cutoff).ingest(
            stream,
        ).items.to_multiset().add(rest.to_multiset()),
        rest.len() > 0 ==> TopView::empty(cutoff).ingest(stream).items.len() == 16,
        forall|i: int, j: int|
            0 <= i < rest.len() && 0 <= j < TopView::empty(cutoff).ingest(stream).items.len()
                ==> rest[i] <= TopView::empty(cutoff).ingest(stream).items[j],
    decreases stream.len(),
{
    broadcast use vstd::multiset::group_multiset_axioms;

    let start = TopView::empty(cutoff);
    if stream.len() == 0 {
        let rest = Seq::<u32>::empty();
        assert(stream.filter(above(cutoff)) =~= Seq::<u32>::empty());
        assert(rest.to_multiset() =~= Multiset::<u32>::empty()) by {
            assert forall|v: u32| rest.to_multiset().count(v) == 0 by {
                to_multiset_contains(rest, v);
            }
        }
        rest
    } else {
        let front = stream.drop_last();
        let value = stream.last();
        let rest0 = lemma_ingest_rest(cutoff, front);
        let m = start.ingest(front);
        lemma_ingest_wf(start, front);
        lemma_place(m, value);
        assert(stream =~= front.push(value));
        front.lemma_filter_push(value, above(cutoff));
        to_multiset_build(front.filter(above(cutoff)), value);
        if value <= cutoff {
            rest0
        } else if value <= m.threshold() {
            // Sixteen values are held and none of them is smaller.
            to_multiset_build(rest0, value);
            rest0.push(value)
        } else if m.items.len() < 16 {
            to_multiset_insert(m.items, m.place(value), value);
            rest0
        } else {
            // The value is admitted and the smallest held value leaves.
            let lost = m.items[15];
            let grown = m.items.insert(m.place(value), value);
            to_multiset_insert(m.items, m.place(value), value);
            assert(grown =~= m.see(value).items.push(lost));
            to_multiset_build(m.see(value).items, lost);
            to_multiset_build(rest0, lost);
            assert(m.see(value).items.to_multiset().insert(lost).add(rest0.to_multiset())
                =~= m.see(value).items.to_multiset().add(rest0.to_multiset().insert(lost)));
            rest0.push(lost)
        }
    }
}

/// After a new tracker has been offered a stream, it holds exactly the
/// values that head a full sort of the stream's values above the cutoff:
/// sixteen of them, or all if there are fewer, largest first, a value as
/// often as it occurs among them.
pub proof fn lemma_ingest_is_top(cutoff: u32, stream: Seq<u32>)
    ensures
        TopView::empty(cutoff).ingest(stream).items == top_of(stream, cutoff),
{
    let order = largest_first();
    let held = TopView::empty(cutoff).ingest(stream).items;
    let rest = lemma_ingest_rest(cutoff, stream);
    let sorted = stream.filter(above(cutoff)).sort_by(order);
    let tail = rest.sort_by(order);
    stream.filter(above(cutoff)).lemma_sort_by_ensures(order);
    rest.lemma_sort_by_ensures(order);
    // The held values, followed by the others in descending order, are a
    // full sort of the stream's values above the cutoff: the only one.
    let whole = held + tail;
    lemma_multiset_commutative(held, tail);
    assert forall|i: int, j: int| 0 <= i < j < whole.len() implies #[trigger] order(
        whole[i],
        whole[j],
    ) by {
        if i < held.len() <= j {
            assert(tail.contains(tail[j - held.len()]));
        }
    }
    lemma_sorted_unique(whole, sorted, order);
    assert(tail.len() == rest.len()) by {
        to_multiset_len(tail);
        to_multiset_len(rest);
    }
}

/// After a new tracker has been offered a stream, it holds no value exactly
/// if no value of the stream exceeds the cutoff. Else its largest value is
/// the largest value of the stream.
pub proof fn lemma_ingest_max(cutoff: u32, stream: Seq<u32>)
    ensures
        TopView::empty(cutoff).ingest(stream).max() is None <==> forall|i: int|
            0 <= i < stream.len() ==> stream[i] <= cutoff,
        TopView::empty(cutoff).ingest(stream).max() matches Some(largest) ==> {
            &&& largest > cutoff
            &&& stream.contains(largest)
            &&& forall|i: int| 0 <= i < stream.len() ==> stream[i] <= largest
        },
    decreases stream.len(),
{
    let start = TopView::empty(cutoff);
    if stream.len() > 0 {
        let front = stream.drop_last();
        lemma_ingest_max(cutoff, front);
        lemma_ingest_wf(start, front);
        lemma_see_max(start.ingest(front), stream.last());
        assert forall|i: int| 0 <= i < front.len() implies front[i] == stream[i] by {}
    }
}

} // verus!
