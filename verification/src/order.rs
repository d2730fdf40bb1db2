//! Sixteen slot values in ascending sort order, and the tracked values that
//! they stand for.

use crate::model::{lemma_place, lemma_set_cutoff, TopView};
use crate::packed::{is_permutation, moved_up, slot_at};
use crate::packed::{lemma_moved_up_permutation, lemma_moved_up_slots, lemma_slot_in_range};
use vstd::prelude::*;

verus! {

/// Whether no value of `s` is followed by a smaller one.
pub open spec fn ascending(s: Seq<u32>) -> bool {
    forall|i: int, j: int| 0 <= i <= j < s.len() ==> s[i] <= s[j]
}

/// The values of the slots in the order in which `word` names them: the
/// value at sort position `p` is that of the slot that field `p` names.
pub open spec fn in_order(word: u64, slots: Seq<u32>) -> Seq<u32> {
    Seq::new(16, |p: int| slots[slot_at(word, p)])
}

/// Whether `order` can be the slot values of a tracker with this cutoff:
/// sixteen values in ascending order, none below the cutoff.
pub open spec fn is_order(order: Seq<u32>, cutoff: u32) -> bool {
    &&& order.len() == 16
    &&& ascending(order)
    &&& cutoff <= order[0]
}

/// The first sort position at or after `from` whose value exceeds `cutoff`,
/// or the length of `order` if there is none.
pub open spec fn live_from(order: Seq<u32>, cutoff: u32, from: int) -> int
    decreases order.len() - from,
{
    if 0 <= from < order.len() && order[from] <= cutoff {
        live_from(order, cutoff, from + 1)
    } else {
        from
    }
}

/// The values of `order` from position `from` up to position `to`, read
/// from the top down.
pub open spec fn downward(order: Seq<u32>, from: int, to: int) -> Seq<u32> {
    Seq::new((to - from) as nat, |j: int| order[to - 1 - j])
}

/// What sixteen slot values in ascending order stand for: the values above
/// the cutoff, largest first.
pub open spec fn held(order: Seq<u32>, cutoff: u32) -> TopView {
    TopView { cutoff, items: downward(order, live_from(order, cutoff, 0), 16) }
}

/// The slot values after `value` has taken the slot of the smallest value
/// and sort position `pos`: the values below that position have moved down
/// by one, the values above it have stayed.
pub open spec fn raised(order: Seq<u32>, value: u32, pos: int) -> Seq<u32> {
    Seq::new(
        16,
        |q: int|
            if q < pos {
                order[q + 1]
            } else if q == pos {
                value
            } else {
                order[q]
            },
    )
}

/// The floor of a change of cutoff: the larger of the old cutoff and the
/// value just below the new one. The slot values at or below it are the
/// ones that the change relabels.
pub open spec fn relabel_floor(old_cutoff: u32, new_cutoff: u32) -> u32 {
    if new_cutoff - 1 > old_cutoff {
        (new_cutoff - 1) as u32
    } else {
        old_cutoff
    }
}

/// The values after every one at or below `floor` has been replaced by
/// `cutoff`.
pub open spec fn relabelled(values: Seq<u32>, floor: u32, cutoff: u32) -> Seq<u32> {
    Seq::new(
        values.len(),
        |p: int|
            if values[p] <= floor {
                cutoff
            } else {
                values[p]
            },
    )
}

/// What `live_from` finds: no value from `from` up to the position found
/// exceeds the cutoff, and the value at the position found does.
pub proof fn lemma_live_from(order: Seq<u32>, cutoff: u32, from: int)
    requires
        0 <= from <= order.len(),
    ensures
        from <= live_from(order, cutoff, from) <= order.len(),
        forall|i: int| from <= i < live_from(order, cutoff, from) ==> order[i] <= cutoff,
        live_from(order, cutoff, from) < order.len() ==> order[live_from(order, cutoff, from)]
            > cutoff,
    decreases order.len() - from,
{
    if from < order.len() && order[from] <= cutoff {
        lemma_live_from(order, cutoff, from + 1);
    }
}

/// A position is the one that `live_from` finds if no value from `from` up
/// to it exceeds the cutoff and the value at it does.
pub proof fn lemma_live_is(order: Seq<u32>, cutoff: u32, from: int, live: int)
    requires
        0 <= from <= live <= order.len(),
        forall|i: int| from <= i < live ==> order[i] <= cutoff,
        live < order.len() ==> order[live] > cutoff,
    ensures
        live_from(order, cutoff, from) == live,
{
    lemma_live_from(order, cutoff, from);
}

/// How the slot values relate to what they stand for: the slots that hold no
/// tracked value sit at the bottom sort positions and hold the cutoff, the
/// tracked values sit above them, and the bottom value is the threshold.
pub proof fn lemma_held(order: Seq<u32>, cutoff: u32)
    requires
        is_order(order, cutoff),
    ensures
        held(order, cutoff).wf(),
        held(order, cutoff).threshold() == order[0],
        0 <= 16 - held(order, cutoff).items.len() <= 16,
        live_from(order, cutoff, 0) == 16 - held(order, cutoff).items.len(),
        forall|p: int| 0 <= p < 16 - held(order, cutoff).items.len() ==> order[p] == cutoff,
        forall|p: int| 16 - held(order, cutoff).items.len() <= p < 16 ==> order[p] > cutoff,
        forall|j: int|
            0 <= j < held(order, cutoff).items.len() ==> held(order, cutoff).items[j] == order[15
                - j],
{
    lemma_live_from(order, cutoff, 0);
}

/// Slot values stand for `items` if `items` are the values above the
/// cutoff, read from the top down, and account for every such value.
proof fn lemma_held_is(order: Seq<u32>, cutoff: u32, items: Seq<u32>)
    requires
        order.len() == 16,
        items.len() <= 16,
        forall|p: int| 0 <= p < 16 - items.len() ==> order[p] <= cutoff,
        forall|j: int| 0 <= j < items.len() ==> items[j] == order[15 - j] && items[j] > cutoff,
    ensures
        held(order, cutoff).items == items,
{
    let live = 16 - items.len();
    if live < 16 {
        assert(items[15 - live] == order[live]);
    }
    lemma_live_is(order, cutoff, 0, live);
}

/// Writing `value` into the slot of the smallest value and moving that slot
/// to sort position `pos` gives the slot values `raised`.
pub proof fn lemma_raise_slots(word: u64, slots: Seq<u32>, value: u32, pos: int)
    requires
        slots.len() == 16,
        is_permutation(word),
        0 <= pos < 16,
    ensures
        is_permutation(moved_up(word, pos)),
        in_order(moved_up(word, pos), slots.update(slot_at(word, 0), value)) == raised(
            in_order(word, slots),
            value,
            pos,
        ),
{
    lemma_moved_up_permutation(word, pos);
    lemma_moved_up_slots(word, pos);
    let order2 = in_order(moved_up(word, pos), slots.update(slot_at(word, 0), value));
    assert forall|q: int| 0 <= q < 16 implies order2[q] == raised(
        in_order(word, slots),
        value,
        pos,
    )[q] by {
        lemma_slot_in_range(word, 0);
        lemma_slot_in_range(word, q);
        lemma_slot_in_range(word, q + 1);
    }
}

/// Raising a value to the sort position just below the first slot value
/// that is at least as large is what offering it to the tracker means, and
/// that position, counted from one, is its rank.
pub proof fn lemma_raise_held(order: Seq<u32>, cutoff: u32, value: u32, pos: int)
    requires
        is_order(order, cutoff),
        0 <= pos < 16,
        order[pos] < value,
        pos < 15 ==> value <= order[pos + 1],
    ensures
        is_order(raised(order, value, pos), cutoff),
        value > held(order, cutoff).threshold(),
        held(raised(order, value, pos), cutoff) == held(order, cutoff).see(value),
        pos + 1 == held(order, cutoff).rank(value),
{
    let m = held(order, cutoff);
    lemma_held(order, cutoff);
    lemma_place(m, value);
    // The held values that are at least as large as the new one are those
    // at the sort positions above `pos`.
    let k = m.place(value);
    assert(k == 15 - pos) by {
        if k < 15 - pos {
            assert(m.items[k] == order[15 - k]);
        } else if k > 15 - pos {
            assert(m.items[15 - pos] == order[pos]);
        }
    }
    lemma_held_is(raised(order, value, pos), cutoff, m.see(value).items);
}

/// Relabelling the slots relabels the values at every sort position.
pub proof fn lemma_relabel_slots(word: u64, slots: Seq<u32>, floor: u32, cutoff: u32)
    requires
        slots.len() == 16,
    ensures
        in_order(word, relabelled(slots, floor, cutoff)) == relabelled(
            in_order(word, slots),
            floor,
            cutoff,
        ),
{
    assert forall|p: int| 0 <= p < 16 implies in_order(word, relabelled(slots, floor, cutoff))[p]
        == relabelled(in_order(word, slots), floor, cutoff)[p] by {
        lemma_slot_in_range(word, p);
    }
}

/// Relabelling the slot values at or below the floor is what changing the
/// cutoff means.
pub proof fn lemma_relabel_held(order: Seq<u32>, old_cutoff: u32, new_cutoff: u32)
    requires
        is_order(order, old_cutoff),
    ensures
        is_order(relabelled(order, relabel_floor(old_cutoff, new_cutoff), new_cutoff), new_cutoff),
        held(relabelled(order, relabel_floor(old_cutoff, new_cutoff), new_cutoff), new_cutoff)
            == held(order, old_cutoff).set_cutoff(new_cutoff),
{
    let m = held(order, old_cutoff);
    let floor = relabel_floor(old_cutoff, new_cutoff);
    let order2 = relabelled(order, floor, new_cutoff);
    lemma_held(order, old_cutoff);
    lemma_set_cutoff(m, new_cutoff);
    let items2 = m.set_cutoff(new_cutoff).items;
    // A value that the change does not relabel is a held value, and it is
    // dropped only if it equals the new cutoff.
    assert forall|p: int| 0 <= p < 16 - items2.len() implies order2[p] <= new_cutoff by {
        if order[p] > floor {
            assert(m.items[15 - p] == order[p]);
        }
    }
    lemma_held_is(order2, new_cutoff, items2);
}

} // verus!
