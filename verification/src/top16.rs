//! The tracker: sixteen value slots and a packed word that holds their
//! ascending sort order.

use crate::model::TopView;
use crate::order::{downward, held, in_order, is_order, live_from, raised, relabel_floor, relabelled};
use crate::order::{
    lemma_held, lemma_live_is, lemma_raise_held, lemma_raise_slots, lemma_relabel_held,
    lemma_relabel_slots,
};
use crate::packed::index_at;
use crate::packed::{field, is_permutation, moved_up, names, slot_at, spliced};
use crate::packed::{lemma_identity_slots, lemma_permutation_onto, lemma_slot_in_range};
use crate::packed::{IDENTITY, IXS_BITS, IX_BITS, NUM};
use vstd::prelude::*;

verus! {

/// A tracker of the sixteen largest values, above a cutoff, that it has been
/// offered.
#[derive(Clone, Copy, Debug)]
pub struct Top16 {
    /// The smallest value in the slots: what a newcomer has to exceed.
    threshold: u32,
    /// Only values above the cutoff are admitted or handed out.
    cutoff: u32,
    /// The slot indices in ascending order of their values, four bits each,
    /// the index of the smallest value in the lowest bits.
    sorted_ixs: u64,
    /// The slots, in no particular order; a slot that holds no admitted
    /// value holds the cutoff.
    elements: [u32; NUM],
}

impl View for Top16 {
    type V = TopView;

    /// The cutoff and the admitted values, largest first.
    closed spec fn view(&self) -> TopView {
        held(in_order(self.sorted_ixs, self.elements@), self.cutoff)
    }
}

impl Top16 {
    /// The values of the sixteen slots, by slot index.
    pub closed spec fn slots(&self) -> Seq<u32> {
        self.elements@
    }

    /// The packed word that names the slots in ascending order of their
    /// values.
    pub closed spec fn sort_order(&self) -> u64 {
        self.sorted_ixs
    }

    /// The value that a newcomer is compared with first.
    pub closed spec fn threshold(&self) -> u32 {
        self.threshold
    }

    /// The slot values in ascending sort order.
    pub open spec fn ordered(&self) -> Seq<u32> {
        in_order(self.sort_order(), self.slots())
    }

    /// What holds of every tracker: its sort order is a permutation of the
    /// slot indices, along which the slot values ascend from the cutoff or
    /// above; the threshold is the bottom value; and the tracker stands for
    /// the slot values above the cutoff.
    #[verifier::type_invariant]
    pub open spec fn well_formed(&self) -> bool {
        &&& self.slots().len() == 16
        &&& is_permutation(self.sort_order())
        &&& is_order(self.ordered(), self@.cutoff)
        &&& self.threshold() == self.ordered()[0]
        &&& self@ == held(self.ordered(), self@.cutoff)
    }

    /// A well-formed tracker stands for well-formed values, and its threshold
    /// is the smallest of sixteen admitted values, or the cutoff while fewer
    /// are admitted.
    pub proof fn lemma_view_wf(&self)
        requires
            self.well_formed(),
        ensures
            self@.wf(),
            self@.threshold() == self.threshold(),
    {
        lemma_held(self.ordered(), self@.cutoff);
    }

    /// Returns a tracker that has admitted nothing: every slot holds the
    /// cutoff, and slot `i` stands at sort position `i`. Only values larger
    /// than `cutoff` will be admitted.
    pub fn new(cutoff: u32) -> (top: Self)
        ensures
            top@ == TopView::empty(cutoff),
            top.slots() == Seq::new(16, |i: int| cutoff),
            top.sort_order() == IDENTITY,
            top.well_formed(),
    {
        let elements = [cutoff; NUM];
        proof {
            lemma_identity_slots();
            let order = in_order(IDENTITY, elements@);
            assert forall|p: int| 0 <= p < 16 implies order[p] == cutoff by {
                lemma_slot_in_range(IDENTITY, p);
            }
            lemma_live_is(order, cutoff, 0, 16);
            assert(held(order, cutoff).items =~= Seq::<u32>::empty());
        }
        Top16 { elements, sorted_ixs: IDENTITY, threshold: cutoff, cutoff }
    }

    /// Changes the cutoff. Admitted values that do not exceed the new cutoff
    /// are no longer held; the others stay. In the slots, every value at or
    /// below the floor of the change becomes the new cutoff, and the sort
    /// order stays.
    pub fn set_cutoff(&mut self, new_cutoff: u32)
        ensures
            final(self)@ == old(self)@.set_cutoff(new_cutoff),
            final(self).slots() == relabelled(
                old(self).slots(),
                relabel_floor(old(self)@.cutoff, new_cutoff),
                new_cutoff,
            ),
            final(self).sort_order() == old(self).sort_order(),
            final(self).well_formed(),
    {
        proof {
            use_type_invariant(&*self);
            lemma_permutation_onto(self.sorted_ixs);
        }
        let ghost order = self.ordered();
        // Raising the cutoff relabels the values below the new cutoff;
        // lowering it relabels the values equal to the old cutoff. Both are
        // the values at or below this floor.
        let below = new_cutoff.saturating_sub(1);
        let floor = if below > self.cutoff {
            below
        } else {
            self.cutoff
        };
        let mut elements = self.elements;
        let mut shift = 0u32;
        loop
            invariant
                shift <= 64,
                shift % 4 == 0,
                is_permutation(self.sorted_ixs),
                is_order(order, self.cutoff),
                order == in_order(self.sorted_ixs, self.elements@),
                forall|q: int| 0 <= q < shift as int / 4 ==> order[q] <= floor,
                forall|q: int|
                    0 <= q < 16 ==> elements@[#[trigger] slot_at(self.sorted_ixs, q)] == (if q
                        < shift as int / 4 {
                        new_cutoff
                    } else {
                        order[q]
                    }),
            ensures
                shift < 64 ==> order[shift as int / 4] > floor,
            decreases 64 - shift,
        {
            if shift >= IXS_BITS {
                break ;  // Every sort position has been relabelled.
            }
            let ix = self.ix(shift);
            if elements[ix] > floor {
                break ;  // The values above this one are larger: they stay.
            }
            elements[ix] = new_cutoff;
            proof {
                // No other sort position names the slot that has changed.
                assert forall|q: int| 0 <= q < 16 implies elements@[#[trigger] slot_at(
                    self.sorted_ixs,
                    q,
                )] == (if q < shift as int / 4 + 1 {
                    new_cutoff
                } else {
                    order[q]
                }) by {
                    lemma_slot_in_range(self.sorted_ixs, q);
                }
            }
            shift += IX_BITS;  // On to the index of the next larger value.
        }
        let threshold = elements[self.ix(0)];
        proof {
            // Every slot stands at some sort position: below the one where
            // the walk ended its value was at or below the floor, from there
            // on it is above the floor.
            let pos = shift as int / 4;
            let slots2 = relabelled(self.elements@, floor, new_cutoff);
            assert forall|slot: int| 0 <= slot < 16 implies elements@[slot] == slots2[slot] by {
                assert(names(self.sorted_ixs, slot));
                let q = choose|q: int| 0 <= q < 16 && #[trigger] slot_at(self.sorted_ixs, q) == slot;
                if q >= pos {
                    assert(order[pos] <= order[q]);
                }
            }
            assert(elements@ =~= slots2);
            lemma_relabel_slots(self.sorted_ixs, self.elements@, floor, new_cutoff);
            lemma_relabel_held(order, self.cutoff, new_cutoff);
            lemma_held(relabelled(order, floor, new_cutoff), new_cutoff);
        }
        *self = Top16 { threshold, cutoff: new_cutoff, sorted_ixs: self.sorted_ixs, elements };
    }

    /// Returns the cutoff.
    #[inline]
    pub fn cutoff(&self) -> (cutoff: u32)
        ensures
            cutoff == self@.cutoff,
            self.well_formed(),
    {
        proof {
            use_type_invariant(self);
        }
        self.cutoff
    }

    /// Returns the largest admitted value, or `None` if no value has been
    /// admitted.
    #[inline]
    pub fn max(&self) -> (largest: Option<u32>)
        ensures
            largest == self@.max(),
            self.well_formed(),
    {
        proof {
            use_type_invariant(self);
            lemma_held(self.ordered(), self.cutoff);
        }
        let v = self.element_at(IXS_BITS - IX_BITS);
        if v > self.cutoff {
            Some(v)
        } else {
            None
        }
    }

    /// Returns the slot index stored `shift` bits above the bottom of the
    /// sort order.
    #[inline]
    fn ix(&self, shift: u32) -> (slot: usize)
        requires
            shift < 64,
        ensures
            slot == field(self.sort_order(), shift),
            slot < 16,
    {
        index_at(self.sorted_ixs, shift)
    }

    /// Returns the value at the sort position stored `shift` bits above the
    /// bottom of the sort order.
    #[inline]
    fn element_at(&self, shift: u32) -> (value: u32)
        requires
            shift < 64,
            shift % 4 == 0,
        ensures
            value == self.ordered()[shift as int / 4],
    {
        self.elements[self.ix(shift)]
    }

    /// One or zero: whether `value` is at most the value at the sort
    /// position stored `shift` bits above the bottom of the sort order.
    #[inline]
    fn le(&self, value: u32, shift: u32) -> (bit: u32)
        requires
            shift < 64,
            shift % 4 == 0,
        ensures
            bit == if value <= self.ordered()[shift as int / 4] { 1u32 } else { 0u32 },
    {
        (value <= self.element_at(shift)) as u32
    }

    /// Offers `value` to the tracker, as `see` does, and returns its rank.
    #[inline]
    pub fn rank(&mut self, value: u32) -> (rank: usize)
        ensures
            final(self)@ == old(self)@.see(value),
            rank == old(self)@.rank(value),
            value <= old(self)@.cutoff ==> rank == 0,
            rank == 0 ==> final(self).slots() == old(self).slots() && final(self).sort_order()
                == old(self).sort_order(),
            rank > 0 ==> final(self).slots() == old(self).slots().update(
                slot_at(old(self).sort_order(), 0),
                value,
            ) && final(self).sort_order() == moved_up(old(self).sort_order(), rank - 1),
            final(self).well_formed(),
    {
        self.see(value)
    }

    /// Offers `value` to the tracker. A value that does not exceed the
    /// threshold (the cutoff, or the smallest of sixteen admitted values)
    /// is not admitted: nothing changes and zero is returned. Any other
    /// value is admitted: it is written into the slot of the smallest
    /// value, that slot moves up in the sort order to just below the first
    /// value that is at least as large, and the new position is returned,
    /// counted from 1 for the smallest of the sixteen slots to 16 for the
    /// largest.
    #[inline]
    pub fn see(&mut self, value: u32) -> (rank: usize)
        ensures
            final(self)@ == old(self)@.see(value),
            rank == old(self)@.rank(value),
            value <= old(self)@.cutoff ==> rank == 0,
            rank == 0 ==> final(self).slots() == old(self).slots() && final(self).sort_order()
                == old(self).sort_order(),
            rank > 0 ==> final(self).slots() == old(self).slots().update(
                slot_at(old(self).sort_order(), 0),
                value,
            ) && final(self).sort_order() == moved_up(old(self).sort_order(), rank - 1),
            final(self).well_formed(),
    {
        proof {
            use_type_invariant(&*self);
            lemma_held(self.ordered(), self.cutoff);
        }
        // The common case is set apart, so that it can be inlined.
        if value <= self.threshold {
            0
        } else {
            let shift = self.see_helper(value);
            assert(shift >> 2 == shift / 4) by (bit_vector);
            ((shift >> 2) + 1) as usize
        }
    }

    /// Returns an iterator over the admitted values, largest first.
    #[inline]
    pub fn iter(&self) -> (it: Iter<'_>)
        ensures
            it@ == self@.items,
            self.well_formed(),
    {
        proof {
            use_type_invariant(self);
            lemma_held(self.ordered(), self.cutoff);
        }
        self.make_iter(0)
    }

    /// Returns an iterator over the `n` largest admitted values, or over all
    /// of them if there are fewer, largest first. It hands out what the
    /// first `n` steps of `iter` hand out, and gets there by placing its
    /// cursor, not by counting steps.
    #[inline]
    pub fn take(&self, n: u32) -> (it: Iter<'_>)
        ensures
            it@ == self@.top(n as nat),
            self.well_formed(),
    {
        proof {
            use_type_invariant(self);
            lemma_held(self.ordered(), self.cutoff);
        }
        let most = if n < 16 {
            n
        } else {
            16
        };
        self.make_iter((16 - most) * IX_BITS)
    }

    /// Returns an iterator over the admitted values from the sort position
    /// stored `fwd_shift` bits above the bottom of the sort order upward.
    fn make_iter(&self, fwd_shift: u32) -> (it: Iter<'_>)
        requires
            fwd_shift <= 64,
            fwd_shift % 4 == 0,
        ensures
            it@ == self@.top((16 - fwd_shift / 4) as nat),
    {
        proof {
            use_type_invariant(self);
            lemma_held(self.ordered(), self.cutoff);
        }
        let ghost order = self.ordered();
        let ghost start = fwd_shift as int / 4;
        let mut fwd_shift = fwd_shift;
        // Skip the slots that hold no admitted value: they hold the cutoff,
        // and nothing is lower.
        while fwd_shift < IXS_BITS && self.element_at(fwd_shift) <= self.cutoff
            invariant
                fwd_shift <= 64,
                fwd_shift % 4 == 0,
                order == self.ordered(),
                order.len() == 16,
                0 <= start <= fwd_shift as int / 4,
                live_from(order, self.cutoff, fwd_shift as int / 4) == live_from(
                    order,
                    self.cutoff,
                    start,
                ),
            decreases 64 - fwd_shift,
        {
            fwd_shift += IX_BITS;
        }
        let it = Iter { top: self, fwd_shift, bwd_shift: IXS_BITS };
        proof {
            let live = live_from(order, self.cutoff, 0);
            if start <= live {
                lemma_live_is(order, self.cutoff, start, live);
            }
        }
        it
    }

    /// Admits `value`, which exceeds the threshold: finds its sort position
    /// by binary search, writes it into the slot of the smallest value, and
    /// moves that slot to the position found. Returns the position, in bits
    /// above the bottom of the sort order.
    fn see_helper(&mut self, value: u32) -> (shift: u32)
        requires
            value > old(self)@.threshold(),
        ensures
            final(self)@ == old(self)@.see(value),
            shift < 64,
            shift % 4 == 0,
            shift / 4 + 1 == old(self)@.rank(value),
            final(self).slots() == old(self).slots().update(
                slot_at(old(self).sort_order(), 0),
                value,
            ),
            final(self).sort_order() == moved_up(old(self).sort_order(), shift as int / 4),
            final(self).well_formed(),
    {
        proof {
            use_type_invariant(&*self);
            lemma_held(self.ordered(), self.cutoff);
        }
        let ghost order = self.ordered();
        // Four steps of binary search over the sixteen sort positions, each
        // moving by half the distance of the one before; no step branches.
        let mut shift: u32 = 32;
        let b = self.le(value, shift);
        assert(b << 5 == 32 * b) by (bit_vector)
            requires
                b <= 1,
        ;
        shift = shift + 4 * IX_BITS - (b << 5);
        let b = self.le(value, shift);
        assert(b << 4 == 16 * b) by (bit_vector)
            requires
                b <= 1,
        ;
        shift = shift + 2 * IX_BITS - (b << 4);
        let b = self.le(value, shift);
        assert(b << 3 == 8 * b) by (bit_vector)
            requires
                b <= 1,
        ;
        shift = shift + 1 * IX_BITS - (b << 3);
        let b = self.le(value, shift);
        assert(b << 2 == 4 * b) by (bit_vector)
            requires
                b <= 1,
        ;
        shift = shift + 0 * IX_BITS - (b << 2);
        // The search ends at the topmost sort position whose value is below
        // the new one.
        assert(order[shift as int / 4] < value && (shift < 60 ==> value <= order[shift as int / 4
            + 1]));

        // Take the index of the smallest value out of the sort order and put
        // it back in at the position found: the indices below it move down
        // by one position, the indices above it stay.
        let lower = ((self.sorted_ixs << (IXS_BITS - IX_BITS - shift)) >> (IXS_BITS - IX_BITS
            - shift)) >> IX_BITS;
        let upper = (self.sorted_ixs >> shift) >> IX_BITS;
        let old_min_ix = self.ix(0);
        let sorted_ixs = (((upper << IX_BITS) | (old_min_ix as u64)) << shift) | lower;
        assert(sorted_ixs == spliced(self.sorted_ixs, shift));

        // Replace the smallest value with the new one and fix the threshold.
        let mut elements = self.elements;
        elements[old_min_ix] = value;
        let threshold = elements[index_at(sorted_ixs, 0)];
        proof {
            let pos = shift as int / 4;
            lemma_raise_slots(self.sorted_ixs, self.elements@, value, pos);
            lemma_raise_held(order, self.cutoff, value, pos);
            lemma_held(raised(order, value, pos), self.cutoff);
        }
        *self = Top16 { threshold, cutoff: self.cutoff, sorted_ixs, elements };
        shift
    }
}

/// What a step from the front hands out, and what remains after it: the
/// first of the remaining values, or nothing if none remains.
pub open spec fn front_step(rest: Seq<u32>) -> (Option<u32>, Seq<u32>) {
    if rest.len() == 0 {
        (None, rest)
    } else {
        (Some(rest.first()), rest.drop_first())
    }
}

/// What a step from the back hands out, and what remains after it: the last
/// of the remaining values, or nothing if none remains.
pub open spec fn back_step(rest: Seq<u32>) -> (Option<u32>, Seq<u32>) {
    if rest.len() == 0 {
        (None, rest)
    } else {
        (Some(rest.last()), rest.drop_last())
    }
}

/// The values that steps from the front hand out, in turn, until none
/// remains.
pub open spec fn front_walk(rest: Seq<u32>) -> Seq<u32>
    decreases rest.len(),
{
    match front_step(rest) {
        (Some(value), after) => seq![value] + front_walk(after),
        (None, _) => Seq::empty(),
    }
}

/// The values that steps from the back hand out, in turn, until none
/// remains.
pub open spec fn back_walk(rest: Seq<u32>) -> Seq<u32>
    decreases rest.len(),
{
    match back_step(rest) {
        (Some(value), after) => seq![value] + back_walk(after),
        (None, _) => Seq::empty(),
    }
}

/// Walking from the front hands out the remaining values in their order.
pub proof fn lemma_front_walk(rest: Seq<u32>)
    ensures
        front_walk(rest) == rest,
    decreases rest.len(),
{
    if rest.len() > 0 {
        lemma_front_walk(rest.drop_first());
    }
}

/// Walking from the back hands out exactly the reverse of what walking from
/// the front hands out.
pub proof fn lemma_back_walk_reverses(rest: Seq<u32>)
    ensures
        back_walk(rest) == front_walk(rest).reverse(),
        back_walk(rest) == rest.reverse(),
    decreases rest.len(),
{
    lemma_front_walk(rest);
    if rest.len() > 0 {
        lemma_back_walk_reverses(rest.drop_last());
        lemma_front_walk(rest.drop_last());
    }
}

/// The first `n` values of a tracker are the first `n` that walking all of
/// them from the front hands out.
pub proof fn lemma_top_is_walk_prefix(m: TopView, n: nat)
    ensures
        m.top(n) == if n < front_walk(m.items).len() {
            front_walk(m.items).take(n as int)
        } else {
            front_walk(m.items)
        },
{
    lemma_front_walk(m.items);
}

/// An iterator over the admitted values of a tracker, largest first. It can
/// be advanced from both ends: from the front it hands out the largest
/// remaining value, from the back the smallest.
pub struct Iter<'a> {
    /// The tracker whose values are handed out.
    top: &'a Top16,
    /// The bit position of the next value that `next_back` hands out.
    fwd_shift: u32,
    /// The bit position just past the next value that `next` hands out.
    bwd_shift: u32,
}

impl<'a> View for Iter<'a> {
    type V = Seq<u32>;

    /// The values that are still to be handed out, largest first.
    closed spec fn view(&self) -> Seq<u32> {
        downward(self.top.ordered(), self.fwd_shift as int / 4, self.bwd_shift as int / 4)
    }
}

impl<'a> Iter<'a> {
    #[verifier::type_invariant]
    spec fn inv(&self) -> bool {
        &&& self.fwd_shift % 4 == 0
        &&& self.bwd_shift % 4 == 0
        &&& self.fwd_shift <= self.bwd_shift <= 64
    }

    /// Hands out the largest remaining value, or `None` if none remains.
    pub fn next(&mut self) -> (item: Option<u32>)
        ensures
            (item, final(self)@) == front_step(old(self)@),
    {
        proof {
            use_type_invariant(&*self);
        }
        if self.fwd_shift == self.bwd_shift {
            None
        } else {
            self.bwd_shift -= IX_BITS;
            Some(self.top.element_at(self.bwd_shift))
        }
    }

    /// Hands out the smallest remaining value, or `None` if none remains.
    pub fn next_back(&mut self) -> (item: Option<u32>)
        ensures
            (item, final(self)@) == back_step(old(self)@),
    {
        proof {
            use_type_invariant(&*self);
        }
        if self.fwd_shift == self.bwd_shift {
            None
        } else {
            let ix = self.top.ix(self.fwd_shift);
            self.fwd_shift += IX_BITS;
            Some(self.top.elements[ix])
        }
    }
}

} // verus!
