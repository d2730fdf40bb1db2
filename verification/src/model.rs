//! The mathematical model of a tracker: its cutoff and the values it holds,
//! largest first.

use vstd::prelude::*;

verus! {

/// What a tracker stands for: the cutoff it was given and the values it
/// currently tracks, in descending order. Every tracked value exceeds the
/// cutoff, and there are at most sixteen of them.
pub struct TopView {
    pub cutoff: u32,
    pub items: Seq<u32>,
}

/// The values strictly greater than `bound`.
pub open spec fn above(bound: u32) -> spec_fn(u32) -> bool {
    |v: u32| v > bound
}

/// The values greater than or equal to `bound`.
pub open spec fn at_least(bound: u32) -> spec_fn(u32) -> bool {
    |v: u32| v >= bound
}

/// Whether no value of `s` is followed by a larger one.
pub open spec fn descending(s: Seq<u32>) -> bool {
    forall|i: int, j: int| 0 <= i <= j < s.len() ==> s[i] >= s[j]
}

/// The first sixteen values of `s`, or all of them if there are fewer.
pub open spec fn capped(s: Seq<u32>) -> Seq<u32> {
    if s.len() > 16 {
        s.take(16)
    } else {
        s
    }
}

impl TopView {
    /// The tracker with the given cutoff that has admitted nothing yet.
    pub open spec fn empty(cutoff: u32) -> TopView {
        TopView { cutoff, items: Seq::empty() }
    }

    /// At most sixteen values, all above the cutoff, largest first.
    pub open spec fn wf(self) -> bool {
        &&& self.items.len() <= 16
        &&& descending(self.items)
        &&& forall|i: int| 0 <= i < self.items.len() ==> self.items[i] > self.cutoff
    }

    /// The value that a newcomer has to exceed: the smallest tracked value
    /// once sixteen are tracked, the cutoff before that.
    pub open spec fn threshold(self) -> u32 {
        if self.items.len() < 16 {
            self.cutoff
        } else {
            self.items[15]
        }
    }

    /// The largest tracked value, if any value is tracked.
    pub open spec fn max(self) -> Option<u32> {
        if self.items.len() == 0 {
            None
        } else {
            Some(self.items[0])
        }
    }

    /// The index, counted from the largest, at which `value` would be put:
    /// behind every tracked value that is at least as large.
    pub open spec fn place(self, value: u32) -> int {
        self.items.filter(at_least(value)).len() as int
    }

    /// What offering `value` returns: zero if it does not exceed the
    /// threshold, else its position counted from the smallest of sixteen,
    /// starting at one.
    pub open spec fn rank(self, value: u32) -> int {
        if value > self.threshold() {
            16 - self.place(value)
        } else {
            0
        }
    }

    /// The tracker after `value` has been offered: unchanged if the value
    /// does not exceed the threshold; else the value is put behind the
    /// tracked values that are at least as large, and a seventeenth value
    /// falls off the end.
    pub open spec fn see(self, value: u32) -> TopView {
        if value > self.threshold() {
            TopView {
                cutoff: self.cutoff,
                items: capped(self.items.insert(self.place(value), value)),
            }
        } else {
            self
        }
    }

    /// The tracker after its cutoff has been changed: only the values above
    /// the new cutoff stay.
    pub open spec fn set_cutoff(self, cutoff: u32) -> TopView {
        TopView { cutoff, items: self.items.filter(above(cutoff)) }
    }

    /// The first `n` tracked values, largest first, or all of them if there
    /// are fewer.
    pub open spec fn top(self, n: nat) -> Seq<u32> {
        if n < self.items.len() {
            self.items.take(n as int)
        } else {
            self.items
        }
    }

    /// The tracker after the values of `stream` have been offered in order.
    pub open spec fn ingest(self, stream: Seq<u32>) -> TopView
        decreases stream.len(),
    {
        if stream.len() == 0 {
            self
        } else {
            self.ingest(stream.drop_last()).see(stream.last())
        }
    }
}

/// A predicate that, along a sequence, holds of a value only if it holds of
/// every value before it, selects a prefix of the sequence.
pub proof fn lemma_filter_prefix(s: Seq<u32>, pred: spec_fn(u32) -> bool)
    requires
        forall|i: int, j: int| 0 <= i <= j < s.len() && pred(s[j]) ==> pred(s[i]),
    ensures
        s.filter(pred).len() <= s.len(),
        s.filter(pred) == s.take(s.filter(pred).len() as int),
        forall|j: int| 0 <= j < s.len() ==> (pred(s[j]) <==> j < s.filter(pred).len()),
    decreases s.len(),
{
    reveal(Seq::filter);
    if s.len() > 0 {
        let front = s.drop_last();
        lemma_filter_prefix(front, pred);
        let k = front.filter(pred).len() as int;
        assert forall|j: int| 0 <= j < front.len() implies (pred(s[j]) <==> j < k) by {
            assert(front[j] == s[j]);
        }
    }
}

/// Where a value is put among the tracked values: behind the larger and the
/// equal ones, before the smaller ones.
pub proof fn lemma_place(m: TopView, value: u32)
    requires
        m.wf(),
    ensures
        0 <= m.place(value) <= m.items.len(),
        forall|j: int| 0 <= j < m.items.len() ==> (m.items[j] >= value <==> j < m.place(value)),
        value > m.threshold() ==> m.place(value) < 16,
{
    lemma_filter_prefix(m.items, at_least(value));
}

/// Offering a value keeps the tracker well formed.
pub proof fn lemma_see_wf(m: TopView, value: u32)
    requires
        m.wf(),
    ensures
        m.see(value).wf(),
        m.see(value).cutoff == m.cutoff,
{
    lemma_place(m, value);
}

/// Changing the cutoff keeps a prefix of the tracked values: those above the
/// new cutoff.
pub proof fn lemma_set_cutoff(m: TopView, cutoff: u32)
    requires
        m.wf(),
    ensures
        m.set_cutoff(cutoff).wf(),
        m.set_cutoff(cutoff).items.len() <= m.items.len(),
        m.set_cutoff(cutoff).items == m.items.take(m.set_cutoff(cutoff).items.len() as int),
        forall|j: int|
            0 <= j < m.items.len() ==> (m.items[j] > cutoff <==> j < m.set_cutoff(
                cutoff,
            ).items.len()),
        cutoff <= m.cutoff ==> m.set_cutoff(cutoff).items == m.items,
{
    lemma_filter_prefix(m.items, above(cutoff));
    let kept = m.set_cutoff(cutoff).items;
    if cutoff <= m.cutoff {
        if kept.len() < m.items.len() {
            assert(m.items[kept.len() as int] > cutoff);
        }
    }
}

/// The rank that offering a value returns is zero exactly if the value does
/// not exceed the threshold, which no value at or below the cutoff does.
/// Otherwise it lies between 1 and 16 and is the position of the value among
/// sixteen slots in ascending order: counted from the largest, the value
/// stands at index `16 - rank`, behind the values that are at least as large
/// and before the smaller ones.
pub proof fn lemma_rank_is_position(m: TopView, value: u32)
    requires
        m.wf(),
    ensures
        m.cutoff <= m.threshold(),
        m.rank(value) == 0 <==> value <= m.threshold(),
        value <= m.cutoff ==> m.rank(value) == 0,
        value > m.threshold() ==> {
            &&& 1 <= m.rank(value) <= 16
            &&& 16 - m.rank(value) < m.see(value).items.len()
            &&& m.see(value).items[16 - m.rank(value)] == value
            &&& forall|j: int| 0 <= j < 16 - m.rank(value) ==> m.see(value).items[j] >= value
            &&& forall|j: int|
                16 - m.rank(value) < j < m.see(value).items.len() ==> m.see(value).items[j]
                    < value
        },
{
    lemma_place(m, value);
}

/// The largest value that a tracker holds after a value has been offered:
/// a value at or below the cutoff changes nothing; a value above the cutoff
/// becomes the largest unless a larger or equal one is held. So the largest
/// held value never decreases while the cutoff stays.
pub proof fn lemma_see_max(m: TopView, value: u32)
    requires
        m.wf(),
    ensures
        value <= m.cutoff ==> m.see(value).max() == m.max(),
        value > m.cutoff ==> m.see(value).max() == Some(
            match m.max() {
                Some(largest) => if largest >= value {
                    largest
                } else {
                    value
                },
                None => value,
            },
        ),
        m.max() matches Some(before) ==> m.see(value).max() matches Some(after) && after >= before,
{
    lemma_place(m, value);
}

/// Setting the same cutoff twice is the same as setting it once.
pub proof fn lemma_set_cutoff_twice(m: TopView, cutoff: u32)
    requires
        m.wf(),
    ensures
        m.set_cutoff(cutoff).set_cutoff(cutoff) == m.set_cutoff(cutoff),
{
    lemma_set_cutoff(m, cutoff);
    lemma_set_cutoff(m.set_cutoff(cutoff), cutoff);
}

/// Raising the cutoff and lowering it back at once loses the held values
/// that do not exceed the raised cutoff, and only those. The largest held
/// value is the same as before if it exceeds the raised cutoff, or if
/// nothing was held.
pub proof fn lemma_raise_then_lower(m: TopView, raised: u32)
    requires
        m.wf(),
        raised >= m.cutoff,
    ensures
        m.set_cutoff(raised).set_cutoff(m.cutoff) == (TopView {
            cutoff: m.cutoff,
            items: m.items.filter(above(raised)),
        }),
        (m.max() matches Some(largest) ==> largest > raised) ==> m.set_cutoff(raised).set_cutoff(
            m.cutoff,
        ).max() == m.max(),
{
    lemma_set_cutoff(m, raised);
    lemma_set_cutoff(m.set_cutoff(raised), m.cutoff);
}

} // verus!
