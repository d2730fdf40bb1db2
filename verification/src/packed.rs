//! Sixteen four-bit slot indices packed into one 64-bit word.
//!
//! Field `p` of a word occupies bits `4 * p .. 4 * p + 4`. A word whose
//! sixteen fields are pairwise different is a permutation of the slot
//! indices `0..16`; field `0` is the bottom sort position, field `15` the top.

use vstd::prelude::*;

verus! {

/// Number of slots, and of sort positions.
pub const NUM: usize = 16;

/// Number of bits that hold one slot index.
pub const IX_BITS: u32 = 4;

/// Mask that extracts one slot index.
pub const IX_MASK: u64 = 0xF;

/// Number of bits that hold all the slot indices.
pub const IXS_BITS: u32 = 64;

/// The word that names slot `p` at sort position `p`.
pub const IDENTITY: u64 = 0xFEDC_BA98_7654_3210;

/// The slot index stored `shift` bits above the bottom of `word`.
pub open spec fn field(word: u64, shift: u32) -> u64 {
    (word >> shift) & 0xF
}

/// The slot index at sort position `pos` of `word`.
pub open spec fn slot_at(word: u64, pos: int) -> int {
    field(word, (4 * pos) as u32) as int
}

/// Whether the sixteen fields of `word` name sixteen different slots.
pub open spec fn is_permutation(word: u64) -> bool {
    forall|p: int, q: int|
        0 <= p < q < 16 ==> #[trigger] slot_at(word, p) != #[trigger] slot_at(word, q)
}

/// The word that results from taking the bottom field of `word` out and
/// putting it back in `shift` bits above the bottom: the fields below move
/// down by one position, the fields above stay.
pub open spec fn spliced(word: u64, shift: u32) -> u64 {
    let lower = ((word << ((60 - shift) as u32)) >> ((60 - shift) as u32)) >> 4u32;
    let upper = (word >> shift) >> 4u32;
    (((upper << 4u32) | field(word, 0)) << shift) | lower
}

/// The word obtained from `word` by moving its bottom field to sort position
/// `pos`.
pub open spec fn moved_up(word: u64, pos: int) -> u64 {
    spliced(word, (4 * pos) as u32)
}

proof fn lemma_field_bound(word: u64, shift: u32)
    by (bit_vector)
    ensures
        field(word, shift) < 16,
{
}

proof fn lemma_identity_field(shift: u32)
    by (bit_vector)
    requires
        shift < 64,
        shift % 4 == 0,
    ensures
        field(IDENTITY, shift) == shift / 4,
{
}

proof fn lemma_spliced_field(word: u64, shift: u32, at: u32)
    by (bit_vector)
    requires
        shift < 64,
        shift % 4 == 0,
        at < 64,
        at % 4 == 0,
    ensures
        at < shift ==> field(spliced(word, shift), at) == field(word, (at + 4) as u32),
        at == shift ==> field(spliced(word, shift), at) == field(word, 0),
        at > shift ==> field(spliced(word, shift), at) == field(word, at),
{
}

/// Every field of a word is a slot index.
pub proof fn lemma_slot_in_range(word: u64, pos: int)
    ensures
        0 <= slot_at(word, pos) < 16,
{
    lemma_field_bound(word, (4 * pos) as u32);
}

/// The identity word names slot `pos` at sort position `pos`.
pub proof fn lemma_identity_slots()
    ensures
        forall|pos: int| 0 <= pos < 16 ==> #[trigger] slot_at(IDENTITY, pos) == pos,
        is_permutation(IDENTITY),
{
    assert forall|pos: int| 0 <= pos < 16 implies #[trigger] slot_at(IDENTITY, pos) == pos by {
        lemma_identity_field((4 * pos) as u32);
    }
}

/// What each sort position of a word names after its bottom field has moved
/// up to position `pos`.
pub proof fn lemma_moved_up_slots(word: u64, pos: int)
    requires
        0 <= pos < 16,
    ensures
        forall|q: int|
            0 <= q < 16 ==> #[trigger] slot_at(moved_up(word, pos), q) == (if q < pos {
                slot_at(word, q + 1)
            } else if q == pos {
                slot_at(word, 0)
            } else {
                slot_at(word, q)
            }),
{
    assert forall|q: int| 0 <= q < 16 implies #[trigger] slot_at(moved_up(word, pos), q) == (if q
        < pos {
        slot_at(word, q + 1)
    } else if q == pos {
        slot_at(word, 0)
    } else {
        slot_at(word, q)
    }) by {
        lemma_spliced_field(word, (4 * pos) as u32, (4 * q) as u32);
    }
}

/// Moving the bottom field up keeps a permutation a permutation.
pub proof fn lemma_moved_up_permutation(word: u64, pos: int)
    requires
        0 <= pos < 16,
        is_permutation(word),
    ensures
        is_permutation(moved_up(word, pos)),
{
    lemma_moved_up_slots(word, pos);
}

/// Whether `f` takes the value `s` somewhere below `n`.
spec fn hits(f: spec_fn(int) -> int, n: int, s: int) -> bool {
    exists|p: int| 0 <= p < n && #[trigger] f(p) == s
}

/// Whether some sort position of `word` names `slot`.
pub open spec fn names(word: u64, slot: int) -> bool {
    exists|pos: int| 0 <= pos < 16 && #[trigger] slot_at(word, pos) == slot
}

proof fn lemma_injective_onto(f: spec_fn(int) -> int, n: int)
    requires
        0 <= n,
        forall|p: int| 0 <= p < n ==> 0 <= #[trigger] f(p) < n,
        forall|p: int, q: int| 0 <= p < q < n ==> #[trigger] f(p) != #[trigger] f(q),
    ensures
        forall|s: int| 0 <= s < n ==> #[trigger] hits(f, n, s),
    decreases n,
{
    if n > 0 {
        let last = n - 1;
        if hits(f, n, last) {
            // Let the position that hits `last` take the value at `last`
            // instead: what results is injective below `last`.
            let at = choose|p: int| 0 <= p < n && #[trigger] f(p) == last;
            let g = |p: int|
                if p == at {
                    f(last)
                } else {
                    f(p)
                };
            lemma_injective_onto(g, last);
            assert forall|s: int| 0 <= s < n implies #[trigger] hits(f, n, s) by {
                if s < last {
                    assert(hits(g, last, s));
                    let p = choose|p: int| 0 <= p < last && #[trigger] g(p) == s;
                    assert(f(if p == at { last } else { p }) == s);
                }
            }
        } else {
            // Nothing hits `last`, so `f` is injective below `last` as well,
            // and the value at `last` would be hit twice.
            lemma_injective_onto(f, last);
            assert(hits(f, last, f(last)));
            let twin = choose|p: int| 0 <= p < last && #[trigger] f(p) == f(last);
            assert(f(twin) != f(last));
        }
    }
}

/// A permutation names every slot at some sort position.
pub proof fn lemma_permutation_onto(word: u64)
    requires
        is_permutation(word),
    ensures
        forall|slot: int| 0 <= slot < 16 ==> #[trigger] names(word, slot),
{
    let f = |pos: int| slot_at(word, pos);
    assert forall|p: int| 0 <= p < 16 implies 0 <= #[trigger] f(p) < 16 by {
        lemma_slot_in_range(word, p);
    }
    lemma_injective_onto(f, 16);
    assert forall|slot: int| 0 <= slot < 16 implies #[trigger] names(word, slot) by {
        assert(hits(f, 16, slot));
        let pos = choose|pos: int| 0 <= pos < 16 && #[trigger] f(pos) == slot;
        assert(slot_at(word, pos) == slot);
    }
}

/// Reads the slot index stored `shift` bits above the bottom of `word`.
#[inline]
pub fn index_at(word: u64, shift: u32) -> (slot: usize)
    requires
        shift < 64,
    ensures
        slot == field(word, shift),
        slot < 16,
{
    proof {
        lemma_field_bound(word, shift);
    }
    ((word >> shift) & IX_MASK) as usize
}

} // verus!
