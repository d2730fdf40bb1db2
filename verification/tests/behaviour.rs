use top_few::{Iter, Top16};

/// Lets the tests drive a tracker's iterator through std's adaptors.
struct Walk<'a>(Iter<'a>);

impl Iterator for Walk<'_> {
    type Item = u32;

    fn next(&mut self) -> Option<u32> {
        self.0.next()
    }
}

impl DoubleEndedIterator for Walk<'_> {
    fn next_back(&mut self) -> Option<u32> {
        self.0.next_back()
    }
}

fn values(top: &Top16) -> Vec<u32> {
    Walk(top.iter()).collect()
}

/// The sixteen largest values above the cutoff, by a full sort.
fn by_full_sort(stream: &[u32], cutoff: u32) -> Vec<u32> {
    let mut kept: Vec<u32> = stream.iter().copied().filter(|v| *v > cutoff).collect();
    kept.sort_unstable_by(|a, b| b.cmp(a));
    kept.truncate(16);
    kept
}

/// A fixed pseudo-random stream: a linear congruential generator, reduced
/// to `modulus` so that values repeat.
fn stream_of(seed: u64, len: usize, modulus: u32) -> Vec<u32> {
    let mut state = seed;
    let mut out = Vec::with_capacity(len);
    for _ in 0..len {
        state = state.wrapping_mul(6364136223846793005).wrapping_add(1442695040888963407);
        out.push(((state >> 33) as u32) % modulus);
    }
    out
}

#[test]
fn new_tracker_is_empty() {
    let top = Top16::new(7);
    assert_eq!(top.cutoff(), 7);
    assert_eq!(top.max(), None);
    assert_eq!(values(&top), Vec::<u32>::new());
    assert_eq!(Walk(top.iter()).rev().count(), 0);
    assert_eq!(Walk(top.take(3)).count(), 0);
}

#[test]
fn holds_the_top_of_a_full_sort() {
    for (seed, len, modulus, cutoff) in [
        (1u64, 0usize, 10u32, 0u32),
        (2, 1, 10, 0),
        (3, 15, 1000, 0),
        (4, 16, 1000, 0),
        (5, 17, 1000, 0),
        (6, 200, 1000, 0),
        (7, 200, 20, 0),
        (8, 200, 20, 10),
        (9, 500, 5, 2),
        (10, 1000, u32::MAX, 0),
        (11, 1000, u32::MAX, u32::MAX / 2),
        (12, 300, 3, 5),
    ] {
        let stream = stream_of(seed, len, modulus);
        let mut top = Top16::new(cutoff);
        for (i, v) in stream.iter().enumerate() {
            top.see(*v);
            assert_eq!(values(&top), by_full_sort(&stream[..=i], cutoff));
        }
        assert_eq!(values(&top), by_full_sort(&stream, cutoff));
    }
}

#[test]
fn keeps_duplicates_as_often_as_they_rank() {
    let mut top = Top16::new(0);
    for _ in 0..20 {
        top.see(7);
    }
    assert_eq!(values(&top), vec![7; 16]);
    top.see(9);
    top.see(9);
    let mut expected = vec![9, 9];
    expected.extend(vec![7; 14]);
    assert_eq!(values(&top), expected);
}

#[test]
fn reversed_walk_is_the_reverse() {
    for len in [0usize, 1, 5, 16, 40] {
        let stream = stream_of(21, len, 50);
        let mut top = Top16::new(3);
        for v in &stream {
            top.see(*v);
        }
        let forward = values(&top);
        let mut backward: Vec<u32> = Walk(top.iter()).rev().collect();
        backward.reverse();
        assert_eq!(forward, backward);
    }
}

#[test]
fn walk_from_both_ends_meets_in_the_middle() {
    let mut top = Top16::new(0);
    for v in [5, 1, 4, 2, 3] {
        top.see(v);
    }
    let mut it = top.iter();
    assert_eq!(it.next(), Some(5));
    assert_eq!(it.next_back(), Some(1));
    assert_eq!(it.next_back(), Some(2));
    assert_eq!(it.next(), Some(4));
    assert_eq!(it.next(), Some(3));
    assert_eq!(it.next(), None);
    assert_eq!(it.next_back(), None);
    assert_eq!(it.next(), None);
}

#[test]
fn take_is_a_prefix_of_iter() {
    for len in [0usize, 3, 16, 30] {
        let stream = stream_of(33, len, 100);
        let mut top = Top16::new(10);
        for v in &stream {
            top.see(*v);
        }
        for n in [0u32, 1, 2, 5, 15, 16, 17, 100, u32::MAX] {
            let direct: Vec<u32> = Walk(top.take(n)).collect();
            let counted: Vec<u32> = Walk(top.iter()).take(n as usize).collect();
            assert_eq!(direct, counted);
            let direct_back: Vec<u32> = Walk(top.take(n)).rev().collect();
            let mut counted_back = counted.clone();
            counted_back.reverse();
            assert_eq!(direct_back, counted_back);
        }
    }
}

#[test]
fn take_zero_is_empty() {
    let mut top = Top16::new(0);
    for v in 1..=20 {
        top.see(v);
    }
    assert_eq!(top.take(0).next(), None);
    assert_eq!(top.take(0).next_back(), None);
    assert_eq!(Walk(top.take(16)).collect::<Vec<u32>>(), values(&top));
    assert_eq!(Walk(top.take(17)).collect::<Vec<u32>>(), values(&top));
}

#[test]
fn rank_is_zero_at_or_below_the_cutoff() {
    let mut top = Top16::new(10);
    assert_eq!(top.see(0), 0);
    assert_eq!(top.see(9), 0);
    assert_eq!(top.see(10), 0);
    assert_eq!(top.rank(10), 0);
    assert_eq!(top.max(), None);
    assert_eq!(values(&top), Vec::<u32>::new());
}

#[test]
fn rank_counts_from_the_smallest_of_sixteen() {
    let mut top = Top16::new(0);
    // The first admitted value is the largest of sixteen slots.
    assert_eq!(top.see(50), 16);
    // A smaller one goes just below it, a larger one to the top.
    assert_eq!(top.see(40), 15);
    assert_eq!(top.see(60), 16);
    assert_eq!(top.see(45), 14);
    // An equal one goes below the one that is held.
    assert_eq!(top.see(45), 13);
    assert_eq!(values(&top), vec![60, 50, 45, 45, 40]);
    // The rank is one more than the number of slots below the value.
    assert_eq!(top.see(1), 11);
    assert_eq!(values(&top), vec![60, 50, 45, 45, 40, 1]);
}

#[test]
fn rank_is_the_position_in_the_walk() {
    let stream = stream_of(44, 300, 200);
    let mut top = Top16::new(20);
    for v in stream {
        let before = values(&top);
        let rank = top.see(v);
        let after = values(&top);
        if rank == 0 {
            assert_eq!(before, after);
            assert!(v <= 20 || (before.len() == 16 && v <= before[15]));
        } else {
            assert!((1..=16).contains(&rank));
            let index = 16 - rank;
            assert_eq!(after[index], v);
            assert!(after[..index].iter().all(|held| *held >= v));
            assert!(after[index + 1..].iter().all(|held| *held < v));
        }
    }
}

#[test]
fn max_is_the_largest_seen_above_the_cutoff() {
    let stream = stream_of(55, 200, 1000);
    let mut top = Top16::new(500);
    let mut largest: Option<u32> = None;
    for v in stream {
        top.see(v);
        if v > 500 && largest.map_or(true, |held| v > held) {
            largest = Some(v);
        }
        assert_eq!(top.max(), largest);
    }
    assert!(largest.is_some());
}

#[test]
fn max_at_the_ends_of_the_value_range() {
    let mut top = Top16::new(0);
    assert_eq!(top.see(u32::MAX), 16);
    assert_eq!(top.see(u32::MAX), 15);
    assert_eq!(top.max(), Some(u32::MAX));
    let mut all = Top16::new(u32::MAX);
    assert_eq!(all.see(u32::MAX), 0);
    assert_eq!(all.max(), None);
}

#[test]
fn cutoff_is_not_changed_by_see() {
    let mut top = Top16::new(3);
    for v in 0..40 {
        top.see(v);
        assert_eq!(top.cutoff(), 3);
    }
}

#[test]
fn set_cutoff_twice_is_set_cutoff_once() {
    for cutoff in [0u32, 5, 10, 14, 19, 30] {
        let mut once = Top16::new(10);
        for v in (1..20).rev() {
            once.see(v);
        }
        let mut twice = once;
        once.set_cutoff(cutoff);
        twice.set_cutoff(cutoff);
        twice.set_cutoff(cutoff);
        assert_eq!(values(&once), values(&twice));
        assert_eq!(once.cutoff(), cutoff);
        assert_eq!(twice.cutoff(), cutoff);
        assert_eq!(once.max(), twice.max());
        assert_eq!(format!("{:?}", once), format!("{:?}", twice));
    }
}

#[test]
fn raising_and_lowering_keeps_max_and_loses_small_values() {
    let mut top = Top16::new(0);
    for v in 1..=10 {
        top.see(v);
    }
    top.set_cutoff(6);
    assert_eq!(values(&top), vec![10, 9, 8, 7]);
    top.set_cutoff(0);
    assert_eq!(top.cutoff(), 0);
    assert_eq!(top.max(), Some(10));
    assert_eq!(values(&top), vec![10, 9, 8, 7]);
    // What was lost can be admitted again.
    assert_eq!(top.see(3), 12);
    assert_eq!(values(&top), vec![10, 9, 8, 7, 3]);
}

#[test]
fn raising_above_everything_empties_the_tracker() {
    let mut top = Top16::new(0);
    top.see(5);
    assert_eq!(top.max(), Some(5));
    top.set_cutoff(10);
    assert_eq!(top.max(), None);
    top.set_cutoff(0);
    assert_eq!(top.max(), None);
    assert_eq!(values(&top), Vec::<u32>::new());
}

#[test]
fn raising_to_a_held_value_drops_it() {
    let mut top = Top16::new(0);
    for v in [3, 5, 5, 8] {
        top.see(v);
    }
    top.set_cutoff(5);
    assert_eq!(values(&top), vec![8]);
    assert_eq!(top.see(5), 0);
    assert_eq!(top.see(6), 15);
}

#[test]
fn lowering_the_cutoff_admits_values_between() {
    let mut top = Top16::new(10);
    for v in [12, 15] {
        top.see(v);
    }
    assert_eq!(top.see(7), 0);
    top.set_cutoff(5);
    assert_eq!(values(&top), vec![15, 12]);
    assert_eq!(top.see(5), 0);
    assert_eq!(top.see(7), 14);
    assert_eq!(values(&top), vec![15, 12, 7]);
}

#[test]
fn lowering_the_cutoff_to_zero() {
    let mut top = Top16::new(4);
    top.see(9);
    top.set_cutoff(0);
    assert_eq!(top.cutoff(), 0);
    assert_eq!(values(&top), vec![9]);
    assert_eq!(top.see(0), 0);
    assert_eq!(top.see(1), 15);
    let mut zero = Top16::new(0);
    zero.set_cutoff(0);
    assert_eq!(zero.cutoff(), 0);
    assert_eq!(zero.see(1), 16);
}

#[test]
fn set_cutoff_on_a_full_tracker() {
    let mut top = Top16::new(0);
    for v in 1..=30 {
        top.see(v);
    }
    top.set_cutoff(20);
    assert_eq!(values(&top), (21..=30).rev().collect::<Vec<u32>>());
    assert_eq!(top.see(20), 0);
    assert_eq!(top.see(21), 6);
    top.set_cutoff(u32::MAX);
    assert_eq!(values(&top), Vec::<u32>::new());
    assert_eq!(top.see(u32::MAX), 0);
}

#[test]
fn nineteen_ascending_from_cutoff_zero() {
    let mut top = Top16::new(0);
    for v in 1..=19 {
        top.see(v);
    }
    assert_eq!(values(&top), (4..=19).rev().collect::<Vec<u32>>());
    assert_eq!(top.see(0), 0);
    assert_eq!(top.see(4), 0);
    assert_eq!(top.see(5), 1);
    // The smallest value, 4, has left; both fives are held.
    let mut expected: Vec<u32> = (5..=19).rev().collect();
    expected.push(5);
    assert_eq!(values(&top), expected);
}

#[test]
fn nineteen_descending_from_cutoff_ten() {
    let mut top = Top16::new(10);
    for v in (1..=19).rev() {
        top.see(v);
    }
    assert_eq!(values(&top), (11..=19).rev().collect::<Vec<u32>>());
    top.set_cutoff(15);
    assert_eq!(values(&top), vec![19, 18, 17, 16]);
}

#[test]
fn a_copy_is_independent() {
    let mut top = Top16::new(0);
    top.see(3);
    let copy = top;
    top.see(9);
    assert_eq!(values(&copy), vec![3]);
    assert_eq!(values(&top), vec![9, 3]);
    let cloned = top.clone();
    assert_eq!(values(&cloned), vec![9, 3]);
}
