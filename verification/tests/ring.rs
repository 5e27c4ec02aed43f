use bevy_trail::ring::{within_every_budget, TrailRing};

fn live<T: Clone>(ring: &TrailRing<T>) -> Vec<T> {
    let cap = ring.capacity() as usize;
    let len = ring.length() as usize;
    let head = ring.head() as usize;
    (0..len)
        .map(|j| ring.points()[(head + cap + 1 + j - len) % cap].clone())
        .collect()
}

#[test]
fn new_ring_is_empty_with_clamped_capacity() {
    let ring = TrailRing::new(0, 7u32);
    assert_eq!(ring.capacity(), 1);
    assert_eq!(ring.head(), 0);
    assert_eq!(ring.length(), 0);
    assert_eq!(ring.points(), &vec![7u32]);

    let ring = TrailRing::new(64, 0u32);
    assert_eq!(ring.capacity(), 64);
    assert_eq!(ring.points().len(), 64);
    assert!(live(&ring).is_empty());
}

#[test]
fn emit_advances_head_and_writes_there() {
    let mut ring = TrailRing::new(4, 0u32);
    ring.emit(10);
    assert_eq!(ring.head(), 1);
    assert_eq!(ring.length(), 1);
    assert_eq!(ring.points(), &vec![0, 10, 0, 0]);
    ring.emit(11);
    ring.emit(12);
    assert_eq!(ring.head(), 3);
    assert_eq!(ring.length(), 3);
    assert_eq!(live(&ring), vec![10, 11, 12]);
}

#[test]
fn emit_wraps_and_keeps_the_latest_points() {
    let mut ring = TrailRing::new(3, 0u32);
    for p in 1..=7u32 {
        ring.emit(p);
    }
    assert_eq!(ring.length(), 3);
    assert_eq!(ring.head(), 7 % 3);
    assert_eq!(live(&ring), vec![5, 6, 7]);
}

#[test]
fn emit_into_single_slot_ring() {
    let mut ring = TrailRing::new(1, 0u32);
    ring.emit(3);
    ring.emit(4);
    assert_eq!(ring.head(), 0);
    assert_eq!(ring.length(), 1);
    assert_eq!(live(&ring), vec![4]);
}

#[test]
fn pin_head_overwrites_newest_only() {
    let mut ring = TrailRing::new(4, 0u32);
    ring.pin_head(9);
    assert_eq!(ring.length(), 0);
    assert_eq!(ring.points(), &vec![9, 0, 0, 0]);
    ring.emit(1);
    ring.emit(2);
    ring.pin_head(20);
    assert_eq!(ring.head(), 2);
    assert_eq!(live(&ring), vec![1, 20]);
}

fn clip(ring: &mut TrailRing<u32>, budget: &Vec<bool>) {
    let kept = ring.clipped_length(budget);
    ring.retain_newest(kept);
}

#[test]
fn clip_drops_expired_tail_points() {
    let mut ring = TrailRing::new(5, 0u32);
    for p in 1..=4u32 {
        ring.emit(p);
    }
    // slots: [0, 1, 2, 3, 4]; points 1 and 2 are out of budget
    let budget = vec![false, false, false, true, true];
    assert_eq!(ring.clipped_length(&budget), 2);
    clip(&mut ring, &budget);
    assert_eq!(ring.length(), 2);
    assert_eq!(ring.head(), 4);
    assert_eq!(live(&ring), vec![3, 4]);
    // a second clip with the same flags keeps everything
    assert_eq!(ring.clipped_length(&budget), 2);
}

#[test]
fn clip_stops_at_first_point_within_budget() {
    let mut ring = TrailRing::new(4, 0u32);
    for p in 1..=4u32 {
        ring.emit(p);
    }
    // slot layout after wrap: [4, 1, 2, 3], head = 0
    assert_eq!(ring.head(), 0);
    assert_eq!(ring.points(), &vec![4, 1, 2, 3]);
    let budget = vec![false, true, false, false];
    assert_eq!(ring.clipped_length(&budget), 4);
    // only the oldest point is out of budget: slot 1 holds point 1
    let budget = vec![true, false, true, true];
    assert_eq!(ring.clipped_length(&budget), 3);
    clip(&mut ring, &budget);
    assert_eq!(live(&ring), vec![2, 3, 4]);
}

#[test]
fn clip_keeps_newest_point() {
    let mut ring = TrailRing::new(3, 0u32);
    ring.emit(1);
    ring.emit(2);
    ring.emit(3);
    clip(&mut ring, &vec![false, false, false]);
    assert_eq!(ring.length(), 1);
    assert_eq!(live(&ring), vec![3]);
    assert_eq!(ring.points(), &vec![3, 1, 2]);
}

#[test]
fn clip_on_empty_or_single_point_ring_does_nothing() {
    let mut ring = TrailRing::new(2, 0u32);
    assert_eq!(ring.clipped_length(&vec![false, false]), 0);
    ring.emit(5);
    assert_eq!(ring.clipped_length(&vec![false, false]), 1);
}

#[test]
fn retain_newest_drops_oldest_points() {
    let mut ring = TrailRing::new(4, 0u32);
    for p in 1..=6u32 {
        ring.emit(p);
    }
    assert_eq!(live(&ring), vec![3, 4, 5, 6]);
    ring.retain_newest(2);
    assert_eq!(live(&ring), vec![5, 6]);
    assert_eq!(ring.points(), &vec![4, 5, 6, 3]);
    ring.retain_newest(0);
    assert!(live(&ring).is_empty());
    ring.emit(7);
    assert_eq!(live(&ring), vec![7]);
}

#[test]
fn from_parts_checks_the_storage_invariant() {
    let ring = TrailRing::from_parts(vec![1u32, 2, 3], 2, 3).unwrap();
    assert_eq!(ring.capacity(), 3);
    assert_eq!(live(&ring), vec![1, 2, 3]);
    let ring = TrailRing::from_parts(vec![1u32, 2, 3], 0, 2).unwrap();
    assert_eq!(live(&ring), vec![3, 1]);
    assert!(TrailRing::<u32>::from_parts(vec![], 0, 0).is_none());
    assert!(TrailRing::from_parts(vec![1u32], 1, 0).is_none());
    assert!(TrailRing::from_parts(vec![1u32, 2], 0, 3).is_none());
}

#[test]
fn within_every_budget_combines_enabled_tests() {
    let len = vec![true, true, false, false];
    let time = vec![true, false, true, false];
    assert_eq!(within_every_budget(&len, &time, true, true), vec![true, false, false, false]);
    assert_eq!(within_every_budget(&len, &time, true, false), vec![true, true, false, false]);
    assert_eq!(within_every_budget(&len, &time, false, true), vec![true, false, true, false]);
    assert_eq!(within_every_budget(&len, &time, false, false), vec![true, true, true, true]);
}

#[test]
fn budget_clip_needs_every_enabled_budget() {
    let mut ring = TrailRing::new(4, 0u32);
    for p in 1..=4u32 {
        ring.emit(p);
    }
    // slots [4, 1, 2, 3]: point 1 is within the time budget only,
    // point 2 within both
    let within_length = vec![true, false, true, true];
    let within_time = vec![true, true, true, true];
    assert_eq!(ring.budget_clipped_length(&within_length, &within_time, true, true), 3);
    // with the length budget disabled only the time test counts
    assert_eq!(ring.budget_clipped_length(&within_length, &within_time, false, true), 4);
    // with both disabled nothing is clipped
    let none = vec![false, false, false, false];
    assert_eq!(ring.budget_clipped_length(&none, &none, false, false), 4);
    // the newest point always stays
    assert_eq!(ring.budget_clipped_length(&none, &none, true, true), 1);
    let kept = ring.budget_clipped_length(&within_length, &within_time, true, true);
    ring.retain_newest(kept);
    assert_eq!(live(&ring), vec![2, 3, 4]);
}

#[test]
fn cloned_ring_keeps_its_state() {
    let mut ring = TrailRing::new(3, 0u32);
    ring.emit(1);
    ring.emit(2);
    let copy = ring.clone();
    assert_eq!(copy.head(), ring.head());
    assert_eq!(copy.length(), ring.length());
    assert_eq!(copy.points(), ring.points());
}
