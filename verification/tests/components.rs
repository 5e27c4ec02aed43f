use bevy_trail::components::Trail;

fn valid(trail: &Trail<u32>) -> Vec<u32> {
    (0..trail.point_count()).map(|j| *trail.point_by_logical(j)).collect()
}

#[test]
fn new_trail_is_empty_and_dirty() {
    let trail = Trail::new(2, 0u32);
    assert_eq!(trail.capacity(), 2);
    assert_eq!(trail.head(), 0);
    assert_eq!(trail.point_count(), 0);
    assert!(trail.dirty());
    assert_eq!(trail.last_point(), None);
    assert_eq!(trail.points(), &vec![0, 0]);
}

#[test]
fn push_writes_at_head_then_advances() {
    let mut trail = Trail::new(3, 0u32);
    trail.set_dirty(false);
    trail.push_point(10);
    assert_eq!(trail.points(), &vec![10, 0, 0]);
    assert_eq!(trail.head(), 1);
    assert_eq!(trail.point_count(), 1);
    assert!(!trail.dirty());
    assert_eq!(trail.last_point(), Some(&10));
    trail.push_point(11);
    trail.push_point(12);
    trail.push_point(13);
    assert_eq!(trail.head(), 1);
    assert_eq!(trail.point_count(), 3);
    assert_eq!(trail.points(), &vec![13, 11, 12]);
    assert_eq!(valid(&trail), vec![11, 12, 13]);
    assert_eq!(trail.last_point(), Some(&13));
}

#[test]
fn point_by_logical_wraps_past_the_valid_points() {
    let mut trail = Trail::new(4, 0u32);
    for p in 1..=5u32 {
        trail.push_point(p);
    }
    // slots [5, 2, 3, 4], head 1, oldest slot 1
    assert_eq!(*trail.point_by_logical(0), 2);
    assert_eq!(*trail.point_by_logical(3), 5);
    assert_eq!(*trail.point_by_logical(4), 2);
    assert_eq!(*trail.point_by_logical(u32::MAX), 5);
}

#[test]
fn update_prunes_expired_oldest_points() {
    let mut trail = Trail::new(4, 0u32);
    for p in 1..=3u32 {
        trail.push_point(p);
    }
    trail.set_dirty(false);
    // slots [1, 2, 3, 0]: points 1 and 3 are expired, 2 is not
    trail.update(&vec![true, false, true, true]);
    assert_eq!(trail.point_count(), 2);
    assert_eq!(valid(&trail), vec![2, 3]);
    assert!(trail.dirty());
    // nothing left to prune at the oldest end
    trail.set_dirty(false);
    trail.update(&vec![true, false, true, true]);
    assert_eq!(trail.point_count(), 2);
    assert!(!trail.dirty());
}

#[test]
fn update_can_empty_the_trail() {
    let mut trail = Trail::new(2, 0u32);
    trail.push_point(1);
    trail.push_point(2);
    trail.update(&vec![true, true]);
    assert_eq!(trail.point_count(), 0);
    assert_eq!(trail.last_point(), None);
}

#[test]
fn last_point_is_the_slot_before_head() {
    let mut trail = Trail::new(3, 0u32);
    trail.push_point(7);
    trail.push_point(8);
    trail.push_point(9);
    assert_eq!(trail.head(), 0);
    assert_eq!(trail.last_point(), Some(&trail.points()[2]));
    let copy = trail.clone();
    assert_eq!(copy.points(), trail.points());
    assert_eq!(copy.dirty(), trail.dirty());
}
