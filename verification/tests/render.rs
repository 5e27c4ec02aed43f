use bevy_trail::render::{
    bind_group_action, pack_batches, plan_batches, BatchEntry, BindGroupAction, GrowBuffer,
    ModeBatch, PackInput,
};
use bevy_trail::ring::TrailRing;
use bevy_trail::types::TrailRenderMode;

#[test]
fn grow_buffer_allocates_with_headroom() {
    let mut b = GrowBuffer::new();
    assert!(!b.allocated);
    assert_eq!(b.ensure(0), Some(0));
    assert!(b.allocated);
    assert_eq!(b.ensure(100), Some(150));
    assert_eq!(b.capacity, 150);
    // steady and shrinking sizes reuse the buffer
    assert_eq!(b.ensure(150), None);
    assert_eq!(b.ensure(120), None);
    assert_eq!(b.capacity, 150);
    assert_eq!(b.ensure(151), Some(226));
}

#[test]
fn grow_buffer_without_room_for_headroom() {
    let mut b = GrowBuffer::default();
    assert_eq!(b.ensure(u64::MAX), Some(u64::MAX));
    assert_eq!(b.ensure(u64::MAX), None);
}

#[test]
fn batches_pack_rings_per_mode() {
    let entries = vec![
        BatchEntry { mode: TrailRenderMode::Opaque, capacity: 4, length: 3 },
        BatchEntry { mode: TrailRenderMode::Additive, capacity: 8, length: 8 },
        BatchEntry { mode: TrailRenderMode::Opaque, capacity: 2, length: 1 },
        BatchEntry { mode: TrailRenderMode::Opaque, capacity: 5, length: 0 },
        BatchEntry { mode: TrailRenderMode::Additive, capacity: 3, length: 2 },
    ];
    let layout = plan_batches(&entries);
    assert_eq!(layout.offsets, vec![0, 0, 4, 6, 8]);
    assert_eq!(layout.modes.len(), 3);
    let opaque = layout.modes[0];
    assert_eq!((opaque.instance_count, opaque.max_verts, opaque.point_count), (3, 6, 11));
    let additive = layout.modes[1];
    assert_eq!((additive.instance_count, additive.max_verts, additive.point_count), (2, 16, 11));
    let transparent = layout.modes[2];
    assert_eq!((transparent.instance_count, transparent.max_verts, transparent.point_count), (0, 0, 0));
}

#[test]
fn empty_batches() {
    let layout = plan_batches(&vec![]);
    assert!(layout.offsets.is_empty());
    for m in layout.modes {
        assert_eq!((m.instance_count, m.max_verts, m.point_count), (0, 0, 0));
    }
}

#[test]
fn draw_range_skips_empty_batches() {
    let b = ModeBatch { instance_count: 2, max_verts: 10, point_count: 12 };
    assert_eq!(b.draw_range(true), Some((10, 2)));
    assert_eq!(b.draw_range(false), None);
    let none = ModeBatch { instance_count: 0, max_verts: 10, point_count: 0 };
    assert_eq!(none.draw_range(true), None);
    let flat = ModeBatch { instance_count: 3, max_verts: 0, point_count: 9 };
    assert_eq!(flat.draw_range(true), None);
}

#[test]
fn bind_group_is_dropped_rebuilt_or_kept() {
    assert_eq!(bind_group_action(0, true, true), BindGroupAction::Drop);
    assert_eq!(bind_group_action(0, false, false), BindGroupAction::Drop);
    assert_eq!(bind_group_action(2, true, true), BindGroupAction::Rebuild);
    assert_eq!(bind_group_action(2, false, false), BindGroupAction::Rebuild);
    assert_eq!(bind_group_action(2, false, true), BindGroupAction::Keep);
}

#[test]
fn pack_batches_concatenates_rings_per_mode() {
    let mut a = TrailRing::new(3, 0u32);
    a.emit(1);
    a.emit(2);
    let mut b = TrailRing::new(2, 0u32);
    b.emit(10);
    let mut c = TrailRing::new(4, 0u32);
    for p in 20..26u32 {
        c.emit(p);
    }
    let inputs = vec![
        PackInput { mode: TrailRenderMode::Additive, payload: 'a', ring: &a },
        PackInput { mode: TrailRenderMode::Opaque, payload: 'b', ring: &b },
        PackInput { mode: TrailRenderMode::Additive, payload: 'c', ring: &c },
    ];
    let packed = pack_batches(&inputs);
    assert_eq!(packed.len(), 3);

    let opaque = &packed[0];
    assert_eq!(opaque.entries, vec![(0, 'b')]);
    assert_eq!(opaque.points, vec![0, 10]);
    assert_eq!((opaque.layout.instance_count, opaque.layout.max_verts, opaque.layout.point_count), (1, 2, 2));

    let additive = &packed[1];
    assert_eq!(additive.entries, vec![(0, 'a'), (3, 'c')]);
    assert_eq!(additive.points, vec![0, 1, 2, 23, 24, 25, 22]);
    assert_eq!((additive.layout.instance_count, additive.layout.max_verts, additive.layout.point_count), (2, 8, 7));

    let transparent = &packed[2];
    assert!(transparent.entries.is_empty());
    assert!(transparent.points.is_empty());
}
