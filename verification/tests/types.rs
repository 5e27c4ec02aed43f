use bevy_trail::types::{TrailProfile, TrailRenderMode, MODE_COUNT};

#[test]
fn profile_codes() {
    assert_eq!(TrailProfile::Flat.code(), 0);
    assert_eq!(TrailProfile::Smooth.code(), 1);
    assert_eq!(TrailProfile::Triangle.code(), 2);
    assert_eq!(TrailProfile::default(), TrailProfile::Flat);
}

#[test]
fn mode_round_trips_through_index() {
    let modes = [
        TrailRenderMode::Opaque,
        TrailRenderMode::Additive,
        TrailRenderMode::Transparent,
    ];
    assert_eq!(MODE_COUNT, 3);
    for (i, mode) in modes.iter().enumerate() {
        assert_eq!(mode.index(), i);
        assert_eq!(TrailRenderMode::from_index(i), *mode);
    }
    assert_eq!(TrailRenderMode::default(), TrailRenderMode::Opaque);
}
