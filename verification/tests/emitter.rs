use bevy_trail::emitter::should_emit;

#[test]
fn first_point_always_emits() {
    assert!(should_emit(false, None, false));
    assert!(should_emit(false, Some(false), false));
}

#[test]
fn spacing_gates_emission() {
    assert!(should_emit(true, Some(true), true));
    assert!(!should_emit(true, Some(false), true));
}

#[test]
fn without_spacing_any_movement_emits() {
    assert!(should_emit(true, None, true));
    assert!(!should_emit(true, None, false));
}
