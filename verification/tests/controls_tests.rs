use voxel_raymarcher::controls::{movement_axes, toggle_grab_cursor, CursorState, GrabMode, MoveKey};
use voxel_raymarcher::render::{next_state, workgroups, RayTraceState};

#[test]
fn toggle_grabs_and_releases() {
    let mut c = CursorState { grab_mode: GrabMode::Free, visible: true };
    toggle_grab_cursor(&mut c);
    assert_eq!(c, CursorState { grab_mode: GrabMode::Confined, visible: false });
    toggle_grab_cursor(&mut c);
    assert_eq!(c, CursorState { grab_mode: GrabMode::Free, visible: true });
    let mut l = CursorState { grab_mode: GrabMode::Locked, visible: false };
    toggle_grab_cursor(&mut l);
    assert_eq!(l, CursorState { grab_mode: GrabMode::Free, visible: true });
}

#[test]
fn keys_sum_to_axes() {
    let keys = vec![MoveKey::Forward, MoveKey::Left, MoveKey::Up, MoveKey::Other, MoveKey::Right, MoveKey::Right];
    assert_eq!(movement_axes(&keys, GrabMode::Confined), [1, 1, 1]);
    assert_eq!(movement_axes(&keys, GrabMode::Locked), [1, 1, 1]);
    assert_eq!(movement_axes(&vec![MoveKey::Back, MoveKey::Down], GrabMode::Confined), [-1, 0, -1]);
}

#[test]
fn free_cursor_does_not_move() {
    let keys = vec![MoveKey::Forward, MoveKey::Up];
    assert_eq!(movement_axes(&keys, GrabMode::Free), [0, 0, 0]);
}

#[test]
fn render_node_waits_for_pipeline() {
    assert_eq!(next_state(RayTraceState::Loading, false), RayTraceState::Loading);
    assert_eq!(next_state(RayTraceState::Loading, true), RayTraceState::Update);
    assert_eq!(next_state(RayTraceState::Update, false), RayTraceState::Update);
    assert_eq!(workgroups(RayTraceState::Loading), None);
    assert_eq!(workgroups(RayTraceState::Update), Some((120, 60, 1)));
}
