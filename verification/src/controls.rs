//! Cursor grabbing and the movement keys of the free camera.
use vstd::prelude::*;

verus! {

/// How the window holds the cursor.
#[derive(Clone, Copy, PartialEq, Eq, Debug)]
pub enum GrabMode {
    Free,
    Confined,
    Locked,
}

/// The cursor state that grabbing toggles.
#[derive(Clone, Copy, PartialEq, Eq, Debug)]
pub struct CursorState {
    pub grab_mode: GrabMode,
    pub visible: bool,
}

pub open spec fn spec_toggle(c: CursorState) -> CursorState {
    match c.grab_mode {
        GrabMode::Free => CursorState { grab_mode: GrabMode::Confined, visible: false },
        _ => CursorState { grab_mode: GrabMode::Free, visible: true },
    }
}

/// Grab a free cursor (confine and hide it), or release a grabbed one.
pub fn toggle_grab_cursor(cursor: &mut CursorState)
    ensures
        *final(cursor) == spec_toggle(*old(cursor)),
{
    match cursor.grab_mode {
        GrabMode::Free => {
            cursor.grab_mode = GrabMode::Confined;
            cursor.visible = false;
        },
        _ => {
            cursor.grab_mode = GrabMode::Free;
            cursor.visible = true;
        },
    }
}

/// Toggling twice restores a free or confined cursor (a free one shown, a
/// confined one hidden); a locked cursor comes back confined.
pub proof fn lemma_toggle_twice(c: CursorState)
    ensures
        c.grab_mode != GrabMode::Locked ==> spec_toggle(spec_toggle(c)).grab_mode == c.grab_mode,
        c.grab_mode == GrabMode::Locked ==> spec_toggle(spec_toggle(c)).grab_mode == GrabMode::Confined,
        spec_toggle(spec_toggle(c)).visible == (c.grab_mode == GrabMode::Free),
{
}

/// A key that moves the camera.
#[derive(Clone, Copy, PartialEq, Eq, Debug)]
pub enum MoveKey {
    Forward,
    Back,
    Left,
    Right,
    Up,
    Down,
    Other,
}

/// Contribution of one key to the (forward, right, up) movement.
pub open spec fn key_axes(k: MoveKey) -> (int, int, int) {
    match k {
        MoveKey::Forward => (1, 0, 0),
        MoveKey::Back => (-1, 0, 0),
        MoveKey::Left => (0, -1, 0),
        MoveKey::Right => (0, 1, 0),
        MoveKey::Up => (0, 0, 1),
        MoveKey::Down => (0, 0, -1),
        MoveKey::Other => (0, 0, 0),
    }
}

/// Sum of the contributions of the first `n` keys.
pub open spec fn keys_axes(keys: Seq<MoveKey>) -> (int, int, int)
    decreases keys.len(),
{
    if keys.len() == 0 {
        (0, 0, 0)
    } else {
        let s = keys_axes(keys.drop_last());
        let k = key_axes(keys.last());
        (s.0 + k.0, s.1 + k.1, s.2 + k.2)
    }
}

/// How far the pressed keys push the camera forward, right and up (before
/// normalising); nothing moves while the cursor is free.
pub fn movement_axes(pressed: &Vec<MoveKey>, grab_mode: GrabMode) -> (axes: [i64; 3])
    requires
        pressed@.len() <= 0x1_0000_0000,
    ensures
        grab_mode == GrabMode::Free ==> axes == [0i64, 0, 0],
        grab_mode != GrabMode::Free ==> axes[0] == keys_axes(pressed@).0 && axes[1] == keys_axes(
            pressed@,
        ).1 && axes[2] == keys_axes(pressed@).2,
{
    let mut forward: i64 = 0;
    let mut right: i64 = 0;
    let mut up: i64 = 0;
    let mut i: usize = 0;
    while i < pressed.len()
        invariant
            i <= pressed@.len(),
            pressed@.len() <= 0x1_0000_0000,
            grab_mode == GrabMode::Free ==> forward == 0 && right == 0 && up == 0,
            grab_mode != GrabMode::Free ==> (forward as int, right as int, up as int) == keys_axes(
                pressed@.take(i as int),
            ),
            -(i as int) <= forward <= i,
            -(i as int) <= right <= i,
            -(i as int) <= up <= i,
        decreases pressed@.len() - i,
    {
        proof {
            assert(pressed@.take((i + 1) as int).drop_last() =~= pressed@.take(i as int));
        }
        match grab_mode {
            GrabMode::Free => {},
            _ => match pressed[i] {
                MoveKey::Forward => forward = forward + 1,
                MoveKey::Back => forward = forward - 1,
                MoveKey::Left => right = right - 1,
                MoveKey::Right => right = right + 1,
                MoveKey::Up => up = up + 1,
                MoveKey::Down => up = up - 1,
                MoveKey::Other => {},
            },
        }
        i = i + 1;
    }
    assert(pressed@.take(pressed@.len() as int) =~= pressed@);
    [forward, right, up]
}

/// How many of `keys` are `k`.
pub open spec fn count_key(keys: Seq<MoveKey>, k: MoveKey) -> int
    decreases keys.len(),
{
    if keys.len() == 0 {
        0
    } else {
        count_key(keys.drop_last(), k) + if keys.last() == k { 1int } else { 0int }
    }
}

/// Each key moves along its own axis: the forward movement is the number of
/// Forward keys minus the number of Back keys, the rightward movement the
/// Right keys minus the Left keys, and the upward movement the Up keys minus
/// the Down keys; other keys move nothing.
pub proof fn lemma_keys_move_along_their_axes(keys: Seq<MoveKey>)
    ensures
        keys_axes(keys).0 == count_key(keys, MoveKey::Forward) - count_key(keys, MoveKey::Back),
        keys_axes(keys).1 == count_key(keys, MoveKey::Right) - count_key(keys, MoveKey::Left),
        keys_axes(keys).2 == count_key(keys, MoveKey::Up) - count_key(keys, MoveKey::Down),
    decreases keys.len(),
{
    if keys.len() > 0 {
        lemma_keys_move_along_their_axes(keys.drop_last());
    }
}

} // verus!
