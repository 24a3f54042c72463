//! The decisions of the ray-tracing render node.
use vstd::prelude::*;

verus! {

/// Width of the ray-traced image, in pixels.
pub const RESWIDTH: i64 = 1920;

/// Height of the ray-traced image, in pixels.
pub const RESHIGHT: i64 = 1080;

/// Field of view, in degrees.
pub const FOV: i64 = 90;

/// The plugin that sets up the ray tracer.
pub struct RayTracerPlugin;

/// Whether the compute pipeline of the render node is ready.
#[derive(Clone, Copy, PartialEq, Eq, Debug)]
pub enum RayTraceState {
    Loading,
    Update,
}

/// The node waits while loading and starts updating once the pipeline is
/// ready; it never goes back.
pub fn next_state(state: RayTraceState, pipeline_ready: bool) -> (s: RayTraceState)
    ensures
        s == (if state == RayTraceState::Loading && !pipeline_ready {
            RayTraceState::Loading
        } else {
            RayTraceState::Update
        }),
{
    match state {
        RayTraceState::Loading => {
            if pipeline_ready {
                RayTraceState::Update
            } else {
                RayTraceState::Loading
            }
        },
        RayTraceState::Update => RayTraceState::Update,
    }
}

/// The workgroups the node dispatches: none while loading, and then one
/// per 16 by 18 pixel tile of the image.
pub fn workgroups(state: RayTraceState) -> (w: Option<(u32, u32, u32)>)
    ensures
        state == RayTraceState::Loading ==> w == None::<(u32, u32, u32)>,
        state == RayTraceState::Update ==> w == Some((120u32, 60u32, 1u32)),
{
    match state {
        RayTraceState::Loading => None,
        RayTraceState::Update => Some(((RESWIDTH / 16) as u32, (RESHIGHT / 18) as u32, 1)),
    }
}

} // verus!
