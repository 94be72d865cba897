use vstd::prelude::*;

verus! {

/// Where an agent's transform stands between fixed physics steps and render
/// frames. `P` is the host's position type; `change_tick` is the host's
/// change tick of the transform when this machine last wrote it.
#[derive(Clone, Copy, Debug)]
pub enum InterpolationState<P> {
    /// The transform is the physical position; nothing is interpolated.
    Idle,
    /// Inside a fixed step: the transform was the physical position `start`
    /// when the step began.
    Fixed { start: P },
    /// The transform shows a point between the physical positions `start` and
    /// `end` of the last step.
    Interpolated { start: P, end: P, change_tick: u32 },
}

impl<P> Default for InterpolationState<P> {
    fn default() -> (r: Self)
        ensures
            r is Idle,
    {
        InterpolationState::Idle
    }
}

/// The fixed-step transition: the new state and the transform to keep.
/// An interpolated transform that nobody else wrote since is restored to the
/// end of the last step; any other transform is taken as it is.
pub open spec fn fixed_step<P>(state: InterpolationState<P>, transform: P, last_changed: u32) -> (
    InterpolationState<P>,
    P,
) {
    match state {
        InterpolationState::Interpolated { end, change_tick, .. } => {
            if last_changed == change_tick {
                (InterpolationState::Fixed { start: end }, end)
            } else {
                (InterpolationState::Fixed { start: transform }, transform)
            }
        },
        _ => (InterpolationState::Fixed { start: transform }, transform),
    }
}

/// The render-frame transition: the new state and the segment whose point at
/// the overstep fraction the transform is to show, if any. `moved` tells
/// whether the transform differs from the start of a fixed step.
pub open spec fn render_step<P>(
    state: InterpolationState<P>,
    transform: P,
    moved: bool,
    last_changed: u32,
    now: u32,
) -> (InterpolationState<P>, Option<(P, P)>) {
    match state {
        InterpolationState::Fixed { start } => {
            if moved {
                (
                    InterpolationState::Interpolated { start, end: transform, change_tick: now },
                    Some((start, transform)),
                )
            } else {
                (InterpolationState::Idle, None)
            }
        },
        InterpolationState::Interpolated { start, end, change_tick } => {
            if last_changed == change_tick {
                (
                    InterpolationState::Interpolated { start, end, change_tick: now },
                    Some((start, end)),
                )
            } else {
                (InterpolationState::Idle, None)
            }
        },
        InterpolationState::Idle => (InterpolationState::Idle, None),
    }
}

/// At the start of a fixed step: restores the physical position where the
/// transform still shows this machine's interpolation (`last_changed` is the
/// transform's change tick), and records the position the step starts from.
/// Returns whether the transform was written.
pub fn update_fixed<P: Copy>(state: &mut InterpolationState<P>, transform: &mut P, last_changed: u32) -> (r: bool)
    ensures
        (*final(state), *final(transform)) == fixed_step(*old(state), *old(transform), last_changed),
        r == (*old(state) matches InterpolationState::Interpolated { change_tick, .. }
            && change_tick == last_changed),
{
    let mut restored = false;
    match *state {
        InterpolationState::Interpolated { end, change_tick, .. } => {
            if last_changed == change_tick {
                *transform = end;
                restored = true;
            }
        },
        _ => {},
    }
    *state = InterpolationState::Fixed { start: *transform };
    restored
}

/// At a render frame: decides which segment the transform is to show. It
/// returns the segment to interpolate at the overstep fraction, or `None`
/// where the transform is to stay as it is. `now` is the tick at which the
/// caller writes the transform.
pub fn update_render<P: Copy>(
    state: &mut InterpolationState<P>,
    transform: P,
    moved: bool,
    last_changed: u32,
    now: u32,
) -> (r: Option<(P, P)>)
    ensures
        (*final(state), r) == render_step(*old(state), transform, moved, last_changed, now),
{
    let segment = match *state {
        InterpolationState::Fixed { start } => {
            if moved {
                Some((start, transform))
            } else {
                None
            }
        },
        InterpolationState::Interpolated { start, end, change_tick } => {
            if last_changed == change_tick {
                Some((start, end))
            } else {
                None
            }
        },
        InterpolationState::Idle => None,
    };
    match segment {
        Some((start, end)) => {
            *state = InterpolationState::Interpolated { start, end, change_tick: now };
        },
        None => {
            *state = InterpolationState::Idle;
        },
    }
    segment
}

/// A transform written by the host after this machine interpolated it ends the
/// interpolation at the next render frame, and the transform is left as the
/// host wrote it.
pub proof fn lemma_host_write_cancels_interpolation<P>(
    start: P,
    end: P,
    change_tick: u32,
    transform: P,
    moved: bool,
    last_changed: u32,
    now: u32,
)
    requires
        last_changed != change_tick,
    ensures
        render_step(
            InterpolationState::Interpolated { start, end, change_tick },
            transform,
            moved,
            last_changed,
            now,
        ) == (InterpolationState::<P>::Idle, Option::<(P, P)>::None),
{
}

} // verus!
