use jostle::lerp::{update_fixed, update_render, InterpolationState};

type Pos = (f32, f32);

/// A stand-in for the host: a transform with a change tick that bumps on every
/// write, a fixed clock of one second per step, and the render loop.
struct Host {
    state: InterpolationState<Pos>,
    transform: Pos,
    last_changed: u32,
    tick: u32,
    overstep: f32,
}

impl Host {
    fn spawn(position: Pos) -> Host {
        Host {
            state: InterpolationState::default(),
            transform: position,
            last_changed: 1,
            tick: 1,
            overstep: 0.0,
        }
    }

    fn next_tick(&mut self) -> u32 {
        self.tick += 1;
        self.tick
    }

    /// A write by the host itself (teleport, physics step).
    fn update_position(&mut self, position: Pos) {
        let tick = self.next_tick();
        self.transform = position;
        self.last_changed = tick;
    }

    fn fixed_first(&mut self) {
        let tick = self.next_tick();
        let mut transform = self.transform;
        if update_fixed(&mut self.state, &mut transform, self.last_changed) {
            self.transform = transform;
            self.last_changed = tick;
        }
    }

    fn advance(&mut self, secs: f32) {
        self.overstep += secs;
        while self.overstep >= 1.0 {
            self.overstep -= 1.0;
            self.fixed_first();
        }
    }

    fn run_fixed_update(&mut self) {
        self.advance(1.0);
    }

    fn run_render_update(&mut self, overstep: f32) {
        self.advance(overstep);
        let now = self.next_tick();
        let moved = match self.state {
            InterpolationState::Fixed { start } => self.transform != start,
            _ => false,
        };
        if let Some((start, end)) =
            update_render(&mut self.state, self.transform, moved, self.last_changed, now)
        {
            let a = self.overstep;
            self.transform = (start.0 + (end.0 - start.0) * a, start.1 + (end.1 - start.1) * a);
            self.last_changed = now;
        }
    }
}

fn close(a: Pos, b: Pos) -> bool {
    (a.0 - b.0).abs() < 1e-5 && (a.1 - b.1).abs() < 1e-5
}

#[test]
fn agent_inserted_fixed_update() {
    let mut host = Host::spawn((1.5, -2.0));
    host.run_fixed_update();

    assert!(close(host.transform, (1.5, -2.0)));
    match host.state {
        InterpolationState::Fixed { start } => assert!(close(start, (1.5, -2.0))),
        state => panic!("expected Fixed interpolation state, got {state:?}"),
    }
}

#[test]
fn lerp_agent_inserted_render_update() {
    let mut host = Host::spawn((1.5, -2.0));
    host.run_render_update(0.5);

    assert!(close(host.transform, (1.5, -2.0)));
    match host.state {
        InterpolationState::Idle => {}
        state => panic!("expected Fixed position, got {state:?}"),
    }
}

#[test]
fn fixed_update() {
    let mut host = Host::spawn((0.0, 0.0));
    host.run_fixed_update();
    host.update_position((1.0, 1.0));
    host.run_render_update(0.5);

    host.run_fixed_update();

    assert!(close(host.transform, (1.0, 1.0)));
    match host.state {
        InterpolationState::Fixed { start } => assert!(close(start, (1.0, 1.0))),
        state => panic!("expected Fixed position, got {state:?}"),
    }
}

#[test]
fn lerp_render_update() {
    let mut host = Host::spawn((0.0, 0.0));
    host.run_fixed_update();
    host.update_position((1.0, 1.0));

    host.run_render_update(0.5);

    assert!(close(host.transform, (0.5, 0.5)));
    match host.state {
        InterpolationState::Interpolated { start, end, change_tick } => {
            assert!(close(start, (0.0, 0.0)));
            assert!(close(end, (1.0, 1.0)));
            assert_eq!(change_tick, host.last_changed);
        }
        state => panic!("expected Interpolated interpolation state, got {state:?}"),
    }

    host.run_fixed_update();
    host.update_position((2.0, 2.0));

    host.run_render_update(0.0);

    assert!(close(host.transform, (1.5, 1.5)));
    match host.state {
        InterpolationState::Interpolated { start, end, change_tick } => {
            assert!(close(start, (1.0, 1.0)));
            assert!(close(end, (2.0, 2.0)));
            assert_eq!(change_tick, host.last_changed);
        }
        state => panic!("expected Interpolated interpolation state, got {state:?}"),
    }
}

#[test]
fn lerp_consecutive_render_updates() {
    let mut host = Host::spawn((0.0, 0.0));
    host.run_fixed_update();
    host.update_position((1.0, 1.0));

    host.run_render_update(0.3);
    host.run_render_update(0.4);

    assert!(close(host.transform, (0.7, 0.7)));
    match host.state {
        InterpolationState::Interpolated { start, end, change_tick } => {
            assert!(close(start, (0.0, 0.0)));
            assert!(close(end, (1.0, 1.0)));
            assert_eq!(change_tick, host.last_changed);
        }
        state => panic!("expected Fixed interpolation state, got {state:?}"),
    }
}

#[test]
fn transform_modified_fixed_update() {
    let mut host = Host::spawn((0.0, 0.0));
    host.run_fixed_update();
    host.update_position((1.0, 1.0));
    host.run_render_update(0.5);

    host.update_position((2.0, 2.0));

    host.run_fixed_update();

    assert!(close(host.transform, (2.0, 2.0)));
    match host.state {
        InterpolationState::Fixed { start } => assert!(close(start, (2.0, 2.0))),
        state => panic!("expected Fixed interpolation state, got {state:?}"),
    }
}

#[test]
fn lerp_transform_modified_render_update() {
    let mut host = Host::spawn((0.0, 0.0));
    host.run_fixed_update();
    host.update_position((1.0, 1.0));
    host.run_render_update(0.3);

    host.update_position((2.0, 2.0));

    host.run_render_update(0.4);

    assert!(close(host.transform, (2.0, 2.0)));
    match host.state {
        InterpolationState::Idle => {}
        state => panic!("expected None interpolation state, got {state:?}"),
    }
}

#[test]
fn lerp_transform_not_modified_render_update() {
    let mut host = Host::spawn((1.0, 1.0));
    let initial_transform_tick = host.last_changed;

    host.run_fixed_update();
    host.run_render_update(0.3);

    assert!(close(host.transform, (1.0, 1.0)));
    assert_eq!(host.last_changed, initial_transform_tick);
    match host.state {
        InterpolationState::Idle => {}
        state => panic!("expected None interpolation state, got {state:?}"),
    }
}

#[test]
fn interpolation_follows_render_frames() {
    let mut host = Host::spawn((0.0, 0.0));
    host.run_fixed_update();
    host.update_position((1.0, 1.0));

    host.run_render_update(0.5);
    assert!(close(host.transform, (0.5, 0.5)));
    host.run_render_update(0.2);
    assert!(close(host.transform, (0.7, 0.7)));

    host.run_fixed_update();
    assert!(close(host.transform, (1.0, 1.0)));
    match host.state {
        InterpolationState::Fixed { start } => assert!(close(start, (1.0, 1.0))),
        state => panic!("expected Fixed interpolation state, got {state:?}"),
    }
}

#[test]
fn teleport_between_ticks_cancels_interpolation() {
    let mut host = Host::spawn((0.0, 0.0));
    host.run_fixed_update();
    host.update_position((1.0, 1.0));
    host.run_render_update(0.5);

    host.update_position((5.0, 5.0));
    host.run_render_update(0.1);

    assert!(close(host.transform, (5.0, 5.0)));
    assert!(matches!(host.state, InterpolationState::Idle));
}

#[test]
fn fixed_step_after_host_write_keeps_host_position() {
    let mut state = InterpolationState::Interpolated { start: 0u8, end: 4u8, change_tick: 7 };
    let mut transform = 9u8;
    assert!(!update_fixed(&mut state, &mut transform, 8));
    assert_eq!(transform, 9);
    assert!(matches!(state, InterpolationState::Fixed { start: 9 }));

    let mut state = InterpolationState::Interpolated { start: 0u8, end: 4u8, change_tick: 7 };
    let mut transform = 2u8;
    assert!(update_fixed(&mut state, &mut transform, 7));
    assert_eq!(transform, 4);
    assert!(matches!(state, InterpolationState::Fixed { start: 4 }));
}

#[test]
fn render_without_movement_goes_idle() {
    let mut state = InterpolationState::Fixed { start: 3u8 };
    assert_eq!(update_render(&mut state, 3u8, false, 1, 2), None);
    assert!(matches!(state, InterpolationState::Idle));

    let mut state: InterpolationState<u8> = InterpolationState::Idle;
    assert_eq!(update_render(&mut state, 3u8, true, 1, 2), None);
    assert!(matches!(state, InterpolationState::Idle));
}
