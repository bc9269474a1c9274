use dwemer_poolrooms::water::engine::{
    blur_chain, field_extent, viewport_extent, workgroups, BasinClock, BasinState, Basins,
    LiftDepth, SplashShape, SIM_STEPS,
};
use dwemer_poolrooms::water::guard::{Probe, Sentinel};

#[test]
fn water_field_is_half_resolution_rounded_up() {
    assert_eq!(field_extent(640, 360), (640_u32.div_ceil(2), 360_u32.div_ceil(2)));
    assert_eq!(field_extent(641, 1), (321, 1));
    assert_eq!(field_extent(0, 0), (1, 1));
}

#[test]
fn solver_dispatch_covers_the_field() {
    assert_eq!(workgroups(320, 180), (40, 23));
    assert_eq!(workgroups(1, 8), (1, 1));
    assert_eq!(workgroups(0, 9), (0, 2));
}

#[test]
fn blur_chain_halves_each_level_but_never_vanishes() {
    assert_eq!(blur_chain(640, 360), vec![(320, 180), (160, 90), (80, 45)]);
    assert_eq!(blur_chain(3, 1), vec![(1, 1), (1, 1), (1, 1)]);
}

#[test]
fn an_empty_viewport_renders_nothing() {
    assert_eq!(viewport_extent(0, 10), None);
    assert_eq!(viewport_extent(10, 0), None);
    assert_eq!(viewport_extent(10, 20), Some((10, 20)));
}

#[test]
fn a_live_frame_steps_in_pairs() {
    let mut clock = BasinClock::new(7);
    assert_eq!(clock.advance(true), vec![0, 1, 0, 1]);
    assert_eq!(clock.phase, 0);
    assert_eq!(SIM_STEPS, 4);
    assert_eq!(clock.step(), 0);
    assert_eq!(clock.phase, 1);
    assert_eq!(clock.advance(true), vec![1, 0, 1, 0]);
    assert_eq!(clock.advance(false), Vec::<usize>::new());
    assert_eq!(clock.phase, 1);
}

#[test]
fn a_new_generation_clears_the_basin_once() {
    let mut clock = BasinClock::new(3);
    let _ = clock.step();
    assert!(!clock.reconcile(3));
    assert_eq!(clock.phase, 1);
    assert!(clock.reconcile(4));
    assert_eq!(clock, BasinClock { phase: 0, generation: 4 });
    assert!(!clock.reconcile(4));
}

#[test]
fn splash_shapes_have_distinct_codes() {
    assert_eq!(SplashShape::Ring.code(), 0);
    assert_eq!(SplashShape::Basin.code(), 1);
    assert_eq!(SplashShape::Jitter.code(), 2);
    assert_eq!(SplashShape::default(), SplashShape::Ring);
    assert_ne!(LiftDepth::Surface, LiftDepth::Shallow);
}

fn probing(state: BasinState) -> BasinState {
    let mut sentinel = state.sentinel;
    assert!(sentinel.encode(10));
    BasinState { clock: state.clock, sentinel }
}

#[test]
fn a_new_surface_gets_a_fresh_basin() {
    let mut basins = Basins::new();
    assert!(!basins.ensure(&[], 7, 3));
    assert_eq!(basins.len(), 1);
    let (id, state) = basins.get(0);
    assert_eq!(id, 7);
    assert_eq!(state.clock, BasinClock::new(3));
    assert_eq!(state.sentinel, Sentinel::new());
}

#[test]
fn a_reset_surface_clears_only_its_own_basin() {
    let mut basins = Basins::new();
    assert!(!basins.ensure(&[], 1, 0));
    assert!(!basins.ensure(&[true], 2, 0));
    for i in 0..2 {
        let (_, state) = basins.get(i);
        basins.set(i, probing(state));
    }
    let mut stepped = basins.get(0).1;
    let _read = stepped.clock.step();
    basins.set(0, stepped);
    assert!(basins.ensure(&[true, true], 1, 1));
    let (id, first) = basins.get(0);
    assert_eq!(id, 1);
    assert_eq!(first.clock, BasinClock::new(1));
    assert_eq!(first.sentinel.probe, None);
    assert_eq!(first.sentinel.next, stepped.sentinel.next);
    let (_, second) = basins.get(1);
    assert_eq!(second.sentinel.probe, Some(Probe::Copied { submitted: false }));
    assert!(!basins.ensure(&[true, true], 1, 1));
}

#[test]
fn basins_of_dropped_surfaces_are_released() {
    let mut basins = Basins::new();
    assert!(!basins.ensure(&[], 1, 0));
    assert!(!basins.ensure(&[true], 2, 0));
    assert!(!basins.ensure(&[true, true], 3, 0));
    assert!(!basins.ensure(&[false, true, true], 2, 0));
    assert_eq!(basins.len(), 2);
    assert_eq!(basins.get(0).0, 2);
    assert_eq!(basins.get(1).0, 3);
    assert_eq!(basins.find(1), None);
    assert_eq!(basins.find(3), Some(1));
}

#[test]
fn becalming_drops_every_probe() {
    let mut basins = Basins::new();
    assert!(!basins.ensure(&[], 1, 0));
    assert!(!basins.ensure(&[true], 2, 0));
    for i in 0..2 {
        let (_, state) = basins.get(i);
        basins.set(i, probing(state));
    }
    basins.becalm();
    for i in 0..2 {
        assert_eq!(basins.get(i).1.sentinel.probe, None);
        assert_eq!(basins.get(i).1.clock, BasinClock::new(0));
    }
}

#[test]
fn water_allocates_half_resolution_field() {
    const W: u32 = 640;
    const H: u32 = 360;
    assert_eq!(field_extent(W, H), (W.div_ceil(2), H.div_ceil(2)));
}
