use dwemer_poolrooms::water::engine::{BasinClock, LIFT_SLOTS, SPLASH_SLOTS, TOUCH_SLOTS};
use dwemer_poolrooms::water::surface::{
    advance_generation, lift_slots, Forcing, FrameTally, SplashBank, SurfaceId, SurfaceIds,
    TouchBank, Wake, Wetness, QUIVER_WAKE_NANOS, WATER_WAKE_NANOS,
};

const WET_WAVE: f32 = 1.25;

#[test]
fn arbitrary_pokes_hide_shader_capacity() {
    let mut plunges: SplashBank<f32> = SplashBank::new();
    for i in 0..(SPLASH_SLOTS * 3) {
        let amp = (i as f32 + 1.0) * WET_WAVE;
        let _kept = plunges.poke(amp.to_bits(), amp);
    }
    assert_eq!(plunges.len(), SPLASH_SLOTS);
    assert!((0..plunges.len()).all(|i| plunges.get(i).1 >= (SPLASH_SLOTS * 2) as f32));
}

#[test]
fn negligible_pokes_are_dropped() {
    let mut bank: SplashBank<u8> = SplashBank::new();
    assert!(!bank.poke(0.0_f32.to_bits(), 1));
    assert!(!bank.poke(f32::EPSILON.to_bits(), 2));
    assert!(!bank.poke((-f32::EPSILON).to_bits(), 3));
    assert_eq!(bank.len(), 0);
    assert!(bank.poke((-0.5_f32).to_bits(), 4));
    assert_eq!(bank.len(), 1);
    assert_eq!(bank.get(0), (0.5_f32.to_bits(), 4));
}

#[test]
fn a_full_bank_displaces_its_first_weakest_splash() {
    let mut bank: SplashBank<usize> = SplashBank::new();
    for i in 0..SPLASH_SLOTS {
        let amp = if i == 5 || i == 9 { 0.25_f32 } else { 3.0 };
        assert!(bank.poke(amp.to_bits(), i));
    }
    assert!(bank.poke((-2.0_f32).to_bits(), 100));
    assert_eq!(bank.len(), SPLASH_SLOTS);
    let held: Vec<usize> = (0..bank.len()).map(|i| bank.get(i).1).collect();
    assert!(!held.contains(&5));
    assert!(held.contains(&9));
    assert_eq!(held[SPLASH_SLOTS - 1], 100);
}

#[test]
fn aged_splashes_are_retired_in_order() {
    let mut bank: SplashBank<u8> = SplashBank::new();
    for i in 1..=4_u8 {
        assert!(bank.poke(f32::from(i).to_bits(), i));
    }
    bank.retain_flagged(&[true, false, true, false]);
    assert_eq!(bank.len(), 2);
    assert_eq!(bank.get(0).1, 1);
    assert_eq!(bank.get(1).1, 3);
}

#[test]
fn touches_keep_the_newest_twelve() {
    let mut touches: TouchBank<u32> = TouchBank::new();
    for i in 0..20 {
        touches.touch(i);
    }
    assert_eq!(touches.len(), TOUCH_SLOTS);
    let held: Vec<u32> = (0..touches.len()).map(|i| touches.get(i)).collect();
    assert_eq!(held, (8..20).collect::<Vec<u32>>());
    touches.retain_flagged(&[false; TOUCH_SLOTS]);
    assert_eq!(touches.len(), 0);
    touches.touch(1);
    touches.clear();
    assert_eq!(touches.len(), 0);
}

#[test]
fn surface_identities_are_minted_in_order() {
    let mut ids = SurfaceIds::new();
    let a = SurfaceId::mint(&mut ids);
    let b = SurfaceId::mint(&mut ids);
    assert_eq!(a, SurfaceId(1));
    assert_eq!(b, SurfaceId(2));
    assert_ne!(a, b);
    let mut edge = SurfaceIds { next: u64::MAX };
    assert_eq!(SurfaceId::mint(&mut edge), SurfaceId(u64::MAX));
    assert_eq!(edge.next, 0);
}

#[test]
fn a_reset_always_moves_the_generation() {
    assert_eq!(advance_generation(0), 1);
    assert_eq!(advance_generation(u64::MAX), 0);
}

#[test]
fn surfaces_are_wet_by_default() {
    assert_eq!(Wetness::default(), Wetness::Wet);
    assert!(Wetness::Dry.dry());
    assert!(!Wetness::Wet.dry());
    assert!(!Wetness::Deluge.dry());
}

#[test]
fn one_tooltip_at_most_rides_the_water() {
    assert_eq!(lift_slots(0), (LIFT_SLOTS, 0));
    assert_eq!(lift_slots(1), (LIFT_SLOTS - 1, 1));
    assert_eq!(lift_slots(5), (LIFT_SLOTS - 1, 1));
}

#[test]
fn the_solver_runs_only_for_wet_forced_frames() {
    let quiet = FrameTally { dry: false, tensions: 0, lifts: 0, splashes: 0, raft: false, wake: false };
    assert!(quiet.live());
    assert!(!quiet.sim_live());
    assert!(FrameTally { splashes: 1, ..quiet }.sim_live());
    assert!(FrameTally { wake: true, ..quiet }.sim_live());
    assert!(FrameTally { raft: true, ..quiet }.sim_live());
    let dry = FrameTally { dry: true, tensions: 3, ..quiet };
    assert!(!dry.live());
    assert!(!dry.sim_live());
}

#[test]
fn a_reset_clears_the_basin_on_its_next_reconciliation() {
    for generation in [0_u64, 7, u64::MAX] {
        let mut basin = BasinClock::new(generation);
        let _read = basin.step();
        assert!(basin.reconcile(advance_generation(generation)));
        assert_eq!(basin.phase, 0);
        assert_eq!(basin.generation, advance_generation(generation));
    }
}

const SECOND: u64 = 1_000_000_000;

#[test]
fn a_kept_poke_keeps_the_water_awake_for_fourteen_seconds() {
    let mut forcing: Forcing<u8, u8> = Forcing::new();
    assert!(!forcing.poke(0.0_f32.to_bits(), 1, 5 * SECOND));
    assert_eq!(forcing.wake, Wake::new());
    assert!(forcing.poke(0.5_f32.to_bits(), 2, 5 * SECOND));
    assert_eq!(forcing.wake.water_until, Some(5 * SECOND + WATER_WAKE_NANOS));
    assert_eq!(WATER_WAKE_NANOS, 14 * SECOND);
    let mut wake = forcing.wake;
    assert!(wake.frame(18 * SECOND, false));
    assert!(!wake.frame(19 * SECOND, false));
    assert_eq!(wake, Wake::new());
    assert!(!wake.frame(40 * SECOND, false));
}

#[test]
fn a_touch_keeps_the_water_awake() {
    let mut forcing: Forcing<u8, u8> = Forcing::new();
    forcing.touch(3, 2 * SECOND);
    assert_eq!(forcing.touches.len(), 1);
    assert_eq!(forcing.wake.water_until, Some(16 * SECOND));
    forcing.reset();
    assert_eq!(forcing.wake, Wake::new());
    assert_eq!(forcing.touches.len(), 0);
    assert_eq!(forcing.plunges.len(), 0);
}

#[test]
fn tensions_keep_the_water_awake_for_eight_seconds() {
    let mut wake = Wake::new();
    assert!(wake.frame(SECOND, true));
    assert_eq!(wake.quiver_until, Some(SECOND + QUIVER_WAKE_NANOS));
    assert_eq!(QUIVER_WAKE_NANOS, 8 * SECOND);
    assert!(wake.frame(8 * SECOND, false));
    assert!(!wake.frame(9 * SECOND, false));
    assert_eq!(wake.quiver_until, None);
}

#[test]
fn minted_identities_count_up_from_one() {
    let mut ids = SurfaceIds::new();
    let minted: Vec<u64> = (0..5).map(|_| SurfaceId::mint(&mut ids).0).collect();
    assert_eq!(minted, vec![1, 2, 3, 4, 5]);
}

#[test]
fn repaints_follow_the_latest_forcing_and_tensions() {
    let mut forcing: Forcing<u8, u8> = Forcing::new();
    assert!(forcing.poke(1.0_f32.to_bits(), 1, 0));
    let mut wake = forcing.wake;
    assert!(wake.frame(5 * SECOND, false));
    assert!(wake.frame(10 * SECOND, true));
    assert!(wake.frame(17 * SECOND, false));
    assert!(!wake.frame(18 * SECOND, false));
    assert_eq!(wake, Wake::new());
}
