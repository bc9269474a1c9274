use dwemer_poolrooms::chrome::checkbox::LabelSide;
use dwemer_poolrooms::chrome::corner_close::{CornerClose, HEADROOM};
use dwemer_poolrooms::chrome::mechanism::MechanismSize;
use dwemer_poolrooms::chrome::monoglyph::{Monoglyph, MonoglyphFinish};
use dwemer_poolrooms::chrome::rail::{default_detents, DEFAULT_DETENTS};

#[test]
fn mechanism_gauges_run_small_to_large() {
    assert_eq!(MechanismSize::Small.side(), 20);
    assert_eq!(MechanismSize::Medium.side(), 24);
    assert_eq!(MechanismSize::Large.side(), 32);
    assert_eq!(MechanismSize::Small.atlas_index(), 0);
    assert_eq!(MechanismSize::Medium.atlas_index(), 1);
    assert_eq!(MechanismSize::Large.atlas_index(), 2);
    assert_eq!(MechanismSize::default(), MechanismSize::Large);
}

#[test]
fn monoglyph_defaults_to_a_large_focusable_bright_cut() {
    let m = Monoglyph::new('+');
    assert_eq!(m.glyph(), '+');
    assert_eq!(m.gauge(), MechanismSize::Large);
    assert_eq!(m.mark_finish(), MonoglyphFinish::BrightCut);
    assert!(m.takes_focus());
}

#[test]
fn monoglyph_builders_touch_only_their_setting() {
    let m = Monoglyph::new('x')
        .size(MechanismSize::Small)
        .finish(MonoglyphFinish::Danger)
        .focusable(false);
    assert_eq!(m.glyph(), 'x');
    assert_eq!(m.gauge(), MechanismSize::Small);
    assert_eq!(m.mark_finish(), MonoglyphFinish::Danger);
    assert!(!m.takes_focus());
    let n = Monoglyph::new('x')
        .focusable(false)
        .finish(MonoglyphFinish::Danger)
        .size(MechanismSize::Small);
    assert_eq!(m, n);
}

#[test]
fn monoglyph_finish_names_are_stable() {
    let names: Vec<&str> = MonoglyphFinish::ALL.iter().map(|f| f.name()).collect();
    assert_eq!(names, vec!["BRIGHT CUT", "VOID", "DANGER", "LOVE"]);
    assert_eq!(MonoglyphFinish::default(), MonoglyphFinish::BrightCut);
    assert!(!MonoglyphFinish::BrightCut.flat_cut());
    assert!(MonoglyphFinish::Void.flat_cut());
    assert!(MonoglyphFinish::Love.flat_cut());
}

#[test]
fn corner_close_defaults_to_the_large_gauge() {
    assert_eq!(CornerClose::new().gauge(), MechanismSize::Large);
    assert_eq!(CornerClose::default(), CornerClose::new());
    assert_eq!(
        CornerClose::new().size(MechanismSize::Medium).gauge(),
        MechanismSize::Medium
    );
}

#[test]
fn label_plaque_defaults_to_the_right() {
    assert_eq!(LabelSide::default(), LabelSide::Right);
    assert_ne!(LabelSide::Left, LabelSide::Right);
}

use dwemer_poolrooms::chrome::forge::{close_crown_cells, guard_wire_stations, WheelPlane};

#[test]
fn guard_lattices_drop_wires_on_compact_gauges() {
    assert_eq!(guard_wire_stations(MechanismSize::Small.side()), vec![-35, 35]);
    assert_eq!(guard_wire_stations(MechanismSize::Medium.side()), vec![-70, 0, 70]);
    assert_eq!(guard_wire_stations(MechanismSize::Large.side()), vec![-105, -35, 35, 105]);
    for size in [MechanismSize::Small, MechanismSize::Medium, MechanismSize::Large] {
        assert_eq!(guard_wire_stations(size.side()).len(), size.atlas_index() + 2);
    }
    assert_eq!(guard_wire_stations(22).len(), 2);
    assert_eq!(guard_wire_stations(23).len(), 3);
    assert_eq!(guard_wire_stations(28).len(), 3);
    assert_eq!(guard_wire_stations(29).len(), 4);
}

#[test]
fn close_die_crown_cells_scale_with_the_gauge() {
    assert_eq!(close_crown_cells(20), 25);
    assert_eq!(close_crown_cells(24), 30);
    assert_eq!(close_crown_cells(32), 40);
}

#[test]
fn wheel_planes_are_named_in_atlas_order() {
    let names: Vec<&str> = WheelPlane::ALL.iter().map(|p| p.name()).collect();
    assert_eq!(names, vec!["XZ", "YZ"]);
}

#[test]
fn small_integral_rails_detent_every_integer() {
    assert_eq!(default_detents(0, 10), 11);
    assert_eq!(default_detents(0, 5), 6);
    assert_eq!(default_detents(0, 1), 2);
    assert_eq!(default_detents(100, 123), 24);
    assert_eq!(default_detents(0, 24), DEFAULT_DETENTS);
    assert_eq!(default_detents(3, 3), DEFAULT_DETENTS);
    assert_eq!(default_detents(5, 2), DEFAULT_DETENTS);
    assert_eq!(default_detents(0, u16::MAX), DEFAULT_DETENTS);
}

#[test]
fn a_monoglyph_is_its_settings() {
    let plain = Monoglyph::new('x');
    let rebuilt = Monoglyph::new('x')
        .size(MechanismSize::Large)
        .finish(MonoglyphFinish::BrightCut)
        .focusable(true);
    assert_eq!(plain, rebuilt);
    assert_ne!(plain, Monoglyph::new('y'));
    let twice = plain
        .finish(MonoglyphFinish::Danger)
        .finish(MonoglyphFinish::BrightCut);
    assert_eq!(twice, plain);
}

#[test]
fn the_last_corner_close_gauge_wins() {
    let c = CornerClose::new().size(MechanismSize::Small).size(MechanismSize::Large);
    assert_eq!(c, CornerClose::new());
    assert_eq!(CornerClose::new().size(MechanismSize::Small).gauge(), MechanismSize::Small);
}

#[test]
fn headroom_is_half_the_gauge() {
    assert_eq!(CornerClose::new().headroom(), HEADROOM);
    assert_eq!(f32::from(HEADROOM), f32::from(MechanismSize::Large.side()) * 0.5);
    assert_eq!(f32::from(CornerClose::new().size(MechanismSize::Small).headroom()), 10.0);
    assert_eq!(CornerClose::new().size(MechanismSize::Medium).headroom(), 12);
}

#[test]
fn the_closure_intrudes_past_thin_margins_only() {
    let c = CornerClose::new();
    assert_eq!(c.pane_intrusion(8, 6), (8, 10));
    assert_eq!(c.pane_intrusion(20, 16), (0, 0));
    assert_eq!(c.pane_intrusion(-4, i8::MIN), (20, 144));
    let small = c.size(MechanismSize::Small);
    assert_eq!(small.pane_intrusion(10, 9), (0, 1));
}
