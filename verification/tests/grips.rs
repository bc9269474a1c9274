use dwemer_poolrooms::water::engine::{LIFT_SLOTS, QUIVER_SLOTS};
use dwemer_poolrooms::water::grips::{
    grip_exceeds, hover_transition, max_grip, GripBank, PLATE_REST_BITS, QUIVER_REST_BITS,
    TOOLTIP_GRIP_BITS,
};

fn bits(x: f32) -> u32 {
    x.to_bits()
}

fn bank_of(grips: &[f32]) -> GripBank<usize> {
    let mut bank = GripBank::new();
    for (i, g) in grips.iter().enumerate() {
        bank.push(i as u64 + 1, bits(*g), i);
    }
    bank
}

fn payloads(bank: &GripBank<usize>) -> Vec<usize> {
    (0..bank.len()).map(|i| bank.get(i).payload).collect()
}

#[test]
fn rest_constants_hold_the_shipped_grips() {
    assert_eq!(f32::from_bits(PLATE_REST_BITS), 0.002);
    assert_eq!(f32::from_bits(QUIVER_REST_BITS), 0.012);
    assert_eq!(f32::from_bits(TOOLTIP_GRIP_BITS), 0.72);
}

#[test]
fn exceeds_is_the_ieee_greater_than() {
    let samples = [
        0.0_f32,
        -0.0,
        0.002,
        0.5,
        1.0,
        -1.0,
        -0.25,
        f32::INFINITY,
        f32::NEG_INFINITY,
        f32::NAN,
        f32::MIN_POSITIVE,
    ];
    for a in samples {
        for b in samples {
            assert_eq!(grip_exceeds(bits(a), bits(b)), a > b, "{a} > {b}");
        }
    }
}

#[test]
fn max_grip_yields_to_a_nan_and_keeps_the_larger() {
    assert_eq!(max_grip(bits(0.3), bits(0.7)), bits(0.7));
    assert_eq!(max_grip(bits(0.7), bits(0.3)), bits(0.7));
    assert_eq!(max_grip(bits(f32::NAN), bits(0.5)), bits(0.5));
    assert_eq!(max_grip(bits(0.5), bits(f32::NAN)), bits(0.5));
    assert_eq!(max_grip(bits(-0.0), bits(0.0)), bits(-0.0));
}

#[test]
fn merge_takes_the_stronger_grip_and_the_newest_payload() {
    let mut bank = bank_of(&[0.4, 0.9]);
    bank.merge(1, bits(0.6), 10);
    bank.merge(2, bits(0.1), 20);
    bank.merge(7, bits(0.3), 70);
    assert_eq!(bank.len(), 3);
    assert_eq!((bank.get(0).id, bank.get(0).grip, bank.get(0).payload), (1, bits(0.6), 10));
    assert_eq!((bank.get(1).id, bank.get(1).grip, bank.get(1).payload), (2, bits(0.9), 20));
    assert_eq!((bank.get(2).id, bank.get(2).grip, bank.get(2).payload), (7, bits(0.3), 70));
}

#[test]
fn hold_keeps_the_grip_of_a_known_plate_and_starts_a_new_one_empty() {
    let mut bank = bank_of(&[0.4]);
    bank.hold(1, 5);
    bank.hold(9, 6);
    assert_eq!((bank.get(0).grip, bank.get(0).payload), (bits(0.4), 5));
    assert_eq!((bank.get(1).id, bank.get(1).grip, bank.get(1).payload), (9, 0, 6));
    assert_eq!(bank.find(9), Some(1));
    assert_eq!(bank.find(4), None);
}

#[test]
fn equal_grips_keep_their_arrival_order() {
    let mut bank = bank_of(&[0.2, 0.9, 0.2, 0.5, 0.9]);
    bank.sort_strongest_first();
    assert_eq!(payloads(&bank), vec![1, 4, 3, 0, 2]);
    for i in 1..bank.len() {
        assert!(f32::from_bits(bank.get(i - 1).grip) >= f32::from_bits(bank.get(i).grip));
    }
}

#[test]
fn settled_plates_leave_unless_hovered() {
    let mut bank = bank_of(&[0.5, 0.001, 0.0, 0.3]);
    bank.settle_plates(Some(3));
    assert_eq!(payloads(&bank), vec![0, 2, 3]);
}

#[test]
fn plates_past_the_table_keep_only_the_strongest() {
    let mut bank = bank_of(&[0.1, 0.8, 0.3, 0.9, 0.5, 0.2]);
    bank.settle_plates(None);
    assert_eq!(bank.len(), LIFT_SLOTS);
    assert_eq!(payloads(&bank), vec![3, 1, 4, 2]);
}

#[test]
fn plates_within_the_table_keep_their_order() {
    let mut bank = bank_of(&[0.1, 0.8, 0.3]);
    bank.settle_plates(None);
    assert_eq!(payloads(&bank), vec![0, 1, 2]);
}

#[test]
fn dying_quivers_are_retired_and_the_strongest_reach_the_table() {
    let mut bank = bank_of(&[0.01, 0.4, 0.9, 0.012, 0.3, 0.7, 0.6]);
    let live = bank.gather_quivers();
    assert_eq!(payloads(&bank), vec![2, 5, 6, 1, 4]);
    assert_eq!(live.len(), QUIVER_SLOTS);
    let ids: Vec<usize> = live.iter().map(|g| g.payload).collect();
    assert_eq!(ids, vec![2, 5, 6, 1]);
}

#[test]
fn a_tooltip_takes_one_lift_slot() {
    let bank = bank_of(&[0.0, 0.2, 0.6, 0.4, 0.9, 0.1]);
    let lifts = bank.surface_lifts(2);
    let ids: Vec<usize> = lifts.iter().map(|g| g.payload).collect();
    assert_eq!(ids, vec![4, 2, 3]);
    let all = bank.surface_lifts(0);
    assert_eq!(all.len(), LIFT_SLOTS);
    assert_eq!(bank.len(), 6);
}

#[test]
fn truncate_keeps_the_first_entries() {
    let mut bank = bank_of(&[0.1, 0.2, 0.3]);
    bank.truncate(5);
    assert_eq!(bank.len(), 3);
    bank.truncate(2);
    assert_eq!(payloads(&bank), vec![0, 1]);
}

#[test]
fn hover_changes_strike_the_left_and_the_entered_plates() {
    assert_eq!(hover_transition(Some(1), Some(1)), (false, false));
    assert_eq!(hover_transition(None, None), (false, false));
    assert_eq!(hover_transition(Some(2), Some(1)), (true, true));
    assert_eq!(hover_transition(None, Some(1)), (true, false));
    assert_eq!(hover_transition(Some(2), None), (false, true));
}

#[test]
fn reports_never_duplicate_an_identity() {
    let mut bank: GripBank<usize> = GripBank::new();
    for round in 0..3 {
        for id in [4_u64, 9, 4, 2, 9] {
            bank.merge(id, bits(0.25 * (round + 1) as f32), round);
            bank.hold(id, round);
        }
    }
    let ids: Vec<u64> = (0..bank.len()).map(|i| bank.get(i).id).collect();
    assert_eq!(ids, vec![4, 9, 2]);
    assert_eq!(bank.get(0).grip, bits(0.75));
}
