use dwemer_poolrooms::water::guard::{
    Fault, FaultKind, MapPoll, Probe, Readback, Sentinel, Verdict, PERIOD_NANOS,
};

fn field(rb: &Readback) -> Vec<u8> {
    vec![0_u8; rb.buffer_size() as usize]
}

fn write(rb: &Readback, bytes: &mut [u8], x: u32, y: u32, channel: u32, value: f32) {
    let at = (y * rb.pitch() + x * 8 + channel * 4) as usize;
    bytes[at..at + 4].copy_from_slice(&value.to_le_bytes());
}

#[test]
fn readback_rows_are_padded_to_the_copy_alignment() {
    let rb = Readback::new(37, 29);
    assert_eq!(rb.pitch(), 512);
    assert_eq!(rb.buffer_size(), 512 * 29);
    let rb = Readback::new(64, 32);
    assert_eq!(rb.pitch(), 512);
    let rb = Readback::new(1, 3);
    assert_eq!(rb.pitch(), 256);
    assert_eq!(rb.buffer_size(), 768);
}

#[test]
fn a_quiet_field_passes() {
    let rb = Readback::new(64, 32);
    let mut bytes = field(&rb);
    write(&rb, &mut bytes, 3, 4, 0, 46.5);
    write(&rb, &mut bytes, 3, 4, 1, -1400.0);
    assert_eq!(rb.fault(&bytes), None);
}

#[test]
fn a_poisoned_cell_is_reported_where_it_lies() {
    let rb = Readback::new(64, 32);
    let mut bytes = field(&rb);
    write(&rb, &mut bytes, 37, 29, 0, f32::NAN);
    let fault = rb.fault(&bytes).unwrap();
    assert_eq!(fault.kind, FaultKind::Nonfinite);
    assert_eq!((fault.x, fault.y, fault.channel), (37, 29, 0));
    assert_eq!(fault.bits, f32::NAN.to_bits());
}

#[test]
fn infinite_velocity_is_nonfinite() {
    let rb = Readback::new(8, 8);
    let mut bytes = field(&rb);
    write(&rb, &mut bytes, 2, 5, 1, f32::NEG_INFINITY);
    let fault = rb.fault(&bytes).unwrap();
    assert_eq!(fault.kind, FaultKind::Nonfinite);
    assert_eq!((fault.x, fault.y, fault.channel), (2, 5, 1));
}

#[test]
fn oversize_samples_are_judged_by_magnitude_per_channel() {
    let rb = Readback::new(8, 8);
    let mut bytes = field(&rb);
    write(&rb, &mut bytes, 1, 1, 0, 96.0);
    write(&rb, &mut bytes, 1, 1, 1, 2880.0);
    assert_eq!(rb.fault(&bytes), None);
    write(&rb, &mut bytes, 6, 2, 0, -96.5);
    let fault = rb.fault(&bytes).unwrap();
    assert_eq!(fault.kind, FaultKind::Oversize);
    assert_eq!((fault.x, fault.y, fault.channel), (6, 2, 0));
    assert_eq!(f32::from_bits(fault.magnitude_bits()), 96.5);
}

#[test]
fn the_earliest_fault_in_scan_order_wins() {
    let rb = Readback::new(8, 8);
    let mut bytes = field(&rb);
    write(&rb, &mut bytes, 7, 3, 0, f32::INFINITY);
    write(&rb, &mut bytes, 0, 4, 1, 5000.0);
    write(&rb, &mut bytes, 6, 3, 1, 3000.0);
    let fault = rb.fault(&bytes).unwrap();
    assert_eq!(fault.kind, FaultKind::Oversize);
    assert_eq!((fault.x, fault.y, fault.channel), (6, 3, 1));
}

#[test]
fn a_railed_flood_trips_after_the_saturation_limit() {
    let rb = Readback::new(64, 32);
    assert_eq!(rb.saturation_limit(), 512);
    let mut bytes = field(&rb);
    for texel in 0..512 {
        write(&rb, &mut bytes, texel % 64, texel / 64, 0, 50.0);
    }
    assert_eq!(rb.fault(&bytes), None);
    write(&rb, &mut bytes, 0, 8, 1, -1410.0);
    let fault = rb.fault(&bytes).unwrap();
    assert_eq!(fault.kind, FaultKind::Saturated { saturated: 513 });
    assert_eq!((fault.x, fault.y, fault.channel), (0, 8, 1));
}

#[test]
fn the_saturation_limit_grows_with_the_field() {
    assert_eq!(Readback::new(640, 360).saturation_limit(), 1152);
    assert_eq!(Readback::new(10, 10).saturation_limit(), 512);
}

#[test]
fn a_sentinel_probes_once_per_period() {
    let mut s = Sentinel::new();
    assert!(s.encode(0));
    assert_eq!(s.next, Some(PERIOD_NANOS));
    assert!(!s.encode(1));
    assert_eq!(s.probe, Some(Probe::Copied { submitted: false }));
    assert!(!s.arm_mapping());
    assert!(!s.is_mapping());
    assert!(s.arm_mapping());
    assert!(s.is_mapping());
    assert_eq!(s.settle(MapPoll::Pending), Verdict::Quiet);
    assert!(s.is_mapping());
    assert_eq!(s.settle(MapPoll::Ready), Verdict::Inspect);
    assert_eq!(s.probe, None);
    assert!(!s.encode(PERIOD_NANOS - 1));
    assert!(s.encode(PERIOD_NANOS));
    assert_eq!(s.next, Some(2 * PERIOD_NANOS));
}

#[test]
fn failed_or_lost_readbacks_reset_the_field() {
    let mut s = Sentinel::new();
    assert!(s.encode(10));
    let _ = s.arm_mapping();
    let _ = s.arm_mapping();
    assert_eq!(s.settle(MapPoll::Failed), Verdict::Reset);
    assert_eq!(s.probe, None);
    assert!(s.encode(10 + PERIOD_NANOS));
    let _ = s.arm_mapping();
    let _ = s.arm_mapping();
    assert_eq!(s.settle(MapPoll::Lost), Verdict::Reset);
    assert_eq!(s.settle(MapPoll::Ready), Verdict::Quiet);
}

#[test]
fn a_disarmed_sentinel_forgets_its_probe_but_not_its_period() {
    let mut s = Sentinel::new();
    assert!(s.encode(5));
    s.disarm();
    assert_eq!(s.probe, None);
    assert!(!s.encode(6));
    assert!(s.encode(5 + PERIOD_NANOS));
}

#[test]
fn a_probe_at_the_end_of_time_has_no_next_period() {
    let mut s = Sentinel::new();
    assert!(s.encode(u64::MAX - 1));
    assert_eq!(s.next, None);
    s.disarm();
    assert!(s.encode(0));
}

#[test]
fn a_fault_exposes_its_raw_payload() {
    let fault = Fault { kind: FaultKind::Oversize, x: 1, y: 2, channel: 1, bits: (-3000.0_f32).to_bits() };
    assert_eq!(f32::from_bits(fault.magnitude_bits()), 3000.0);
}
