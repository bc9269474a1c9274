use dwemer_poolrooms::water::machines::{
    drain_cell_grid, next_draw, Clockwork, EmptyDrain, Firing, RaftClock, DRAIN_CELLS, DRAIN_SEED,
    RAFT_PISTONS, RAFT_SEED,
};

const DRAIN_DRAWS: [u32; 14] = [
    12330873, 6521713, 13170160, 15126740, 7536735, 10837699, 3161560, 15236601, 3993934, 3160209,
    4871922, 8289396, 2500372, 8546488,
];

fn deadlines(drain: &EmptyDrain) -> Vec<u64> {
    (0..DRAIN_CELLS).map(|i| drain.deadline(i)).collect()
}

fn raft_deadlines(raft: &RaftClock) -> Vec<u64> {
    (0..RAFT_PISTONS).map(|i| raft.deadline(i)).collect()
}

fn short_wait(draw: u32) -> u64 {
    u64::from(draw % 1000 + 1)
}

#[test]
fn the_generator_is_xorshift_seven_nine_eight() {
    let mut rng = DRAIN_SEED;
    for expected in DRAIN_DRAWS {
        assert_eq!(next_draw(&mut rng), expected);
    }
    let mut raft = RAFT_SEED;
    let draws: Vec<u32> = (0..4).map(|_| next_draw(&mut raft)).collect();
    assert_eq!(draws, vec![10384375, 8136987, 16280318, 12479831]);
}

#[test]
fn draws_are_24_bit() {
    let mut rng = 0xffff_ffff_ffff_ffff_u64;
    for _ in 0..100 {
        assert!(next_draw(&mut rng) < 1 << 24);
        assert_ne!(rng, 0);
    }
}

#[test]
fn drain_cells_tile_three_by_two() {
    let grid: Vec<(usize, usize)> = (0..DRAIN_CELLS).map(drain_cell_grid).collect();
    assert_eq!(grid, vec![(0, 0), (1, 0), (2, 0), (0, 1), (1, 1), (2, 1)]);
}

#[test]
fn a_new_drain_arms_every_cell_in_order() {
    let drain = EmptyDrain::new(1_000, &short_wait);
    assert!(!drain.visible());
    let expected: Vec<u64> = DRAIN_DRAWS[..6].iter().map(|&d| 1_000 + short_wait(d)).collect();
    assert_eq!(deadlines(&drain), expected);
}

#[test]
fn a_shown_drain_fires_only_due_cells() {
    let mut drain = EmptyDrain::new(0, &short_wait);
    let due: Vec<u64> = deadlines(&drain);
    let now = 300;
    let pulses = drain.show(now, &short_wait);
    assert!(drain.visible());
    let fired: Vec<usize> = (0..DRAIN_CELLS).filter(|&i| due[i] <= now).collect();
    assert_eq!(pulses.iter().map(|p| p.slot).collect::<Vec<_>>(), fired);
    for (k, pulse) in pulses.iter().enumerate() {
        assert_eq!(pulse.draw, DRAIN_DRAWS[6 + 2 * k]);
        assert_eq!(deadlines(&drain)[pulse.slot], now + short_wait(DRAIN_DRAWS[7 + 2 * k]));
    }
    for i in 0..DRAIN_CELLS {
        if due[i] > now {
            assert_eq!(deadlines(&drain)[i], due[i]);
        }
    }
}

#[test]
fn concealing_a_visible_drain_rearms_every_cell() {
    let mut drain = EmptyDrain::new(0, &short_wait);
    let before = deadlines(&drain);
    drain.conceal(50, &short_wait);
    assert_eq!(deadlines(&drain), before);
    let _ = drain.show(0, &short_wait);
    drain.conceal(5_000, &short_wait);
    assert!(!drain.visible());
    let expected: Vec<u64> = DRAIN_DRAWS[6..12].iter().map(|&d| 5_000 + short_wait(d)).collect();
    assert_eq!(deadlines(&drain), expected);
}

#[test]
fn a_clockwork_fires_nothing_before_its_deadlines() {
    let mut clocks = Clockwork::armed(3, 1, 10, &|_| 7);
    assert_eq!(clocks.cells, vec![17, 17, 17]);
    assert_eq!(clocks.fire_due(16, &|_| 7), Vec::<Firing>::new());
    let fired = clocks.fire_due(17, &|_| 2);
    assert_eq!(fired.len(), 3);
    assert_eq!(clocks.cells, vec![19, 19, 19]);
}

#[test]
fn the_raft_clock_keeps_time_while_hidden() {
    let mut raft = RaftClock::new(0, &short_wait);
    assert!(!raft.visible());
    assert_eq!(raft_deadlines(&raft).len(), RAFT_PISTONS);
    raft.show();
    assert!(raft.visible());
    let cells = raft_deadlines(&raft);
    raft.conceal();
    assert!(!raft.visible());
    assert_eq!(raft_deadlines(&raft), cells);
}

#[test]
fn a_ticked_raft_fires_only_due_pistons() {
    let mut raft = RaftClock::new(0, &short_wait);
    let due = raft_deadlines(&raft);
    let now = 500;
    let fired = raft.tick(now, &short_wait);
    assert!(fired.len() <= RAFT_PISTONS);
    let expected: Vec<usize> = (0..RAFT_PISTONS).filter(|&i| due[i] <= now).collect();
    assert_eq!(fired.iter().map(|f| f.slot).collect::<Vec<_>>(), expected);
    for i in 0..RAFT_PISTONS {
        if due[i] <= now {
            assert!(raft.deadline(i) > now);
        } else {
            assert_eq!(raft.deadline(i), due[i]);
        }
    }
    assert!(!raft.visible());
}

#[test]
fn a_shown_drain_yields_at_most_six_pulses() {
    let mut drain = EmptyDrain::new(0, &short_wait);
    let pulses = drain.show(u64::MAX / 2, &short_wait);
    assert_eq!(pulses.len(), DRAIN_CELLS);
    let slots: Vec<usize> = pulses.iter().map(|p| p.slot).collect();
    assert_eq!(slots, (0..DRAIN_CELLS).collect::<Vec<_>>());
}
