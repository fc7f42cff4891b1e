use microduck::chorale::beat::{Conductor, Follower, Position, WINDOW};
use microduck::chorale::score::Tempo;

/// A deterministic stand-in for the advertising slot: a beat handed to the radio goes out
/// somewhere in a window of 100–150 ms, independently each time.
struct Slot {
    state: u64,
}

impl Slot {
    fn new(seed: u64) -> Self {
        Self { state: seed | 1 }
    }

    /// Uniform in 100–150 ms, in microseconds.
    fn delay(&mut self) -> i64 {
        // xorshift; any decent bit-mixer would do.
        self.state ^= self.state << 13;
        self.state ^= self.state >> 7;
        self.state ^= self.state << 17;
        100_000 + (50_000.0 * ((self.state >> 11) as f64 / (1u64 << 53) as f64)) as i64
    }
}

fn tempo(bpm: u64) -> Tempo {
    Tempo { beats: bpm, per: 1 }
}

fn beats(at: Position) -> f64 {
    at.parts as f64 / at.per_beat as f64
}

/// The root mean square of how far a follower's beats lie from their average, in seconds.
fn spread_s(follower: &Follower, bpm: u64) -> f64 {
    let off = follower.deviations();
    // A deviation is in units of which a microsecond is `bpm`, times how many beats there are.
    let scale = off.len() as f64 * bpm as f64 * 1e6;
    let sum: f64 = off.iter().map(|d| (*d as f64 / scale).powi(2)).sum();
    (sum / off.len() as f64).sqrt()
}

#[test]
fn a_whole_quartet_agrees_within_the_ensemble_budget() {
    const BPM: u64 = 58;
    let beat_s = 60.0 / BPM as f64;
    let mut conductor = Conductor::new(tempo(BPM), 0);
    // Three followers, each with its own jitter sequence: they are not hearing the same delays.
    let mut followers: Vec<(Follower, Slot)> =
        [0x2545F4914F6CDD1D, 0x9E3779B97F4A7C15, 0x8EBC6AF09C88C6E3]
            .into_iter()
            .map(|seed| (Follower::new(tempo(BPM)), Slot::new(seed)))
            .collect();

    let mut worst_pair = 0.0f64;
    let mut worst_against_conductor = 0.0f64;
    // Two minutes of beats — twice the length of the shipped piece.
    let mut now = 0i64;
    while now < 120_000_000 {
        if let Some(beat) = conductor.due(now) {
            let wire = (beat % 256) as u8;
            assert_eq!(conductor.wire_beat(), wire);
            for (follower, slot) in followers.iter_mut() {
                let delay = slot.delay();
                follower.observe(wire, now + delay);
            }
        }
        // Relative agreement is what an ensemble is; the absolute value is a common-mode offset
        // nobody can hear.
        let positions: Vec<f64> = followers
            .iter()
            .filter_map(|(follower, _)| follower.position_beats(now).map(beats))
            .collect();
        if positions.len() == followers.len() {
            let low = positions.iter().copied().fold(f64::MAX, f64::min);
            let high = positions.iter().copied().fold(f64::MIN, f64::max);
            worst_pair = worst_pair.max((high - low) * beat_s);
            let at = beats(conductor.position_beats(now));
            for position in &positions {
                worst_against_conductor =
                    worst_against_conductor.max(((position - at) * beat_s).abs());
            }
        }
        now += 10_000;
    }

    assert!(
        worst_pair < 0.020,
        "the widest pair of followers drifted {:.1} ms apart, budget is 20 ms",
        worst_pair * 1000.0
    );
    // The conductor sings what the room hears, so it has to be inside the budget too.
    assert!(
        worst_against_conductor < 0.020,
        "the conductor is {:.1} ms out of its own ensemble",
        worst_against_conductor * 1000.0
    );
    // And every lock is *tight*, not merely agreeing.
    for (index, (follower, _)) in followers.iter().enumerate() {
        let spread = spread_s(follower, BPM);
        assert!(
            spread < 0.020,
            "follower {index}'s phase estimates are {:.1} ms apart — that is not a lock",
            spread * 1000.0
        );
    }
}

#[test]
fn the_fit_averages_the_jitter_down() {
    const BPM: u64 = 60;
    let error_after = |count: usize| -> f64 {
        let mut conductor = Conductor::new(tempo(BPM), 0);
        let mut follower = Follower::new(tempo(BPM));
        let mut slot = Slot::new(0x1234_5678_9ABC_DEF1);
        let mut now = 0i64;
        let mut seen = 0;
        while seen < count {
            if let Some(beat) = conductor.due(now) {
                follower.observe((beat % 256) as u8, now + slot.delay());
                seen += 1;
            }
            now += 10_000;
        }
        let follower_at = beats(follower.position_beats(now).expect("locked"));
        ((follower_at - beats(conductor.position_beats(now))) * 60.0 / BPM as f64).abs()
    };
    let few = error_after(4);
    let many = error_after(WINDOW * 3);
    assert!(many < 0.012, "a full window should be tight, got {many}");
    assert!(
        many <= few,
        "more beats must not be worse: {few} then {many}"
    );
}

#[test]
fn the_beat_counter_wraps_without_the_music_jumping() {
    const BPM: u64 = 60;
    let mut follower = Follower::new(tempo(BPM));
    // Start near the wrap and walk through it.
    for beat in 250u32..=260 {
        follower.observe((beat % 256) as u8, i64::from(beat) * 1_000_000);
    }
    let position = beats(follower.position_beats(260_000_000).expect("locked"));
    assert!(
        (position - 260.0).abs() < 0.1,
        "after the wrap the follower thinks it is at beat {position}, not 260"
    );
    // And the lock stayed tight through it — a mis-unwrap shows up as an enormous spread.
    assert!(spread_s(&follower, BPM) < 0.01);
    assert_eq!(follower.unwrap(5), 261);
    assert_eq!(follower.unwrap(4), 260);
}

#[test]
fn silence_from_the_conductor_is_not_silence_from_the_duck() {
    let mut follower = Follower::new(tempo(60));
    for beat in 0u32..8 {
        follower.observe(beat as u8, i64::from(beat) * 1_000_000 + 125_000);
    }
    let before = beats(follower.position_beats(8_000_000).expect("locked"));

    // Ten seconds of nothing. Still singing, and still in the right place.
    let during = beats(follower.position_beats(18_000_000).expect("still locked"));
    assert!(
        (during - before - 10.0).abs() < 0.05,
        "{before} then {during}"
    );

    // The conductor comes back, mid-piece, and is picked up without a jump.
    follower.observe(18u8, 18_125_000);
    let after = beats(follower.position_beats(18_000_000).expect("locked"));
    assert!(
        (after - during).abs() < 0.1,
        "rejoining moved the position by {} beats",
        (after - during).abs()
    );
}

#[test]
fn an_outlier_is_dropped_rather_than_averaged_in() {
    let mut follower = Follower::new(tempo(60));
    for beat in 0u32..8 {
        follower.observe(beat as u8, i64::from(beat) * 1_000_000 + 125_000);
    }
    let clean = beats(follower.position_beats(8_000_000).expect("locked"));
    // A beat that arrives half a second late — a scan that sat in a queue.
    follower.observe(8, 8_125_000 + 500_000);
    let after = beats(follower.position_beats(8_000_000).expect("locked"));
    assert!(
        (after - clean).abs() < 0.02,
        "one outlier moved the fit by {} beats",
        (after - clean).abs()
    );
}

#[test]
fn a_follower_waits_before_it_sings() {
    let mut follower = Follower::new(tempo(60));
    assert!(!follower.locked());
    assert_eq!(follower.position_beats(1_000_000), None);
    for beat in 0u32..3 {
        follower.observe(beat as u8, i64::from(beat) * 1_000_000);
        assert!(!follower.locked(), "{beat} beats is not a lock");
    }
    follower.observe(3, 3_000_000);
    assert!(follower.locked());
    assert!(follower.position_beats(3_000_000).is_some());
}

#[test]
fn the_conductor_counts_beats_and_not_polls() {
    let mut conductor = Conductor::new(tempo(60), 0);
    assert_eq!(conductor.beat(), None);
    let mut bumps = Vec::new();
    let mut now = 0i64;
    while now < 5_000_000 {
        if let Some(beat) = conductor.due(now) {
            bumps.push((beat, now));
        }
        // Polled at the advertising rate, far faster than the beat.
        now += 10_000;
    }
    // Beats 0 through 4 — the downbeat counts, and is announced once like every other.
    assert_eq!(bumps.len(), 5, "five beats in five seconds: {bumps:?}");
    for (index, (beat, at)) in bumps.iter().enumerate() {
        assert_eq!(*beat, index as u64);
        assert!((at - index as i64 * 1_000_000).abs() < 20_000, "{bumps:?}");
    }
    assert_eq!(conductor.beat(), Some(4));
}

#[test]
fn a_conductor_sings_what_the_room_hears() {
    let mut conductor = Conductor::new(tempo(60), 0);
    conductor.due(0);
    // The mean slot is 125 ms, so at that moment the room is on the downbeat.
    assert_eq!(beats(conductor.position_beats(125_000)), 0.0);
    assert_eq!(beats(conductor.position_beats(1_125_000)), 1.0);
}

#[test]
fn a_beat_far_from_its_time_changes_nothing() {
    let mut follower = Follower::new(tempo(60));
    for beat in 0..8u8 {
        follower.observe(beat, i64::from(beat) * 1_000_000 + 125_000);
    }
    let before = beats(follower.position_beats(8_000_000).expect("locked"));
    let spread = follower.deviations();
    assert_eq!(before, 7.875);
    // Due at 8.125 s: half a second late is dropped, and so is half a second early.
    follower.observe(8, 8_625_000);
    follower.observe(8, 7_625_000);
    assert_eq!(beats(follower.position_beats(8_000_000).expect("locked")), before);
    assert_eq!(follower.deviations(), spread);
    // Two tenths of a second is the last that counts.
    follower.observe(8, 8_325_000);
    assert_eq!(follower.deviations().len(), 9);
}
