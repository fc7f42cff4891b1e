use microduck::chorale::score::{Gesture, Note, Score, SoloNote, Tempo};
use microduck::chorale::seating::{
    cast, seat, seat_all, seat_by_register, seat_for, Singer, Voice,
};
use microduck::chorale::{chord, Part, Vowel, Voicing};
use microduck::rng::Rng;

const ALL: [Part; 4] = [Part::Bass, Part::Tenor, Part::Alto, Part::Soprano];

/// Ticks to the beat in these scores.
const BEAT: u64 = 100;

fn uniform(rng: &mut Rng, low: f64, high: f64) -> f64 {
    low + (high - low) * (rng.random() as f64 / (1u64 << 53) as f64)
}

/// The pitch centre that a seed gives a duck, in hertz.
fn pitch_center_hz(seed: u32) -> f64 {
    let mut rng = Rng::from_seed(seed);
    let octaves = [-1.0, 0.0, 0.0, 1.0];
    let octave = octaves[uniform(&mut rng, 0.0, 4.0).floor() as usize];
    let register = octave + uniform(&mut rng, -0.4, 0.4);
    let base = uniform(&mut rng, 160.0, 380.0);
    (base * 2.0f64.powf(register * 0.45)).clamp(110.0, 620.0)
}

/// A pitch in millionths of a semitone.
fn register_of(hz: f64) -> i64 {
    ((69.0 + 12.0 * (hz / 440.0).log2()) * 1e6).round() as i64
}

fn voice(seed: u32) -> Voice {
    // The bits of a positive number order as the number does.
    Voice { seed, pitch: pitch_center_hz(seed).to_bits() }
}

fn cast_of(seeds: &[u32]) -> Vec<Singer> {
    let voices: Vec<Voice> = seeds.iter().copied().map(voice).collect();
    cast(&voices)
}

fn parts_of(singers: &[Singer]) -> Vec<Part> {
    singers.iter().map(|singer| singer.part).collect()
}

fn millihertz(roster: &[f64]) -> Vec<u64> {
    roster.iter().map(|hz| (hz * 1000.0) as u64).collect()
}

fn score_of(gestures: Vec<Gesture>) -> Score {
    Score::from_gestures("test", Tempo { beats: 60, per: 1 }, BEAT, &gestures)
}

fn plain(voicing: Voicing, beats: u64) -> Gesture {
    Gesture::Chord { voicing, length: beats * BEAT, vowel: Vowel::Ah, level: 100 }
}

#[test]
fn the_lowest_duck_sings_bass() {
    for seeds in [
        vec![100u32, 101, 102, 103],
        vec![7, 42, 313, 9001],
        vec![0, 1, 2, 3],
    ] {
        let singers = cast_of(&seeds);
        let mut by_part = singers.clone();
        by_part.sort_by_key(|s| s.part);
        for pair in by_part.windows(2) {
            assert!(
                pitch_center_hz(pair[0].seed) <= pitch_center_hz(pair[1].seed),
                "{:?} sings under {:?} but is higher",
                pair[0].part,
                pair[1].part
            );
        }
        // And the casting is a function of the seeds alone, so two ducks reach it
        // independently.
        let again = cast_of(&seeds);
        assert_eq!(parts_of(&singers), parts_of(&again));
    }
}

#[test]
fn casting_does_not_depend_on_the_order_the_ducks_arrive_in() {
    let forward = cast_of(&[100, 101, 102, 103]);
    let backward = cast_of(&[103, 102, 101, 100]);
    for singer in &forward {
        let same = backward.iter().find(|s| s.seed == singer.seed).expect("same ducks");
        assert_eq!(singer.part, same.part, "seed {}", singer.seed);
        assert_eq!(singer.detune, same.detune);
    }
}

#[test]
fn a_duck_joining_does_not_move_anyone_already_singing() {
    let seeds = [100u32, 7, 313, 42];
    // Two ducks start together, then two more arrive one at a time.
    let mut ensemble = cast_of(&seeds[..2]);
    let opening: Vec<(u32, Part)> = ensemble.iter().map(|s| (s.seed, s.part)).collect();

    for newcomer in &seeds[2..] {
        let joined = seat(
            &parts_of(&ensemble),
            *newcomer,
            register_of(pitch_center_hz(*newcomer)),
        );
        ensemble.push(joined);
        // Everyone who was singing is still singing the same part.
        for (seed, part) in &opening {
            let now = ensemble.iter().find(|s| s.seed == *seed).expect("still here");
            assert_eq!(now.part, *part, "seed {seed} changed part when someone joined");
        }
        // And no two ducks are doubling while a part is still free.
        let mut parts = parts_of(&ensemble);
        parts.sort();
        let unique = {
            let mut p = parts.clone();
            p.dedup();
            p.len()
        };
        assert_eq!(unique, parts.len(), "doubled up early: {parts:?}");
    }
    assert_eq!(ensemble.len(), 4);
}

#[test]
fn the_lowest_voice_in_the_roster_gets_the_lowest_part() {
    // Roster order deliberately opposite to register order: the high duck arrived first.
    let high_first = seat_all(&millihertz(&[520.0, 214.0]));
    assert_eq!(high_first, vec![Part::Soprano, Part::Bass], "{high_first:?}");
    let low_first = seat_all(&millihertz(&[214.0, 520.0]));
    assert_eq!(low_first, vec![Part::Bass, Part::Soprano], "{low_first:?}");

    // Three and four, in a shuffled roster: the answer is in roster order, the parts are by
    // register.
    let parts = seat_all(&millihertz(&[490.0, 214.0, 519.0, 389.0]));
    assert_eq!(
        parts,
        vec![Part::Alto, Part::Bass, Part::Soprano, Part::Tenor],
        "{parts:?}"
    );
    // Every part used exactly once.
    let mut sorted = parts.clone();
    sorted.sort();
    assert_eq!(sorted, ALL.to_vec());
}

#[test]
fn a_joiner_in_the_gap_moves_nobody() {
    let duet = seat_all(&millihertz(&[214.0, 520.0]));
    assert_eq!(duet, vec![Part::Bass, Part::Soprano]);
    // A middle voice joins: it takes the alto and the other two keep their parts.
    let trio = seat_all(&millihertz(&[214.0, 520.0, 390.0]));
    assert_eq!(&trio[..2], &duet[..], "{trio:?}");
    assert_eq!(trio[2], Part::Alto);
    // A fourth in the remaining gap, likewise.
    let quartet = seat_all(&millihertz(&[214.0, 520.0, 390.0, 300.0]));
    assert_eq!(&quartet[..3], &trio[..], "{quartet:?}");
    assert_eq!(quartet[3], Part::Tenor);
}

#[test]
fn the_ensemble_sets_are_nested() {
    for n in 1..4 {
        let smaller = Part::ensemble(n);
        let larger = Part::ensemble(n + 1);
        for part in &smaller {
            assert!(
                larger.contains(part),
                "ensemble({n}) is not inside ensemble({}) — {smaller:?} vs {larger:?}",
                n + 1
            );
        }
        assert_eq!(larger.len(), smaller.len() + 1, "exactly one part opens up");
    }
}

#[test]
fn a_fifth_duck_doubles_the_part_nearest_its_voice() {
    let quartet = parts_of(&cast_of(&[100u32, 7, 313, 42]));
    // A very low duck: seed chosen by searching for one at the bottom of the population.
    let low = (0u32..2000)
        .min_by(|a, b| {
            pitch_center_hz(*a).partial_cmp(&pitch_center_hz(*b)).expect("finite")
        })
        .expect("some duck");
    let fifth = seat(&quartet, low, register_of(pitch_center_hz(low)));
    assert_eq!(
        fifth.part,
        Part::Bass,
        "a {} Hz duck doubles the bass",
        pitch_center_hz(low)
    );

    let high = (0u32..2000)
        .max_by(|a, b| {
            pitch_center_hz(*a).partial_cmp(&pitch_center_hz(*b)).expect("finite")
        })
        .expect("some duck");
    assert_eq!(
        seat(&quartet, high, register_of(pitch_center_hz(high))).part,
        Part::Soprano
    );
}

#[test]
fn small_ensembles_take_the_voices_a_chord_needs_most() {
    assert_eq!(Part::ensemble(2), vec![Part::Bass, Part::Soprano]);
    assert_eq!(
        Part::ensemble(3),
        vec![Part::Bass, Part::Alto, Part::Soprano]
    );
    assert_eq!(Part::ensemble(4), ALL.to_vec());
    // More ducks than parts still produces a valid cast rather than a panic — the extras
    // double a part, which is what a real choir does.
    let singers = cast_of(&[1, 2, 3, 4, 5, 6]);
    assert_eq!(singers.len(), 6);
}

#[test]
fn a_duck_alone_takes_the_tune() {
    assert_eq!(seat_by_register(&[], register_of(120.0)), Part::Soprano);
    assert_eq!(seat_by_register(&[Part::Soprano], register_of(600.0)), Part::Bass);
}

#[test]
fn a_seat_brings_the_same_spread_every_time() {
    let once = seat_for(42, Part::Alto);
    assert_eq!(seat_for(42, Part::Alto), once);
    assert_ne!(seat_for(42, Part::Bass).detune, once.detune);
    assert!(once.detune < 1 << 53 && once.onset < 1 << 53);
}

#[test]
fn a_build_staggers_the_entries_and_lands_them_together() {
    let build = |length: u64, from_top: bool| {
        score_of(vec![Gesture::Build {
            voicing: chord(48, 55, 60, 64),
            length,
            stagger: BEAT * 3 / 4,
            from_top,
            vowel: Vowel::Ah,
            level: 100,
        }])
    };
    let score = build(6 * BEAT, false);
    assert_eq!(score.notes.len(), 4, "one note per voice");
    for part in ALL {
        let note = score.line(part)[0];
        // Entries are ordered low to high...
        assert_eq!(note.start, part.index() as u64 * (BEAT * 3 / 4), "{part:?}");
        // ...and everyone finishes at the end of the gesture.
        assert_eq!(note.end(), 6 * BEAT, "{part:?} {note:?}");
    }

    // From the top, the soprano is first in and the bass last.
    let flipped = build(6 * BEAT, true);
    assert!(flipped.line(Part::Soprano)[0].start < flipped.line(Part::Bass)[0].start);

    // A stagger too long for the gesture drops the late voices rather than emitting a
    // negative-length note.
    let crowded = build(BEAT, false);
    assert_eq!(crowded.notes.len(), 2, "only two voices fit: {:?}", crowded.notes);
    assert!(crowded.notes.iter().all(|n| n.length > 0));
}

#[test]
fn a_solo_moves_over_what_is_held_under_it() {
    let note = |midi: u8, beats: u64, vowel: Vowel| SoloNote { midi, length: beats * BEAT, vowel };
    let solo = Gesture::Solo {
        part: Part::Soprano,
        notes: vec![note(64, 1, Vowel::Ah), note(65, 1, Vowel::Ah), note(67, 2, Vowel::Ee)],
        under: [Some(48), None, Some(60), None],
        under_vowel: Vowel::Mm,
        level: 70,
    };
    assert_eq!(solo.beats(), Some(4 * BEAT), "the solo line sets the length");
    let score = score_of(vec![solo]);
    assert_eq!(score.line(Part::Soprano).len(), 3, "the soloist moves");
    assert_eq!(score.line(Part::Tenor).len(), 0, "tacet under this solo");
    let alto: Vec<Note> = score.line(Part::Alto);
    assert_eq!(alto.len(), 1, "the accompaniment is one held note");
    assert_eq!(alto[0].length, 4 * BEAT);
    assert_eq!(alto[0].vowel, Vowel::Mm, "and it hums");
    // A soloist's own pitch is theirs, not `under`'s.
    assert_eq!(score.line(Part::Bass)[0].midi, 48);
    assert_eq!(score.line(Part::Soprano)[0].midi, 64);
}

#[test]
fn a_rest_is_a_real_gap() {
    let score = score_of(vec![
        plain(chord(48, 55, 60, 64), 2),
        Gesture::Rest { length: BEAT },
        plain(chord(48, 55, 60, 64), 2),
    ]);
    let bass = score.line(Part::Bass);
    assert_eq!(
        bass.len(),
        2,
        "the same note either side of a breath is two notes"
    );
    assert_eq!(bass[0].end(), 2 * BEAT);
    assert_eq!(bass[1].start, 3 * BEAT);
    assert_eq!(score.duration_us(), 5_000_000, "the rest occupies time");
    assert_eq!(score.duration_ticks(), 5 * BEAT);

    // Whereas without the rest, it is one tied note.
    let tied = score_of(vec![
        plain(chord(48, 55, 60, 64), 2),
        plain(chord(48, 55, 60, 64), 2),
    ]);
    assert_eq!(tied.line(Part::Bass).len(), 1);
    assert_eq!(tied.line(Part::Bass)[0].length, 4 * BEAT);
}

#[test]
fn a_change_of_syllable_or_dynamic_is_a_new_note() {
    let resung = score_of(vec![
        plain(chord(48, 55, 60, 64), 1),
        Gesture::Chord {
            voicing: chord(48, 55, 60, 64),
            length: BEAT,
            vowel: Vowel::Ee,
            level: 100,
        },
    ]);
    assert_eq!(resung.line(Part::Bass).len(), 2, "a new syllable");

    // A dynamic, by contrast, does *not* re-attack — a mark over a sounding note is a
    // crescendo, and the note keeps the dynamic it began on.
    let louder = score_of(vec![
        plain(chord(48, 55, 60, 64), 1),
        Gesture::Chord {
            voicing: chord(48, 55, 60, 64),
            length: BEAT,
            vowel: Vowel::Ah,
            level: 40,
        },
    ]);
    let bass = louder.line(Part::Bass);
    assert_eq!(bass.len(), 1, "a crescendo is not a new note");
    assert_eq!(bass[0].length, 2 * BEAT);
    assert_eq!(bass[0].level, 100, "it keeps the dynamic it started on");
}

#[test]
fn notes_come_out_by_part_and_then_by_time() {
    let note = |part: Part, start: u64| Note {
        part,
        start,
        length: BEAT,
        midi: 60,
        level: 70,
        vowel: Vowel::Ah,
    };
    let score = Score::from_notes(
        "t",
        Tempo { beats: 60, per: 1 },
        BEAT,
        vec![note(Part::Alto, 300), note(Part::Bass, 200), note(Part::Bass, 0)],
    );
    let order: Vec<(Part, u64)> = score.notes.iter().map(|n| (n.part, n.start)).collect();
    assert_eq!(order, vec![(Part::Bass, 0), (Part::Bass, 200), (Part::Alto, 300)]);
    assert_eq!(score.parts(), vec![Part::Bass, Part::Alto]);
    assert_eq!(score.mean_pitch(Part::Tenor), None);
}

#[test]
fn an_open_mouth_is_an_open_vowel() {
    assert_eq!(Vowel::Ah.open(), 90);
    assert!(Vowel::Mm.open() < Vowel::Oo.open());
    assert!(Vowel::Mm.level_scale() < Vowel::Ah.level_scale());
    assert_eq!(Vowel::Ah.formant_shift(), 0);
}

fn bass(start: u64, length: u64, midi: u8) -> Note {
    Note { part: Part::Bass, start, length, midi, level: 70, vowel: Vowel::Ah }
}

fn settled(per_beat: u64, notes: Vec<Note>) -> Vec<(u64, u64, u8)> {
    let score = Score::from_notes("t", Tempo { beats: 60, per: 1 }, per_beat, notes);
    let again = Score::from_notes("t", score.tempo, per_beat, score.notes.clone());
    assert_eq!(score.notes, again.notes, "a score of a score is the score");
    score.notes.iter().map(|n| (n.start, n.length, n.midi)).collect()
}

#[test]
fn a_part_never_overlaps_itself() {
    // Two beats each, a beat apart: the first is over where the second begins.
    assert_eq!(
        settled(480, vec![bass(0, 960, 48), bass(480, 960, 50)]),
        vec![(0, 480, 48), (480, 960, 50)]
    );
    // Of two that begin together the one that came first stays.
    assert_eq!(
        settled(480, vec![bass(0, 960, 48), bass(0, 480, 55), bass(480, 480, 50)]),
        vec![(0, 480, 48), (480, 480, 50)]
    );
    // What is cut on the pitch that follows is one note with it.
    assert_eq!(settled(480, vec![bass(0, 960, 48), bass(480, 960, 48)]), vec![(0, 1440, 48)]);
    // Other parts are not in its way.
    let tenor = Note { part: Part::Tenor, ..bass(480, 960, 60) };
    assert_eq!(
        settled(480, vec![bass(0, 960, 48), tenor]),
        vec![(0, 960, 48), (480, 960, 60)]
    );
}

#[test]
fn a_gap_below_a_millionth_of_a_beat_is_rounding() {
    let beat = 1_000_000_000;
    assert_eq!(
        settled(beat, vec![bass(0, beat, 48), bass(beat + 500, beat, 48)]),
        vec![(0, 2 * beat, 48)]
    );
    assert_eq!(
        settled(beat, vec![bass(0, beat + 500, 48), bass(beat, beat, 48)]),
        vec![(0, 2 * beat, 48)]
    );
    assert_eq!(
        settled(beat, vec![bass(0, beat, 48), bass(beat + 1_000, beat, 48)]),
        vec![(0, beat, 48), (beat + 1_000, beat, 48)]
    );
    assert_eq!(
        settled(beat, vec![bass(0, beat, 48), bass(beat + 500, beat, 50)]),
        vec![(0, beat, 48), (beat + 500, beat, 50)]
    );
}

#[test]
fn a_roster_is_seated_by_register_alone() {
    let registers = [300u64, 100, 500, 200, 400, 600];
    let parts = seat_all(&registers);
    assert_eq!(
        parts,
        vec![
            Part::Alto,
            Part::Bass,
            Part::Soprano,
            Part::Tenor,
            Part::Soprano,
            Part::Soprano
        ]
    );
    // Turned round, each register keeps its part.
    let turned: Vec<u64> = registers.iter().rev().copied().collect();
    let back: Vec<Part> = seat_all(&turned).into_iter().rev().collect();
    assert_eq!(parts, back);
    // Two on one register keep the order they stand in.
    assert_eq!(seat_all(&[7, 7, 7]), vec![Part::Bass, Part::Alto, Part::Soprano]);
    for n in 0..=4usize {
        let mut sung = seat_all(&registers[..n]);
        sung.sort();
        assert_eq!(sung, Part::ensemble(n));
    }
}
