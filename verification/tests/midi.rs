use microduck::chorale::midi::{parse, part_named, Import, MidiError};
use microduck::chorale::score::{Note, Tempo};
use microduck::chorale::Part;

/// Builds a standard MIDI file, one track at a time.
struct Builder {
    division: u16,
    tracks: Vec<Vec<u8>>,
}

impl Builder {
    fn new() -> Self {
        Self { division: 480, tracks: Vec::new() }
    }

    /// A track of `(start, length, midi, velocity)` notes.
    fn track(mut self, name: Option<&str>, channel: u8, notes: &[(u64, u64, u8, u8)]) -> Self {
        let mut events: Vec<(u64, Vec<u8>)> = Vec::new();
        if let Some(name) = name {
            let mut meta = vec![0xFF, 0x03, name.len() as u8];
            meta.extend_from_slice(name.as_bytes());
            events.push((0, meta));
        }
        for (start, length, midi, velocity) in notes {
            events.push((*start, vec![0x90 | channel, *midi, *velocity]));
            // Note-off as a zero-velocity note-on, the way real files do it.
            events.push((start + length, vec![0x90 | channel, *midi, 0]));
        }
        events.sort_by_key(|(tick, _)| *tick);

        let mut body = Vec::new();
        let mut last = 0u64;
        for (tick, event) in events {
            body.extend(varint(tick - last));
            body.extend(event);
            last = tick;
        }
        body.extend(varint(0));
        body.extend([0xFF, 0x2F, 0x00]); // end of track
        self.tracks.push(body);
        self
    }

    fn tempo_track(self, bpm: f64) -> Self {
        self.tempo_changes(&[(0, bpm)])
    }

    /// A conductor track carrying `(tick, bpm)` tempo marks.
    fn tempo_changes(mut self, marks: &[(u64, f64)]) -> Self {
        let mut body = Vec::new();
        let mut last = 0u64;
        for (tick, bpm) in marks {
            let micros = (60_000_000.0 / bpm) as u32;
            body.extend(varint(tick - last));
            body.extend([0xFF, 0x51, 0x03]);
            body.extend(&micros.to_be_bytes()[1..]);
            last = *tick;
        }
        body.extend(varint(0));
        body.extend([0xFF, 0x2F, 0x00]);
        self.tracks.insert(0, body);
        self
    }

    fn build(self) -> Vec<u8> {
        let mut out = Vec::new();
        out.extend(b"MThd");
        out.extend(6u32.to_be_bytes());
        out.extend(1u16.to_be_bytes()); // format 1
        out.extend((self.tracks.len() as u16).to_be_bytes());
        out.extend(self.division.to_be_bytes());
        for track in self.tracks {
            out.extend(b"MTrk");
            out.extend((track.len() as u32).to_be_bytes());
            out.extend(track);
        }
        out
    }
}

fn varint(mut value: u64) -> Vec<u8> {
    let mut buffer = vec![(value & 0x7F) as u8];
    value >>= 7;
    while value > 0 {
        buffer.push(((value & 0x7F) as u8) | 0x80);
        value >>= 7;
    }
    buffer.reverse();
    buffer
}

fn bpm(tempo: &Tempo) -> f64 {
    tempo.beats as f64 / tempo.per as f64
}

fn pitches(import: &Import, part: Part) -> Vec<u8> {
    import.score.line(part).iter().map(|note| note.midi).collect()
}

fn beats(import: &Import, ticks: u64) -> f64 {
    ticks as f64 / import.score.ticks_per_beat as f64
}

#[test]
fn a_score_exported_top_staff_first_still_puts_the_bass_on_the_bass() {
    let bytes = Builder::new()
        .tempo_track(58.0)
        .track(None, 0, &[(0, 480, 64, 80), (480, 480, 65, 80)]) // soprano, high
        .track(None, 1, &[(0, 480, 60, 80), (480, 480, 60, 80)]) // alto
        .track(None, 2, &[(0, 480, 55, 80), (480, 480, 55, 80)]) // tenor
        .track(None, 3, &[(0, 480, 48, 80), (480, 480, 45, 80)]) // bass, low
        .build();
    let import = parse(&bytes).ok().expect("parses");
    assert!((bpm(&import.score.tempo) - 58.0).abs() < 0.5);
    assert_eq!(import.score.parts().len(), 4);

    // Each part's mean pitch is in order, which is the property that matters.
    let mut previous = 0.0;
    for part in [Part::Bass, Part::Tenor, Part::Alto, Part::Soprano] {
        let (sum, weight) = import.score.mean_pitch(part).expect("sings");
        let mean = sum as f64 / weight as f64;
        assert!(mean > previous, "{part:?} at {mean} is not above {previous}");
        previous = mean;
    }
    // The bass really is the low line, not merely the lowest of a shuffled set.
    assert_eq!(pitches(&import, Part::Bass), vec![48, 45]);
}

#[test]
fn a_named_track_is_believed_over_its_pitches() {
    let bytes = Builder::new()
        .track(Some("Bass"), 0, &[(0, 480, 57, 80)])
        .track(Some("Soprano"), 1, &[(0, 480, 55, 80)])
        .build();
    let import = parse(&bytes).ok().expect("parses");
    assert_eq!(
        pitches(&import, Part::Bass)[0],
        57,
        "the higher line was still named the bass"
    );
    assert_eq!(pitches(&import, Part::Soprano)[0], 55);
    assert!(
        import.casting.iter().any(|(_, why)| why.contains("named")),
        "{:?}",
        import.casting
    );
    // "Bassoon" must not become the bass by accident.
    assert_eq!(part_named("Bassoon"), Some(Part::Bass), "documented limitation");
    assert_eq!(part_named("Soprano 1"), Some(Part::Soprano));
    assert_eq!(part_named("Violin"), None);
}

#[test]
fn a_single_polyphonic_track_is_split_into_voices() {
    let bytes = Builder::new()
        .track(
            None,
            0,
            &[
                (0, 480, 48, 80),
                (0, 480, 55, 80),
                (0, 480, 60, 80),
                (0, 480, 64, 80),
                (480, 480, 45, 80),
                (480, 480, 55, 80),
                (480, 480, 60, 80),
                (480, 480, 64, 80),
            ],
        )
        .build();
    let import = parse(&bytes).ok().expect("parses");
    assert_eq!(import.score.parts().len(), 4, "{:?}", import.score.parts());
    assert_eq!(
        pitches(&import, Part::Bass),
        vec![48, 45],
        "the lowest note of each chord is the bass line"
    );
    // The soprano's E4 is held across both chords, so the tie merge makes it one note.
    let soprano = import.score.line(Part::Soprano);
    assert_eq!(soprano.len(), 1);
    assert_eq!(beats(&import, soprano[0].length), 2.0);
}

#[test]
fn timing_and_velocity_survive_the_trip() {
    let bytes = Builder::new()
        .tempo_track(120.0)
        // 480 ticks per beat: a note of 720 ticks is a beat and a half, starting on beat 2.
        .track(None, 0, &[(960, 720, 60, 100), (1680, 240, 62, 30)])
        .build();
    let import = parse(&bytes).ok().expect("parses");
    let line: &[Note] = &import.score.notes;
    assert_eq!(beats(&import, line[0].start), 2.0);
    assert_eq!(beats(&import, line[0].length), 1.5);
    assert_eq!(beats(&import, line[1].start), 3.5);
    assert_eq!(beats(&import, line[1].length), 0.5);
    assert_eq!(line[0].level, 100, "velocity 100 is loud");
    assert!(line[1].level < 40, "velocity 30 is quiet: {}", line[1].level);
    assert!((bpm(&import.score.tempo) - 120.0).abs() < 0.5);
}

#[test]
fn a_tempo_change_is_reported_rather_than_hidden() {
    let bytes = Builder::new()
        .tempo_changes(&[(0, 120.0), (960, 240.0)])
        .track(None, 0, &[(0, 480, 60, 80)])
        .build();
    let import = parse(&bytes).ok().expect("parses");
    assert!(
        (bpm(&import.score.tempo) - 120.0).abs() < 0.5,
        "the first tempo wins"
    );
    assert!(
        import.dropped.iter().any(|d| d.contains("tempo change")),
        "{:?}",
        import.dropped
    );

    // A file whose tempo is *restated* rather than changed says nothing.
    let restated = Builder::new()
        .tempo_changes(&[(0, 96.0), (960, 96.0)])
        .track(None, 0, &[(0, 480, 60, 80)])
        .build();
    let import = parse(&restated).ok().expect("parses");
    assert!(import.dropped.is_empty(), "{:?}", import.dropped);
    assert!((bpm(&import.score.tempo) - 96.0).abs() < 0.5);
}

#[test]
fn bad_files_are_errors_and_never_panics() {
    assert_eq!(parse(b"").err(), Some(MidiError::NotMidi));
    assert_eq!(
        parse(b"not a midi file at all").err(),
        Some(MidiError::NotMidi)
    );

    // A valid header with no notes behind it.
    let empty = Builder::new().tempo_track(60.0).build();
    assert_eq!(parse(&empty).err(), Some(MidiError::NoNotes));

    // SMPTE division.
    let mut smpte = Builder::new().track(None, 0, &[(0, 480, 60, 80)]).build();
    smpte[12] = 0xE8;
    smpte[13] = 0x08;
    assert_eq!(parse(&smpte).err(), Some(MidiError::SmpteTiming));

    // Every truncation of a real file is an error, not a crash.
    let good = Builder::new()
        .tempo_track(60.0)
        .track(Some("Soprano"), 0, &[(0, 480, 64, 80)])
        .track(Some("Bass"), 1, &[(0, 480, 48, 80)])
        .build();
    for cut in 0..good.len() {
        let _ = parse(&good[..cut]);
    }
    // And a chunk length that claims more than the file holds.
    let mut lying = good.clone();
    let last = lying.len() - 1;
    lying[last - 3..].copy_from_slice(&[0xFF, 0xFF, 0xFF, 0xFF]);
    let _ = parse(&lying);
}

#[test]
fn running_status_is_understood() {
    let mut body = varint(0);
    body.extend([0x90, 60, 80]); // note on, explicit status
    body.extend(varint(480));
    body.extend([60, 0]); // note off, running status
    body.extend(varint(0));
    body.extend([48, 80]); // note on, still running status
    body.extend(varint(480));
    body.extend([48, 0]);
    body.extend(varint(0));
    body.extend([0xFF, 0x2F, 0x00]);

    let mut bytes = Vec::new();
    bytes.extend(b"MThd");
    bytes.extend(6u32.to_be_bytes());
    bytes.extend(0u16.to_be_bytes());
    bytes.extend(1u16.to_be_bytes());
    bytes.extend(480u16.to_be_bytes());
    bytes.extend(b"MTrk");
    bytes.extend((body.len() as u32).to_be_bytes());
    bytes.extend(body);

    let import = parse(&bytes).ok().expect("parses");
    assert_eq!(import.score.notes.len(), 2, "{:?}", import.score.notes);
    let sung: Vec<u8> = import.score.notes.iter().map(|n| n.midi).collect();
    assert!(sung.contains(&60) && sung.contains(&48));
}

#[test]
fn more_than_four_voices_says_what_it_left_out() {
    let mut builder = Builder::new();
    for (index, pitch) in [45u8, 50, 55, 60, 64, 69].into_iter().enumerate() {
        builder = builder.track(None, index as u8, &[(0, 480, pitch, 80)]);
    }
    let import = parse(&builder.build()).ok().expect("parses");
    assert_eq!(import.score.parts().len(), 4);
    assert!(
        import.dropped.iter().any(|d| d.contains("past the first four")),
        "{:?}",
        import.dropped
    );
    // It keeps the *lowest* four, so the bass line survives.
    assert_eq!(pitches(&import, Part::Bass)[0], 45);
}

#[test]
fn a_file_without_a_tempo_is_sung_at_a_hundred_and_twenty() {
    let bytes = Builder::new().track(None, 0, &[(0, 480, 60, 80)]).build();
    let import = parse(&bytes).ok().expect("parses");
    assert_eq!(bpm(&import.score.tempo), 120.0);
}

#[test]
fn a_track_is_called_by_its_name_or_its_number() {
    let bytes = Builder::new()
        .track(Some("Alto"), 0, &[(0, 480, 60, 80)])
        .track(None, 1, &[(0, 480, 50, 80)])
        .build();
    let import = parse(&bytes).ok().expect("parses");
    assert_eq!(import.tracks.len(), 2, "{:?}", import.tracks);
    assert_eq!(import.tracks[0], "Alto");
    assert!(import.tracks[1].contains('2'), "{:?}", import.tracks);
}

/// A name is bytes that somebody else wrote: what is not text in it is replaced, not refused.
#[test]
fn a_torn_track_name_is_still_a_name() {
    let mut bytes = Builder::new().track(Some("Bxss"), 0, &[(0, 480, 60, 80)]).build();
    let at = bytes.windows(4).position(|four| four == b"Bxss").expect("named");
    bytes[at + 1] = 0xFF;
    let import = parse(&bytes).ok().expect("parses");
    assert_eq!(import.tracks[0], "B\u{FFFD}ss");
}

#[test]
fn every_refusal_says_what_was_wrong() {
    let messages = [
        MidiError::NotMidi.message(),
        MidiError::Truncated { at: 17 }.message(),
        MidiError::SmpteTiming.message(),
        MidiError::NoNotes.message(),
    ];
    for (i, message) in messages.iter().enumerate() {
        assert!(!message.is_empty());
        assert!(messages.iter().skip(i + 1).all(|other| other != message));
    }
    assert!(messages[1].contains("17"), "{}", messages[1]);
    // A track that runs off the end of the file.
    let file = Builder::new().track(None, 0, &[(0, 480, 60, 80)]).build();
    assert_eq!(parse(&file[..file.len() - 1]).err(), Some(MidiError::Truncated { at: 22 }));
    assert_eq!(parse(&file[..13]).err(), Some(MidiError::NotMidi));
}

#[test]
fn a_name_goes_with_its_track_and_not_with_its_place() {
    // An unnamed track on two channels, and then one called Bass that lies above both.
    let bytes = b"MThd\0\0\0\x06\0\x01\0\x02\x01\xe0MTrk\0\0\0\x15\0\x90\x3c\x50\0\x91\x40\x50\x83\x60\x90\x3c\0\0\x91\x40\0\0\xff\x2f\0MTrk\0\0\0\x15\0\xff\x03\x04Bass\0\x90\x43\x50\x83\x60\x90\x43\0\0\xff\x2f\0";
    let import = parse(bytes).ok().expect("parses");
    assert_eq!(pitches(&import, Part::Bass), vec![67]);
    assert_eq!(pitches(&import, Part::Alto), vec![60]);
    assert_eq!(pitches(&import, Part::Soprano), vec![64]);
    assert_eq!(import.tracks, vec!["track 1", "Bass"]);
    assert_eq!(import.casting[0].1, "named \"Bass\"");
}

#[test]
fn only_a_header_decides_whether_it_is_midi_at_all() {
    assert!(matches!(parse(b""), Err(MidiError::NotMidi)));
    assert!(matches!(parse(b"MThd\0\0\0\x06\0\x01\0\0\x01"), Err(MidiError::NotMidi)));
    assert!(matches!(parse(b"MThx\0\0\0\x06\0\x01\0\0\x01\xe0"), Err(MidiError::NotMidi)));
    assert!(matches!(parse(b"MThd\0\0\0\x06\0\x01\0\0\x01\xe0"), Err(MidiError::NoNotes)));
    assert!(matches!(parse(b"MThd\0\0\0\x06\0\x01\0\0\x81\xe0"), Err(MidiError::SmpteTiming)));
}
