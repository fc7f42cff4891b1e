use microduck::chorale::score::{Note, Score};
use microduck::chorale::text::{midi_of, parse, part_of};
use microduck::chorale::{dynamic, Part, Vowel};

fn sung(source: &str) -> Score {
    parse(source).ok().expect("parses")
}

fn beats(score: &Score, ticks: u64) -> f64 {
    ticks as f64 / score.ticks_per_beat as f64
}

#[test]
fn note_names_follow_the_editors_octave_numbering() {
    assert_eq!(midi_of("C4"), Some(Some(60)));
    assert_eq!(midi_of("A4"), Some(Some(69)), "concert A");
    assert_eq!(midi_of("C3"), Some(Some(48)));
    assert_eq!(midi_of("A2"), Some(Some(45)));
    assert_eq!(midi_of("D5"), Some(Some(74)));
    // Accidentals, both spellings, and enharmonics that must agree.
    assert_eq!(midi_of("F#4"), Some(Some(66)));
    assert_eq!(midi_of("Gb4"), Some(Some(66)));
    assert_eq!(midi_of("Ab3"), Some(Some(56)));
    assert_eq!(midi_of("G#3"), Some(Some(56)));
    assert_eq!(midi_of("c4"), Some(Some(60)), "case does not matter");
    // The tacet marker, and things that are not notes.
    assert_eq!(midi_of("-"), Some(None));
    assert_eq!(midi_of("H4"), None);
    assert_eq!(midi_of("C"), None, "a note needs an octave");
    assert_eq!(midi_of(""), None);
    assert_eq!(midi_of("C99"), None, "off the keyboard");
}

#[test]
fn a_mark_holds_until_it_is_changed() {
    let score = sung(
        "name: t\nbpm: 60\n\
         dynamic p\nvowel oo\n\
         chord 1  C3 G3 C4 E4\n\
         chord 1  A2 G3 C4 E4\n\
         dynamic ff\nvowel ee\n\
         chord 1  F3 A3 C4 F4\n",
    );
    let bass: Vec<Note> = score.line(Part::Bass);
    // Three different bass notes, so nothing ties and the marks are plainly visible.
    assert_eq!(bass.len(), 3, "{bass:?}");
    assert_eq!(bass[0].level, dynamic("p").unwrap());
    assert_eq!(bass[1].level, dynamic("p").unwrap(), "still piano");
    assert_eq!(bass[2].level, dynamic("ff").unwrap());
    assert_eq!(bass[0].vowel, Vowel::Oo);
    assert_eq!(bass[1].vowel, Vowel::Oo);
    assert_eq!(bass[2].vowel, Vowel::Ee);
}

#[test]
fn a_new_vowel_on_the_same_note_is_a_new_note() {
    let tied = sung("name: t\nbpm: 60\nchord 1 C3 G3 C4 E4\nchord 1 C3 G3 C4 E4\n");
    assert_eq!(tied.line(Part::Bass).len(), 1, "one tied note");

    let resung = sung(
        "name: t\nbpm: 60\nvowel ah\nchord 1 C3 G3 C4 E4\nvowel ee\nchord 1 C3 G3 C4 E4\n",
    );
    assert_eq!(
        resung.line(Part::Bass).len(),
        2,
        "a new syllable is a new note"
    );

    // A dynamic mid-tie is a crescendo, not a re-attack.
    let swell = sung(
        "name: t\nbpm: 60\ndynamic p\nchord 1 C3 G3 C4 E4\ndynamic ff\nchord 1 C3 G3 C4 E4\n",
    );
    assert_eq!(swell.line(Part::Bass).len(), 1, "a crescendo is one note");
}

#[test]
fn a_solo_hums_underneath_by_default() {
    let score = sung(
        "name: t\nbpm: 60\nvowel ah\n\
         solo soprano under C3 - C4 - sing E4:1 F4:2 G4/ee\n",
    );
    let soprano = score.line(Part::Soprano);
    assert_eq!(soprano.len(), 3);
    assert_eq!(soprano[0].vowel, Vowel::Ah, "the running vowel");
    assert_eq!(beats(&score, soprano[1].length), 2.0);
    assert_eq!(soprano[2].vowel, Vowel::Ee, "overridden per note");
    assert_eq!(beats(&score, soprano[2].length), 1.0, "a length defaults to one beat");

    let alto = score.line(Part::Alto);
    assert_eq!(alto.len(), 1, "held under the whole solo");
    assert_eq!(beats(&score, alto[0].length), 4.0);
    assert_eq!(alto[0].vowel, Vowel::Mm, "the choir hums");
    assert_eq!(score.line(Part::Tenor).len(), 0, "tacet");

    // And `hum` overrides that.
    let open = sung("name: t\nbpm: 60\nsolo alto under C3 - - - hum oo sing C4:2\n");
    assert_eq!(open.line(Part::Bass)[0].vowel, Vowel::Oo);
}

#[test]
fn a_build_reads_its_optional_direction() {
    let up = sung("name: t\nbpm: 60\nbuild 4 stagger 0.5 C3 G3 C4 E4\n");
    let down = sung("name: t\nbpm: 60\nbuild 4 stagger 0.5 top C3 G3 C4 E4\n");
    let first_in = |score: &Score| {
        let mut notes = score.notes.clone();
        notes.sort_by_key(|note| note.start);
        notes[0].part
    };
    assert_eq!(first_in(&up), Part::Bass);
    assert_eq!(first_in(&down), Part::Soprano);
}

#[test]
fn errors_say_which_line_and_what() {
    let cases = [
        ("name: t\nbpm: 60\nchord 2 C3 G3 C4 H9\n", 3, "note name"),
        ("name: t\nbpm: 60\nchord 2 C3 G3 C4\n", 3, "four voices"),
        ("name: t\nbpm: 60\nchord two C3 G3 C4 E4\n", 3, "beats"),
        (
            "name: t\nbpm: 60\nwaffle 2 C3 G3 C4 E4\n",
            3,
            "not a gesture",
        ),
        (
            "name: t\nbpm: 60\ndynamic loud\nchord 1 C3 G3 C4 E4\n",
            3,
            "not a dynamic",
        ),
        (
            "name: t\nbpm: 60\nvowel argh\nchord 1 C3 G3 C4 E4\n",
            3,
            "not a vowel",
        ),
        ("name: t\nbpm: 900\nchord 1 C3 G3 C4 E4\n", 2, "tempo"),
        ("name: t\nbpm: 60\nbuild 4 C3 G3 C4 E4\n", 3, "stagger"),
        ("name: t\nbpm: 60\nsolo soprano sing C4\n", 3, "under"),
        (
            "name: t\nbpm: 60\nsolo nobody under C3 - - - sing C4\n",
            3,
            "not a part",
        ),
    ];
    for (source, line, needle) in cases {
        let error = parse(source).err().expect(&format!("{source:?} must not parse"));
        assert_eq!(error.line, line, "{source:?}");
        assert!(
            error.problem.contains(needle),
            "{source:?}: {:?} does not mention {needle:?}",
            error.problem
        );
        // And it quotes the offending line, so the message stands alone in a log.
        assert!(!error.message().is_empty());
    }
    // An empty score is a score-level failure, not a line-level one.
    assert_eq!(parse("name: t\nbpm: 60\n").err().expect("empty").line, 0);
}

#[test]
fn comments_and_blank_lines_are_ignored() {
    let score = sung(
        "# a comment\n\nname: t  # trailing\nbpm: 60\n\n\
         chord 2 C3 G3 C4 E4   # the tonic\n#chord 2 A2 G3 C4 E4\n",
    );
    assert_eq!(score.name, "t");
    assert_eq!(
        score.line(Part::Bass).len(),
        1,
        "the commented chord is out"
    );
}

#[test]
fn every_other_mistake_is_named_too() {
    let cases = [
        ("bpm: fast\nchord 1 C3 G3 C4 E4\n", 1),
        ("dynamic\nchord 1 C3 G3 C4 E4\n", 1),
        ("vowel\nchord 1 C3 G3 C4 E4\n", 1),
        ("chord\n", 1),
        ("chord 0 C3 G3 C4 E4\n", 1),
        ("chord -2 C3 G3 C4 E4\n", 1),
        ("solo\n", 1),
        ("solo alto under C3 - - -\n", 1),
        ("solo alto sing C4 under C3 - - -\n", 1),
        ("solo alto under C3 - - - sing\n", 1),
        ("solo alto under C3 - - - sing C4:long\n", 1),
        ("solo alto under C3 - - - sing C4:0\n", 1),
        ("solo alto under C3 - - - sing C4/argh\n", 1),
        ("solo alto under C3 - - - sing -\n", 1),
        ("solo alto under C3 - - - hum argh sing C4\n", 1),
    ];
    for (source, line) in cases {
        let error = parse(source).err().expect(&format!("{source:?} must not parse"));
        assert_eq!(error.line, line, "{source:?}: {}", error.problem);
        assert!(!error.problem.is_empty());
    }
}

#[test]
fn a_wrong_word_is_quoted_with_its_escapes() {
    let error = parse("chord two\"ish C3 G3 C4 E4\n").err().expect("not a length");
    assert!(error.problem.contains("\"two\\\"ish\""), "{}", error.problem);
}

#[test]
fn a_beat_is_as_fine_as_a_billionth() {
    let score = sung("bpm: 60\nchord 1.5 C3 - - -\nchord 0.25 D3 - - -\n");
    let bass = score.line(Part::Bass);
    assert_eq!(beats(&score, bass[0].length), 1.5);
    assert_eq!(beats(&score, bass[1].start), 1.5);
    assert_eq!(beats(&score, bass[1].length), 0.25);
}

#[test]
fn parts_go_by_their_names_and_letters() {
    for part in [Part::Bass, Part::Tenor, Part::Alto, Part::Soprano] {
        assert_eq!(part_of(part.as_str()), Some(part));
    }
    assert_eq!(part_of("nobody"), None);
}

#[test]
fn vowels_are_read_back_as_they_are_written() {
    for vowel in [Vowel::Ah, Vowel::Eh, Vowel::Ee, Vowel::Oh, Vowel::Oo, Vowel::Mm] {
        assert_eq!(Vowel::parse(vowel.as_str()), Some(vowel));
    }
    assert_eq!(Vowel::parse("argh"), None);
    assert_eq!(Vowel::default(), Vowel::Ah);
    assert_eq!(dynamic("loud"), None);
}

#[test]
fn a_length_too_short_for_a_tick_is_one_and_not_none() {
    let score = sung("chord 0.0000000000001 C3 - - -\nchord 1 D3 - - -\n");
    let bass = score.line(Part::Bass);
    assert_eq!(bass[0].length, 1);
    assert_eq!(bass[1].start, 1);
    let error = parse("chord 0.0 C3 - - -\n").err().expect("no time at all");
    assert!(error.problem.contains('0'), "{}", error.problem);
}

#[test]
fn a_tempo_just_past_the_fastest_is_refused() {
    assert!(parse("bpm: 300\nchord 1 C3 - - -\n").is_ok());
    assert!(parse("bpm: 300.0000000000001\nchord 1 C3 - - -\n").is_err());
    assert!(parse("bpm: 20\nchord 1 C3 - - -\n").is_ok());
    assert!(parse("bpm: 19.9999999999999\nchord 1 C3 - - -\n").is_err());
}

#[test]
fn a_long_length_is_finite() {
    let score = sung("chord 18446744073 C3 - - -\n");
    assert_eq!(score.line(Part::Bass)[0].length, 18_446_744_073_000_000_000);
    let error = parse("chord 1e30 C3 - - -\n").err().expect("past what can be counted");
    assert_eq!(error.problem, "the piece is too long to count");
    let error = parse("chord inf C3 - - -\n").err().expect("no length");
    assert!(error.problem.contains("inf"), "{}", error.problem);
}
