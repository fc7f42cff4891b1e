use microduck::chorale::score::Note as SungNote;
use microduck::chorale::{Part, Vowel};
use microduck::program::{choose_seeds, score_kind, score_name, unsung, Kind};
use microduck::sound::{
    note_at, pace, read_wav_pcm, wait_bounded, Child, Lengths, Player, Ride, Rider, Step, Stretch,
    Taking, Trigger, Wait, WheeeHold, BLOCKING_PLAY_MAX_MS, CHUNK, RIDE_LEAD_US,
};
use microduck::theremin::{describe, note_of, silence, Hand, Theremin, Tick, FRAME_STALE_US};

const BELIEVED: [u8; 5] = [4, 5, 6, 9, 13];

/// What a frame's zones report: `zones` of them `code`, and the rest nothing.
fn status(code: u8, zones: usize) -> Vec<(u8, usize)> {
    let mut all = vec![(code, zones)];
    if zones < 64 {
        all.push((255, 64 - zones));
    }
    all
}

/// A hand `mm` millimetres away that `zones` zones saw, in thousandths of the playable band.
fn hand(mm: u64, zones: u32, held: bool) -> Hand {
    let near = 100;
    let far = 700;
    let closeness = (far - mm.clamp(near, far)) * 1000 / (far - near);
    Hand { range: mm, closeness, zones, held }
}

/// The chunks of a wav file: a format, then the samples.
fn wav(rate: u32, pcm: &[u8]) -> Vec<u8> {
    let mut file = Vec::new();
    file.extend_from_slice(b"RIFF");
    file.extend_from_slice(&((36 + pcm.len()) as u32).to_le_bytes());
    file.extend_from_slice(b"WAVEfmt ");
    file.extend_from_slice(&16u32.to_le_bytes());
    file.extend_from_slice(&1u16.to_le_bytes());
    file.extend_from_slice(&1u16.to_le_bytes());
    file.extend_from_slice(&rate.to_le_bytes());
    file.extend_from_slice(&(rate * 2).to_le_bytes());
    file.extend_from_slice(&2u16.to_le_bytes());
    file.extend_from_slice(&16u16.to_le_bytes());
    file.extend_from_slice(b"data");
    file.extend_from_slice(&(pcm.len() as u32).to_le_bytes());
    file.extend_from_slice(pcm);
    file
}

#[test]
fn a_theremin_that_is_down_says_nothing() {
    let t = Theremin::new();
    assert!(!t.active);
    assert_eq!(t.tick(Some(0)), Tick::Nothing);
}

#[test]
fn it_plays_on_the_first_frame_after_being_picked_up() {
    let mut t = Theremin::new();
    assert!(t.set_active(true));
    assert_eq!(t.tick(Some(0)), Tick::Track);
    let note = note_of(Some(hand(300, 8, false)), &status(5, 8), &BELIEVED);
    assert_eq!(note.state.hand_range, Some(300));
    assert!(note.mouth > 0, "the beak opens on a note");
    assert_eq!(note.mouth, note.state.mouth);
    assert_eq!(note.state.zones, 8);
}

#[test]
fn a_hand_past_thirty_centimetres_plays() {
    for code in [4u8, 13] {
        for distance in [350, 450, 600] {
            let note = note_of(Some(hand(distance, 6, false)), &status(code, 6), &BELIEVED);
            assert_eq!(note.state.hand_range, Some(distance));
            assert!(note.closeness.is_some());
        }
    }
}

/// Closer is higher *and* wider: the mouth opening and the pitch are one number.
#[test]
fn the_mouth_opens_with_the_note() {
    let at = |distance: u64| note_of(Some(hand(distance, 8, false)), &status(5, 8), &BELIEVED);
    let far = at(650).mouth;
    let mid = at(400).mouth;
    let near = at(120).mouth;
    assert!(far < mid && mid < near, "{far} {mid} {near}");
    assert!(near > 800, "a hand at the near end opens the beak wide: {near}");
    assert_eq!(at(400).closeness, Some(at(400).mouth));
}

#[test]
fn the_state_reports_what_the_sensor_actually_said() {
    // Half the frame consistency-failed, the rest saw nothing.
    let note = note_of(Some(hand(400, 32, false)), &status(4, 32), &BELIEVED);
    let sensor = note.state.sensor.expect("the sensor line is always present");
    assert!(sensor.starts_with("32 usable"), "{sensor}");
    assert!(sensor.contains("4*:32"), "believed codes are marked: {sensor}");
    assert!(sensor.contains("255:32"), "{sensor}");

    // A frame that is ignored entirely still reports itself, and says zero usable.
    let note = note_of(None, &status(1, 64), &BELIEVED);
    let sensor = note.state.sensor.expect("present");
    assert!(sensor.starts_with("0 usable"), "{sensor}");
    assert!(sensor.contains("1:64"), "{sensor}");
    assert_eq!(note.state.hand_range, None);

    // A bridged dropout is reported as held, so the readout can say so.
    let note = note_of(Some(hand(400, 32, true)), &status(1, 64), &BELIEVED);
    assert!(note.state.held);
    assert_eq!(note.state.hand_range, Some(400));
}

#[test]
fn a_stale_frame_is_silence_and_the_instrument_stays_up() {
    let mut t = Theremin::new();
    t.set_active(true);
    assert_eq!(t.tick(Some(0)), Tick::Track);
    assert_eq!(t.tick(Some(FRAME_STALE_US * 2)), Tick::Silent);
    let note = silence();
    assert_eq!(note.mouth, 0, "a dead sensor closes the beak");
    assert_eq!(note.closeness, None);
    assert_eq!(note.state.sensor.as_deref(), Some("no depth frames"));
    assert!(t.active, "the instrument is not taken away by a quiet sensor");
    assert!(!Theremin::has_frames(None));
    assert!(!Theremin::has_frames(Some(FRAME_STALE_US * 2)));
    assert_eq!(t.tick(Some(0)), Tick::Track);
}

#[test]
fn putting_it_down_forgets_the_held_note() {
    let mut t = Theremin::new();
    assert!(t.set_active(true));
    assert!(t.set_active(false), "the caller forgets the hand on a change");
    assert_eq!(t.tick(Some(0)), Tick::Nothing);
    assert!(t.set_active(true));
    assert!(!t.set_active(true), "picking up what is up changes nothing");
    let note = note_of(None, &status(1, 8), &BELIEVED);
    assert_eq!(note.closeness, None);
    assert_eq!(note.mouth, 0);
}

#[test]
fn every_code_is_described_where_it_is_listed() {
    let mixed = [(4u8, 1usize), (5, 10), (255, 53)];
    assert_eq!(describe(&mixed, &BELIEVED), "11 usable · 4*:1 5*:10 255:53");
    let listed_otherwise = [(255u8, 53usize), (5, 10), (4, 1)];
    assert_eq!(describe(&listed_otherwise, &BELIEVED), "11 usable · 255:53 5*:10 4*:1");
    assert_eq!(describe(&[], &BELIEVED), "0 usable · ");
    assert_eq!(describe(&[(1, 0)], &BELIEVED), "0 usable · 1:0");
}

#[test]
fn read_wav_pcm_reads_what_sounds_writes() {
    let pcm: Vec<u8> = (0..480)
        .flat_map(|i| (((i as f32 / 480.0).sin() * 32767.0) as i16).to_le_bytes())
        .collect();
    let (rate, read) = read_wav_pcm(&wav(48_000, &pcm)).expect("wav must parse");
    assert_eq!(rate, 48_000);
    assert_eq!(read.len(), 480 * 2, "S16LE mono payload");
    assert_eq!(read, pcm);
}

#[test]
fn what_is_not_a_wav_is_not_read() {
    assert_eq!(read_wav_pcm(b""), None);
    assert_eq!(read_wav_pcm(b"RIFF....WAVX"), None);
    let file = wav(48_000, &[1, 2, 3, 4]);
    assert_eq!(read_wav_pcm(&file[..30]), None);
    // A payload cut short is what is left of it.
    assert_eq!(read_wav_pcm(&file[..46]), Some((48_000, vec![1, 2])));
    // A chunk of an odd length is followed by a byte of padding.
    let mut odd = file[..12].to_vec();
    odd.extend_from_slice(b"LIST");
    odd.extend_from_slice(&3u32.to_le_bytes());
    odd.extend_from_slice(&[9, 9, 9, 0]);
    odd.extend_from_slice(&file[12..]);
    assert_eq!(read_wav_pcm(&odd), Some((48_000, vec![1, 2, 3, 4])));
}

/// A missing bank must degrade to silence, not errors.
#[test]
fn a_missing_bank_is_silent_not_fatal() {
    let mut player = Player::new();
    assert_eq!(player.play(false), Some(false));
    assert!(player.missing(), "said once");
    assert!(!player.missing(), "and not again");
    assert_eq!(player.wheee(WheeeHold::Held, Child::Gone), Trigger::Start);
    player.missing();
    player.wheee(WheeeHold::Released, Child::Gone);
    assert!(!player.has_child());
    assert_eq!(player.ride(), Ride::Off);
}

#[test]
fn a_bank_without_wheee_triads_latches_instead_of_respawning() {
    let mut player = Player::new();
    assert_eq!(player.wheee(WheeeHold::Held, Child::Gone), Trigger::Start);
    player.degraded();
    assert_eq!(player.ride(), Ride::Riding, "the fallback must latch");
    assert_eq!(player.wheee(WheeeHold::Held, Child::Gone), Trigger::Nothing);
    assert_eq!(player.ride(), Ride::Riding, "a held trigger must not re-enter");
    player.wheee(WheeeHold::Released, Child::Gone);
    assert_eq!(player.ride(), Ride::Off);
}

/// The two exits are different sounds, and both must end at `Off`.
#[test]
fn a_decayed_hold_lands_and_a_release_cuts() {
    let mut player = Player::new();
    player.wheee(WheeeHold::Held, Child::Gone);
    player.degraded();
    player.wheee(WheeeHold::Decayed, Child::Gone);
    assert_eq!(player.ride(), Ride::Off, "a landing ride with no child frees the PCM");

    player.wheee(WheeeHold::Held, Child::Gone);
    player.degraded();
    player.wheee(WheeeHold::Released, Child::Gone);
    assert_eq!(player.ride(), Ride::Off);
    assert!(!player.is_held());
}

#[test]
fn a_ride_lands_until_its_end_has_been_heard() {
    let mut player = Player::new();
    assert_eq!(player.wheee(WheeeHold::Held, Child::Gone), Trigger::Start);
    player.riding();
    assert!(player.is_held() && player.has_child());
    player.wheee(WheeeHold::Decayed, Child::Running);
    assert_eq!(player.ride(), Ride::Landing);
    assert!(!player.is_held(), "the loop ends");
    assert_eq!(player.play(false), None, "a landing ride keeps the speaker");
    assert_eq!(player.wheee(WheeeHold::Decayed, Child::Running), Trigger::Nothing);
    assert_eq!(player.ride(), Ride::Landing, "until its last segment has been heard");
    player.wheee(WheeeHold::Decayed, Child::Gone);
    assert_eq!(player.ride(), Ride::Off);
}

#[test]
fn an_instrument_takes_the_speaker_and_gives_it_back() {
    let mut player = Player::new();
    assert_eq!(player.theremin_start(false), Taking::NoVoice { warn: true });
    assert_eq!(player.theremin_start(false), Taking::NoVoice { warn: false });
    assert_eq!(player.theremin_start(true), Taking::Go);
    player.theremin_up();
    assert_eq!(player.ride(), Ride::Theremin);
    assert!(player.is_live());
    assert_eq!(player.theremin_start(true), Taking::Already);
    assert!(player.theremin_stop());
    assert!(!player.is_live());
    player.theremin_settle(Child::Gone);
    assert_eq!(player.ride(), Ride::Off);
}

#[test]
fn a_duck_that_sings_a_part_is_not_started_again() {
    let mut player = Player::new();
    assert_eq!(player.sing_start("wistful", Part::Alto, true), Taking::Go);
    player.sing_up("wistful", Part::Alto);
    assert_eq!(player.ride(), Ride::Singing);
    assert_eq!(player.sing_start("wistful", Part::Alto, true), Taking::Already);
    assert!(player.sing_stop());
    player.theremin_settle(Child::Gone);
    assert_eq!(player.ride(), Ride::Off);
}

#[test]
fn a_ride_is_its_start_its_loop_while_held_and_its_end() {
    let lengths = Lengths { start: CHUNK + 4, looped: 6, end: 2 };
    let mut rider = Rider::new();
    assert_eq!(rider.next(true, lengths), Step::Write { stretch: Stretch::Start, from: 0, to: CHUNK });
    assert_eq!(
        rider.next(true, lengths),
        Step::Write { stretch: Stretch::Start, from: CHUNK, to: CHUNK + 4 }
    );
    for _ in 0..3 {
        assert_eq!(rider.next(true, lengths), Step::Write { stretch: Stretch::Loop, from: 0, to: 6 });
    }
    assert_eq!(rider.next(false, lengths), Step::Write { stretch: Stretch::End, from: 0, to: 2 });
    assert_eq!(rider.next(false, lengths), Step::Done);
}

#[test]
fn a_writer_stays_its_lead_ahead() {
    // One second sent at once, with a quarter of a second of lead.
    assert_eq!(pace(96_000, 48_000, 0, RIDE_LEAD_US), 750_000);
    assert_eq!(pace(96_000, 48_000, 1_000_000, RIDE_LEAD_US), 0);
}

#[test]
fn the_last_sound_is_not_waited_for_forever() {
    assert_eq!(wait_bounded(Child::Running, BLOCKING_PLAY_MAX_MS - 1), Wait::Again);
    assert_eq!(wait_bounded(Child::Running, BLOCKING_PLAY_MAX_MS), Wait::Kill);
    assert_eq!(wait_bounded(Child::Gone, BLOCKING_PLAY_MAX_MS), Wait::Over);
}

#[test]
fn a_singer_knows_which_note_it_is_on() {
    let note = |start: u64, length: u64| SungNote {
        part: Part::Bass,
        start,
        length,
        midi: 48,
        level: 70,
        vowel: Vowel::Ah,
    };
    let line = [note(0, 4), note(6, 2)];
    assert_eq!(note_at(&line, -1, 1), None);
    assert_eq!(note_at(&line, 0, 1).map(|found| found.0), Some(0));
    assert_eq!(note_at(&line, 5, 1), None);
    assert_eq!(note_at(&line, 7, 1).map(|found| found.0), Some(1));
    assert_eq!(note_at(&line, 8, 1), None);
}

#[test]
fn a_score_is_read_by_its_ending_and_named_by_its_stem() {
    assert!(matches!(score_kind("scores/song.mid"), Kind::Midi));
    assert!(matches!(score_kind("scores/song.MIDI"), Kind::Midi));
    assert!(matches!(score_kind("scores/song.duckscore"), Kind::Text));
    assert_eq!(score_name("scores/duck-strut.mid"), "duck-strut");
}

#[test]
fn seeds_are_those_given_or_as_many_as_there_are_voices() {
    assert_eq!(choose_seeds(Some(vec![7, 9]), 4), vec![7, 9]);
    assert_eq!(choose_seeds(None, 4).len(), 4);
}

#[test]
fn parts_that_nobody_sings_are_named() {
    let parts = vec![Part::Bass, Part::Tenor, Part::Alto];
    assert_eq!(unsung(&parts, &vec![Part::Bass, Part::Alto]), vec![Part::Tenor]);
    assert_eq!(unsung(&parts, &parts), vec![]);
}
