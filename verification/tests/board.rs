use microduck::control_owner::{ControlOwner, Owner};
use microduck::soc::{hottest_zone_c, Entry, MILLI_PER_DEGREE, PARTS_PER_DEGREE};
use microduck::volume::{mixer_args, parse_percent, reported, Code, Volume};

fn zone(name: &str, raw: Option<&str>) -> Entry {
    Entry { name: name.to_string(), raw: raw.map(|text| text.to_string()) }
}

#[test]
fn lease_is_exclusive_and_owner_release_is_scoped() {
    let mut lease = ControlOwner::default();
    assert!(lease.acquire(Owner::MotorExperiment).unwrap());
    assert!(!lease.acquire(Owner::MotorExperiment).unwrap());
    assert!(lease.acquire(Owner::PolicyExperiment).is_err());
    lease.release(Owner::PolicyImport);
    assert_eq!(lease.current(), Some(Owner::MotorExperiment));
    lease.release(Owner::MotorExperiment);
    assert_eq!(lease.current(), None);
}

#[test]
fn a_refused_owner_is_told_who_holds_the_robot() {
    let mut lease = ControlOwner::default();
    assert_eq!(lease.acquire(Owner::PolicyImport), Ok(true));
    let refused = lease.acquire(Owner::PolicyExperiment).unwrap_err();
    assert!(refused.contains(Owner::PolicyImport.as_str()), "{refused}");
    assert_eq!(lease.current(), Some(Owner::PolicyImport));
}

#[test]
fn a_reading_is_plausible_or_absent() {
    assert_eq!(hottest_zone_c(&[]), None);
    let board = [
        zone("thermal_zone0", Some("47123\n")),
        zone("thermal_zone1", Some("51000\n")),
        zone("cooling_device0", Some("99000\n")),
        zone("thermal_zone2", None),
    ];
    let hottest = hottest_zone_c(&board).expect("a readable zone");
    let degrees = hottest as f64 / PARTS_PER_DEGREE as f64;
    assert!((1.0..=150.0).contains(&degrees), "{degrees}");
    assert_eq!(hottest, 51 * PARTS_PER_DEGREE);
}

#[test]
fn millidegrees_convert_to_degrees() {
    assert_eq!(47123.0 / MILLI_PER_DEGREE as f64, 47.123);
    let hottest = hottest_zone_c(&[zone("thermal_zone0", Some("47123"))]).expect("readable");
    assert_eq!(hottest * MILLI_PER_DEGREE, 47123 * PARTS_PER_DEGREE);
}

#[test]
fn a_zone_that_reads_as_nonsense_is_skipped() {
    assert_eq!(hottest_zone_c(&[zone("thermal_zone0", Some("0"))]), None);
    assert_eq!(hottest_zone_c(&[zone("thermal_zone0", Some("-40000"))]), None);
    assert_eq!(hottest_zone_c(&[zone("thermal_zone0", Some("warm"))]), None);
    assert_eq!(hottest_zone_c(&[zone("gpu", Some("47000"))]), None);
}

#[test]
fn parses_playback_not_capture_and_rejects_malformed_output() {
    assert_eq!(parse_percent("Capture [100%]\nFront Left: Playback 252 [96%] [-2.23dB]\nFront Right: Playback 240 [82%]"), Some(96));
    assert_eq!(parse_percent("Playback [0%]"), Some(0));
    assert_eq!(parse_percent("Playback [101%]"), None);
    assert_eq!(parse_percent("amixer: error"), None);
}

#[test]
fn every_finite_reading_counts() {
    let one = |text: &str| hottest_zone_c(&[zone("thermal_zone0", Some(text))]);
    assert_eq!(one("20000000000"), Some(20_000_000 * PARTS_PER_DEGREE));
    assert_eq!(one("1e12"), Some(1_000_000_000 * PARTS_PER_DEGREE));
    // What is finer than the count is still above zero, and what is past it is still hot.
    assert_eq!(one("0.0000000001"), Some(1));
    assert!(one("1e300") >= one("1e26"));
    assert!(one("1e300").is_some());
    assert_eq!(one("inf"), None);
    assert_eq!(one("NaN"), None);
}

#[test]
fn invalid_values_and_unsupported_devices_do_not_touch_hardware() {
    let volume = Volume::new(true, "plughw:unknown");
    assert_eq!(volume.request(Some(101)).err().expect("too loud").code, Code::InvalidParams);
    assert!(volume.request(None).is_err());
    assert!(Volume::new(false, "plughw:rockchiprk809").request(Some(20)).is_err());
}

#[test]
fn a_known_card_is_set_and_then_read_back() {
    let volume = Volume::new(true, "xduck_speaker");
    let plan = volume.request(Some(20)).ok().expect("a known card");
    let card = volume.card.clone().expect("a card");
    assert_eq!(plan.len(), 2);
    assert_eq!(plan[0], mixer_args(&card, Some(20)));
    assert_eq!(plan[1], mixer_args(&card, None));
    assert!(plan[0].iter().any(|word| word == "20%"), "{:?}", plan[0]);
    let read_only = volume.request(None).ok().expect("a known card");
    assert_eq!(read_only, vec![mixer_args(&card, None)]);
}

#[test]
fn a_mixer_that_says_nothing_is_an_internal_failure() {
    assert_eq!(reported("Playback [42%]").ok(), Some(42));
    assert_eq!(reported("amixer: error").err().expect("nothing to report").code, Code::Internal);
}
