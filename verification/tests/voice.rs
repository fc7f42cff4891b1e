use microduck::bank::{
    bank_layout, clean_serial, hardware_seed, is_current, marker, marker_seed, path_of, pick,
    pick_ride, resolve_seed, seed_from_id, variant_count, BANK_VERSION,
};
use microduck::rng::{crc32, variant_rng, Rng};

fn names(all: &[&str]) -> Vec<String> {
    all.iter().map(|name| name.to_string()).collect()
}

/// The same seed must produce the same stream forever.
#[test]
fn the_stream_is_pinned() {
    let mut rng = Rng::from_seed(100);
    let first: Vec<u64> = (0..4).map(|_| rng.next_u64()).collect();
    let mut again = Rng::from_seed(100);
    let second: Vec<u64> = (0..4).map(|_| again.next_u64()).collect();
    assert_eq!(first, second);

    let mut other = Rng::from_seed(101);
    assert_ne!(first[0], other.next_u64(), "seeds must differ");
}

/// The published first outputs of the generator, from the splitmix64 expansion of seed zero.
#[test]
fn the_generator_is_xoshiro() {
    let mut rng = Rng::from_seed(0);
    assert_eq!(rng.next_u64(), 0x5317_5D61_490B_23DF);
    assert_eq!(rng.next_u64(), 0x61DA_6F3D_C380_D507);
}

#[test]
fn uniform_stays_in_range() {
    let mut rng = Rng::from_seed(7);
    for _ in 0..10_000 {
        let fraction = rng.random() as f64 / (1u64 << 53) as f64;
        let v = 160.0 + (380.0 - 160.0) * fraction;
        assert!((160.0..380.0).contains(&v));
        let fraction = rng.random() as f64 / (1u64 << 53) as f64;
        let i = 1 + (fraction * (6 - 1) as f64).floor() as i64;
        assert!((1..6).contains(&i));
    }
}

#[test]
fn crc32_matches_zlib() {
    assert_eq!(crc32(b""), 0);
    assert_eq!(crc32(b"chirp"), 0xEC28_BF8B);
    assert_eq!(crc32(b"123456789"), 0xCBF4_3926);
}

/// Variant generators must differ across variants and stay stable across calls.
#[test]
fn variant_rng_is_stable_and_distinct() {
    let a = variant_rng(7, "chirp", 0).random();
    let b = variant_rng(7, "chirp", 0).random();
    let c = variant_rng(7, "chirp", 1).random();
    let d = variant_rng(7, "greet", 0).random();
    assert_eq!(a, b);
    assert_ne!(a, c);
    assert_ne!(a, d);
}

/// The seed derivation is the robot's identity: the first word of the serial's digest.
#[test]
fn the_seed_derivation_matches_the_installer() {
    assert_eq!(seed_from_id("test-serial"), 0xC96F_1146);
}

#[test]
fn render_all_writes_the_layout_the_robot_plays_from() {
    let paths: Vec<String> = bank_layout().into_iter().map(path_of).collect();
    // 6 one-shot tags × their variants + wheee (6 × 3 segments).
    let expected = 10 + 12 + 10 + 10 + 12 + 10 + 6 * 3;
    assert_eq!(paths.len(), expected);
    assert!(paths.iter().any(|p| p == "chirp/chirp_a.wav"));
    assert!(paths.iter().any(|p| p == "chirp/chirp_l.wav"), "12 chirp variants");
    assert!(paths.iter().any(|p| p == "wheee/wheee_loop_f.wav"));
}

#[test]
fn every_file_of_the_bank_has_a_place_of_its_own() {
    let mut paths: Vec<String> = bank_layout().into_iter().map(path_of).collect();
    let all = paths.len();
    paths.sort();
    paths.dedup();
    assert_eq!(paths.len(), all);
}

#[test]
fn variants_are_counted_by_tag() {
    assert_eq!(variant_count("chirp"), 12);
    assert_eq!(variant_count("wheee"), 6);
}

#[test]
fn a_serial_comes_before_the_machine_id() {
    let serial: &[u8] = b"test-serial\0";
    assert_eq!(clean_serial("\0 test-serial\0"), "test-serial");
    assert_eq!(hardware_seed(Some(serial), Some("machine")), Some(seed_from_id("test-serial")));
    assert_eq!(hardware_seed(None, Some("machine\n")), Some(seed_from_id("machine")));
    assert_eq!(hardware_seed(None, None), None);
}

#[test]
fn a_serial_that_is_not_text_is_still_an_identity() {
    let torn: &[u8] = &[0x61, 0xFF, 0x62];
    assert_eq!(hardware_seed(Some(torn), None), Some(seed_from_id("a\u{FFFD}b")));
}

#[test]
fn a_given_seed_is_the_seed() {
    assert_eq!(resolve_seed(Some(7), Some(9)), Some(7));
    assert_eq!(resolve_seed(None, Some(9)), Some(9));
    assert_eq!(resolve_seed(None, None), None);
}

#[test]
fn a_marker_says_which_voice_and_which_version() {
    let text = marker(1234);
    assert!(is_current(&text, 1234));
    assert!(!is_current(&text, 1235));
    assert_eq!(marker_seed(&text), Some(1234));
    assert!(text.contains(&BANK_VERSION.to_string()), "{text}");
    assert!(!is_current("", 1234));
    assert_eq!(marker_seed("nonsense"), None);
}

#[test]
fn a_roll_picks_among_the_wavs_in_order() {
    let found = names(&["chirp_b.wav", "README", "chirp_a.wav", "chirp_c.wav"]);
    assert_eq!(pick(&found, 0).as_deref(), Some("chirp_a.wav"));
    assert_eq!(pick(&found, 1).as_deref(), Some("chirp_b.wav"));
    assert_eq!(pick(&found, 5).as_deref(), Some("chirp_c.wav"));
    assert_eq!(pick(&names(&["README"]), 3), None);
    assert_eq!(pick(&[], 3), None);
}

#[test]
fn a_ride_is_picked_by_its_letter() {
    let found = names(&[
        "wheee_start_b.wav", "wheee_loop_b.wav", "wheee_end_b.wav",
        "wheee_start_a.wav", "wheee_loop_a.wav", "wheee_end_a.wav",
    ]);
    assert_eq!(pick_ride(&found, 0).as_deref(), Some("a"));
    assert_eq!(pick_ride(&found, 1).as_deref(), Some("b"));
    assert_eq!(pick_ride(&found, 2).as_deref(), Some("a"));
    assert_eq!(pick_ride(&names(&["wheee_loop_a.wav"]), 0), None);
}

#[test]
fn a_checksum_is_linear_and_sees_every_byte() {
    let (a, b, c) = (*b"chirp", *b"wheee", *b"greet");
    let mut all = [0u8; 5];
    for i in 0..5 {
        all[i] = a[i] ^ b[i] ^ c[i];
    }
    assert_eq!(crc32(&all), crc32(&a) ^ crc32(&b) ^ crc32(&c));
    for i in 0..5 {
        let mut changed = a;
        changed[i] ^= 0x10;
        assert_ne!(crc32(&changed), crc32(&a));
    }
}
