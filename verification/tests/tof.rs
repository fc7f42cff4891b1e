use microduck::tof::sensor::{
    Answer, Bringup, Claim, Driver, Generation, OpenError, Outcome, Sensor, SensorError,
};
use microduck::tof::status::Status;
use microduck::tof::{Frame, Zone, COLS, ROWS, ZONES};

fn frame(status: u8, distance_mm: i16) -> Frame {
    Frame {
        rows: ROWS as u8,
        cols: COLS as u8,
        distance_mm: vec![distance_mm; ZONES],
        status: vec![status; ZONES],
    }
}

fn answered(code: i32, device_id: u8, revision_id: u8) -> Answer {
    Answer { code, device_id, revision_id }
}

/// The three classes a consumer must be able to tell apart. A range is in millimetres.
#[test]
fn status_decides_what_a_distance_means() {
    assert_eq!(frame(5, 1234).zone(0), Zone::Range(1234));
    assert_eq!(frame(9, 500).zone(0), Zone::Range(500));
    assert_eq!(frame(255, 0).zone(0), Zone::NoTarget);
    assert_eq!(frame(4, 900).zone(0), Zone::Unusable(4));
    assert_eq!(
        frame(5, -3).zone(0),
        Zone::Unusable(5),
        "a valid status with a negative range is not a range"
    );
}

#[test]
fn valid_count_counts_ranges_only() {
    assert_eq!(frame(5, 1000).valid_count(), ZONES);
    assert_eq!(frame(255, 0).valid_count(), 0);
    assert_eq!(frame(4, 1000).valid_count(), 0);
}

#[test]
fn a_ragged_frame_reads_as_no_target() {
    let ragged = Frame {
        rows: ROWS as u8,
        cols: COLS as u8,
        distance_mm: vec![1000; 3],
        status: vec![5; 2],
    };
    assert_eq!(ragged.zone(0), Zone::Range(1000));
    assert_eq!(ragged.zone(2), Zone::NoTarget, "missing status");
    assert_eq!(ragged.zone(99), Zone::NoTarget, "past the end");
}

#[test]
fn revisions_map_to_generations_and_drivers() {
    assert_eq!(Generation::from_ids(0xF0, 0x0C), Generation::L8cx);
    assert_eq!(Generation::L8cx.driver(), Some(Driver::L8));

    assert_eq!(Generation::from_ids(0xF0, 0x02), Generation::L5cx);
    assert_eq!(Generation::L5cx.driver(), Some(Driver::L5));

    let odd = Generation::from_ids(0x00, 0xFF);
    assert!(matches!(
        odd,
        Generation::Unknown {
            device_id: 0x00,
            revision_id: 0xFF
        }
    ));
    assert_eq!(odd.driver(), None, "an unknown sensor gets no firmware");
}

/// Opening a bus that cannot exist must fail *and* release the single-instance claim.
#[test]
fn a_failed_open_releases_the_claim() {
    let mut claim = Claim { taken: false };
    for _ in 0..2 {
        let first = Sensor::open(&mut claim).ok().expect("a retry must be possible");
        assert_eq!(first, Bringup::Probe);
        assert!(claim.taken);
        let outcome = Sensor::step(&mut claim, first, answered(-1, 0, 0));
        assert_eq!(
            outcome,
            Outcome::Failed { error: OpenError::NothingAnswered, close: false }
        );
        assert!(!claim.taken, "the claim must be released");
    }
}

#[test]
fn only_one_sensor_is_open_at_a_time() {
    let mut claim = Claim { taken: false };
    assert!(Sensor::open(&mut claim).is_ok());
    assert_eq!(Sensor::open(&mut claim), Err(OpenError::AlreadyOpen));
    assert!(claim.taken, "the one that is open keeps its claim");
}

#[test]
fn a_stranger_on_the_bus_gets_no_firmware() {
    let mut claim = Claim { taken: true };
    let outcome = Sensor::step(&mut claim, Bringup::Probe, answered(0, 0x00, 0xFF));
    assert_eq!(
        outcome,
        Outcome::Failed {
            error: OpenError::Neither { device_id: 0x00, revision_id: 0xFF },
            close: false
        }
    );
    assert!(!claim.taken);
}

#[test]
fn a_sensor_comes_up_step_by_step() {
    let mut claim = Claim { taken: false };
    let mut step = Sensor::open(&mut claim).expect("free");
    let mut steps = 0;
    let (generation, driver) = loop {
        steps += 1;
        // The handshake is the one question that is answered with a yes.
        let code = if matches!(step, Bringup::Handshake(..)) { 1 } else { 0 };
        match Sensor::step(&mut claim, step, answered(code, 0xF0, 0x0C)) {
            Outcome::Next(next) => step = next,
            Outcome::Up(generation, driver) => break (generation, driver),
            Outcome::Failed { error, .. } => panic!("{error:?}"),
        }
        assert!(steps < 10);
    };
    assert_eq!(generation, Generation::L8cx);
    assert_eq!(driver, Driver::L8);
    let mut sensor = Sensor::up(generation, driver);
    assert_eq!(sensor.generation(), Generation::L8cx);
    assert_eq!(sensor.driver(), Driver::L8);
    assert_eq!(
        sensor.start(15, 3),
        Err(SensorError::StartFailed { hz: 15, status: 3 })
    );
    assert_eq!(sensor.start(15, 0), Ok(()));
    assert_eq!(sensor.data_ready(0), Ok(false));
    assert_eq!(sensor.data_ready(1), Ok(true));
    assert_eq!(sensor.data_ready(-1), Err(SensorError::StoppedAnswering));
    let read = sensor.read_frame(0, vec![700; ZONES], vec![5; ZONES]).ok().expect("a frame");
    assert_eq!(read.valid_count(), ZONES);
    assert!(sensor.read_frame(7, vec![700; ZONES], vec![5; ZONES]).is_err());
    assert!(sensor.close(&mut claim), "a ranging sensor is stopped");
    assert!(!claim.taken);
}

#[test]
fn a_failed_upload_closes_the_driver_it_opened() {
    let mut claim = Claim { taken: true };
    let step = Bringup::Upload(Generation::L5cx, Driver::L5);
    let outcome = Sensor::step(&mut claim, step, answered(4, 0, 0));
    assert_eq!(
        outcome,
        Outcome::Failed {
            error: OpenError::UploadFailed { generation: Generation::L5cx, status: 4 },
            close: true
        }
    );
    assert!(!claim.taken);
}

/// The three states a viewer draws differently: coming up, ranging, gone.
#[test]
fn the_status_names_which_of_the_three_it_is() {
    let mut status = Status::new(15);

    let starting = status.result();
    assert!(starting.accepted);
    assert_eq!(starting.sensor, None);
    assert!(starting.unavailable.is_some(), "a reason from the start");
    assert_eq!(starting.rows, 8);
    assert_eq!(starting.hz, 15);

    status.up("VL53L8CX");
    let ranging = status.result();
    assert_eq!(ranging.sensor.as_deref(), Some("VL53L8CX"));
    assert_eq!(
        ranging.unavailable, None,
        "a sensor that is up has no excuse"
    );

    status.down("not fitted");
    let gone = status.result();
    assert_eq!(gone.sensor, None);
    assert_eq!(gone.unavailable.as_deref(), Some("not fitted"));
    assert!(gone.accepted, "a subscription outlives the sensor");
}
