use microduck::calibration::session::{Calibration, CalibrationParams, Sight, Stage};
use microduck::calibration::{Board, Config, Limit, JOINTS, RADIAN, RETRY_MS};

/// Fifteen motors, one to the joint.
fn board() -> Board {
    Board { ids: (1..=15).collect(), joints: (0..JOINTS).collect() }
}

fn at_rest() -> Sight {
    Sight { limits_ready: None, disabled: true, limp: true }
}

/// Runs one tick against motors that accept ranges and refuse to be zeroed.
fn tick(store: &mut Calibration, sight: Sight, now_ms: u64) {
    run(store, sight, now_ms, |stage| {
        if stage == Stage::Zero {
            Err("no zero here".to_string())
        } else {
            Ok(())
        }
    });
}

fn run(
    store: &mut Calibration,
    sight: Sight,
    now_ms: u64,
    answer: fn(Stage) -> Result<(), String>,
) {
    if let Some(mut job) = store.tick(sight, now_ms) {
        while job.stage != Stage::Done {
            let outcome = answer(job.stage);
            job.advance(store, outcome);
        }
        store.settle(job, now_ms);
    }
}

fn pose(first: i64) -> Vec<Option<i64>> {
    let mut home = vec![Some(0); JOINTS];
    home[0] = Some(first);
    home
}

#[test]
fn validates_motor_set_and_quantized_bounds() {
    let board = board();
    let mut config = Config::new(&board);
    assert!(config.validate(&board).is_ok());
    config.limits[0].max = Some(4 * RADIAN);
    assert_eq!(config.wire_limits(&board)[0].max_mrad, 4000);
    config.limits[0].min = Some(RADIAN / 10_000);
    config.limits[0].max = Some(RADIAN * 9 / 10_000);
    assert!(config.validate(&board).is_err());
    config = Config::new(&board);
    config.limits[1].motor_id = config.limits[0].motor_id;
    assert!(config.validate(&board).is_err());
}

#[test]
fn a_range_is_rounded_inward() {
    let board = board();
    let mut config = Config::new(&board);
    config.limits[0].min = Some(-1_000_500_000);
    config.limits[0].max = Some(1_000_500_000);
    let wire = config.wire_limits(&board)[0];
    assert_eq!((wire.min_mrad, wire.max_mrad), (-1000, 1000));
}

#[test]
fn every_fault_of_a_calibration_has_its_words() {
    let board = board();
    let mut wrong = Config::new(&board);
    wrong.version = 2;
    assert_eq!(wrong.validate(&board).unwrap_err(), "标定文件版本不支持");
    let mut wrong = Config::new(&board);
    wrong.limits.pop();
    assert_eq!(wrong.validate(&board).unwrap_err(), "限位必须包含全部已配置电机");
    let mut wrong = Config::new(&board);
    wrong.limits[3].motor_id = 99;
    assert_eq!(wrong.validate(&board).unwrap_err(), "限位包含重复或未知电机 ID");
    let mut wrong = Config::new(&board);
    wrong.limits[3].max = None;
    assert!(wrong.validate(&board).unwrap_err().contains("±12.5 rad"));
    let mut wrong = Config::new(&board);
    wrong.home[2] = Some(13 * RADIAN);
    assert!(wrong.validate(&board).unwrap_err().contains("默认站姿"));
}

#[test]
fn persistence_round_trip_and_corrupt_file_blocks_enable() {
    let mut config = Config::new(&board());
    config.home[0] = Some(400_000_000);
    let mut store = Calibration::new(board());
    store.load("calibration.json", Ok(config));
    assert_eq!(store.status.config.home[0], Some(400_000_000));
    let mut store = Calibration::new(board());
    store.load("calibration.json", Err("expected value".to_string()));
    assert!(store.enable_error().unwrap().contains("无法读取"));
}

#[test]
fn queued_edit_is_rechecked_and_default_pose_is_separate_from_zero() {
    let mut store = Calibration::new(board());
    let home = pose(750_000_000);
    let ask = || CalibrationParams::SetHome { positions: home.clone() };
    assert!(store.request(ask()).is_err()); // no disabled observation yet
    tick(&mut store, at_rest(), 0);
    assert!(store.status.synced);
    assert!(store.request(ask()).is_ok());
    assert!(store.status.busy);
    assert!(store.request(ask()).is_err()); // cannot replace an in-flight change
    tick(&mut store, Sight { limp: false, ..at_rest() }, 10); // enable won the race
    assert!(store.status.error.is_some());
    assert_eq!(store.status.config.home, vec![Some(0); JOINTS]);
    tick(&mut store, at_rest(), 20);
    store.request(ask()).unwrap();
    tick(&mut store, at_rest(), 30);
    assert_eq!(store.status.config.home[0], Some(750_000_000));
    assert!(store.status.error.is_none());
    assert_eq!(store.status.config.limits[0].max, Some(3 * RADIAN));
    // These motors refuse to be zeroed; saving the home succeeded without ever zeroing them.
    store.request(CalibrationParams::MarkZero { motor_id: 2 }).unwrap();
    tick(&mut store, at_rest(), 40);
    assert!(store.status.error.is_some());
    assert_eq!(store.status.config.home[0], Some(750_000_000));
}

#[test]
fn reduced_limits_block_init_until_home_is_valid() {
    let mut store = Calibration::new(board());
    tick(&mut store, at_rest(), 0);
    let mut limits: Vec<Limit> = store.status.config.limits.clone();
    limits[0].min = Some(RADIAN);
    limits[0].max = Some(2 * RADIAN);
    store.request(CalibrationParams::SetLimits { limits }).unwrap();
    tick(&mut store, at_rest(), 10);
    assert!(store.status.synced);
    assert!(store.enable_error().unwrap().contains("默认站姿超出限位"));
    store
        .request(CalibrationParams::SetHome { positions: pose(1_500_000_000) })
        .unwrap();
    tick(&mut store, at_rest(), 20);
    assert!(store.enable_error().is_none());
    store.disconnected();
    assert!(store.enable_error().is_some());
    assert!(!store.status.editable);
}

#[test]
fn ranges_that_were_not_taken_are_put_back() {
    let mut store = Calibration::new(board());
    tick(&mut store, at_rest(), 0);
    let mut limits: Vec<Limit> = store.status.config.limits.clone();
    limits[0].max = Some(RADIAN);
    store.request(CalibrationParams::SetLimits { limits }).unwrap();
    run(&mut store, at_rest(), 10, |stage| {
        if stage == Stage::Apply {
            Err("the bus went quiet".to_string())
        } else {
            Ok(())
        }
    });
    assert_eq!(store.status.error.as_deref(), Some("the bus went quiet"));
    assert_eq!(store.status.config.limits[0].max, Some(3 * RADIAN));
    assert!(store.status.synced, "the motors were told the old ranges again");
}

#[test]
fn motors_that_refuse_their_ranges_are_left_alone_for_a_while() {
    let mut store = Calibration::new(board());
    run(&mut store, at_rest(), 0, |_| Err("not now".to_string()));
    assert!(!store.status.synced);
    assert_eq!(store.enable_error().as_deref(), Some("限位尚未同步到 STM32，不能使能"));
    assert!(store.tick(at_rest(), RETRY_MS - 1).is_none());
    assert!(store.tick(at_rest(), RETRY_MS).is_some());
}

#[test]
fn a_motor_that_is_not_fitted_is_not_zeroed() {
    let mut store = Calibration::new(board());
    tick(&mut store, at_rest(), 0);
    for motor_id in [0, 99] {
        let refused = store.request(CalibrationParams::MarkZero { motor_id });
        assert_eq!(refused.unwrap_err(), "未知电机 ID");
    }
    let short = CalibrationParams::SetHome { positions: vec![Some(0)] };
    assert_eq!(store.request(short).unwrap_err(), "默认站姿需要 15 个关节值");
}
