use microduck::calibration::{Board, Config, Limit, JOINTS, RADIAN};
use microduck::experiment::{
    check_tracking, complete_commands, inspect, Duty, Experiment, Go, Reading, Sight,
};
use microduck::task_input::{Fetch, Intake, Prefetch, Sent, Wanted};
use microduck::experiment_tasks::{
    begin, check_begin, check_header, check_id, check_line, check_record, check_row, digest,
    expired, id_of, space, Command, Finish, Header, Meta, Next, Received, Row, Run, State,
    BUFFER, MAX_INPUT, MAX_TASKS, RECORD_BYTES, ROW_BYTES, UPLOAD_SECS,
};

const TOKEN: &str = "0123456789abcdef0123456789abcdef";

fn board() -> Board {
    Board { ids: (1..=15).collect(), joints: (0..JOINTS).collect() }
}

fn config() -> Config {
    Config::new(&board())
}

fn header(frames: u64) -> Header {
    Header {
        version: 1,
        period_ms: 20,
        duration_ms: frames * 20,
        motor_ids: vec![2],
        start_tolerance: Some(RADIAN / 10),
        max_tracking_error: Some(RADIAN / 2),
        max_temperature: Some(60 * RADIAN),
    }
}

fn row(index: u64, p: i64) -> Row {
    Row {
        at_ms: index * 20,
        motors: vec![Command { motor_id: 2, p, v: 0, tau: 0, kp: 0, kd: 0 }],
    }
}

fn still() -> Reading {
    Reading { positions: vec![Some(0); JOINTS], temperatures: vec![Some(30 * RADIAN); JOINTS] }
}

fn sight(disabled: bool) -> Sight {
    Sight {
        fresh: true,
        faulty: false,
        imu_ready: true,
        limits_ready: Some(true),
        disabled,
        idle: true,
    }
}

fn run_of(frames: u64) -> Run {
    Run::new(header(frames), row(0, 0), config().limits)
}

/// An experiment that has claimed the robot for a task of three frames.
fn claimed() -> Experiment {
    let mut e = Experiment::new(50);
    assert!(matches!(e.tick(sight(false), 0), Duty::Free));
    assert!(e.start(TOKEN, TOKEN.to_string(), false, 0).is_err(), "motors that are on");
    e.tick(sight(true), 0);
    e.start(TOKEN, "a".repeat(32), false, 0).expect("fresh and off");
    assert!(matches!(e.tick(sight(true), 0), Duty::Held));
    e.prepared(Ok(run_of(3))).expect("read");
    e
}

#[test]
fn stop_before_first_tick_never_enables() {
    let mut e = claimed();
    e.stop("test");
    assert_eq!(e.runtime_state(TOKEN), Some(State::Stopping));
    assert!(matches!(e.tick(sight(true), 20_000), Duty::WindDown), "never to execute");
    assert!(e.wind_down(20_000));
    let ended = e.wound_down(Ok(()), true).expect("the motors are off");
    assert!(!e.active());
    let finish = ended.finish.expect("it ended");
    assert_eq!(finish.state, State::Stopped);
    assert_eq!(finish.reason, "test");
    assert_eq!(ended.index, 0);
}

#[test]
fn active_run_rejects_duplicate_start_and_foreign_stop() {
    let mut e = claimed();
    let again = e.start(TOKEN, TOKEN.to_string(), false, 0);
    assert!(again.unwrap_err().contains("busy"));
    let foreign = e.stop_request(TOKEN, &Some("0".repeat(32)));
    assert!(foreign.unwrap_err().contains("does not own"));
    assert!(e.stop_request("another", &None).unwrap_err().contains("different task"));
    assert!(e.active());
    assert_eq!(e.stop_request(TOKEN, &Some("a".repeat(32))), Ok(true));
    assert_eq!(e.runtime_state(TOKEN), Some(State::Stopping));
}

#[test]
fn independent_task_finishes_without_network_and_waits_for_disable_feedback() {
    let board = board();
    let cfg = config();
    let mut e = claimed();
    let mut commands = 0;
    for i in 1..=4u64 {
        let now = i * 20_000;
        assert!(matches!(e.tick(sight(i == 1), now), Duty::Execute));
        let go = e.approach(&board, &still(), &cfg, i == 1).expect("in place");
        assert_eq!(go == Go::Enable, i == 1, "enabled once, at the start");
        if go == Go::Enable {
            e.enabled();
            assert_eq!(e.runtime_state(TOKEN), Some(State::Running));
        }
        let received = if e.wants_row(&cfg, now) {
            Received::Row(row(i - 1, 0))
        } else {
            Received::Empty
        };
        if let Some(order) = e.order(&board, &still(), &cfg, now, received).ok().expect("on time") {
            assert!(order.advance);
            assert_eq!(order.full.len(), 15);
            e.recorded(Ok(()), order.advance).expect("recorded");
            commands += 1;
        }
    }
    assert!(e.active() && e.stopping);
    assert!(matches!(e.tick(sight(false), 100_000), Duty::WindDown));
    assert!(e.wind_down(100_000));
    assert!(e.wound_down(Ok(()), false).is_none(), "the motors have not said so yet");
    assert!(e.active());
    assert!(!e.wind_down(120_000), "told once, and then once a second");
    let ended = e.wound_down(Ok(()), true).expect("off");
    assert!(!e.active());
    assert_eq!(ended.finish.expect("it ended").state, State::Completed);
    assert_eq!(commands, 3);
}

#[test]
fn initial_pose_mismatch_and_missing_feedback_never_enable() {
    let board = board();
    let cfg = config();
    // A joint a radian from where the task starts.
    let e = claimed();
    let mut bent = still();
    bent.positions[1] = Some(RADIAN);
    assert!(e.approach(&board, &bent, &cfg, true).is_err());
    // No feedback at all.
    let mut e = claimed();
    let blind = Sight { fresh: false, ..sight(true) };
    assert!(matches!(e.tick(blind, 20_000), Duty::WindDown));
    assert_eq!(e.outcome, State::Failed);
}

#[test]
fn a_motor_that_was_not_selected_rests() {
    let full = complete_commands(&row(0, RADIAN).motors, &config(), &board());
    assert_eq!(full.len(), 15);
    for command in &full {
        if command.motor_id == 2 {
            assert_eq!(command.p, RADIAN);
        } else {
            assert_eq!((command.v, command.tau, command.kp, command.kd), (0, 0, 0, 0));
        }
    }
}

#[test]
fn what_is_wrong_with_a_motor_names_it() {
    let board = board();
    let cfg = config();
    let mut hot = still();
    hot.temperatures[1] = Some(61 * RADIAN);
    assert!(inspect(&board, &hot, &cfg, &header(1), None).unwrap_err().contains('2'));
    let mut lost = still();
    lost.positions[1] = None;
    assert!(inspect(&board, &lost, &cfg, &header(1), None).is_err());
    let mut astray = still();
    astray.positions[1] = Some(4 * RADIAN);
    assert!(inspect(&board, &astray, &cfg, &header(1), None).is_err());
    let most = RADIAN / 2;
    assert!(check_tracking(&board, &still(), &row(0, most).motors, most).is_ok());
    assert!(check_tracking(&board, &still(), &row(0, most + 1).motors, most).is_err());
}

fn meta(id: &str, bytes: &[u8]) -> Meta {
    begin(bytes.len() as u64, &digest(bytes), id, 1_000, &vec![], 1 << 40)
        .ok()
        .expect("room enough")
}

#[test]
fn upload_cancel_download_hash_acknowledge_and_no_early_delete() {
    let bytes = b"{}\n{}\n".to_vec();
    let mut m = meta(TOKEN, &bytes);
    assert_eq!(m.chunk(0, 0, bytes.len()), Ok(bytes.len() as u64));
    m.check_input(bytes.len() as u64, &bytes).expect("as declared");
    m.commit(bytes.len() as u64, header(2), 2, &vec![], 1 << 40).expect("room enough");
    assert_eq!(m.state.as_str(), "ready");
    assert!(m.check_delete("bad").is_err());
    assert!(m.check_download().is_err());
    assert!(m.cancel_ready());
    m.packaged(digest(b"result"), 6);
    assert!(m.check_download().is_ok());
    assert_eq!(m.state.as_str(), "cancelled");
    assert!(m.result_bytes.unwrap() > 0);
    assert!(m.check_delete(&"0".repeat(64)).is_err());
    assert!(m.check_delete(&digest(b"result")).is_ok());
}

#[test]
fn corruption_and_offsets_are_rejected() {
    let m = meta(TOKEN, b"{}");
    assert!(m.chunk(0, 1, 2).is_err());
    assert_eq!(m.chunk(0, 0, 2), Ok(2));
    assert!(m.check_input(2, b"xx").unwrap_err().contains("SHA-256"));
    assert!(m.check_input(2, b"{}").is_ok());
    m.check_abort().expect("an upload can be given up");
}

#[test]
fn schedule_and_motor_validation_precede_ready() {
    let mut late = row(1, 0);
    late.at_ms = 21;
    let refused = check_row(&late, 1, &vec![2], &Ok(()));
    assert!(refused.unwrap_err().contains("at_ms"));
    assert!(check_row(&row(1, 0), 1, &vec![2], &Ok(())).is_ok());
    let beyond = Err("p out of range".to_string());
    assert!(check_row(&row(1, 0), 1, &vec![2], &beyond).is_err());
}

#[test]
fn an_input_holds_what_its_header_promises_and_no_more() {
    let line = b"{}\n";
    let mut intake = Intake::new();
    assert_eq!(intake.wanted(), Wanted::Header);
    assert!(intake.take_header(b"{}", Ok(header(2)), &config(), 50).is_err(), "no end of line");
    let unread = intake.take_header(line, Err("expected value".to_string()), &config(), 50);
    assert_eq!(unread.unwrap_err(), "expected value");
    assert!(intake.take_header(line, Ok(header(2)), &config(), 100).is_err());
    intake.take_header(line, Ok(header(2)), &config(), 50).expect("a good header");
    for index in 0..2 {
        assert_eq!(intake.wanted(), Wanted::Row);
        let wrong = intake.take_row(line, Ok(row(index + 1, 0)), Ok(()));
        assert!(wrong.unwrap_err().contains("at_ms"));
        let refused = intake.take_row(line, Ok(row(index, 0)), Err("too fast".to_string()));
        assert_eq!(refused.unwrap_err(), "too fast");
        intake.take_row(line, Ok(row(index, 0)), Ok(())).expect("a good row");
    }
    assert_eq!(intake.wanted(), Wanted::End);
    let (read, frames) = intake.end(false).ok().expect("nothing left over");
    assert_eq!((read.duration_ms, frames), (40, 2));

    let mut intake = Intake::new();
    intake.take_header(line, Ok(header(1)), &config(), 50).expect("a good header");
    intake.take_row(line, Ok(row(0, 0)), Ok(())).expect("a good row");
    let left = intake.end(true).err().expect("something left over");
    assert_eq!(left, "unexpected trailing frames or bytes");
}

#[test]
fn a_row_that_does_not_fit_is_handed_over_again() {
    let mut ahead = Prefetch::new(4);
    assert_eq!(ahead.step(), Fetch::Read);
    assert!(ahead.handed(Sent::Taken));
    assert_eq!((ahead.next, ahead.step()), (2, Fetch::Read));
    assert!(!ahead.handed(Sent::Full));
    assert_eq!((ahead.next, ahead.step()), (2, Fetch::Again));
    assert!(ahead.handed(Sent::Taken));
    assert_eq!((ahead.next, ahead.step()), (3, Fetch::Read));
    assert!(!ahead.handed(Sent::Gone));
    assert_eq!(ahead.step(), Fetch::Rest);
    assert_eq!(Prefetch::new(1).step(), Fetch::Rest, "the first row was handed over before");
}

#[test]
fn worker_prefetch_is_bounded_and_record_overflow_is_detectable() {
    assert_eq!(BUFFER, 64);
    let cfg = config();
    let mut run = run_of(1000);
    assert_eq!(run.index, 0);
    assert!(matches!(run.next(&cfg, 0, Received::Empty), Ok(Next::Row(_, true))));
    run.record(Ok(()), true).unwrap();
    let stalled = run.record(Err("full".to_string()), true).unwrap_err();
    assert!(stalled.contains("full"), "{stalled}");
    run.end(Finish {
        state: State::Failed,
        reason: "test overflow".to_string(),
        disabled: true,
    });
    assert_eq!(run.record(Ok(()), true).unwrap_err(), "task recorder closed");
}

#[test]
fn execution_waits_for_time_and_detects_late_local_ticks() {
    let cfg = config();
    let mut run = run_of(3);
    assert!(matches!(run.next(&cfg, 1_000, Received::Empty), Ok(Next::Row(_, true))));
    run.record(Ok(()), true).unwrap();
    assert!(matches!(run.next(&cfg, 1_500, Received::Empty), Ok(Next::Row(_, false))));
    let late = run.next(&cfg, 51_500, Received::Empty).err().expect("too late");
    assert!(late.contains("40 ms"), "{late}");
}

#[test]
fn a_run_ends_with_what_went_wrong() {
    let cfg = config();
    let mut run = run_of(3);
    run.next(&cfg, 0, Received::Empty).ok().expect("the first row is at hand");
    run.record(Ok(()), true).unwrap();
    assert!(run.wants_row(&cfg, 20_000));
    assert_eq!(
        run.next(&cfg, 20_000, Received::Empty).err().as_deref(),
        Some("command prefetch underrun")
    );
    assert_eq!(
        run.next(&cfg, 20_000, Received::Stopped).err().as_deref(),
        Some("command reader stopped")
    );
    assert_eq!(
        run.next(&cfg, 20_000, Received::Row(row(2, 0))).err().as_deref(),
        Some("command sequence changed or out of order")
    );
    let mut narrower = config();
    narrower.limits[0] = Limit { motor_id: 1, min: Some(-RADIAN), max: Some(RADIAN) };
    assert_eq!(
        run.next(&narrower, 20_000, Received::Empty).err().as_deref(),
        Some("calibration changed since task validation")
    );
    run.abandon();
    assert_eq!(run.finish.expect("it ended").state, State::Interrupted);
}

#[test]
fn restart_marks_interrupted_and_never_resumes() {
    let mut m = meta(TOKEN, b"{}\n");
    m.commit(3, header(1), 1, &vec![], 1 << 40).expect("room enough");
    m.prepare();
    m.state = State::Running;
    assert!(m.restart());
    m.packaged(digest(b"what there is"), 13);
    assert!(m.check_download().is_ok());
    assert_eq!(m.state.as_str(), "interrupted");
    assert!(!m.disabled_confirmed);
    assert!(m.result_sha256.is_some());
    assert!(m.check_ready().is_err());
    assert!(!m.restart(), "a task that is over stays as it is");
}

#[test]
fn a_digest_is_the_sha_256_of_the_bytes() {
    assert_eq!(
        digest(b"abc"),
        "ba7816bf8f01cfea414140de5dae2223b00361a396177a9cb410ff61f20015ad"
    );
    assert_eq!(id_of(&[0xAB; 16]), "ab".repeat(16));
    assert!(check_id(&"ab".repeat(16)).is_ok());
    assert!(check_id("../../etc").is_err());
}

#[test]
fn a_header_is_held_to_the_schedule() {
    let cfg = config();
    assert_eq!(check_header(&header(3), &cfg, 50), Ok(3));
    assert!(check_header(&header(3), &cfg, 100).is_err());
    assert!(check_header(&header(0), &cfg, 50).is_err());
    assert!(check_header(&header(90_001), &cfg, 50).is_err());
    let wrong = |change: fn(&mut Header)| {
        let mut h = header(3);
        change(&mut h);
        check_header(&h, &config(), 50).is_err()
    };
    assert!(wrong(|h| h.version = 2));
    assert!(wrong(|h| h.period_ms = 10));
    assert!(wrong(|h| h.motor_ids = vec![]));
    assert!(wrong(|h| h.motor_ids = vec![2, 2]));
    assert!(wrong(|h| h.motor_ids = vec![99]));
    assert!(wrong(|h| h.start_tolerance = None));
    assert!(wrong(|h| h.max_temperature = Some(0)));
}

#[test]
fn what_is_stored_fits() {
    assert!(check_begin(0, &digest(b"")).is_err());
    assert!(check_begin(MAX_INPUT + 1, &digest(b"")).is_err());
    assert!(check_begin(1, "no digest").is_err());
    let full: Vec<Meta> = (0..MAX_TASKS).map(|i| meta(&id_of(&[i as u8; 16]), b"{}")).collect();
    assert!(begin(2, &digest(b"{}"), TOKEN, 0, &full, 1 << 40).is_err());
    assert!(space(&vec![], 1, None, 0).is_err(), "the disk keeps a margin");
    assert!(check_line(&vec![b'x'; ROW_BYTES as usize + 1]).is_err());
    assert_eq!(check_record(0, 10), Ok(11));
    assert!(check_record(0, RECORD_BYTES + 1).is_err());
    let m = meta(TOKEN, b"{}");
    assert!(!expired(&m, 1_000 + UPLOAD_SECS));
    assert!(expired(&m, 1_001 + UPLOAD_SECS));
}

#[test]
fn a_row_that_was_taken_is_held_until_the_next_is_due() {
    let board = board();
    let cfg = config();
    let mut e = claimed();
    e.enabled();
    let first = e.order(&board, &still(), &cfg, 20_000, Received::Empty);
    let first = first.ok().expect("pending").expect("a row");
    assert!(first.advance);
    e.recorded(Ok(()), true).expect("recorded");
    let run = e.task.as_ref().expect("in hand");
    assert!(run.pending.is_none());
    assert_eq!(run.started_us, Some(20_000));
    assert_eq!(run.last_tick_us, Some(20_000));
    assert_eq!(run.last_row.as_ref().map(|row| row.at_ms), Some(0));
    // Too early for the next: the same row again, and only the clock of the loop moves on.
    let held = e.order(&board, &still(), &cfg, 30_000, Received::Empty);
    let held = held.ok().expect("held").expect("a row");
    assert!(!held.advance);
    assert_eq!(held.row.at_ms, first.row.at_ms);
    let run = e.task.as_ref().expect("in hand");
    assert_eq!(run.started_us, Some(20_000));
    assert_eq!(run.last_tick_us, Some(30_000));
    assert_eq!(run.index, 1);
    // A row of the wrong time is not kept as the last one.
    let late = e.order(&board, &still(), &cfg, 40_000, Received::Row(row(7, 0)));
    assert!(late.err().expect("out of order").contains("out of order"));
    let run = e.task.as_ref().expect("in hand");
    assert_eq!(run.last_row.as_ref().map(|row| row.at_ms), Some(0));
    assert_eq!(run.last_tick_us, Some(40_000));
}
