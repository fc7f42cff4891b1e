use microduck::control_owner::{ControlOwner, Owner};
use microduck::custom_policy::{
    choose_interpreter, map_joints, rehearsal, warmup_trials, worker_args, worker_environment, Ask,
    CustomPolicy, Heard, Named, Rehearsal, Reply, Target, WARMUPS,
};
use microduck::hex::{decode, encode};
use microduck::net::Net;
use microduck::path::{is_in, is_same, join};
use microduck::policy_experiment::session::{
    session_of, summary, Line, PolicyExperiment, Replay, Sight,
};
use microduck::policy_experiment::{
    check_support, command_at, validate, Action, Availability, Config, Mode, Policy, Segment,
};

const ID: &str = "0123456789abcdef0123456789abcdef";

/// A billionth of one is the unit of a command.
const ONE: i64 = 1_000_000_000;

fn available() -> Availability {
    Availability {
        walk: true,
        stand: true,
        sitstand: true,
        ground_pick: true,
        kick_left: true,
        kick_right: true,
        roulade: true,
    }
}

fn config(mode: Mode) -> Config {
    Config {
        mode,
        policy: Policy::Auto,
        segments: vec![Segment {
            duration_ms: 40,
            action: None,
            twist: [Some(ONE / 10), Some(0), Some(0)],
            head: [Some(0); 4],
            body: [Some(0); 3],
        }],
        max_temperature: Some(60 * ONE),
        stop_on_fall: true,
    }
}

fn well() -> Sight {
    Sight {
        healthy: true,
        imu_ready: true,
        homed: true,
        at_home: true,
        fallen: false,
        hottest: Some(0),
    }
}

fn configured(config: Config, identity: &str) -> PolicyExperiment {
    let mut experiment = PolicyExperiment::new(vec![]);
    experiment
        .configure(config, available(), identity.to_string(), ID.to_string(), 0)
        .expect("a good configuration");
    experiment
}

fn state(experiment: &PolicyExperiment) -> &str {
    &experiment.sessions[0].state
}

#[test]
fn schedule_has_a_hard_end() {
    let config = config(Mode::ClosedLoop);
    let at = command_at(&config, 0).expect("running");
    assert_eq!(config.segments[at].twist[0], Some(ONE / 10));
    assert!(command_at(&config, 40).is_none());
}

#[test]
fn a_segment_action_is_emitted_only_on_its_first_control_frame() {
    let mut lease = ControlOwner::default();
    let mut scheduled = config(Mode::InferenceOnly);
    scheduled.segments[0].action = Some(Action::KickLeft);
    let mut experiment = configured(scheduled, "{}");
    experiment.initialize(&mut lease, ID, "{}", 0).unwrap();
    experiment.before_policy(&mut lease, well(), 0);
    experiment.start(ID, "token".to_string(), 0).unwrap();
    let first = experiment.before_policy(&mut lease, well(), 0).drive.expect("running");
    assert_eq!(first.action, Some(Action::KickLeft));
    assert!(first.inference_only);
    let second = experiment.before_policy(&mut lease, well(), 20).drive.expect("running");
    assert_eq!(second.action, None);
    experiment.abort(&mut lease, "test complete");
}

#[test]
fn configuration_rejects_an_unavailable_scheduled_action() {
    let mut scheduled = config(Mode::ClosedLoop);
    scheduled.segments[0].action = Some(Action::Roulade);
    let mut capabilities = available();
    capabilities.roulade = false;
    let mut experiment = PolicyExperiment::new(vec![]);
    let refused = experiment.configure(
        scheduled,
        capabilities,
        "{}".to_string(),
        ID.to_string(),
        0,
    );
    assert!(refused.unwrap_err().contains("Roulade"));
}

#[test]
fn initialization_claims_the_shared_owner() {
    let mut owner = ControlOwner::default();
    let mut experiment = configured(config(Mode::InferenceOnly), "{}");
    experiment.initialize(&mut owner, ID, "{}", 0).unwrap();
    assert_eq!(owner.current(), Some(Owner::PolicyExperiment));
    assert!(owner.acquire(Owner::MotorExperiment).is_err());
    experiment.abort(&mut owner, "test");
    assert_eq!(owner.current(), None);
}

#[test]
fn ready_start_and_tokened_stop_keep_the_lease_until_home() {
    let mut owner = ControlOwner::default();
    let mut experiment = configured(config(Mode::ClosedLoop), "{}");
    experiment.initialize(&mut owner, ID, "{}", 0).unwrap();
    experiment.before_policy(&mut owner, well(), 0);
    assert_eq!(state(&experiment), "ready");
    assert_eq!(experiment.phase(), Some("policy_experiment_ready"));
    experiment.start(ID, "token".to_string(), 0).unwrap();
    assert!(experiment.stop(ID, &Some("wrong".to_string()), "test", 0).is_err());
    experiment.stop(ID, &Some("token".to_string()), "test", 0).unwrap();
    assert_eq!(owner.current(), Some(Owner::PolicyExperiment));
    let tick = experiment.before_policy(&mut owner, well(), 0);
    assert!(tick.closed.is_some());
    assert_eq!(owner.current(), None);
}

#[test]
fn closed_loop_rejects_out_of_range_commands() {
    let mut value = config(Mode::ClosedLoop);
    value.segments[0].twist[0] = Some(310_000_000);
    assert!(validate(&value).unwrap_err().contains("twist"));
}

#[test]
fn initialization_refuses_a_policy_changed_after_configuration() {
    let mut owner = ControlOwner::default();
    let mut experiment = configured(config(Mode::InferenceOnly), "{\"walk\":\"v1\"}");
    let refused = experiment.initialize(&mut owner, ID, "{\"walk\":\"v2\"}", 0);
    assert!(refused.unwrap_err().contains("模型已在配置后变更"));
    assert_eq!(owner.current(), None);
    assert_eq!(state(&experiment), "configured");
}

#[test]
fn every_limit_of_a_schedule_has_its_words() {
    let wrong = |change: fn(&mut Config)| {
        let mut value = config(Mode::ClosedLoop);
        change(&mut value);
        validate(&value).unwrap_err()
    };
    assert!(wrong(|c| c.segments.clear()).contains("1..256"));
    assert!(wrong(|c| c.segments[0].duration_ms = 30).contains("20 ms"));
    assert!(wrong(|c| c.segments[0].duration_ms = 1_800_020).contains("30 分钟"));
    assert!(wrong(|c| c.segments[0].head[1] = None).contains("NaN"));
    assert!(wrong(|c| c.segments[0].head[1] = Some(2 * ONE)).contains("head"));
    assert!(wrong(|c| c.segments[0].body[0] = Some(ONE)).contains("body"));
    assert!(wrong(|c| c.max_temperature = Some(81 * ONE)).contains("20..80"));
    let mut mine = available();
    mine.walk = false;
    assert!(check_support(&config(Mode::ClosedLoop), mine).is_err());
}

#[test]
fn a_fall_sends_a_closed_loop_home() {
    let mut owner = ControlOwner::default();
    let mut experiment = configured(config(Mode::ClosedLoop), "{}");
    experiment.initialize(&mut owner, ID, "{}", 0).unwrap();
    experiment.before_policy(&mut owner, well(), 0);
    experiment.start(ID, "token".to_string(), 0).unwrap();
    assert_eq!(experiment.frame_index(), Some(0));
    experiment.record(true, 0);
    assert_eq!(experiment.frame_index(), Some(1));
    let fallen = Sight { fallen: true, at_home: false, ..well() };
    assert!(experiment.before_policy(&mut owner, fallen, 20).drive.is_none());
    assert_eq!(owner.current(), Some(Owner::PolicyExperiment), "until it is home");
    let closed = experiment.before_policy(&mut owner, well(), 40).closed.expect("home");
    assert_eq!(closed.outcome, "failed");
    assert_eq!(closed.frames, 1);
    experiment.recorded(ID, &closed.outcome, &closed.reason, Some((9, "sha".to_string())));
    assert_eq!(experiment.check_download(ID), Ok((9, "sha".to_string())));
    assert!(experiment.check_delete(ID, "other").is_err());
    assert_eq!(experiment.check_delete(ID, "sha"), Ok(true));
    experiment.delete(ID, "sha");
    assert!(experiment.sessions.is_empty());
}

#[test]
fn a_record_tells_how_its_run_ended() {
    let mut replay = Replay::new();
    replay.see(Line::Frame);
    replay.see(Line::Other);
    replay.see(Line::Frame);
    assert_eq!((replay.frames, replay.outcome.as_str()), (2, "interrupted"));
    replay.see(Line::Summary { outcome: Some("completed".to_string()), reason: None });
    assert_eq!(replay.outcome, "completed");
    assert_eq!(replay.reason, "missing summary reason");
    let (outcome, reason) = summary(false, "completed", "done");
    assert_eq!((outcome.as_str(), reason.as_str()), ("completed", "done"));
    assert_eq!(summary(true, "completed", "done").0, "failed");
    assert_eq!(session_of(&format!("/sessions/{ID}.jsonl")).as_deref(), Some(ID));
    assert_eq!(session_of("/sessions/notes.jsonl"), None);
}

fn target(position: f64) -> Target {
    Target {
        position: position.to_bits(),
        velocity: 0,
        torque_ff: 0,
        kp: 20.0f64.to_bits(),
        kd: 1.0f64.to_bits(),
    }
}

fn reply(positions: &[(&str, f64)]) -> Reply {
    Reply {
        ok: true,
        ready: true,
        error: None,
        reason: None,
        targets: Some(
            positions
                .iter()
                .map(|(name, position)| Named { name: name.to_string(), target: target(*position) })
                .collect(),
        ),
    }
}

fn joints() -> Vec<String> {
    vec!["left".to_string(), "mouth".to_string()]
}

#[test]
fn a_policy_moves_the_joints_it_names_and_leaves_the_mouth() {
    let measured = vec![0.5f64.to_bits(), 0.25f64.to_bits()];
    let moved = map_joints(&reply(&[("left", 1.0)]).targets.unwrap(), &joints(), &measured)
        .ok()
        .expect("every joint but the mouth is named");
    assert_eq!(f64::from_bits(moved.targets[0].position), 1.0);
    assert_eq!(f64::from_bits(moved.targets[1].position), 0.25, "the mouth stays where it is");
    assert!(map_joints(&vec![], &joints(), &measured).is_err());
}

#[test]
fn a_reset_comes_before_the_first_answer() {
    let measured = vec![0, 0];
    let mut policy = CustomPolicy::new(true, Some(20_000)).ok().expect("a contract");
    policy.mark_reset();
    assert!(policy.begin_reset());
    policy.was_reset();
    assert!(!policy.begin_reset());
    assert!(matches!(policy.advance(20_000), Ask::Step(_)));
    policy.take(reply(&[("left", 1.0)]), &joints(), &measured).ok().expect("an answer");
    match policy.advance(1_000) {
        Ask::Cached(output) => assert_eq!(f64::from_bits(output.targets[0].position), 1.0),
        Ask::Step(_) => panic!("a step is due only once a period"),
    }
    policy.mark_reset();
    assert!(policy.begin_reset());
    policy.was_reset();
    assert!(matches!(policy.advance(1_000), Ask::Step(_)), "the old answer is forgotten");
}

#[test]
fn a_worker_that_fails_is_not_asked_again() {
    for heard in [
        Heard::Exited,
        Heard::TimedOut(18),
        Heard::Garbled("{".to_string()),
        Heard::WriteFailed("pipe".to_string()),
        Heard::ReadFailed("pipe".to_string()),
    ] {
        let mut policy = CustomPolicy::new(true, Some(20_000)).ok().expect("a contract");
        assert!(policy.check_alive().is_ok());
        assert!(policy.hear(heard).is_err());
        assert!(policy.check_alive().is_err());
    }
    assert!(CustomPolicy::new(false, Some(20_000)).is_err());
    assert!(CustomPolicy::new(true, None).is_err());
}

#[test]
fn a_worker_is_shut_in() {
    let models = vec!["/m/walk.onnx".to_string()];
    let args = worker_args(1000, 1000, "/usr/bin/python3", "/s/worker.py", "/p/policy.py", &models);
    assert!(args.iter().any(|a| a == "/usr/bin/python3"));
    assert!(args.iter().any(|a| a == "/p/policy.py"));
    assert!(args.iter().any(|a| a.contains("unshare")), "{args:?}");
    assert_eq!(args.last().map(|a| a.as_str()), Some("/m/walk.onnx"));
    assert!(choose_interpreter(None, None, false).is_ok());
    assert_eq!(
        choose_interpreter(Some("/opt/py".to_string()), None, false).ok().as_deref(),
        Some("/opt/py")
    );
}

#[test]
fn every_model_is_tried_before_it_is_driven() {
    let both = warmup_trials(&vec![Net::Walk, Net::Stand]);
    assert!(both.iter().any(|trial| trial.model == "walk"));
    assert!(both.iter().any(|trial| trial.model == "stand"));
    let steps = rehearsal(&vec![Net::Walk, Net::Stand]);
    assert_eq!(steps.len(), 2 + 2 * WARMUPS);
    assert!(matches!(&steps[0], Rehearsal::Reset(context) if context.action == "walk"));
    assert!(matches!(&steps[1], Rehearsal::Step(trial) if trial.model == "walk"));
    assert!(matches!(&steps[2], Rehearsal::Step(trial) if trial.model == "stand"));
    assert!(matches!(steps.last(), Some(Rehearsal::Reset(_))));
    let pick = rehearsal(&vec![Net::GroundPick]);
    assert!(matches!(&pick[2], Rehearsal::Step(trial) if trial.context.phase == Some((1, 4))));
    assert!(worker_environment().iter().all(|setting| setting.value == "1"));
}

#[test]
fn bytes_survive_being_spelled() {
    let all: Vec<u8> = (0..=255).collect();
    assert_eq!(decode(&encode(&all)), Some(all));
    assert_eq!(decode("0G"), None);
    assert_eq!(decode("000"), None);
}

#[test]
fn networks_go_by_their_names() {
    for net in [Net::Walk, Net::Stand, Net::SitStand, Net::KickLeft] {
        assert_eq!(Net::parse(net.id()), Some(net));
    }
    assert_eq!(Net::parse("swim"), None);
    assert_eq!(Net::Walk.peer(), Some(Net::Stand));
    assert_eq!(Net::Roulade.peer(), None);
}

#[test]
fn paths_are_compared_by_their_parts() {
    assert_eq!(join("/store", "a.onnx"), "/store/a.onnx");
    assert!(is_same("/store//a", "/store/a"));
    assert!(is_in("/store/a", "/store"));
    assert!(!is_in("/store/a/b", "/store"), "directly in it");
    assert!(!is_in("/storehouse/a", "/store"));
}
