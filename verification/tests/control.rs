use microduck::control::{
    net_name, Controller, PolicyEntry, Sit, SkillTuning, Skills, Tuning, CYCLE,
    GROUND_PICK_END_PHASE, RISE_US, ROULADE_CHAIN_WINDOW, WHOLE,
};
use microduck::custom_policy::CustomPolicy;
use microduck::net::Net;

const ALL: [Net; 7] = [
    Net::Walk,
    Net::Stand,
    Net::SitStand,
    Net::GroundPick,
    Net::KickLeft,
    Net::KickRight,
    Net::Roulade,
];

/// A twist in billionths that means walking, and one that means standing.
const WALKING: u64 = 300_000_000;
const STILL: u64 = 0;

fn everything() -> Skills {
    Skills {
        stand: true,
        sitstand: true,
        ground_pick: true,
        kick_left: true,
        kick_right: true,
        roulade: true,
    }
}

fn skill_controller() -> Controller {
    Controller::new(everything(), 50_000_000, Tuning::default(), SkillTuning::default())
}

fn runner() -> CustomPolicy {
    CustomPolicy::new(true, Some(20_000)).ok().expect("a contract")
}

/// A controller with a runner in every slot.
fn loaded_controller() -> Controller {
    let mut c = skill_controller();
    c.replace_locomotion_policy(runner());
    for net in ALL {
        if !matches!(net, Net::Walk | Net::Stand) {
            c.replace_custom_policy(net, runner());
        }
    }
    c
}

#[test]
fn locomotion_preserves_state_but_every_skill_resets_on_reentry() {
    let mut entry = PolicyEntry::new();
    for (net, label) in [(Net::Walk, "walk"), (Net::Stand, "stand"),
        (Net::SitStand, "sit"), (Net::GroundPick, "ground_pick"),
        (Net::KickLeft, "kick_left"), (Net::KickRight, "kick_right"),
        (Net::Roulade, "roulade")]
    {
        let skill = !matches!(net, Net::Walk | Net::Stand);
        assert_eq!(entry.needs_reset(net, label), skill);
        // A failed first frame does not commit entry: retry must reset again.
        assert_eq!(entry.needs_reset(net, label), skill);
        entry.entered(net, label);
        assert!(!entry.needs_reset(net, label));
        entry.entered(Net::Walk, "walk");
        assert_eq!(entry.needs_reset(net, label), skill);
        entry.entered(net, label);
    }
    assert!(!entry.needs_reset(Net::Walk, "walk"));
    assert!(!entry.needs_reset(Net::Stand, "stand"));
}

#[test]
fn sit_to_rise_and_same_slot_new_episodes_reset_once() {
    let mut entry = PolicyEntry::new();
    entry.entered(Net::SitStand, "sit");
    assert!(entry.needs_reset(Net::SitStand, "rise"));
    entry.entered(Net::SitStand, "rise");
    assert!(!entry.needs_reset(Net::SitStand, "rise"));
    for net in [Net::KickLeft, Net::KickRight, Net::GroundPick, Net::Roulade] {
        entry.entered(net, "skill");
        entry.restart(net);
        assert!(entry.needs_reset(net, "skill"));
        entry.entered(net, "skill");
        assert!(!entry.needs_reset(net, "skill"));
    }
}

#[test]
fn chained_roll_queues_entry_before_dispatch_and_failure_keeps_it_pending() {
    let mut c = skill_controller();
    c.entry.entered(Net::Roulade, "roulade");
    c.roulade = Some(0);
    c.roulade_chain = ROULADE_CHAIN_WINDOW;
    // No worker: fail at dispatch after advancing the scheduler.
    assert!(c.step(STILL, false).is_err());
    assert_eq!(c.roulade, Some(c.skills.roulade_duration));
    assert!(c.entry.needs_reset(Net::Roulade, "roulade"));
    assert!(c.step(STILL, false).is_err());
    assert!(c.entry.needs_reset(Net::Roulade, "roulade"));
}

#[test]
fn accepted_starts_queue_reset_but_held_or_rejected_requests_do_not() {
    let mut c = skill_controller();
    c.start_ground_pick().unwrap();
    assert!(c.entry.pending.contains(&Net::GroundPick));
    c.entry.entered(Net::GroundPick, "ground_pick");
    assert!(c.start_ground_pick().is_err());
    assert!(c.entry.pending.is_empty());
    c.ground_pick = None;
    for left in [true, false] {
        let net = if left { Net::KickLeft } else { Net::KickRight };
        c.start_kick(left).unwrap();
        assert!(c.entry.pending.contains(&net));
        c.entry.entered(net, "kick");
        assert!(c.start_kick(left).is_err());
        assert!(c.entry.pending.is_empty());
        c.kick = None;
    }
    assert!(c.request_roulade().unwrap());
    assert!(c.entry.pending.contains(&Net::Roulade));
    c.entry.entered(Net::Roulade, "roulade");
    assert!(!c.request_roulade().unwrap());
    assert!(c.entry.pending.is_empty());
    c.sit_toggle().unwrap();
    assert!(c.entry.pending.contains(&Net::SitStand));
    // A queued lower-priority skill is not consumed by another slot's execution.
    c.entry.entered(Net::Roulade, "roulade");
    assert!(c.entry.pending.contains(&Net::SitStand));
    c.entry.entered(Net::SitStand, "sit");
    c.sit_toggle().unwrap();
    assert!(c.entry.needs_reset(Net::SitStand, "rise"));
    c.entry.entered(Net::SitStand, "rise");
    assert!(c.sit_toggle().is_err());
    assert!(c.entry.pending.is_empty());
    c.begin_shutdown_sit();
    assert!(c.entry.pending.contains(&Net::SitStand));
    c.entry.entered(Net::SitStand, "sit");
    c.begin_boot_rise();
    assert!(c.entry.pending.contains(&Net::SitStand));
}

#[test]
fn the_defaults_match_the_prototype() {
    let scale = |thousandths: u32| f64::from(thousandths) / f64::from(WHOLE);
    let seconds = |us: u64| us as f64 / 1e6;
    let t = Tuning::default();
    assert_eq!(scale(t.action_scale), 0.9);
    assert_eq!(scale(t.standing_action_scale), 1.0);
    assert_eq!(scale(t.standing_gain_ratio), 0.8);
    assert_eq!(
        t.head_lowpass.map(scale),
        Some(0.5),
        "trained with ACTION_LOW_PASS_HEAD_ALPHA"
    );
    assert_eq!(
        t.legs_lowpass.map(scale),
        Some(0.7),
        "trained with ACTION_LOW_PASS_LEG_ALPHA"
    );

    let s = SkillTuning::default();
    assert_eq!(seconds(s.ground_pick_period), 4.0);
    assert_eq!(scale(s.ground_pick_action_scale), 1.0);
    assert_eq!(scale(s.ground_pick_gain_ratio), 1.0);
    assert_eq!(seconds(s.kick_duration), 0.5);
    assert_eq!(seconds(s.roulade_duration), 1.0, "one roll, the measured time");
    assert_eq!(scale(s.roulade_action_scale), 1.0);
    assert_eq!(
        scale(s.roulade_gain_ratio), 1.0,
        "a roll runs at full walking gain"
    );
}

#[test]
fn standing_softens_the_gain() {
    let t = Tuning::default();
    let ratio = f64::from(t.standing_gain_ratio) / f64::from(WHOLE);
    let standing_gain = (t.gain as f64 * ratio).round() as u16;
    assert_eq!(standing_gain, 160);
    assert!(standing_gain < t.gain);
}

#[test]
fn the_ground_pick_cutoff_is_the_prototypes() {
    assert_eq!(GROUND_PICK_END_PHASE as f64 / CYCLE as f64, 0.7);
    assert_eq!(RISE_US as f64 / 1e6, 1.0);
}

#[test]
fn a_still_robot_stands_and_a_moving_one_walks() {
    let mut c = loaded_controller();
    let still = c.step(STILL, false).ok().expect("loaded");
    assert_eq!((still.net, still.label), (Net::Stand, "stand"));
    assert!(still.shared, "both gaits run in one consumer");
    c.finish_step(&still, 20_000);
    let moving = c.step(WALKING, false).ok().expect("loaded");
    assert_eq!((moving.net, moving.label), (Net::Walk, "walk"));
    assert!(!moving.reset, "a gait carries on");
    c.set_standing_disabled(true);
    let kept = c.step(STILL, false).ok().expect("loaded");
    assert_eq!(kept.net, Net::Walk);
}

#[test]
fn a_ground_pick_ends_at_its_cutoff() {
    let mut c = loaded_controller();
    c.start_ground_pick().unwrap();
    let mut ticks = 0;
    loop {
        let step = c.step(STILL, false).ok().expect("loaded");
        assert_eq!(step.net, Net::GroundPick);
        assert_eq!(step.reset, ticks == 0, "one reset to the episode");
        ticks += 1;
        if !c.finish_step(&step, 20_000) {
            break;
        }
    }
    // Seven tenths of four seconds, in steps of a fiftieth.
    assert_eq!(ticks, 140);
    assert!(!c.busy());
    assert_eq!(c.step(STILL, false).ok().expect("loaded").net, Net::Stand);
}

#[test]
fn a_sitting_robot_rises_before_it_walks() {
    let mut c = loaded_controller();
    assert_eq!(c.sit_toggle(), Ok("sit"));
    assert!(c.is_sitting());
    let sitting = c.step(WALKING, false).ok().expect("loaded");
    assert_eq!((sitting.net, sitting.label), (Net::SitStand, "sit"));
    c.finish_step(&sitting, 20_000);
    assert_eq!(c.sit_toggle(), Ok("stand"));
    assert!(c.is_rising());
    let mut ticks = 0;
    while c.is_rising() {
        let rising = c.step(WALKING, false).ok().expect("loaded");
        if rising.net == Net::Walk {
            break;
        }
        assert_eq!(rising.label, "rise");
        c.finish_step(&rising, 20_000);
        ticks += 1;
    }
    assert_eq!(ticks, RISE_US / 20_000);
    assert_eq!(c.sit, Sit::Up);
}

#[test]
fn a_slot_without_a_runner_is_named() {
    let mut c = skill_controller();
    c.replace_locomotion_policy(runner());
    c.start_kick(true).unwrap();
    let refused = c.step(STILL, false).err().expect("nothing to run");
    assert!(refused.contains(net_name(Net::KickLeft)), "{refused}");
    let mut bare = skill_controller();
    let refused = bare.step(STILL, false).err().expect("nothing to run");
    assert_eq!(refused, "走/站缺少共享消费运行器");
}

#[test]
fn an_experiment_starts_with_no_move_under_way() {
    let mut c = loaded_controller();
    c.start_ground_pick().unwrap();
    c.reset();
    assert!(c.busy(), "a reset forgets what was learnt, not what was asked for");
    c.reset_for_policy_experiment();
    assert!(!c.busy());
    assert_eq!(c.sit, Sit::Up);
    assert!(c.entry.pending.is_empty());
}

#[test]
fn a_new_episode_tells_its_policy_to_start_afresh() {
    let mut c = loaded_controller();
    for loaded in &mut c.custom_policies {
        loaded.policy.was_reset();
    }
    c.start_kick(true).unwrap();
    let step = c.step(WALKING, false).ok().expect("loaded");
    assert!(step.reset && step.net == Net::KickLeft);
    for loaded in &c.custom_policies {
        assert_eq!(loaded.policy.needs_reset, loaded.net == Net::KickLeft);
    }
    c.finish_step(&step, 20_000);
    for loaded in &mut c.custom_policies {
        loaded.policy.was_reset();
    }
    let again = c.step(WALKING, false).ok().expect("loaded");
    assert!(!again.reset);
    assert!(c.custom_policies.iter().all(|loaded| !loaded.policy.needs_reset));
}

#[test]
fn whatever_changes_the_policies_has_the_shared_one_start_afresh() {
    let shared = |c: &Controller| c.locomotion.as_ref().expect("loaded").needs_reset;
    let settled = || {
        let mut c = loaded_controller();
        c.locomotion.as_mut().expect("loaded").was_reset();
        c
    };
    assert!(!shared(&settled()));
    let mut c = settled();
    c.replace_custom_policy(Net::Roulade, runner());
    assert!(shared(&c));
    let mut c = settled();
    c.reset_for_policy_experiment();
    assert!(shared(&c));
    for went_well in [true, false] {
        let mut c = settled();
        c.begin_boot_rise();
        c.end_boot_trial(went_well);
        assert!(shared(&c));
        assert_eq!(matches!(c.sit, Sit::Rising { remaining: RISE_US }), went_well);
        assert_eq!(c.sit == Sit::Up, !went_well);
    }
}
