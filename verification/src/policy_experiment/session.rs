//! The life of an experiment: configured, initialised, run, brought home and recorded.

use crate::bank::{name_place, sorts_before};
use crate::control_owner::{acquired, occupied, released, ControlOwner, Owner};
use crate::experiment_tasks::Run;
use crate::models::record::said;
use crate::net::Net;
use crate::path::{extension_of, file_name_of};
use crate::policy_experiment::{
    a_schedule_has_a_hard_end, begins, check_support, command_at, segment_at, unsupported, validate, Action, Availability, Config,
    Drive, Mode, Policy, INITIALIZE_MS, MAX_SESSIONS, READY_MS,
};
use crate::scan::{chars_of, copy_range, push_text, same_text, spells, text_of};
use vstd::prelude::*;

verus! {

/// An experiment that is kept.
pub struct Session {
    pub id: String,
    pub created_unix_s: u64,
    pub config: Config,
    /// Which policies it was configured for, as their JSON text.
    pub policy_identity: String,
    pub state: String,
    pub reason: Option<String>,
    pub frames: u64,
    pub result_bytes: Option<u64>,
    pub result_sha256: Option<String>,
}

/// How far along the experiment is that has the robot.
#[derive(Debug, Clone, Copy, PartialEq, Eq, Structural)]
pub enum Phase {
    Initializing,
    Ready,
    Running,
    ReturningHome,
}

/// The experiment that has the robot.
pub struct Active {
    pub id: String,
    pub config: Config,
    pub phase: Phase,
    pub started_ms: Option<u64>,
    pub run_token: Option<String>,
    pub outcome: String,
    pub reason: String,
    /// Whether it is being recorded.
    pub recorder: bool,
    pub phase_at_ms: u64,
    pub action_segment: Option<usize>,
}

/// What one tick sees of the robot.
#[derive(Debug, Clone, Copy, PartialEq, Eq, Structural)]
pub struct Sight {
    pub healthy: bool,
    pub imu_ready: bool,
    /// Whether the motors have been brought up.
    pub homed: bool,
    /// Whether the duck stands in its pose.
    pub at_home: bool,
    pub fallen: bool,
    /// The hottest motor, if the sensors said anything, and zero at least.
    pub hottest: Option<i64>,
}

/// The end of an experiment, for whoever records it.
pub struct Closed {
    pub id: String,
    pub outcome: String,
    pub reason: String,
    pub frames: u64,
}

/// What came of one tick.
pub struct Tick {
    pub drive: Option<Drive>,
    /// An experiment that is over and has a record to be finished.
    pub closed: Option<Closed>,
}

/// All experiments.
pub struct PolicyExperiment {
    /// By id, in order.
    pub sessions: Vec<Session>,
    pub active: Option<Active>,
}

/// Where an experiment stands in the list, from some place on.
pub open spec fn place(sessions: Seq<Session>, id: Seq<char>, from: int) -> Option<int>
    decreases sessions.len() - from,
{
    if from < 0 || from >= sessions.len() {
        None
    } else if sessions[from].id@ == id {
        Some(from)
    } else {
        place(sessions, id, from + 1)
    }
}

proof fn lemma_place(sessions: Seq<Session>, id: Seq<char>, from: int)
    requires
        0 <= from,
    ensures
        match place(sessions, id, from) {
            Some(i) => from <= i < sessions.len() && sessions[i].id@ == id,
            None => forall|i: int| from <= i < sessions.len() ==> (#[trigger] sessions[i]).id@ != id,
        },
    decreases sessions.len() - from,
{
    if from < sessions.len() && sessions[from].id@ != id {
        lemma_place(sessions, id, from + 1);
    }
}

fn find(sessions: &Vec<Session>, id: &str) -> (at: Option<usize>)
    ensures
        match at {
            Some(i) => i < sessions@.len() && sessions@[i as int].id@ == id@ && place(sessions@, id@, 0)
                == Some(i as int),
            None => place(sessions@, id@, 0) is None,
        },
{
    let mut at: usize = 0;
    while at < sessions.len()
        invariant
            at <= sessions@.len(),
            place(sessions@, id@, 0) == place(sessions@, id@, at as int),
        decreases sessions@.len() - at,
    {
        if same_text(sessions[at].id.as_str(), id) {
            return Some(at);
        }
        at = at + 1;
    }
    None
}

/// The ids of some experiments.
pub open spec fn ids(sessions: Seq<Session>) -> Seq<Seq<char>> {
    Seq::new(sessions.len(), |i: int| sessions[i].id@)
}

/// A list of experiments with one more, or with one in another's place under the same id.
pub open spec fn added(sessions: Seq<Session>, session: Session) -> Seq<Session> {
    match place(sessions, session.id@, 0) {
        Some(i) => sessions.update(i, session),
        None => sessions.insert(name_place(ids(sessions), session.id@), session),
    }
}

fn insert_session(sessions: &mut Vec<Session>, session: Session)
    ensures
        final(sessions)@ == added(old(sessions)@, session),
{
    match find(sessions, session.id.as_str()) {
        Some(at) => {
            sessions.set(at, session);
        },
        None => {
            let name = chars_of(session.id.as_str());
            let mut at: usize = sessions.len();
            let ghost all = ids(sessions@);
            proof {
                assert(all.take(at as int) =~= all);
            }
            while at > 0
                invariant
                    at <= sessions@.len(),
                    sessions@ == old(sessions)@,
                    all == ids(sessions@),
                    name@ == session.id@,
                    name_place(all, session.id@) == name_place(all.take(at as int), session.id@),
                ensures
                    at <= sessions@.len(),
                    sessions@ == old(sessions)@,
                    name_place(all, session.id@) == at,
                decreases at,
            {
                let other = chars_of(sessions[at - 1].id.as_str());
                proof {
                    assert(all.take(at as int).last() == sessions@[at - 1].id@);
                    assert(all.take(at as int).drop_last() =~= all.take(at - 1));
                }
                if !sorts_before(&name, &other) {
                    break;
                }
                at = at - 1;
            }
            sessions.insert(at, session);
        },
    }
}

impl PolicyExperiment {
    /// What every state keeps to: the experiment that has the robot is one of those that are
    /// kept, and has a start if it is running.
    pub open spec fn valid(self) -> bool {
        self.active matches Some(active) ==> {
            &&& place(self.sessions@, active.id@, 0) is Some
            &&& active.phase == Phase::Running ==> active.started_ms is Some
        }
    }

    pub fn new(sessions: Vec<Session>) -> (e: PolicyExperiment)
        ensures
            e.valid(),
            e.sessions == sessions,
            e.active is None,
    {
        PolicyExperiment { sessions, active: None }
    }

    pub fn active(&self) -> (yes: bool)
        ensures
            yes == self.active is Some,
    {
        self.active.is_some()
    }

    /// What the robot says it is doing.
    pub fn phase(&self) -> (phase: Option<&'static str>)
        ensures
            match self.active {
                None => phase is None,
                Some(active) => phase matches Some(name) && name@ == (match active.phase {
                    Phase::Initializing => "policy_experiment_initializing"@,
                    Phase::Ready => "policy_experiment_ready"@,
                    Phase::Running => match active.config.mode {
                        Mode::InferenceOnly => "policy_experiment_inference"@,
                        Mode::ClosedLoop => "policy_experiment_closed_loop"@,
                    },
                    Phase::ReturningHome => "policy_experiment_stopping"@,
                }),
            },
    {
        match &self.active {
            None => None,
            Some(active) => Some(
                match active.phase {
                    Phase::Initializing => "policy_experiment_initializing",
                    Phase::Ready => "policy_experiment_ready",
                    Phase::Running => match active.config.mode {
                        Mode::InferenceOnly => "policy_experiment_inference",
                        Mode::ClosedLoop => "policy_experiment_closed_loop",
                    },
                    Phase::ReturningHome => "policy_experiment_stopping",
                },
            ),
        }
    }

    /// Why an experiment is not taken.
    pub open spec fn configure_fault(self, config: Config, available: Availability) -> Option<Seq<char>> {
        if config.fault() is Some {
            config.fault()
        } else if unsupported(config, available) is Some {
            unsupported(config, available)
        } else if self.sessions@.len() >= MAX_SESSIONS {
            Some("最多保留 8 次策略实验；请先下载并确认删除旧结果"@)
        } else {
            None
        }
    }

    /// Takes an experiment under a fresh id.
    pub fn configure(
        &mut self,
        config: Config,
        available: Availability,
        policy_identity: String,
        id: String,
        now_unix: u64,
    ) -> (ok: Result<(), String>)
        requires
            old(self).valid(),
            place(old(self).sessions@, id@, 0) is None,
        ensures
            final(self).valid(),
            match ok {
                Err(why) => *final(self) == *old(self) && old(self).configure_fault(config, available)
                    == Some(why@),
                Ok(()) => {
                    &&& old(self).configure_fault(config, available) is None
                    &&& final(self).active == old(self).active
                    &&& exists|s: Session|
                        {
                            &&& #[trigger] added(old(self).sessions@, s) == final(self).sessions@
                            &&& s.id == id
                            &&& s.created_unix_s == now_unix
                            &&& s.config == config
                            &&& s.policy_identity == policy_identity
                            &&& s.state@ == "configured"@
                            &&& s.reason is None
                            &&& s.frames == 0
                            &&& s.result_bytes is None
                            &&& s.result_sha256 is None
                        }
                },
            },
    {
        match validate(&config) {
            Err(why) => {
                return Err(why);
            },
            Ok(()) => {},
        }
        match check_support(&config, available) {
            Err(why) => {
                return Err(why);
            },
            Ok(()) => {},
        }
        if self.sessions.len() >= MAX_SESSIONS {
            return Err("最多保留 8 次策略实验；请先下载并确认删除旧结果".to_owned());
        }
        let session = Session {
            id,
            created_unix_s: now_unix,
            config,
            policy_identity,
            state: "configured".to_owned(),
            reason: None,
            frames: 0,
            result_bytes: None,
            result_sha256: None,
        };
        let ghost taken = session;
        insert_session(&mut self.sessions, session);
        proof {
            assert(added(old(self).sessions@, taken) == self.sessions@);
            if self.active is Some {
                lemma_still_there(old(self).sessions@, taken, self.active->0.id@);
            }
        }
        Ok(())
    }

    fn set_state(&mut self, id: &str, state: &str)
        requires
            old(self).valid(),
        ensures
            final(self).valid(),
            final(self).active == old(self).active,
            restated(old(self).sessions@, final(self).sessions@, id@, state@),
    {
        let ghost before = self.sessions@;
        match find(&self.sessions, id) {
            Some(at) => {
                self.sessions[at].state = state.to_owned();
                proof {
                    lemma_same_ids(before, self.sessions@);
                }
            },
            None => {},
        }
    }

    /// Why an experiment cannot be initialised.
    pub open spec fn initialize_fault(self, id: Seq<char>, identity: Seq<char>) -> Option<Seq<char>> {
        if self.active is Some {
            Some("已有策略实验正在初始化或运行"@)
        } else {
            match place(self.sessions@, id, 0) {
                None => Some("策略实验不存在"@),
                Some(i) => if self.sessions@[i].state@ != "configured"@ {
                    Some("仅 configured 实验可以初始化"@)
                } else if self.sessions@[i].policy_identity@ != identity {
                    Some("策略模型已在配置后变更；请重新配置实验"@)
                } else {
                    None
                },
            }
        }
    }

    /// Gives the robot to an experiment, which holds the lease from now on. Policies that have
    /// changed since it was configured put it off, and a refusal leaves the lease as it was.
    pub fn initialize(&mut self, lease: &mut ControlOwner, id: &str, identity: &str, now_ms: u64) -> (ok: Result<
        (),
        String,
    >)
        requires
            old(self).valid(),
        ensures
            final(self).valid(),
            match ok {
                Err(why) => {
                    &&& *final(self) == *old(self)
                    &&& final(lease)@ == old(lease)@
                    &&& if acquired(old(lease)@, Owner::PolicyExperiment) != Some(
                        Owner::PolicyExperiment,
                    ) {
                        why@ == occupied(old(lease)@->0)
                    } else {
                        old(self).initialize_fault(id@, identity@) == Some(why@)
                    }
                },
                Ok(()) => {
                    &&& acquired(old(lease)@, Owner::PolicyExperiment) == Some(
                        Owner::PolicyExperiment,
                    )
                    &&& final(lease)@ == Some(Owner::PolicyExperiment)
                    &&& old(self).initialize_fault(id@, identity@) is None
                    &&& final(self).active matches Some(active) && {
                        let session = old(self).sessions@[place(old(self).sessions@, id@, 0)->0];
                        &&& active.id@ == id@
                        &&& active.config.segments@ == session.config.segments@
                        &&& active.config.mode == session.config.mode
                        &&& active.config.policy == session.config.policy
                        &&& active.config.max_temperature == session.config.max_temperature
                        &&& active.config.stop_on_fall == session.config.stop_on_fall
                        &&& active.phase == Phase::Initializing
                        &&& active.started_ms is None
                        &&& active.run_token is None
                        &&& active.outcome@ == "stopped"@
                        &&& active.reason@ == "stopped"@
                        &&& !active.recorder
                        &&& active.phase_at_ms == now_ms
                        &&& active.action_segment is None
                    }
                    &&& reasoned(
                        old(self).sessions@,
                        final(self).sessions@,
                        id@,
                        "initializing"@,
                        None,
                    )
                },
            },
    {
        let newly = match lease.acquire(Owner::PolicyExperiment) {
            Ok(newly) => newly,
            Err(why) => {
                return Err(why);
            },
        };
        let checked = self.check_initialize(id, identity);
        match checked {
            Err(why) => {
                if newly {
                    lease.release(Owner::PolicyExperiment);
                }
                Err(why)
            },
            Ok(at) => {
                let ghost before = self.sessions@;
                self.sessions[at].state = "initializing".to_owned();
                self.sessions[at].reason = None;
                proof {
                    let s = self.sessions@[at as int];
                    assert(self.sessions@ =~= before.update(
                        at as int,
                        (Session { state: s.state, reason: s.reason, ..before[at as int] }),
                    ));
                }
                let config = self.sessions[at].config.copy();
                proof {
                    lemma_same_ids(before, self.sessions@);
                    lemma_place(before, id@, 0);
                }
                self.active = Some(
                    Active {
                        id: id.to_owned(),
                        config,
                        phase: Phase::Initializing,
                        started_ms: None,
                        run_token: None,
                        outcome: "stopped".to_owned(),
                        reason: "stopped".to_owned(),
                        recorder: false,
                        phase_at_ms: now_ms,
                        action_segment: None,
                    },
                );
                Ok(())
            },
        }
    }

    fn check_initialize(&self, id: &str, identity: &str) -> (at: Result<usize, String>)
        ensures
            match at {
                Ok(i) => self.initialize_fault(id@, identity@) is None && i < self.sessions@.len()
                    && place(self.sessions@, id@, 0) == Some(i as int)
                    && self.sessions@[i as int].state@ == "configured"@,
                Err(why) => self.initialize_fault(id@, identity@) == Some(why@),
            },
    {
        if self.active.is_some() {
            return Err("已有策略实验正在初始化或运行".to_owned());
        }
        match find(&self.sessions, id) {
            None => Err("策略实验不存在".to_owned()),
            Some(at) => {
                let session = &self.sessions[at];
                if !same_text(session.state.as_str(), "configured") {
                    return Err("仅 configured 实验可以初始化".to_owned());
                }
                if !same_text(session.policy_identity.as_str(), identity) {
                    return Err("策略模型已在配置后变更；请重新配置实验".to_owned());
                }
                Ok(at)
            },
        }
    }

    /// Whether an experiment is the one that is ready.
    pub open spec fn is_ready(self, id: Seq<char>) -> bool {
        self.active matches Some(active) && active.id@ == id && active.phase == Phase::Ready
    }

    /// Whether an experiment can be started, before anything is written for it.
    pub fn check_start(&self, id: &str) -> (ok: Result<(), String>)
        ensures
            match ok {
                Ok(()) => self.is_ready(id@),
                Err(why) => if self.active is None {
                    why@ == "请先初始化策略实验"@
                } else {
                    !self.is_ready(id@) && why@ == "策略实验尚未就绪"@
                },
            },
    {
        match &self.active {
            None => Err("请先初始化策略实验".to_owned()),
            Some(active) => {
                let ready = match active.phase {
                    Phase::Ready => true,
                    _ => false,
                };
                if !same_text(active.id.as_str(), id) || !ready {
                    Err("策略实验尚未就绪".to_owned())
                } else {
                    Ok(())
                }
            },
        }
    }

    /// Starts an experiment whose record has been opened, if it is still the one that is ready.
    pub fn start(&mut self, id: &str, token: String, now_ms: u64) -> (ok: Result<(), String>)
        requires
            old(self).valid(),
        ensures
            final(self).valid(),
            match ok {
                Ok(()) => {
                    &&& old(self).is_ready(id@)
                    &&& final(self).active == Some(
                        (Active {
                            phase: Phase::Running,
                            started_ms: Some(now_ms),
                            phase_at_ms: now_ms,
                            run_token: Some(token),
                            recorder: true,
                            action_segment: None,
                            ..old(self).active->0
                        }),
                    )
                    &&& restated(old(self).sessions@, final(self).sessions@, id@, "running"@)
                },
                Err(why) => *final(self) == *old(self) && (if old(self).active is None {
                    why@ == "策略实验不再有效"@
                } else {
                    !old(self).is_ready(id@) && why@ == "策略实验状态已变化"@
                }),
            },
    {
        if self.active.is_none() {
            return Err("策略实验不再有效".to_owned());
        }
        if self.check_start(id).is_err() {
            return Err("策略实验状态已变化".to_owned());
        }
        match self.active.take() {
            Some(mut active) => {
                active.phase = Phase::Running;
                active.started_ms = Some(now_ms);
                active.phase_at_ms = now_ms;
                active.run_token = Some(token);
                active.recorder = true;
                active.action_segment = None;
                self.active = Some(active);
            },
            None => {},
        }
        self.set_state(id, "running");
        Ok(())
    }

    /// An experiment turned home, with what it came to.
    pub open spec fn turned_home(
        before: Active,
        after: Active,
        outcome: Seq<char>,
        reason: Seq<char>,
        now_ms: u64,
    ) -> bool {
        &&& after.outcome@ == outcome
        &&& after.reason@ == reason
        &&& after == (Active {
            phase: Phase::ReturningHome,
            phase_at_ms: now_ms,
            outcome: after.outcome,
            reason: after.reason,
            action_segment: after.action_segment,
            ..before
        })
        &&& after.action_segment == before.action_segment
    }

    fn turn_home(&mut self, outcome: &str, reason: &str, now_ms: u64)
        requires
            old(self).valid(),
            old(self).active is Some,
        ensures
            final(self).valid(),
            final(self).active matches Some(active) && PolicyExperiment::turned_home(
                old(self).active->0,
                active,
                outcome@,
                reason@,
                now_ms,
            ),
            restated(
                old(self).sessions@,
                final(self).sessions@,
                old(self).active->0.id@,
                "returning_home"@,
            ),
    {
        match self.active.take() {
            Some(mut active) => {
                active.phase = Phase::ReturningHome;
                active.phase_at_ms = now_ms;
                active.outcome = outcome.to_owned();
                active.reason = reason.to_owned();
                let id = active.id.clone();
                self.active = Some(active);
                self.set_state(id.as_str(), "returning_home");
            },
            None => {},
        }
    }

    /// Why someone may not stop an experiment.
    pub open spec fn stop_fault(self, id: Seq<char>, token: Option<Seq<char>>) -> Option<Seq<char>> {
        match self.active {
            None => Some("没有活动的策略实验"@),
            Some(active) => if active.id@ != id {
                Some("另一个策略实验占用控制"@)
            } else if active.phase == Phase::Running && said(active.run_token) != token {
                Some("run token 不属于当前策略实验"@)
            } else {
                None
            },
        }
    }

    /// Stops an experiment, a running one only for whoever has its token. It keeps the robot until
    /// the duck is home.
    pub fn stop(&mut self, id: &str, token: &Option<String>, reason: &str, now_ms: u64) -> (ok: Result<
        (),
        String,
    >)
        requires
            old(self).valid(),
        ensures
            final(self).valid(),
            match ok {
                Err(why) => *final(self) == *old(self) && old(self).stop_fault(id@, said(*token))
                    == Some(why@),
                Ok(()) => {
                    &&& old(self).stop_fault(id@, said(*token)) is None
                    &&& final(self).active matches Some(active) && PolicyExperiment::turned_home(
                        old(self).active->0,
                        active,
                        "stopped"@,
                        reason@,
                        now_ms,
                    )
                    &&& restated(
                        old(self).sessions@,
                        final(self).sessions@,
                        id@,
                        "returning_home"@,
                    )
                },
            },
    {
        match &self.active {
            None => {
                return Err("没有活动的策略实验".to_owned());
            },
            Some(active) => {
                if !same_text(active.id.as_str(), id) {
                    return Err("另一个策略实验占用控制".to_owned());
                }
                let running = match active.phase {
                    Phase::Running => true,
                    _ => false,
                };
                let same = match (&active.run_token, token) {
                    (Some(a), Some(b)) => same_text(a.as_str(), b.as_str()),
                    (None, None) => true,
                    _ => false,
                };
                if running && !same {
                    return Err("run token 不属于当前策略实验".to_owned());
                }
            },
        }
        self.turn_home("stopped", reason, now_ms);
        Ok(())
    }

    /// What holds once the experiment that had the robot is over: it has let go of the robot and
    /// of the lease, and if it was recorded, its record is to be finished.
    pub open spec fn ended(
        self,
        after: PolicyExperiment,
        lease: Option<Owner>,
        left: Option<Owner>,
        outcome: Seq<char>,
        reason: Seq<char>,
        closed: Option<Closed>,
    ) -> bool {
        match self.active {
            None => after == self && left == lease && closed is None,
            Some(active) => {
                &&& after.active is None
                &&& left == released(lease, Owner::PolicyExperiment)
                &&& reasoned(
                    self.sessions@,
                    after.sessions@,
                    active.id@,
                    if active.recorder {
                        "finalizing"@
                    } else {
                        outcome
                    },
                    Some(reason),
                )
                &&& match closed {
                    Some(c) => active.recorder && c.id@ == active.id@ && c.outcome@ == outcome && c.reason@
                        == reason && c.frames == self.sessions@[place(
                        self.sessions@,
                        active.id@,
                        0,
                    )->0].frames,
                    None => !active.recorder,
                }
            },
        }
    }

    fn finish_active(&mut self, lease: &mut ControlOwner, outcome: &str, reason: &str) -> (closed: Option<
        Closed,
    >)
        requires
            old(self).valid(),
        ensures
            final(self).valid(),
            old(self).ended(
                *final(self),
                old(lease)@,
                final(lease)@,
                outcome@,
                reason@,
                closed,
            ),
    {
        match self.active.take() {
            None => None,
            Some(active) => {
                let ghost before = self.sessions@;
                let mut frames: u64 = 0;
                match find(&self.sessions, active.id.as_str()) {
                    Some(at) => {
                        self.sessions[at].state = if active.recorder {
                            "finalizing".to_owned()
                        } else {
                            outcome.to_owned()
                        };
                        self.sessions[at].reason = Some(reason.to_owned());
                        frames = self.sessions[at].frames;
                        proof {
                            let s = self.sessions@[at as int];
                            assert(self.sessions@ =~= before.update(
                                at as int,
                                (Session { state: s.state, reason: s.reason, ..before[at as int] }),
                            ));
                        }
                    },
                    None => {},
                }
                lease.release(Owner::PolicyExperiment);
                if active.recorder {
                    Some(
                        Closed {
                            id: active.id,
                            outcome: outcome.to_owned(),
                            reason: reason.to_owned(),
                            frames,
                        },
                    )
                } else {
                    None
                }
            },
        }
    }

    /// Ends the experiment that has the robot, at once.
    pub fn abort(&mut self, lease: &mut ControlOwner, reason: &str) -> (closed: Option<Closed>)
        requires
            old(self).valid(),
        ensures
            final(self).valid(),
            old(self).ended(
                *final(self),
                old(lease)@,
                final(lease)@,
                "stopped"@,
                reason@,
                closed,
            ),
    {
        self.finish_active(lease, "stopped", reason)
    }

    /// How a running experiment goes on: why it turns home, if it does.
    pub open spec fn trouble(active: Active, sight: Sight, now_ms: u64) -> Option<(Seq<char>, Seq<char>)> {
        if !sight.healthy {
            Some(("failed"@, "feedback, IMU or motor control fault"@))
        } else if sight.fallen && active.config.stop_on_fall {
            Some(("failed"@, "fall detected"@))
        } else if sight.hottest matches Some(t) && (active.config.max_temperature matches Some(most)
            && t >= most) {
            Some(("failed"@, "motor temperature limit"@))
        } else if segment_at(
            active.config.segments@,
            Run::since(now_ms, active.started_ms->0),
            0,
        ) is None {
            Some(("completed"@, "configured duration completed"@))
        } else {
            None
        }
    }

    /// Why an experiment ends in this tick, if it does: it did not get home in time, the robot
    /// failed it, it was not started in time, or it is home again.
    pub open spec fn over(active: Active, sight: Sight, now_ms: u64) -> Option<(Seq<char>, Seq<char>)> {
        let waited = Run::since(now_ms, active.phase_at_ms);
        match active.phase {
            Phase::Initializing => if sight.healthy && sight.imu_ready && sight.homed && sight.at_home {
                None
            } else if waited >= INITIALIZE_MS {
                Some(
                    (
                        "failed"@,
                        "initialization did not reach a healthy home pose within 30 seconds"@,
                    ),
                )
            } else {
                None
            },
            Phase::Ready => if !sight.healthy || !sight.homed {
                Some(("failed"@, "hardware became unavailable while ready"@))
            } else if waited >= READY_MS {
                Some(("stopped"@, "ready state expired before start"@))
            } else {
                None
            },
            Phase::Running => None,
            Phase::ReturningHome => if sight.at_home {
                Some((active.outcome@, active.reason@))
            } else {
                None
            },
        }
    }

    /// What one tick does, and what comes of it.
    pub open spec fn ticked(
        self,
        after: PolicyExperiment,
        lease: Option<Owner>,
        left: Option<Owner>,
        sight: Sight,
        now_ms: u64,
        tick: Tick,
    ) -> bool {
        match self.active {
            None => after == self && left == lease && tick.drive is None
                && tick.closed is None,
            Some(active) => match PolicyExperiment::over(active, sight, now_ms) {
                Some((outcome, reason)) => tick.drive is None && self.ended(
                    after,
                    lease,
                    left,
                    outcome,
                    reason,
                    tick.closed,
                ),
                None => {
                    &&& tick.closed is None
                    &&& left == lease
                    &&& match active.phase {
                        Phase::Initializing => if sight.healthy && sight.imu_ready && sight.homed
                            && sight.at_home {
                            &&& tick.drive is None
                            &&& after.active == Some(
                                (Active { phase: Phase::Ready, phase_at_ms: now_ms, ..active }),
                            )
                            &&& restated(
                                self.sessions@,
                                after.sessions@,
                                active.id@,
                                "ready"@,
                            )
                        } else {
                            tick.drive is None && after == self
                        },
                        Phase::Ready | Phase::ReturningHome => tick.drive is None && after
                            == self,
                        Phase::Running => match PolicyExperiment::trouble(active, sight, now_ms) {
                            Some((outcome, reason)) => {
                                &&& tick.drive is None
                                &&& after.active matches Some(home)
                                    && PolicyExperiment::turned_home(
                                    active,
                                    home,
                                    outcome,
                                    reason,
                                    now_ms,
                                )
                                &&& restated(
                                    self.sessions@,
                                    after.sessions@,
                                    active.id@,
                                    "returning_home"@,
                                )
                            },
                            None => {
                                let i = segment_at(
                                    active.config.segments@,
                                    Run::since(now_ms, active.started_ms->0),
                                    0,
                                )->0;
                                &&& after.sessions == self.sessions
                                &&& after.active == Some(
                                    (Active { action_segment: Some(i as usize), ..active }),
                                )
                                &&& tick.drive matches Some(drive) && drive.segment == i
                                    && drive.policy == (match active.config.policy {
                                    Policy::Auto => None,
                                    Policy::Walk => Some(Net::Walk),
                                    Policy::Stand => Some(Net::Stand),
                                }) && drive.action == (if active.action_segment == Some(i as usize) {
                                    None
                                } else {
                                    active.config.segments@[i].action
                                }) && drive.inference_only == (active.config.mode
                                    == Mode::InferenceOnly)
                            },
                        },
                    }
                },
            },
        }
    }

    /// Runs once per tick, before the policy does. A command comes only from a running experiment
    /// on a robot that is well, and a skill only in the first tick of its segment. The lease goes
    /// only with the experiment, which ends at home unless it never got further than being ready.
    pub fn before_policy(&mut self, lease: &mut ControlOwner, sight: Sight, now_ms: u64) -> (tick: Tick)
        requires
            old(self).valid(),
        ensures
            final(self).valid(),
            old(self).ticked(*final(self), old(lease)@, final(lease)@, sight, now_ms, tick),
    {
        let (phase, since): (Phase, u64) = match &self.active {
            None => {
                return Tick { drive: None, closed: None };
            },
            Some(active) => (
                active.phase,
                if now_ms > active.phase_at_ms {
                    now_ms - active.phase_at_ms
                } else {
                    0
                },
            ),
        };
        match phase {
            Phase::Initializing => {
                if sight.healthy && sight.imu_ready && sight.homed && sight.at_home {
                    match self.active.take() {
                        Some(mut active) => {
                            active.phase = Phase::Ready;
                            active.phase_at_ms = now_ms;
                            let id = active.id.clone();
                            self.active = Some(active);
                            self.set_state(id.as_str(), "ready");
                        },
                        None => {},
                    }
                } else if since >= INITIALIZE_MS {
                    let closed = self.finish_active(
                        lease,
                        "failed",
                        "initialization did not reach a healthy home pose within 30 seconds",
                    );
                    return Tick { drive: None, closed };
                }
                Tick { drive: None, closed: None }
            },
            Phase::Ready => {
                if !sight.healthy || !sight.homed {
                    let closed = self.finish_active(
                        lease,
                        "failed",
                        "hardware became unavailable while ready",
                    );
                    return Tick { drive: None, closed };
                }
                if since >= READY_MS {
                    let closed = self.finish_active(
                        lease,
                        "stopped",
                        "ready state expired before start",
                    );
                    return Tick { drive: None, closed };
                }
                Tick { drive: None, closed: None }
            },
            Phase::Running => Tick { drive: self.drive(sight, now_ms), closed: None },
            Phase::ReturningHome => {
                if sight.at_home {
                    let (outcome, reason) = match &self.active {
                        Some(active) => (active.outcome.clone(), active.reason.clone()),
                        None => (String::new(), String::new()),
                    };
                    let closed = self.finish_active(lease, outcome.as_str(), reason.as_str());
                    return Tick { drive: None, closed };
                }
                Tick { drive: None, closed: None }
            },
        }
    }

    fn drive(&mut self, sight: Sight, now_ms: u64) -> (drive: Option<Drive>)
        requires
            old(self).valid(),
            old(self).active matches Some(active) && active.phase == Phase::Running,
        ensures
            final(self).valid(),
            ({
                let active = old(self).active->0;
                match PolicyExperiment::trouble(active, sight, now_ms) {
                    Some((outcome, reason)) => {
                        &&& drive is None
                        &&& final(self).active matches Some(home) && PolicyExperiment::turned_home(
                            active,
                            home,
                            outcome,
                            reason,
                            now_ms,
                        )
                        &&& restated(
                            old(self).sessions@,
                            final(self).sessions@,
                            active.id@,
                            "returning_home"@,
                        )
                    },
                    None => {
                        let i = segment_at(
                            active.config.segments@,
                            Run::since(now_ms, active.started_ms->0),
                            0,
                        )->0;
                        &&& final(self).sessions == old(self).sessions
                        &&& final(self).active == Some(
                            (Active { action_segment: Some(i as usize), ..active }),
                        )
                        &&& drive matches Some(d) && d.segment == i && d.policy == (
                        match active.config.policy {
                            Policy::Auto => None,
                            Policy::Walk => Some(Net::Walk),
                            Policy::Stand => Some(Net::Stand),
                        }) && d.action == (if active.action_segment == Some(i as usize) {
                            None
                        } else {
                            active.config.segments@[i].action
                        }) && d.inference_only == (active.config.mode == Mode::InferenceOnly)
                    },
                }
            }),
    {
        if !sight.healthy {
            self.turn_home("failed", "feedback, IMU or motor control fault", now_ms);
            return None;
        }
        let (fall, hot, elapsed): (bool, bool, u64) = match &self.active {
            Some(active) => (
                sight.fallen && active.config.stop_on_fall,
                match (sight.hottest, active.config.max_temperature) {
                    (Some(t), Some(most)) => t >= most,
                    _ => false,
                },
                match active.started_ms {
                    Some(started) => if now_ms > started {
                        now_ms - started
                    } else {
                        0
                    },
                    None => 0,
                },
            ),
            None => (false, false, 0),
        };
        if fall {
            self.turn_home("failed", "fall detected", now_ms);
            return None;
        }
        if hot {
            self.turn_home("failed", "motor temperature limit", now_ms);
            return None;
        }
        let found = match &self.active {
            Some(active) => command_at(&active.config, elapsed),
            None => None,
        };
        let index: usize = match found {
            Some(index) => index,
            None => {
                self.turn_home("completed", "configured duration completed", now_ms);
                return None;
            },
        };
        match self.active.take() {
            Some(mut active) => {
                let again = match active.action_segment {
                    Some(i) => i == index,
                    None => false,
                };
                let action = if again {
                    None
                } else {
                    active.config.segments[index].action
                };
                active.action_segment = Some(index);
                let policy = match active.config.policy {
                    Policy::Auto => None,
                    Policy::Walk => Some(Net::Walk),
                    Policy::Stand => Some(Net::Stand),
                };
                let inference_only = match active.config.mode {
                    Mode::InferenceOnly => true,
                    Mode::ClosedLoop => false,
                };
                self.active = Some(active);
                Some(Drive { segment: index, policy, action, inference_only })
            },
            None => None,
        }
    }

    /// Something went wrong with the experiment that has the robot: it turns home.
    pub open spec fn failed(self, after: PolicyExperiment, reason: Seq<char>, now_ms: u64) -> bool {
        match self.active {
            None => after == self,
            Some(active) => {
                &&& after.active matches Some(home) && PolicyExperiment::turned_home(
                    active,
                    home,
                    "failed"@,
                    reason,
                    now_ms,
                )
                &&& restated(self.sessions@, after.sessions@, active.id@, "returning_home"@)
            },
        }
    }

    fn fail_running(&mut self, reason: &str, now_ms: u64)
        requires
            old(self).valid(),
        ensures
            final(self).valid(),
            old(self).failed(*final(self), reason@, now_ms),
    {
        if self.active.is_some() {
            self.turn_home("failed", reason, now_ms);
        }
    }

    /// The policy could not be run.
    pub fn inference_failed(&mut self, reason: &str, now_ms: u64)
        requires
            old(self).valid(),
        ensures
            final(self).valid(),
            old(self).failed(*final(self), "policy inference failed: "@ + reason@, now_ms),
    {
        let mut text = String::new();
        push_text(&mut text, "policy inference failed: ");
        push_text(&mut text, reason);
        proof {
            assert(text@ =~= "policy inference failed: "@ + reason@);
        }
        self.fail_running(text.as_str(), now_ms);
    }

    /// A skill was refused.
    pub fn action_failed(&mut self, action: Action, reason: &str, now_ms: u64)
        requires
            old(self).valid(),
        ensures
            final(self).valid(),
            old(self).failed(
                *final(self),
                "policy action "@ + action.label() + " was refused: "@ + reason@,
                now_ms,
            ),
    {
        let mut text = String::new();
        push_text(&mut text, "policy action ");
        push_text(&mut text, action.name());
        push_text(&mut text, " was refused: ");
        push_text(&mut text, reason);
        proof {
            assert(text@ =~= "policy action "@ + action.label() + " was refused: "@ + reason@);
        }
        self.fail_running(text.as_str(), now_ms);
    }

    /// The number of the frame that is to be recorded, if one is: only a running experiment with
    /// a record has any.
    pub open spec fn recording(self) -> Option<u64> {
        match self.active {
            Some(active) => if active.phase == Phase::Running && active.recorder {
                Some(self.sessions@[place(self.sessions@, active.id@, 0)->0].frames)
            } else {
                None
            },
            None => None,
        }
    }

    pub fn frame_index(&self) -> (index: Option<u64>)
        requires
            self.valid(),
        ensures
            index == self.recording(),
    {
        match &self.active {
            None => None,
            Some(active) => {
                let running = match active.phase {
                    Phase::Running => true,
                    _ => false,
                };
                if !running || !active.recorder {
                    return None;
                }
                match find(&self.sessions, active.id.as_str()) {
                    Some(at) => Some(self.sessions[at].frames),
                    None => None,
                }
            },
        }
    }

    /// Whether the frame that was to be recorded could be handed over. One that could not turns
    /// the experiment home.
    pub fn record(&mut self, handed: bool, now_ms: u64)
        requires
            old(self).valid(),
            old(self).recording() matches Some(n) && n < u64::MAX,
        ensures
            final(self).valid(),
            if handed {
                let i = place(old(self).sessions@, old(self).active->0.id@, 0)->0;
                &&& final(self).active == old(self).active
                &&& final(self).sessions@ == old(self).sessions@.update(
                    i,
                    (Session {
                        frames: (old(self).sessions@[i].frames + 1) as u64,
                        ..old(self).sessions@[i]
                    }),
                )
            } else {
                old(self).failed(
                    *final(self),
                    "policy inference failed: "@ + "policy experiment recorder queue unavailable"@,
                    now_ms,
                )
            },
    {
        if !handed {
            self.inference_failed("policy experiment recorder queue unavailable", now_ms);
            return;
        }
        let found = match &self.active {
            Some(active) => find(&self.sessions, active.id.as_str()),
            None => None,
        };
        match found {
            Some(at) => {
                let ghost before = self.sessions@;
                self.sessions[at].frames = self.sessions[at].frames + 1;
                proof {
                    lemma_same_ids(before, self.sessions@);
                }
            },
            None => {},
        }
    }

    /// A record has been finished: what came of its experiment, and how large it is, if that could
    /// be told.
    pub fn recorded(&mut self, id: &str, outcome: &str, reason: &str, result: Option<(u64, String)>)
        requires
            old(self).valid(),
        ensures
            final(self).valid(),
            final(self).active == old(self).active,
            match place(old(self).sessions@, id@, 0) {
                None => final(self).sessions@ == old(self).sessions@,
                Some(i) => {
                    let s = final(self).sessions@[i];
                    &&& s.state@ == outcome@
                    &&& said(s.reason) == Some(reason@)
                    &&& final(self).sessions@ == old(self).sessions@.update(
                        i,
                        (Session {
                            state: s.state,
                            reason: s.reason,
                            result_bytes: match result {
                                Some((bytes, _)) => Some(bytes),
                                None => old(self).sessions@[i].result_bytes,
                            },
                            result_sha256: match result {
                                Some((_, sha)) => Some(sha),
                                None => old(self).sessions@[i].result_sha256,
                            },
                            ..old(self).sessions@[i]
                        }),
                    )
                },
            },
    {
        let ghost before = self.sessions@;
        match find(&self.sessions, id) {
            Some(at) => {
                self.sessions[at].state = outcome.to_owned();
                self.sessions[at].reason = Some(reason.to_owned());
                match result {
                    Some((bytes, sha)) => {
                        self.sessions[at].result_bytes = Some(bytes);
                        self.sessions[at].result_sha256 = Some(sha);
                    },
                    None => {},
                }
                proof {
                    lemma_same_ids(before, self.sessions@);
                }
            },
            None => {},
        }
    }

    /// Why there is nothing to fetch.
    pub fn check_download(&self, id: &str) -> (result: Result<(u64, String), String>)
        ensures
            match place(self.sessions@, id@, 0) {
                None => result matches Err(why) && why@ == "策略实验不存在"@,
                Some(i) => match (self.sessions@[i].result_bytes, self.sessions@[i].result_sha256) {
                    (Some(bytes), Some(sha)) => result matches Ok((b, s)) && b == bytes && s@ == sha@,
                    _ => result matches Err(why) && why@ == "策略实验结果尚未完成"@,
                },
            },
    {
        match find(&self.sessions, id) {
            None => Err("策略实验不存在".to_owned()),
            Some(at) => match (self.sessions[at].result_bytes, &self.sessions[at].result_sha256) {
                (Some(bytes), Some(sha)) => Ok((bytes, sha.clone())),
                _ => Err("策略实验结果尚未完成".to_owned()),
            },
        }
    }

    /// Why an experiment is not deleted: it has the robot, is not there, or whoever wants it gone
    /// does not name its result.
    pub open spec fn delete_fault(self, id: Seq<char>, sha: Seq<char>) -> Option<Seq<char>> {
        if self.active matches Some(active) && active.id@ == id {
            Some("活动实验不能删除"@)
        } else {
            match place(self.sessions@, id, 0) {
                None => Some("策略实验不存在"@),
                Some(i) => if said(self.sessions@[i].result_sha256) == Some(sha) || (
                self.sessions@[i].result_sha256 is None && sha.len() == 0) {
                    None
                } else {
                    Some("结果 SHA-256 不匹配"@)
                },
            }
        }
    }

    /// Whether an experiment can be deleted, and if so, whether it has a file to be removed first.
    pub fn check_delete(&self, id: &str, sha: &str) -> (file: Result<bool, String>)
        ensures
            match file {
                Err(why) => self.delete_fault(id@, sha@) == Some(why@),
                Ok(f) => self.delete_fault(id@, sha@) is None && f == (self.sessions@[place(
                    self.sessions@,
                    id@,
                    0,
                )->0].result_sha256 is Some),
            },
    {
        match &self.active {
            Some(active) => {
                if same_text(active.id.as_str(), id) {
                    return Err("活动实验不能删除".to_owned());
                }
            },
            None => {},
        }
        match find(&self.sessions, id) {
            None => Err("策略实验不存在".to_owned()),
            Some(at) => match &self.sessions[at].result_sha256 {
                Some(expected) => {
                    if same_text(expected.as_str(), sha) {
                        Ok(true)
                    } else {
                        Err("结果 SHA-256 不匹配".to_owned())
                    }
                },
                None => {
                    if chars_of(sha).len() == 0 {
                        Ok(false)
                    } else {
                        Err("结果 SHA-256 不匹配".to_owned())
                    }
                },
            },
        }
    }

    /// Forgets an experiment that could be deleted.
    pub fn delete(&mut self, id: &str, sha: &str)
        requires
            old(self).valid(),
            old(self).delete_fault(id@, sha@) is None,
        ensures
            final(self).valid(),
            final(self).active == old(self).active,
            final(self).sessions@ == old(self).sessions@.remove(place(old(self).sessions@, id@, 0)->0),
    {
        match find(&self.sessions, id) {
            Some(at) => {
                let ghost before = self.sessions@;
                self.sessions.remove(at);
                proof {
                    if self.active is Some {
                        let mine = self.active->0.id@;
                        lemma_place(before, mine, 0);
                        let k = place(before, mine, 0)->0;
                        let j = if k < at {
                            k
                        } else {
                            k - 1
                        };
                        assert(self.sessions@[j].id@ == mine);
                        lemma_place(self.sessions@, mine, 0);
                    }
                }
            },
            None => {},
        }
    }
}

/// A list of experiments with another state for one of them.
pub open spec fn restated(before: Seq<Session>, after: Seq<Session>, id: Seq<char>, state: Seq<char>) -> bool {
    match place(before, id, 0) {
        None => after == before,
        Some(i) => after[i].state@ == state && after == before.update(
            i,
            (Session { state: after[i].state, ..before[i] }),
        ),
    }
}

/// A list of experiments with another state and another reason for one of them.
pub open spec fn reasoned(
    before: Seq<Session>,
    after: Seq<Session>,
    id: Seq<char>,
    state: Seq<char>,
    reason: Option<Seq<char>>,
) -> bool {
    match place(before, id, 0) {
        None => after == before,
        Some(i) => after[i].state@ == state && said(after[i].reason) == reason && after == before.update(
            i,
            (Session { state: after[i].state, reason: after[i].reason, ..before[i] }),
        ),
    }
}

proof fn lemma_same_ids(before: Seq<Session>, after: Seq<Session>)
    requires
        after.len() == before.len(),
        forall|i: int| 0 <= i < before.len() ==> (#[trigger] after[i]).id@ == before[i].id@,
    ensures
        forall|id: Seq<char>| #[trigger] place(after, id, 0) == place(before, id, 0),
{
    assert forall|id: Seq<char>| #[trigger] place(after, id, 0) == place(before, id, 0) by {
        lemma_same_place(before, after, id, 0);
    }
}

proof fn lemma_same_place(before: Seq<Session>, after: Seq<Session>, id: Seq<char>, from: int)
    requires
        0 <= from,
        after.len() == before.len(),
        forall|i: int| 0 <= i < before.len() ==> (#[trigger] after[i]).id@ == before[i].id@,
    ensures
        place(after, id, from) == place(before, id, from),
    decreases before.len() - from,
{
    if from < before.len() {
        assert(after[from].id@ == before[from].id@);
        lemma_same_place(before, after, id, from + 1);
    }
}

proof fn lemma_still_there(sessions: Seq<Session>, session: Session, id: Seq<char>)
    requires
        place(sessions, id, 0) is Some,
    ensures
        place(added(sessions, session), id, 0) is Some,
{
    lemma_place(sessions, id, 0);
    lemma_place(sessions, session.id@, 0);
    let k = place(sessions, id, 0)->0;
    let after = added(sessions, session);
    lemma_place(after, id, 0);
    match place(sessions, session.id@, 0) {
        Some(i) => {
            assert(after[k].id@ == id);
        },
        None => {
            lemma_name_place(ids(sessions), session.id@);
            let p = name_place(ids(sessions), session.id@);
            let j = if k < p {
                k
            } else {
                k + 1
            };
            assert(after[j].id@ == id);
        },
    }
}

proof fn lemma_name_place(sorted: Seq<Seq<char>>, name: Seq<char>)
    ensures
        0 <= name_place(sorted, name) <= sorted.len(),
    decreases sorted.len(),
{
    if sorted.len() > 0 {
        lemma_name_place(sorted.drop_last(), name);
    }
}

/// What is written at the end of a record: what the control loop said, unless writing failed or
/// nothing was said.
pub fn summary(write_failed: bool, outcome: &str, reason: &str) -> (said: (String, String))
    ensures
        said.0@ == (if write_failed {
            "failed"@
        } else if outcome@.len() == 0 {
            "interrupted"@
        } else {
            outcome@
        }),
        said.1@ == (if write_failed {
            "writing policy experiment record failed"@
        } else if reason@.len() == 0 {
            "recorder closed without a final control-loop outcome"@
        } else {
            reason@
        }),
{
    if write_failed {
        return ("failed".to_owned(), "writing policy experiment record failed".to_owned());
    }
    let outcome = if chars_of(outcome).len() == 0 {
        "interrupted".to_owned()
    } else {
        outcome.to_owned()
    };
    let reason = if chars_of(reason).len() == 0 {
        "recorder closed without a final control-loop outcome".to_owned()
    } else {
        reason.to_owned()
    };
    (outcome, reason)
}

/// A line of a record that is read back.
pub enum Line {
    Frame,
    Summary { outcome: Option<String>, reason: Option<String> },
    Other,
}

/// What a record that is read back has said so far.
pub struct Replay {
    pub frames: u64,
    pub outcome: String,
    pub reason: String,
}

impl Replay {
    /// Until it says otherwise, the robot went down before the end.
    pub fn new() -> (r: Replay)
        ensures
            r.frames == 0,
            r.outcome@ == "interrupted"@,
            r.reason@ == "robotd restarted before a final summary"@,
    {
        Replay {
            frames: 0,
            outcome: "interrupted".to_owned(),
            reason: "robotd restarted before a final summary".to_owned(),
        }
    }

    pub fn see(&mut self, line: Line)
        requires
            old(self).frames < u64::MAX,
        ensures
            match line {
                Line::Frame => *final(self) == (Replay {
                    frames: (old(self).frames + 1) as u64,
                    ..*old(self)
                }),
                Line::Summary { outcome, reason } => final(self).frames == old(self).frames
                    && final(self).outcome@ == (match outcome {
                    Some(o) => o@,
                    None => "interrupted"@,
                }) && final(self).reason@ == (match reason {
                    Some(r) => r@,
                    None => "missing summary reason"@,
                }),
                Line::Other => *final(self) == *old(self),
            },
    {
        match line {
            Line::Frame => {
                self.frames = self.frames + 1;
            },
            Line::Summary { outcome, reason } => {
                self.outcome = match outcome {
                    Some(o) => o,
                    None => "interrupted".to_owned(),
                };
                self.reason = match reason {
                    Some(r) => r,
                    None => "missing summary reason".to_owned(),
                };
            },
            Line::Other => {},
        }
    }
}

/// Whether a text is the name of an experiment: thirty-two hexadecimal digits.
pub open spec fn session_id(id: Seq<char>) -> bool {
    id.len() == 32 && forall|i: int| 0 <= i < 32 ==> crate::hex::hex_digit(#[trigger] id[i])
}

fn is_session_id(id: &Vec<char>) -> (yes: bool)
    ensures
        yes == session_id(id@),
{
    if id.len() != 32 {
        return false;
    }
    let mut at: usize = 0;
    while at < 32
        invariant
            at <= 32,
            id@.len() == 32,
            forall|i: int| 0 <= i < at ==> crate::hex::hex_digit(#[trigger] id@[i]),
        decreases 32 - at,
    {
        let c: char = id[at];
        if !(('0' <= c && c <= '9') || ('a' <= c && c <= 'f') || ('A' <= c && c <= 'F')) {
            proof {
                assert(!crate::hex::hex_digit(id@[at as int]));
            }
            return false;
        }
        at = at + 1;
    }
    true
}

/// The experiment that a file is the record of: everything before its ending, which is `jsonl`.
pub open spec fn record_of(path: Seq<char>) -> Option<Seq<char>> {
    match (crate::path::file_name(path), crate::path::extension(path)) {
        (Some(name), Some(e)) => {
            let stem = name.take(name.len() - e.len() - 1);
            if e == "jsonl"@ && session_id(stem) {
                Some(stem)
            } else {
                None
            }
        },
        _ => None,
    }
}

pub fn session_of(path: &str) -> (id: Option<String>)
    ensures
        said(id) == record_of(path@),
{
    match (file_name_of(path), extension_of(path)) {
        (Some(name), Some(e)) => {
            proof {
                crate::path::lemma_extension_fits(path@);
            }
            let stem = copy_range(&name, 0, name.len() - e.len() - 1);
            proof {
                assert(stem@ =~= name@.take(name@.len() - e@.len() - 1));
            }
            if !spells(&e, "jsonl") || !is_session_id(&stem) {
                return None;
            }
            Some(text_of(&stem))
        },
        _ => None,
    }
}

/// An experiment lets go of the robot only at home, unless it never ran: one that is running or on
/// its way home goes on having it until the duck stands in its pose.
pub proof fn the_robot_is_kept_until_home(active: Active, sight: Sight, now_ms: u64)
    requires
        active.phase == Phase::Running || active.phase == Phase::ReturningHome,
    ensures
        PolicyExperiment::over(active, sight, now_ms) is Some ==> sight.at_home && active.phase
            == Phase::ReturningHome,
{
}

/// Whether an experiment turned home in a tick: it drives nothing any more, still has the robot,
/// and is on its way home with this outcome, for this reason.
pub open spec fn went_home(
    before: PolicyExperiment,
    after: PolicyExperiment,
    lease: Option<Owner>,
    left: Option<Owner>,
    tick: Tick,
    outcome: Seq<char>,
    now_ms: u64,
) -> bool {
    &&& tick.drive is None
    &&& tick.closed is None
    &&& left == lease
    &&& before.active is Some
    &&& after.active matches Some(home) && home.phase == Phase::ReturningHome && home.outcome@ == outcome
        && home.phase_at_ms == now_ms && home.id == before.active->0.id && home.recorder
        == before.active->0.recorder
}

/// A motor that is as hot as an experiment allows, or hotter, ends the run: nothing is driven, and
/// the duck goes home with a failure.
pub proof fn a_hot_motor_ends_the_run(
    before: PolicyExperiment,
    after: PolicyExperiment,
    lease: Option<Owner>,
    left: Option<Owner>,
    sight: Sight,
    now_ms: u64,
    tick: Tick,
)
    requires
        before.ticked(after, lease, left, sight, now_ms, tick),
        before.active matches Some(active) && active.phase == Phase::Running,
        sight.hottest is Some,
        before.active->0.config.max_temperature is Some,
        sight.hottest->0 >= before.active->0.config.max_temperature->0,
    ensures
        went_home(before, after, lease, left, tick, "failed"@, now_ms),
        sight.healthy && !sight.fallen ==> after.active->0.reason@ == "motor temperature limit"@,
{
}

/// A fall ends the run of an experiment that asked for it.
pub proof fn a_fall_ends_the_run(
    before: PolicyExperiment,
    after: PolicyExperiment,
    lease: Option<Owner>,
    left: Option<Owner>,
    sight: Sight,
    now_ms: u64,
    tick: Tick,
)
    requires
        before.ticked(after, lease, left, sight, now_ms, tick),
        before.active matches Some(active) && active.phase == Phase::Running,
        sight.fallen,
        before.active->0.config.stop_on_fall,
    ensures
        went_home(before, after, lease, left, tick, "failed"@, now_ms),
        sight.healthy ==> after.active->0.reason@ == "fall detected"@,
{
}

/// A fault of the feedback, the IMU or the motors ends the run.
pub proof fn a_fault_ends_the_run(
    before: PolicyExperiment,
    after: PolicyExperiment,
    lease: Option<Owner>,
    left: Option<Owner>,
    sight: Sight,
    now_ms: u64,
    tick: Tick,
)
    requires
        before.ticked(after, lease, left, sight, now_ms, tick),
        before.active matches Some(active) && active.phase == Phase::Running,
        !sight.healthy,
    ensures
        went_home(before, after, lease, left, tick, "failed"@, now_ms),
        after.active->0.reason@ == "feedback, IMU or motor control fault"@,
{
}

/// A run that nothing went wrong with ends when its schedule does, and is then complete.
pub proof fn a_run_ends_with_its_schedule(
    before: PolicyExperiment,
    after: PolicyExperiment,
    lease: Option<Owner>,
    left: Option<Owner>,
    sight: Sight,
    now_ms: u64,
    tick: Tick,
)
    requires
        before.valid(),
        before.ticked(after, lease, left, sight, now_ms, tick),
        before.active matches Some(active) && active.phase == Phase::Running,
        sight.healthy,
        !sight.fallen,
        sight.hottest is None,
        now_ms - before.active->0.started_ms->0 >= begins(
            before.active->0.config.segments@,
            before.active->0.config.segments@.len() as int,
        ),
    ensures
        went_home(before, after, lease, left, tick, "completed"@, now_ms),
        after.active->0.reason@ == "configured duration completed"@,
{
    let segments = before.active->0.config.segments@;
    let elapsed = Run::since(now_ms, before.active->0.started_ms->0);
    crate::policy_experiment::lemma_nothing_negative(segments, segments.len() as int);
    if segments.len() > 0 {
        a_schedule_has_a_hard_end(segments, elapsed, 0);
    }
}

/// The duck is driven only in a run, while the robot is well, has not fallen where that counts, no
/// motor is too hot and the schedule is not over; and then it is: by the segment whose turn it is,
/// in the experiment's own way, and with the segment's skill once.
pub proof fn what_drives_the_duck(
    before: PolicyExperiment,
    after: PolicyExperiment,
    lease: Option<Owner>,
    left: Option<Owner>,
    sight: Sight,
    now_ms: u64,
    tick: Tick,
    i: int,
)
    requires
        before.valid(),
        before.ticked(after, lease, left, sight, now_ms, tick),
        before.active is Some,
        0 <= i < before.active->0.config.segments@.len(),
    ensures
        ({
            let active = before.active->0;
            let segments = active.config.segments@;
            let elapsed = if now_ms > active.started_ms->0 {
                now_ms - active.started_ms->0
            } else {
                0
            };
            let well = sight.healthy && !(sight.fallen && active.config.stop_on_fall) && !(
            sight.hottest is Some && active.config.max_temperature is Some && sight.hottest->0
                >= active.config.max_temperature->0);
            &&& tick.drive is Some <==> active.phase == Phase::Running && well && elapsed < begins(
                segments,
                segments.len() as int,
            )
            &&& tick.drive is Some ==> {
                let drive = tick.drive->0;
                &&& drive.segment == i <==> begins(segments, i) <= elapsed < begins(segments, i + 1)
                &&& drive.inference_only <==> active.config.mode == Mode::InferenceOnly
                &&& drive.policy == Some(Net::Walk) <==> active.config.policy == Policy::Walk
                &&& drive.policy == Some(Net::Stand) <==> active.config.policy == Policy::Stand
                &&& drive.policy is None <==> active.config.policy == Policy::Auto
                &&& drive.action is Some ==> active.action_segment != Some(drive.segment)
                    && drive.action == segments[drive.segment as int].action
                &&& active.action_segment != Some(drive.segment) ==> drive.action
                    == segments[drive.segment as int].action
                &&& after.active matches Some(on) && on.phase == Phase::Running && on.action_segment
                    == Some(drive.segment) && on.config == active.config && on.started_ms
                    == active.started_ms
                &&& tick.closed is None
                &&& left == lease
            }
        }),
{
    let active = before.active->0;
    let segments = active.config.segments@;
    let elapsed = Run::since(now_ms, active.started_ms->0);
    a_schedule_has_a_hard_end(segments, elapsed, i);
    if let Some(k) = segment_at(segments, elapsed, 0) {
        crate::policy_experiment::lemma_found_in_range(segments, elapsed);
        a_schedule_has_a_hard_end(segments, elapsed, k);
    }
}

/// A segment's skill is started once: in the tick after one that drove the same segment there is
/// none.
pub proof fn a_skill_starts_once(
    before: PolicyExperiment,
    between: PolicyExperiment,
    after: PolicyExperiment,
    lease: Option<Owner>,
    sights: (Sight, Sight),
    times: (u64, u64),
    ticks: (Tick, Tick),
)
    requires
        before.ticked(between, lease, lease, sights.0, times.0, ticks.0),
        between.ticked(after, lease, lease, sights.1, times.1, ticks.1),
        ticks.0.drive is Some,
        ticks.1.drive is Some,
        ticks.0.drive->0.segment == ticks.1.drive->0.segment,
    ensures
        ticks.1.drive->0.action is None,
{
}

/// Before a run: an experiment becomes ready exactly when the robot is well, its IMU is ready, its
/// motors are up and the duck stands at home. It waits thirty seconds for that, and then fails.
pub proof fn an_experiment_becomes_ready_at_home(
    before: PolicyExperiment,
    after: PolicyExperiment,
    lease: Option<Owner>,
    left: Option<Owner>,
    sight: Sight,
    now_ms: u64,
    tick: Tick,
)
    requires
        before.ticked(after, lease, left, sight, now_ms, tick),
        before.active matches Some(active) && active.phase == Phase::Initializing,
    ensures
        ({
            let active = before.active->0;
            let there = sight.healthy && sight.imu_ready && sight.homed && sight.at_home;
            &&& tick.drive is None
            &&& there ==> left == lease && tick.closed is None && (after.active matches Some(ready)
                && ready.phase == Phase::Ready && ready.phase_at_ms == now_ms && ready.id == active.id
                && ready.config == active.config)
            &&& !there && now_ms - active.phase_at_ms < 30_000 ==> after == before && left == lease
                && tick.closed is None
            &&& !there && now_ms - active.phase_at_ms >= 30_000 ==> after.active is None && left
                == released(lease, Owner::PolicyExperiment) && (!active.recorder ==> reasoned(
                before.sessions@,
                after.sessions@,
                active.id@,
                "failed"@,
                Some("initialization did not reach a healthy home pose within 30 seconds"@),
            ))
        }),
{
}

/// An experiment that is ready stays so for a minute, unless the robot is no longer well or its
/// motors are down.
pub proof fn a_ready_experiment_waits_a_minute(
    before: PolicyExperiment,
    after: PolicyExperiment,
    lease: Option<Owner>,
    left: Option<Owner>,
    sight: Sight,
    now_ms: u64,
    tick: Tick,
)
    requires
        before.ticked(after, lease, left, sight, now_ms, tick),
        before.active matches Some(active) && active.phase == Phase::Ready,
    ensures
        ({
            let active = before.active->0;
            let well = sight.healthy && sight.homed;
            let in_time = now_ms - active.phase_at_ms < 60_000;
            &&& tick.drive is None
            &&& well && in_time ==> after == before && left == lease && tick.closed is None
            &&& !well || !in_time ==> after.active is None && left == released(
                lease,
                Owner::PolicyExperiment,
            )
            &&& !well && !active.recorder ==> reasoned(
                before.sessions@,
                after.sessions@,
                active.id@,
                "failed"@,
                Some("hardware became unavailable while ready"@),
            )
            &&& well && !in_time && !active.recorder ==> reasoned(
                before.sessions@,
                after.sessions@,
                active.id@,
                "stopped"@,
                Some("ready state expired before start"@),
            )
        }),
{
}

/// On its way home an experiment does nothing but wait, and is over exactly when the duck is home:
/// only then it lets go of the robot, with what it had come to.
pub proof fn the_way_home_ends_at_home(
    before: PolicyExperiment,
    after: PolicyExperiment,
    lease: Option<Owner>,
    left: Option<Owner>,
    sight: Sight,
    now_ms: u64,
    tick: Tick,
)
    requires
        before.ticked(after, lease, left, sight, now_ms, tick),
        before.active matches Some(active) && active.phase == Phase::ReturningHome,
    ensures
        tick.drive is None,
        !sight.at_home ==> after == before && left == lease && tick.closed is None,
        sight.at_home ==> {
            let active = before.active->0;
            &&& after.active is None
            &&& left == released(lease, Owner::PolicyExperiment)
            &&& active.recorder ==> (tick.closed matches Some(c) && c.id@ == active.id@ && c.outcome@
                == active.outcome@ && c.reason@ == active.reason@)
            &&& !active.recorder ==> reasoned(
                before.sessions@,
                after.sessions@,
                active.id@,
                active.outcome@,
                Some(active.reason@),
            )
        },
{
}

/// Only whoever started a run stops it: with any other token the experiment that is running goes
/// on, and nobody stops another's.
pub proof fn a_run_is_stopped_by_its_token(e: PolicyExperiment, id: Seq<char>, token: Option<Seq<char>>)
    ensures
        e.stop_fault(id, token) is None <==> (e.active matches Some(active) && active.id@ == id && (
        active.phase == Phase::Running ==> (match active.run_token {
            Some(t) => token == Some(t@),
            None => token is None,
        }))),
{
}

/// An experiment is initialised only from being configured, for the policies it was configured
/// for, and while no other has the robot.
pub proof fn an_experiment_is_initialised_once(e: PolicyExperiment, id: Seq<char>, identity: Seq<char>, k: int)
    requires
        0 <= k < e.sessions@.len(),
        e.sessions@[k].id@ == id,
        forall|i: int| 0 <= i < k ==> (#[trigger] e.sessions@[i]).id@ != id,
    ensures
        e.initialize_fault(id, identity) is None <==> e.active is None && e.sessions@[k].state@
            == "configured"@ && e.sessions@[k].policy_identity@ == identity,
{
    lemma_place_is_first(e.sessions@, id, 0, k);
}

proof fn lemma_place_is_first(sessions: Seq<Session>, id: Seq<char>, from: int, k: int)
    requires
        0 <= from <= k < sessions.len(),
        sessions[k].id@ == id,
        forall|i: int| from <= i < k ==> (#[trigger] sessions[i]).id@ != id,
    ensures
        place(sessions, id, from) == Some(k),
    decreases k - from,
{
    if from < k {
        lemma_place_is_first(sessions, id, from + 1, k);
    }
}

/// What is kept is deleted only by whoever names its result, and never while it has the robot.
pub proof fn a_result_is_deleted_by_its_hash(e: PolicyExperiment, id: Seq<char>, sha: Seq<char>, k: int)
    requires
        0 <= k < e.sessions@.len(),
        e.sessions@[k].id@ == id,
        forall|i: int| 0 <= i < k ==> (#[trigger] e.sessions@[i]).id@ != id,
    ensures
        e.delete_fault(id, sha) is None <==> !(e.active matches Some(active) && active.id@ == id) && (
        match e.sessions@[k].result_sha256 {
            Some(kept) => kept@ == sha,
            None => sha == Seq::<char>::empty(),
        }),
{
    lemma_place_is_first(e.sessions@, id, 0, k);
    assert(sha.len() == 0 ==> sha =~= Seq::<char>::empty());
}

/// At most eight experiments are kept, and one more is taken only where it is sound and can be run.
pub proof fn eight_experiments_are_kept(e: PolicyExperiment, config: Config, available: Availability)
    ensures
        e.configure_fault(config, available) is None <==> config.fault() is None && unsupported(
            config,
            available,
        ) is None && e.sessions@.len() < 8,
{
}

/// An experiment can be run where it is the one that has the robot and stands ready.
pub proof fn what_can_be_run(e: PolicyExperiment, id: Seq<char>)
    ensures
        e.is_ready(id) <==> (e.active is Some && e.active->0.id@ == id && e.active->0.phase == Phase::Ready),
{
}

/// A failure of what the experiment runs on sends it home as failed, with the reason, and takes nothing
/// else from it; where nothing runs, nothing happens.
pub proof fn a_failure_sends_a_run_home(
    e: PolicyExperiment,
    after: PolicyExperiment,
    reason: Seq<char>,
    now_ms: u64,
)
    requires
        e.failed(after, reason, now_ms),
    ensures
        e.active is None ==> after == e,
        e.active matches Some(active) ==> (after.active matches Some(home) && {
            &&& home.phase == Phase::ReturningHome
            &&& home.outcome@ == "failed"@
            &&& home.reason@ == reason
            &&& home.phase_at_ms == now_ms
            &&& home.id == active.id && home.run_token == active.run_token && home.config == active.config
            &&& home.recorder == active.recorder && home.started_ms == active.started_ms
                && home.action_segment == active.action_segment
        }),
        e.active matches Some(active) ==> (place(e.sessions@, active.id@, 0) matches Some(i)
            ==> after.sessions@[i].state@ == "returning_home"@),
{
}

/// An experiment that ends lets the robot go: nothing has it any more and the lease is free. Where it was
/// recorded, its record is to be closed under that outcome; otherwise the outcome stands at once.
pub proof fn an_end_lets_the_robot_go(
    e: PolicyExperiment,
    after: PolicyExperiment,
    lease: Option<Owner>,
    left: Option<Owner>,
    outcome: Seq<char>,
    reason: Seq<char>,
    closed: Option<Closed>,
)
    requires
        e.ended(after, lease, left, outcome, reason, closed),
    ensures
        e.active is None ==> after == e && left == lease && closed is None,
        e.active is Some ==> after.active is None,
        e.active is Some && lease == Some(Owner::PolicyExperiment) ==> left is None,
        e.active is Some && lease != Some(Owner::PolicyExperiment) ==> left == lease,
        e.active matches Some(active) ==> (closed is Some <==> active.recorder),
        closed matches Some(c) ==> c.outcome@ == outcome && c.reason@ == reason && c.id@ == e.active->0.id@,
        e.active matches Some(active) ==> (place(e.sessions@, active.id@, 0) matches Some(i) ==> {
            &&& active.recorder ==> after.sessions@[i].state@ == "finalizing"@
            &&& !active.recorder ==> after.sessions@[i].state@ == outcome
            &&& said(after.sessions@[i].reason) == Some(reason)
        }),
{
}

/// Frames are recorded while the experiment runs and is being recorded, numbered as they come.
pub proof fn when_frames_are_recorded(e: PolicyExperiment)
    ensures
        e.recording() is Some <==> (e.active is Some && e.active->0.phase == Phase::Running
            && e.active->0.recorder),
        e.recording() matches Some(n) ==> (place(e.sessions@, e.active->0.id@, 0) matches Some(i) ==> n
            == e.sessions@[i].frames),
{
}

/// A new state of one experiment leaves every other as it is, and of that one everything else.
pub proof fn only_that_experiment_is_restated(
    before: Seq<Session>,
    after: Seq<Session>,
    id: Seq<char>,
    state: Seq<char>,
    k: int,
)
    requires
        restated(before, after, id, state),
        0 <= k < before.len(),
        before[k].id@ == id,
        forall|i: int| 0 <= i < k ==> (#[trigger] before[i]).id@ != id,
    ensures
        after.len() == before.len(),
        after[k].state@ == state,
        after[k].id == before[k].id && after[k].frames == before[k].frames && after[k].config
            == before[k].config && after[k].result_sha256 == before[k].result_sha256 && after[k].reason
            == before[k].reason,
        forall|i: int| 0 <= i < before.len() && i != k ==> #[trigger] after[i] == before[i],
{
    lemma_place_is_first(before, id, 0, k);
}

proof fn lemma_not_there(sessions: Seq<Session>, id: Seq<char>, from: int)
    requires
        0 <= from <= sessions.len(),
        forall|i: int| from <= i < sessions.len() ==> (#[trigger] sessions[i]).id@ != id,
    ensures
        place(sessions, id, from) is None,
    decreases sessions.len() - from,
{
    if from < sessions.len() {
        assert(sessions[from].id@ != id);
        lemma_not_there(sessions, id, from + 1);
    }
}

proof fn lemma_name_place_bounds(names: Seq<Seq<char>>, name: Seq<char>)
    ensures
        0 <= name_place(names, name) <= names.len(),
    decreases names.len(),
{
    if names.len() > 0 {
        lemma_name_place_bounds(names.drop_last(), name);
    }
}

/// An experiment that is added is kept beside the others; one that is there already under its id is
/// replaced.
pub proof fn what_adding_an_experiment_does(sessions: Seq<Session>, session: Session, k: int)
    requires
        0 <= k < sessions.len(),
    ensures
        added(sessions, session).contains(session),
        (forall|i: int| 0 <= i < sessions.len() ==> (#[trigger] sessions[i]).id@ != session.id@) ==> added(
            sessions,
            session,
        ).len() == sessions.len() + 1 && added(sessions, session).contains(sessions[k]),
        sessions[k].id@ == session.id@ && (forall|i: int|
            0 <= i < k ==> (#[trigger] sessions[i]).id@ != session.id@) ==> added(sessions, session)
            == sessions.update(k, session),
{
    let all = added(sessions, session);
    lemma_name_place_bounds(ids(sessions), session.id@);
    let at = name_place(ids(sessions), session.id@);
    if forall|i: int| 0 <= i < sessions.len() ==> (#[trigger] sessions[i]).id@ != session.id@ {
        lemma_not_there(sessions, session.id@, 0);
        assert(all == sessions.insert(at, session));
        assert(all[if k < at {
            k
        } else {
            k + 1
        }] == sessions[k]);
    }
    if sessions[k].id@ == session.id@ && (forall|i: int|
        0 <= i < k ==> (#[trigger] sessions[i]).id@ != session.id@) {
        lemma_place_is_first(sessions, session.id@, 0, k);
    }
    match place(sessions, session.id@, 0) {
        Some(i) => {
            lemma_place_bounds(sessions, session.id@, 0);
            assert(all[i] == session);
        },
        None => {
            assert(all[at] == session);
        },
    }
}

proof fn lemma_place_bounds(sessions: Seq<Session>, id: Seq<char>, from: int)
    requires
        0 <= from,
    ensures
        place(sessions, id, from) matches Some(i) ==> from <= i < sessions.len() && sessions[i].id@ == id,
    decreases sessions.len() - from,
{
    if from < sessions.len() && sessions[from].id@ != id {
        lemma_place_bounds(sessions, id, from + 1);
    }
}

/// A record on disk is called by its experiment: thirty-two hexadecimal digits, and `jsonl`.
pub proof fn what_a_record_is_called(path: Seq<char>, id: Seq<char>)
    requires
        crate::path::file_name(path) == Some(id + seq!['.'] + "jsonl"@),
        id.len() > 0,
    ensures
        record_of(path) == Some(id) <==> id.len() == 32 && forall|i: int|
            0 <= i < 32 ==> crate::hex::hex_digit(#[trigger] id[i]),
        record_of(path) is Some ==> record_of(path) == Some(id),
{
    reveal_strlit("jsonl");
    crate::path::what_follows_the_last_dot(path, id, "jsonl"@);
    let name = id + seq!['.'] + "jsonl"@;
    assert(name.take(name.len() - 5 - 1) =~= id);
}

} // verus!
