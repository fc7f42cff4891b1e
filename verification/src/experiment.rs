//! Only the control tick that owns the bus executes uploaded tasks. No network heartbeat takes
//! part in a task's timing: a lost connection never restarts or extends a task.
//!
//! The caller reads the sensors, talks to the motors and reports how that went. Angles and
//! temperatures are in billionths of their unit; a value that is not a finite number is `None`.

use crate::calibration::{
    ceil_mrad, ceil_of, fitted, floor_mrad, floor_of, lemma_all_sound, lemma_in_range, Board, Config,
    Limit, JOINTS, MRAD,
};
use crate::experiment_tasks::{
    left_by, Command, Finish, Header, Next, Received, Row, Run, State, Turn,
};
use crate::scan::{decimal, push_decimal, push_text, same_text};
use vstd::prelude::*;

verus! {

/// How long the word of the motors counts, in microseconds.
pub const FRESH_US: u64 = 100_000;

/// How often the motors are told again to switch off, in microseconds.
pub const DISABLE_US: u64 = 1_000_000;

/// What the sensors say of every joint.
pub struct Reading {
    pub positions: Vec<Option<i64>>,
    pub temperatures: Vec<Option<i64>>,
}

impl Reading {
    pub open spec fn valid(self) -> bool {
        self.positions@.len() == JOINTS && self.temperatures@.len() == JOINTS
    }
}

/// What one tick of the control loop sees of the robot as a whole.
#[derive(Debug, Clone, Copy, PartialEq, Eq, Structural)]
pub struct Sight {
    /// Whether there is fresh feedback.
    pub fresh: bool,
    /// Whether the motors report a fault.
    pub faulty: bool,
    pub imu_ready: bool,
    /// What the motors say of their ranges, if they say anything.
    pub limits_ready: Option<bool>,
    /// Whether fresh feedback shows every motor off.
    pub disabled: bool,
    /// Whether the ordinary controller is at rest.
    pub idle: bool,
}

impl Sight {
    pub open spec fn healthy(self) -> bool {
        self.fresh && !self.faulty && self.imu_ready && self.limits_ready != Some(false)
    }

    fn is_healthy(&self) -> (yes: bool)
        ensures
            yes == self.healthy(),
    {
        let ready = match self.limits_ready {
            Some(ready) => ready,
            None => true,
        };
        self.fresh && !self.faulty && self.imu_ready && ready
    }
}

/// Who runs a task, and how that is going.
pub struct Experiment {
    pub task: Option<Run>,
    pub owned: bool,
    pub task_id: Option<String>,
    pub run_token: Option<String>,
    pub stopping: bool,
    pub ready_at_us: Option<u64>,
    pub disable_attempt_us: Option<u64>,
    pub error: Option<String>,
    pub outcome: State,
    pub running: bool,
    pub hz: u32,
}

/// What a tick calls for.
#[derive(Debug, Clone, Copy, PartialEq, Eq, Structural)]
pub enum Duty {
    /// No task has the robot.
    Free,
    /// A task has it, but is still being prepared.
    Held,
    /// Execute the task.
    Execute,
    /// Switch the motors off.
    WindDown,
}

/// What has to happen before a command is sent.
#[derive(Debug, Clone, Copy, PartialEq, Eq, Structural)]
pub enum Go {
    /// Switch the motors on.
    Enable,
    Ahead,
}

/// What is sent to the motors.
pub struct Order {
    pub row: Row,
    /// A command for every motor there is, selected or not.
    pub full: Vec<Command>,
    /// Whether the row is a new one.
    pub advance: bool,
}

/// How far apart two angles are.
pub open spec fn apart(a: i64, b: i64) -> int {
    if a >= b {
        a - b
    } else {
        b - a
    }
}

fn distance(a: i64, b: i64) -> (d: i128)
    ensures
        d == apart(a, b),
{
    if a >= b {
        a as i128 - b as i128
    } else {
        b as i128 - a as i128
    }
}

/// The first command for a motor, from one on.
pub open spec fn command_for(commands: Seq<Command>, id: u8, from: int) -> Option<Command>
    decreases commands.len() - from,
{
    if from < 0 || from >= commands.len() {
        None
    } else if commands[from].motor_id == id {
        Some(commands[from])
    } else {
        command_for(commands, id, from + 1)
    }
}

fn find_command(commands: &Vec<Command>, id: u8) -> (command: Option<Command>)
    ensures
        command == command_for(commands@, id, 0),
{
    let mut at: usize = 0;
    while at < commands.len()
        invariant
            at <= commands@.len(),
            command_for(commands@, id, 0) == command_for(commands@, id, at as int),
        decreases commands@.len() - at,
    {
        if commands[at].motor_id == id {
            return Some(commands[at]);
        }
        at = at + 1;
    }
    None
}

/// What is said of one motor.
pub open spec fn motor_text(id: u8, what: Seq<char>) -> Seq<char> {
    "motor "@ + decimal(id as nat) + ": "@ + what
}

fn motor_message(id: u8, what: &str) -> (text: String)
    ensures
        text@ == motor_text(id, what@),
{
    let mut text = String::new();
    push_text(&mut text, "motor ");
    push_decimal(&mut text, id as u64);
    push_text(&mut text, ": ");
    push_text(&mut text, what);
    proof {
        assert(text@ =~= motor_text(id, what@));
    }
    text
}

/// Whether a measured angle lies within a range.
pub open spec fn inside(position: Option<i64>, limit: Limit) -> bool {
    position matches Some(p) && limit.min->0 <= p <= limit.max->0
}

/// Whether a measured angle is no further than so much from a commanded one.
pub open spec fn close(position: Option<i64>, commanded: i64, tolerance: int) -> bool {
    position matches Some(p) && apart(p, commanded) <= tolerance
}

/// What is wrong with one motor before a command is sent.
pub open spec fn motor_fault(
    id: u8,
    joint: int,
    reading: Reading,
    cfg: Config,
    header: Header,
    first: Option<Seq<Command>>,
) -> Option<Seq<char>> {
    match cfg.range(id) {
        None => Some("missing motor limit"@),
        Some(limit) => if !inside(reading.positions@[joint], limit) {
            Some(motor_text(id, "measured position outside limits"@))
        } else if !(reading.temperatures@[joint] matches Some(t) && t < header.max_temperature->0) {
            Some(motor_text(id, "temperature limit"@))
        } else if first matches Some(commands) && (command_for(commands, id, 0) matches Some(c) && !close(
            reading.positions@[joint],
            c.p,
            header.start_tolerance->0 as int,
        )) {
            Some(motor_text(id, "first command does not match current pose"@))
        } else {
            None
        },
    }
}

/// What is wrong with the motors from one on. `first` is the first command of a task that has yet
/// to start: it has to match where the robot is.
pub open spec fn inspection(
    board: Board,
    reading: Reading,
    cfg: Config,
    header: Header,
    first: Option<Seq<Command>>,
    from: int,
) -> Option<Seq<char>>
    decreases board.ids@.len() - from,
{
    if from < 0 || from >= board.ids@.len() {
        None
    } else {
        let fault = if board.ids@[from] == 0 {
            None
        } else {
            motor_fault(
                board.ids@[from],
                board.joints@[from] as int,
                reading,
                cfg,
                header,
                first,
            )
        };
        if fault is Some {
            fault
        } else {
            inspection(board, reading, cfg, header, first, from + 1)
        }
    }
}

/// Looks the motors over before a command is sent.
pub fn inspect(board: &Board, reading: &Reading, cfg: &Config, header: &Header, first: Option<&Vec<Command>>) -> (ok: Result<
    (),
    String,
>)
    requires
        board.valid(),
        reading.valid(),
        cfg.valid(*board),
        header.max_temperature is Some,
        header.start_tolerance is Some,
    ensures
        match ok {
            Ok(()) => inspection(*board, *reading, *cfg, *header, listed(first), 0) is None,
            Err(why) => inspection(*board, *reading, *cfg, *header, listed(first), 0) == Some(why@),
        },
{
    let mut at: usize = 0;
    while at < board.ids.len()
        invariant
            at <= board.ids@.len(),
            board.valid(),
            reading.valid(),
            cfg.valid(*board),
            header.max_temperature is Some,
            header.start_tolerance is Some,
            inspection(*board, *reading, *cfg, *header, listed(first), 0) == inspection(
                *board,
                *reading,
                *cfg,
                *header,
                listed(first),
                at as int,
            ),
        decreases board.ids@.len() - at,
    {
        let id: u8 = board.ids[at];
        let joint: usize = board.joints[at];
        if id != 0 {
            let limit: Limit = match cfg.limit(id) {
                Some(limit) => limit,
                None => {
                    return Err("missing motor limit".to_owned());
                },
            };
            proof {
                crate::calibration::lemma_first_limit(cfg.limits@, id, 0);
                let k = choose|k: int| 0 <= k < cfg.limits@.len() && cfg.limits@[k] == limit;
                lemma_all_sound(cfg.limits@, fitted(board.ids@), 0, k);
            }
            let position = reading.positions[joint];
            let within = match (position, limit.min, limit.max) {
                (Some(p), Some(min), Some(max)) => min <= p && p <= max,
                _ => false,
            };
            if !within {
                return Err(motor_message(id, "measured position outside limits"));
            }
            let cool = match (reading.temperatures[joint], header.max_temperature) {
                (Some(t), Some(most)) => t < most,
                _ => false,
            };
            if !cool {
                return Err(motor_message(id, "temperature limit"));
            }
            match first {
                Some(commands) => {
                    match find_command(commands, id) {
                        Some(c) => {
                            let near = match (position, header.start_tolerance) {
                                (Some(p), Some(tolerance)) => distance(p, c.p) <= tolerance as i128,
                                _ => false,
                            };
                            if !near {
                                return Err(
                                    motor_message(id, "first command does not match current pose"),
                                );
                            }
                        },
                        None => {},
                    }
                },
                None => {},
            }
        }
        at = at + 1;
    }
    Ok(())
}

/// The commands a task starts with, if it has yet to start.
pub open spec fn listed(first: Option<&Vec<Command>>) -> Option<Seq<Command>> {
    match first {
        Some(commands) => Some(commands@),
        None => None,
    }
}

/// Where a motor stands on the board, from some place on.
pub open spec fn seat(ids: Seq<u8>, id: u8, from: int) -> Option<int>
    decreases ids.len() - from,
{
    if from < 0 || from >= ids.len() {
        None
    } else if ids[from] == id {
        Some(from)
    } else {
        seat(ids, id, from + 1)
    }
}

fn find_joint(board: &Board, id: u8) -> (joint: Option<usize>)
    requires
        board.valid(),
    ensures
        match joint {
            Some(j) => seat(board.ids@, id, 0) matches Some(k) && 0 <= k < board.ids@.len() && j
                == board.joints@[k] && j < JOINTS,
            None => seat(board.ids@, id, 0) is None,
        },
{
    let mut at: usize = 0;
    while at < board.ids.len()
        invariant
            at <= board.ids@.len(),
            board.valid(),
            seat(board.ids@, id, 0) == seat(board.ids@, id, at as int),
        decreases board.ids@.len() - at,
    {
        if board.ids[at] == id {
            return Some(board.joints[at]);
        }
        at = at + 1;
    }
    None
}

/// What is wrong with how the motors follow some commands, from one on.
pub open spec fn tracking(
    board: Board,
    reading: Reading,
    commands: Seq<Command>,
    most: int,
    from: int,
) -> Option<Seq<char>>
    decreases commands.len() - from,
{
    if from < 0 || from >= commands.len() {
        None
    } else {
        match seat(board.ids@, commands[from].motor_id, 0) {
            None => Some("unknown motor"@),
            Some(k) => if !close(
                reading.positions@[board.joints@[k] as int],
                commands[from].p,
                most,
            ) {
                Some(motor_text(commands[from].motor_id, "tracking error limit"@))
            } else {
                tracking(board, reading, commands, most, from + 1)
            },
        }
    }
}

/// Whether the motors are close enough to what they are about to be told.
pub fn check_tracking(board: &Board, reading: &Reading, commands: &Vec<Command>, most: i64) -> (ok: Result<
    (),
    String,
>)
    requires
        board.valid(),
        reading.valid(),
    ensures
        match ok {
            Ok(()) => tracking(*board, *reading, commands@, most as int, 0) is None,
            Err(why) => tracking(*board, *reading, commands@, most as int, 0) == Some(why@),
        },
        ok is Ok <==> forall|i: int|
            0 <= i < commands@.len() ==> follows(*board, *reading, #[trigger] commands@[i], most as int),
{
    proof {
        every_command_is_tracked(*board, *reading, commands@, most as int);
    }
    let mut at: usize = 0;
    while at < commands.len()
        invariant
            at <= commands@.len(),
            board.valid(),
            reading.valid(),
            tracking(*board, *reading, commands@, most as int, 0) is None <==> forall|i: int|
                0 <= i < commands@.len() ==> follows(
                    *board,
                    *reading,
                    #[trigger] commands@[i],
                    most as int,
                ),
            tracking(*board, *reading, commands@, most as int, 0) == tracking(
                *board,
                *reading,
                commands@,
                most as int,
                at as int,
            ),
        decreases commands@.len() - at,
    {
        let command: Command = commands[at];
        let joint: usize = match find_joint(board, command.motor_id) {
            Some(joint) => joint,
            None => {
                return Err("unknown motor".to_owned());
            },
        };
        let near = match reading.positions[joint] {
            Some(p) => distance(p, command.p) <= most as i128,
            None => false,
        };
        if !near {
            return Err(motor_message(command.motor_id, "tracking error limit"));
        }
        at = at + 1;
    }
    Ok(())
}

/// The angle nearest to zero that the motors accept for a range.
pub open spec fn resting(limit: Limit) -> int {
    let low = ceil_mrad(limit.min->0 as int) * MRAD;
    let high = floor_mrad(limit.max->0 as int) * MRAD;
    let lifted = if low > 0 {
        low
    } else {
        0
    };
    if lifted < high {
        lifted
    } else {
        high
    }
}

/// What a motor is told: its command, or to do nothing where it stands.
pub open spec fn order_for(limit: Limit, commands: Seq<Command>) -> Command {
    match command_for(commands, limit.motor_id, 0) {
        Some(c) => c,
        None => Command {
            motor_id: limit.motor_id,
            p: resting(limit) as i64,
            v: 0,
            tau: 0,
            kp: 0,
            kd: 0,
        },
    }
}

/// A command for every motor there is: those that are not selected get no gain, no speed and no
/// torque.
pub fn complete_commands(commands: &Vec<Command>, cfg: &Config, board: &Board) -> (full: Vec<Command>)
    requires
        cfg.valid(*board),
    ensures
        full@ == Seq::new(cfg.limits@.len(), |i: int| order_for(cfg.limits@[i], commands@)),
{
    let mut full: Vec<Command> = Vec::new();
    let mut at: usize = 0;
    while at < cfg.limits.len()
        invariant
            at <= cfg.limits@.len(),
            cfg.valid(*board),
            full@.len() == at,
            forall|i: int| 0 <= i < at ==> full@[i] == order_for(cfg.limits@[i], commands@),
        decreases cfg.limits@.len() - at,
    {
        let limit: Limit = cfg.limits[at];
        proof {
            lemma_all_sound(cfg.limits@, fitted(board.ids@), 0, at as int);
            lemma_in_range(limit);
        }
        let command = match find_command(commands, limit.motor_id) {
            Some(c) => c,
            None => {
                let p: i64 = match (limit.min, limit.max) {
                    (Some(min), Some(max)) => {
                        let low: i64 = ceil_of(min) * MRAD;
                        let high: i64 = floor_of(max) * MRAD;
                        let lifted: i64 = if low > 0 {
                            low
                        } else {
                            0
                        };
                        if lifted < high {
                            lifted
                        } else {
                            high
                        }
                    },
                    _ => 0,
                };
                Command { motor_id: limit.motor_id, p, v: 0, tau: 0, kp: 0, kd: 0 }
            },
        };
        full.push(command);
        at = at + 1;
    }
    proof {
        assert(full@ =~= Seq::new(cfg.limits@.len(), |i: int| order_for(cfg.limits@[i], commands@)));
    }
    full
}

/// A motor that is not selected is told to rest at an angle within its range.
pub proof fn an_unselected_motor_rests(limit: Limit, commands: Seq<Command>)
    requires
        crate::calibration::sound(limit),
        command_for(commands, limit.motor_id, 0) is None,
    ensures
        limit.min->0 <= order_for(limit, commands).p <= limit.max->0,
        order_for(limit, commands).kp == 0 && order_for(limit, commands).kd == 0,
        order_for(limit, commands).v == 0 && order_for(limit, commands).tau == 0,
{
    lemma_in_range(limit);
    crate::calibration::quantising_never_widens(limit);
}

impl Experiment {
    pub fn new(hz: u32) -> (e: Experiment)
        ensures
            e.task is None,
            !e.owned,
            e.task_id is None,
            e.run_token is None,
            !e.stopping,
            e.ready_at_us is None,
            e.disable_attempt_us is None,
            e.error is None,
            e.outcome == State::Stopped,
            !e.running,
            e.hz == hz,
    {
        Experiment {
            task: None,
            owned: false,
            task_id: None,
            run_token: None,
            stopping: false,
            ready_at_us: None,
            disable_attempt_us: None,
            error: None,
            outcome: State::Stopped,
            running: false,
            hz,
        }
    }

    /// What every run keeps to: its task was looked over.
    pub open spec fn valid(self) -> bool {
        self.task matches Some(run) ==> crate::experiment_tasks::bounded(run.header)
    }

    /// Whether a task has the robot.
    pub fn active(&self) -> (yes: bool)
        ensures
            yes == self.owned,
    {
        self.owned
    }

    /// The state after a task is told to end.
    pub open spec fn halted(self, after: Experiment, state: State, reason: Seq<char>) -> bool {
        if !self.owned || self.stopping {
            after == self
        } else {
            &&& after.error matches Some(e) && e@ == reason
            &&& after == (Experiment {
                stopping: true,
                disable_attempt_us: None,
                ready_at_us: None,
                error: after.error,
                outcome: state,
                ..self
            })
        }
    }

    /// Ends a task, the first reason counting.
    pub fn halt(&mut self, state: State, reason: &str)
        ensures
            old(self).halted(*final(self), state, reason@),
    {
        if !self.owned || self.stopping {
            return;
        }
        self.stopping = true;
        self.disable_attempt_us = None;
        self.ready_at_us = None;
        self.error = Some(reason.to_owned());
        self.outcome = state;
    }

    /// Stops a task.
    pub fn stop(&mut self, reason: &str)
        ensures
            old(self).halted(*final(self), State::Stopped, reason@),
    {
        self.halt(State::Stopped, reason);
    }

    /// Whether the motors said recently that they are off and well.
    pub open spec fn ready(self, now_us: u64) -> bool {
        self.ready_at_us matches Some(t) && Run::since(now_us, t) < FRESH_US
    }

    pub fn is_ready(&self, now_us: u64) -> (yes: bool)
        ensures
            yes == self.ready(now_us),
    {
        match self.ready_at_us {
            Some(t) => now_us <= t || now_us - t < FRESH_US,
            None => false,
        }
    }

    /// Gives the robot to a task. Only one at a time, and only a robot that is at rest with every
    /// motor known to be off.
    pub fn start(&mut self, id: &str, run_token: String, enabled: bool, now_us: u64) -> (ok: Result<
        (),
        String,
    >)
        requires
            old(self).valid(),
        ensures
            final(self).valid(),
            match ok {
                Ok(()) => {
                    &&& !old(self).owned && !enabled && old(self).ready(now_us)
                    &&& final(self).task_id matches Some(t) && t@ == id@
                    &&& *final(self) == (Experiment {
                        owned: true,
                        task_id: final(self).task_id,
                        run_token: Some(run_token),
                        stopping: false,
                        running: false,
                        error: None,
                        ready_at_us: None,
                        disable_attempt_us: None,
                        ..*old(self)
                    })
                },
                Err(why) => (old(self).owned || enabled || !old(self).ready(now_us)) && *final(self)
                    == *old(self) && why@ == "busy or not relaxed with fresh disabled feedback"@,
            },
    {
        if self.owned || enabled || !self.is_ready(now_us) {
            return Err("busy or not relaxed with fresh disabled feedback".to_owned());
        }
        self.owned = true;
        self.task_id = Some(id.to_owned());
        self.run_token = Some(run_token);
        self.stopping = false;
        self.running = false;
        self.error = None;
        self.ready_at_us = None;
        self.disable_attempt_us = None;
        Ok(())
    }

    /// How preparing a task went. One that could not be prepared gives the robot back.
    pub fn prepared(&mut self, run: Result<Run, String>) -> (ok: Result<(), String>)
        requires
            old(self).valid(),
            run matches Ok(r) ==> crate::experiment_tasks::bounded(r.header),
        ensures
            final(self).valid(),
            match run {
                Ok(r) => ok is Ok && *final(self) == (Experiment { task: Some(r), ..*old(self) }),
                Err(why) => ok == Err::<(), String>(why) && *final(self) == (Experiment {
                    owned: false,
                    task_id: None,
                    run_token: None,
                    stopping: false,
                    ..*old(self)
                }),
            },
    {
        match run {
            Ok(r) => {
                self.task = Some(r);
                Ok(())
            },
            Err(why) => {
                self.owned = false;
                self.task_id = None;
                self.run_token = None;
                self.stopping = false;
                Err(why)
            },
        }
    }

    /// Why someone may not stop a task.
    pub open spec fn stop_fault(self, id: Seq<char>, token: Option<Seq<char>>) -> Option<Seq<char>> {
        if self.owned && crate::models::record::said(self.task_id) != Some(id) {
            Some("different task owns control"@)
        } else if self.owned && crate::models::record::said(self.run_token) != token {
            Some("run token does not own the active task"@)
        } else {
            None
        }
    }

    /// Stops the task that has the robot, for whoever has its token. `false` where no task has it:
    /// then one that waits is to be cancelled.
    pub fn stop_request(&mut self, id: &str, token: &Option<String>) -> (stopped: Result<bool, String>)
        requires
            old(self).valid(),
        ensures
            final(self).valid(),
            match stopped {
                Err(why) => *final(self) == *old(self) && old(self).stop_fault(
                    id@,
                    crate::models::record::said(*token),
                ) == Some(why@),
                Ok(owned) => {
                    &&& old(self).stop_fault(id@, crate::models::record::said(*token)) is None
                    &&& owned == old(self).owned
                    &&& old(self).halted(
                        *final(self),
                        State::Stopped,
                        "operator requested task stop"@,
                    )
                },
            },
    {
        if self.owned {
            let mine = match &self.task_id {
                Some(t) => same_text(t.as_str(), id),
                None => false,
            };
            if !mine {
                return Err("different task owns control".to_owned());
            }
            let same = match (&self.run_token, token) {
                (Some(a), Some(b)) => same_text(a.as_str(), b.as_str()),
                (None, None) => true,
                _ => false,
            };
            if !same {
                return Err("run token does not own the active task".to_owned());
            }
        }
        self.stop("operator requested task stop");
        Ok(self.owned)
    }

    /// What is shown of the task that has the robot, in place of what is on disk.
    pub fn runtime_state(&self, id: &str) -> (state: Option<State>)
        ensures
            state == (if self.owned && crate::models::record::said(self.task_id) == Some(id@) {
                Some(
                    if self.stopping {
                        State::Stopping
                    } else if self.running {
                        State::Running
                    } else {
                        State::Preparing
                    },
                )
            } else {
                None
            }),
    {
        let mine = match &self.task_id {
            Some(t) => same_text(t.as_str(), id),
            None => false,
        };
        if !self.owned || !mine {
            return None;
        }
        if self.stopping {
            Some(State::Stopping)
        } else if self.running {
            Some(State::Running)
        } else {
            Some(State::Preparing)
        }
    }

    /// What a tick does, and what it calls for.
    pub open spec fn ticked(self, after: Experiment, sight: Sight, now_us: u64, duty: Duty) -> bool {
        if !self.owned {
            duty == Duty::Free && after == (Experiment {
                ready_at_us: if sight.idle && sight.healthy() && sight.disabled {
                    Some(now_us)
                } else {
                    None
                },
                ..self
            })
        } else if self.task is None {
            duty == Duty::Held && after == (Experiment { ready_at_us: None, ..self })
        } else if sight.healthy() && sight.idle {
            duty == (if self.stopping {
                Duty::WindDown
            } else {
                Duty::Execute
            }) && after == (Experiment { ready_at_us: None, ..self })
        } else {
            duty == Duty::WindDown && (Experiment { ready_at_us: None, ..self }).halted(
                after,
                State::Failed,
                "feedback/IMU fault or normal controller not relaxed"@,
            )
        }
    }

    /// What this tick calls for. A robot that is not well ends a task.
    pub fn tick(&mut self, sight: Sight, now_us: u64) -> (duty: Duty)
        requires
            old(self).valid(),
        ensures
            final(self).valid(),
            old(self).ticked(*final(self), sight, now_us, duty),
            duty == Duty::Execute ==> !final(self).stopping && sight.healthy() && sight.idle,
    {
        let healthy = sight.is_healthy();
        if !self.owned {
            self.ready_at_us = if sight.idle && healthy && sight.disabled {
                Some(now_us)
            } else {
                None
            };
            return Duty::Free;
        }
        self.ready_at_us = None;
        if self.task.is_none() {
            return Duty::Held;
        }
        if !healthy || !sight.idle {
            self.halt(State::Failed, "feedback/IMU fault or normal controller not relaxed");
        }
        if self.stopping {
            Duty::WindDown
        } else {
            Duty::Execute
        }
    }

    /// The run in hand.
    pub open spec fn run(self) -> Run {
        self.task->0
    }

    /// Why a command must not be sent, before it is even known which.
    pub open spec fn obstacle(self, board: Board, reading: Reading, cfg: Config, disabled: bool) -> Option<
        Seq<char>,
    > {
        let run = self.run();
        let starting = run.started_us is None;
        let first = if starting {
            Some(run.first.motors@)
        } else {
            None
        };
        let found = inspection(board, reading, cfg, run.header, first, 0);
        if found is Some {
            found
        } else if starting && !disabled {
            Some("start requires all motors disabled"@)
        } else if starting {
            run.broken(cfg.limits@)
        } else {
            None
        }
    }

    /// Looks everything over before a command is sent. A task that has yet to start has the motors
    /// switched on: only now, and only if all of them are off, the robot is where the task begins,
    /// and the calibration is the one the task was looked over against.
    pub fn approach(&self, board: &Board, reading: &Reading, cfg: &Config, disabled: bool) -> (go: Result<
        Go,
        String,
    >)
        requires
            self.valid(),
            self.task is Some,
            board.valid(),
            reading.valid(),
            cfg.valid(*board),
        ensures
            match go {
                Ok(g) => self.obstacle(*board, *reading, *cfg, disabled) is None && g == (
                if self.run().started_us is None {
                    Go::Enable
                } else {
                    Go::Ahead
                }) && (g == Go::Enable ==> disabled),
                Err(why) => self.obstacle(*board, *reading, *cfg, disabled) == Some(why@),
            },
    {
        match &self.task {
            Some(run) => {
                let starting = run.started_us.is_none();
                let first = if starting {
                    Some(&run.first.motors)
                } else {
                    None
                };
                match inspect(board, reading, cfg, &run.header, first) {
                    Err(why) => {
                        return Err(why);
                    },
                    Ok(()) => {},
                }
                if !starting {
                    return Ok(Go::Ahead);
                }
                if !disabled {
                    return Err("start requires all motors disabled".to_owned());
                }
                match run.check_config(cfg) {
                    Err(why) => Err(why),
                    Ok(()) => Ok(Go::Enable),
                }
            },
            None => Ok(Go::Ahead),
        }
    }

    /// The motors are on.
    pub fn enabled(&mut self)
        requires
            old(self).valid(),
        ensures
            final(self).valid(),
            *final(self) == (Experiment { running: true, ..*old(self) }),
    {
        self.running = true;
    }

    /// Whether the next row has to be taken from what was read ahead.
    pub fn wants_row(&self, cfg: &Config, now_us: u64) -> (yes: bool)
        ensures
            yes == (!self.stopping && self.task is Some && self.run().turn(cfg.limits@, now_us) is Read),
    {
        if self.stopping {
            return false;
        }
        match &self.task {
            Some(run) => run.wants_row(cfg, now_us),
            None => false,
        }
    }

    /// The order to send now, or none: a task that is being stopped sends nothing, and one that
    /// has executed every frame ends.
    pub fn order(
        &mut self,
        board: &Board,
        reading: &Reading,
        cfg: &Config,
        now_us: u64,
        received: Received,
    ) -> (order: Result<Option<Order>, String>)
        requires
            old(self).valid(),
            old(self).task is Some,
            board.valid(),
            reading.valid(),
            cfg.valid(*board),
        ensures
            final(self).valid(),
            final(self).task is Some,
            old(self).stopping ==> *final(self) == *old(self) && (order matches Ok(None)),
            !old(self).stopping ==> match old(self).run().turn(cfg.limits@, now_us) {
                Turn::Hold => final(self).run() == (Run {
                    last_tick_us: Some(now_us),
                    ..old(self).run()
                }),
                Turn::Ready => left_by(
                    old(self).run(),
                    final(self).run(),
                    old(self).run().pending->0,
                    now_us,
                ),
                Turn::Read => match received {
                    Received::Row(row) => left_by(old(self).run(), final(self).run(), row, now_us),
                    _ => final(self).run() == old(self).run(),
                },
                _ => final(self).run() == old(self).run(),
            },
            !old(self).stopping ==> match order {
                Ok(Some(o)) => {
                    &&& *final(self) == (Experiment { task: final(self).task, ..*old(self) })
                    &&& tracking(
                        *board,
                        *reading,
                        o.row.motors@,
                        old(self).run().header.max_tracking_error->0 as int,
                        0,
                    ) is None
                    &&& o.full@ == Seq::new(
                        cfg.limits@.len(),
                        |i: int| order_for(cfg.limits@[i], o.row.motors@),
                    )
                    &&& forall|i: int|
                        0 <= i < o.row.motors@.len() ==> follows(
                            *board,
                            *reading,
                            #[trigger] o.row.motors@[i],
                            old(self).run().header.max_tracking_error->0 as int,
                        )
                    &&& o.advance ==> o.row.at_ms == old(self).run().index * 20
                    &&& match old(self).run().turn(cfg.limits@, now_us) {
                        Turn::Hold => !o.advance && (old(self).run().last_row matches Some(last)
                            && o.row.at_ms == last.at_ms && o.row.motors@ == last.motors@),
                        Turn::Ready => o.advance && o.row == old(self).run().pending->0,
                        Turn::Read => o.advance && received == Received::Row(o.row),
                        _ => false,
                    }
                },
                Ok(None) => {
                    &&& old(self).run().turn(cfg.limits@, now_us) is Finished || (old(self).run().turn(
                        cfg.limits@,
                        now_us,
                    ) is Hold && old(self).run().last_row is None)
                    &&& (Experiment { task: final(self).task, ..*old(self) }).halted(
                        *final(self),
                        State::Completed,
                        "task duration completed"@,
                    )
                },
                Err(why) => {
                    &&& *final(self) == (Experiment { task: final(self).task, ..*old(self) })
                    &&& match old(self).run().turn(cfg.limits@, now_us) {
                        Turn::Fail(e) => why@ == e,
                        Turn::Hold => old(self).run().last_row matches Some(last) && tracking(
                            *board,
                            *reading,
                            last.motors@,
                            old(self).run().header.max_tracking_error->0 as int,
                            0,
                        ) == Some(why@),
                        Turn::Finished => false,
                        Turn::Ready => late_or_astray(
                            old(self).run(),
                            old(self).run().pending->0,
                            *board,
                            *reading,
                            why@,
                        ),
                        Turn::Read => match received {
                            Received::Row(row) => late_or_astray(
                                old(self).run(),
                                row,
                                *board,
                                *reading,
                                why@,
                            ),
                            Received::Empty => why@ == "command prefetch underrun"@,
                            Received::Stopped => why@ == "command reader stopped"@,
                        },
                    }
                },
            },
    {
        if self.stopping {
            return Ok(None);
        }
        let mut run = match self.task.take() {
            Some(run) => run,
            None => {
                return Ok(None);
            },
        };
        let most: i64 = match run.header.max_tracking_error {
            Some(most) => most,
            None => 0,
        };
        let next = run.next(cfg, now_us, received);
        self.task = Some(run);
        match next {
            Err(why) => Err(why),
            Ok(Next::Finished) => {
                self.halt(State::Completed, "task duration completed");
                Ok(None)
            },
            Ok(Next::Row(row, advance)) => {
                match check_tracking(board, reading, &row.motors, most) {
                    Err(why) => {
                        return Err(why);
                    },
                    Ok(()) => {},
                }
                let full = complete_commands(&row.motors, cfg, board);
                Ok(Some(Order { row, full, advance }))
            },
        }
    }

    /// Notes that an order was carried out, whose record was handed over or not.
    pub fn recorded(&mut self, handed: Result<(), String>, advance: bool) -> (ok: Result<(), String>)
        requires
            old(self).valid(),
            old(self).task is Some,
            old(self).run().index < u64::MAX,
        ensures
            final(self).valid(),
            final(self).task is Some,
            *final(self) == (Experiment { task: final(self).task, ..*old(self) }),
            final(self).run() == (Run { index: final(self).run().index, ..old(self).run() }),
            match ok {
                Ok(()) => old(self).run().recording && handed is Ok && final(self).run().index
                    == old(self).run().index + (if advance {
                    1int
                } else {
                    0
                }),
                Err(why) => final(self).run().index == old(self).run().index && (
                if !old(self).run().recording {
                    why@ == "task recorder closed"@
                } else {
                    handed matches Err(e) && why@ == "task recording backpressure or failure: "@ + e@
                }),
            },
    {
        match self.task.take() {
            Some(mut run) => {
                let ok = run.record(handed, advance);
                self.task = Some(run);
                ok
            },
            None => Ok(()),
        }
    }

    /// Whether the motors are to be told now to switch off: at once, and again every second until
    /// they have.
    pub fn wind_down(&mut self, now_us: u64) -> (due: bool)
        requires
            old(self).valid(),
            old(self).stopping,
        ensures
            final(self).valid(),
            due == !(old(self).disable_attempt_us matches Some(t) && Run::since(now_us, t) < DISABLE_US),
            *final(self) == (Experiment {
                disable_attempt_us: if due {
                    Some(now_us)
                } else {
                    old(self).disable_attempt_us
                },
                ..*old(self)
            }),
    {
        let due = match self.disable_attempt_us {
            Some(t) => now_us > t && now_us - t >= DISABLE_US,
            None => true,
        };
        if due {
            self.disable_attempt_us = Some(now_us);
        }
        due
    }

    /// How switching the motors off went. A task lets go of the robot only when every motor has
    /// been seen to be off; the run is then handed back, ended.
    pub fn wound_down(&mut self, told: Result<(), String>, disabled: bool) -> (ended: Option<Run>)
        requires
            old(self).valid(),
            old(self).stopping,
            old(self).task is Some,
        ensures
            final(self).valid(),
            ended is Some <==> told is Ok && disabled,
            match ended {
                Some(run) => {
                    &&& run.finish matches Some(f) && f.state == old(self).outcome && f.disabled && f.reason@
                        == (match old(self).error {
                        Some(e) => e@,
                        None => "stopped"@,
                    })
                    &&& run == (Run { finish: run.finish, recording: false, ..old(self).run() })
                    &&& *final(self) == (Experiment {
                        task: None,
                        owned: false,
                        task_id: None,
                        run_token: None,
                        stopping: false,
                        running: false,
                        ..*old(self)
                    })
                },
                None => *final(self) == (Experiment {
                    running: false,
                    error: match told {
                        Err(e) => Some(e),
                        Ok(()) => old(self).error,
                    },
                    ..*old(self)
                }),
            },
    {
        self.running = false;
        match told {
            Ok(()) => {
                if !disabled {
                    return None;
                }
                let reason = match &self.error {
                    Some(e) => e.clone(),
                    None => "stopped".to_owned(),
                };
                match self.task.take() {
                    Some(mut run) => {
                        run.end(Finish { state: self.outcome, reason, disabled: true });
                        self.owned = false;
                        self.task_id = None;
                        self.run_token = None;
                        self.stopping = false;
                        Some(run)
                    },
                    None => None,
                }
            },
            Err(e) => {
                self.error = Some(e);
                None
            },
        }
    }
}

/// Why a row that was taken is not sent: it is not the one whose time it is, or the motors are
/// too far from it.
pub open spec fn late_or_astray(run: Run, row: Row, board: Board, reading: Reading, why: Seq<char>) -> bool {
    if row.at_ms != run.index * 20 {
        why == "command sequence changed or out of order"@
    } else {
        tracking(board, reading, row.motors@, run.header.max_tracking_error->0 as int, 0) == Some(why)
    }
}

proof fn lemma_seat(ids: Seq<u8>, id: u8, from: int)
    requires
        0 <= from,
    ensures
        match seat(ids, id, from) {
            Some(k) => from <= k < ids.len() && ids[k] == id && forall|i: int|
                from <= i < k ==> ids[i] != id,
            None => forall|i: int| from <= i < ids.len() ==> ids[i] != id,
        },
    decreases ids.len() - from,
{
    if from < ids.len() && ids[from] != id {
        lemma_seat(ids, id, from + 1);
    }
}

/// Whether a motor is the first of its number on the board.
pub open spec fn first_on(board: Board, id: u8, k: int) -> bool {
    &&& 0 <= k < board.ids@.len()
    &&& board.ids@[k] == id
    &&& forall|i: int| 0 <= i < k ==> board.ids@[i] != id
}

/// Whether the motor of a command is on the board, its angle is known, and that is no further than
/// so much from where the command has it, either way.
pub open spec fn follows(board: Board, reading: Reading, command: Command, most: int) -> bool {
    exists|k: int| #[trigger]
        first_on(board, command.motor_id, k) && {
            let p = reading.positions@[board.joints@[k] as int];
            p is Some && p->0 - command.p <= most && command.p - p->0 <= most
        }
}

proof fn lemma_follows(board: Board, reading: Reading, command: Command, most: int)
    ensures
        follows(board, reading, command, most) <==> (match seat(board.ids@, command.motor_id, 0) {
            Some(k) => close(reading.positions@[board.joints@[k] as int], command.p, most),
            None => false,
        }),
{
    lemma_seat(board.ids@, command.motor_id, 0);
    match seat(board.ids@, command.motor_id, 0) {
        Some(k) => {
            assert(first_on(board, command.motor_id, k));
            if follows(board, reading, command, most) {
                let other = choose|other: int| #[trigger]
                    first_on(board, command.motor_id, other) && {
                        let p = reading.positions@[board.joints@[other] as int];
                        p is Some && p->0 - command.p <= most && command.p - p->0 <= most
                    };
                assert(other == k);
            }
        },
        None => {},
    }
}

proof fn lemma_tracking(board: Board, reading: Reading, commands: Seq<Command>, most: int, from: int)
    requires
        0 <= from,
    ensures
        tracking(board, reading, commands, most, from) is None <==> forall|i: int|
            from <= i < commands.len() ==> follows(board, reading, #[trigger] commands[i], most),
    decreases commands.len() - from,
{
    if from < commands.len() {
        lemma_tracking(board, reading, commands, most, from + 1);
        lemma_follows(board, reading, commands[from], most);
    }
}

/// A row passes exactly where every one of its commands is tracked: each motor that it tells
/// something is on the board, its angle is known, and it is close enough to where it is told to be.
pub proof fn every_command_is_tracked(board: Board, reading: Reading, commands: Seq<Command>, most: int)
    ensures
        tracking(board, reading, commands, most, 0) is None <==> forall|i: int|
            0 <= i < commands.len() ==> follows(board, reading, #[trigger] commands[i], most),
{
    lemma_tracking(board, reading, commands, most, 0);
}

/// A row with a motor astray does not pass, wherever in the row that motor is; and leaving commands
/// out of a row, or allowing more, never makes it fail.
pub proof fn tracking_is_monotone(
    board: Board,
    reading: Reading,
    commands: Seq<Command>,
    fewer: Seq<Command>,
    most: int,
    more: int,
)
    requires
        most <= more,
        forall|i: int| 0 <= i < fewer.len() ==> commands.contains(#[trigger] fewer[i]),
        tracking(board, reading, commands, most, 0) is None,
    ensures
        tracking(board, reading, fewer, more, 0) is None,
{
    every_command_is_tracked(board, reading, commands, most);
    every_command_is_tracked(board, reading, fewer, more);
    assert forall|i: int| 0 <= i < fewer.len() implies follows(
        board,
        reading,
        #[trigger] fewer[i],
        more,
    ) by {
        let k = choose|k: int| 0 <= k < commands.len() && commands[k] == fewer[i];
        assert(follows(board, reading, commands[k], most));
        lemma_follows(board, reading, fewer[i], most);
        lemma_follows(board, reading, fewer[i], more);
    }
}

/// Whether a limit is the first that is given for a motor.
pub open spec fn first_given(cfg: Config, id: u8, l: int) -> bool {
    &&& 0 <= l < cfg.limits@.len()
    &&& cfg.limits@[l].motor_id == id
    &&& forall|i: int| 0 <= i < l ==> (#[trigger] cfg.limits@[i]).motor_id != id
}

/// Whether the first command for a motor, if there is one, is no further than so much from where
/// the motor is, either way.
pub open spec fn starts_close(position: i64, commands: Seq<Command>, id: u8, most: int) -> bool {
    forall|i: int|
        0 <= i < commands.len() && (#[trigger] commands[i]).motor_id == id && (forall|j: int|
            0 <= j < i ==> (#[trigger] commands[j]).motor_id != id) ==> position - commands[i].p <= most
            && commands[i].p - position <= most
}

/// Whether a motor may be commanded: it has a range, its angle is known and within it, its
/// temperature is known and below the task's limit, and if the task has yet to start, the motor is
/// where the task begins.
pub open spec fn fit(
    board: Board,
    reading: Reading,
    cfg: Config,
    header: Header,
    first: Option<Seq<Command>>,
    k: int,
) -> bool {
    let joint = board.joints@[k] as int;
    let p = reading.positions@[joint];
    let t = reading.temperatures@[joint];
    &&& exists|l: int| #[trigger]
        first_given(cfg, board.ids@[k], l) && p is Some && cfg.limits@[l].min->0 <= p->0 && p->0
            <= cfg.limits@[l].max->0
    &&& t is Some
    &&& t->0 < header.max_temperature->0
    &&& first is Some ==> starts_close(
        p->0,
        first->0,
        board.ids@[k],
        header.start_tolerance->0 as int,
    )
}

proof fn lemma_range(cfg: Config, id: u8, from: int)
    requires
        0 <= from,
    ensures
        match crate::calibration::first_limit(cfg.limits@, id, from) {
            Some(limit) => exists|l: int|
                from <= l < cfg.limits@.len() && limit == #[trigger] cfg.limits@[l] && limit.motor_id == id
                    && forall|i: int| from <= i < l ==> (#[trigger] cfg.limits@[i]).motor_id != id,
            None => forall|i: int|
                from <= i < cfg.limits@.len() ==> (#[trigger] cfg.limits@[i]).motor_id != id,
        },
    decreases cfg.limits@.len() - from,
{
    if from < cfg.limits@.len() && cfg.limits@[from].motor_id != id {
        lemma_range(cfg, id, from + 1);
    }
}

proof fn lemma_command_for(commands: Seq<Command>, id: u8, from: int)
    requires
        0 <= from,
    ensures
        match command_for(commands, id, from) {
            Some(c) => exists|i: int|
                from <= i < commands.len() && c == #[trigger] commands[i] && c.motor_id == id
                    && forall|j: int| from <= j < i ==> (#[trigger] commands[j]).motor_id != id,
            None => forall|i: int|
                from <= i < commands.len() ==> (#[trigger] commands[i]).motor_id != id,
        },
    decreases commands.len() - from,
{
    if from < commands.len() && commands[from].motor_id != id {
        lemma_command_for(commands, id, from + 1);
    }
}

proof fn lemma_fit(
    board: Board,
    reading: Reading,
    cfg: Config,
    header: Header,
    first: Option<Seq<Command>>,
    k: int,
)
    ensures
        motor_fault(
            board.ids@[k],
            board.joints@[k] as int,
            reading,
            cfg,
            header,
            first,
        ) is None <==> fit(board, reading, cfg, header, first, k),
{
    let id = board.ids@[k];
    lemma_range(cfg, id, 0);
    if first is Some {
        let commands = first->0;
        lemma_command_for(commands, id, 0);
        if let Some(c) = command_for(commands, id, 0) {
            let i = choose|i: int|
                0 <= i < commands.len() && c == #[trigger] commands[i] && c.motor_id == id
                    && forall|j: int| 0 <= j < i ==> (#[trigger] commands[j]).motor_id != id;
            let p = reading.positions@[board.joints@[k] as int];
            let most = header.start_tolerance->0 as int;
            if starts_close(p->0, commands, id, most) {
                assert(commands[i].motor_id == id);
            }
            if p->0 - c.p <= most && c.p - p->0 <= most {
                assert(starts_close(p->0, commands, id, most)) by {
                    assert forall|m: int|
                        0 <= m < commands.len() && (#[trigger] commands[m]).motor_id == id && (
                        forall|j: int| 0 <= j < m ==> (#[trigger] commands[j]).motor_id != id) implies p->0
                        - commands[m].p <= most && commands[m].p - p->0 <= most by {
                        if m < i {
                            assert(commands[m].motor_id != id);
                        } else if i < m {
                            assert(commands[i].motor_id == id);
                        }
                    }
                }
            }
        }
    }
    match cfg.range(id) {
        Some(limit) => {
            let l = choose|l: int|
                0 <= l < cfg.limits@.len() && limit == #[trigger] cfg.limits@[l] && limit.motor_id == id
                    && forall|i: int| 0 <= i < l ==> (#[trigger] cfg.limits@[i]).motor_id != id;
            assert(first_given(cfg, id, l));
            assert forall|m: int| #[trigger] first_given(cfg, id, m) implies m == l by {
                if m < l {
                    assert(cfg.limits@[m].motor_id != id);
                } else if l < m {
                    assert(cfg.limits@[l].motor_id != id);
                }
            }
        },
        None => {
            assert forall|m: int| !(#[trigger] first_given(cfg, id, m)) by {
                if first_given(cfg, id, m) {
                    assert(cfg.limits@[m].motor_id != id);
                }
            }
        },
    }
}

proof fn lemma_inspection(
    board: Board,
    reading: Reading,
    cfg: Config,
    header: Header,
    first: Option<Seq<Command>>,
    from: int,
)
    requires
        0 <= from,
    ensures
        inspection(board, reading, cfg, header, first, from) is None <==> forall|k: int|
            from <= k < board.ids@.len() && #[trigger] board.ids@[k] != 0 ==> fit(
                board,
                reading,
                cfg,
                header,
                first,
                k,
            ),
    decreases board.ids@.len() - from,
{
    if from < board.ids@.len() {
        lemma_inspection(board, reading, cfg, header, first, from + 1);
        lemma_fit(board, reading, cfg, header, first, from);
    }
}

/// A command may be sent exactly where every motor that is fitted may be commanded, and a task that
/// has yet to start finds every motor off, nothing failed on disk, and the calibration it was
/// looked over against.
pub proof fn what_lets_a_command_go(
    e: Experiment,
    board: Board,
    reading: Reading,
    cfg: Config,
    disabled: bool,
)
    ensures
        e.obstacle(board, reading, cfg, disabled) is None <==> {
            let run = e.task->0;
            let starting = run.started_us is None;
            &&& forall|k: int|
                0 <= k < board.ids@.len() && #[trigger] board.ids@[k] != 0 ==> fit(
                    board,
                    reading,
                    cfg,
                    run.header,
                    if starting {
                        Some(run.first.motors@)
                    } else {
                        None
                    },
                    k,
                )
            &&& starting ==> disabled && run.failure is None && run.limits@ == cfg.limits@
        },
{
    let run = e.run();
    let first = if run.started_us is None {
        Some(run.first.motors@)
    } else {
        None
    };
    lemma_inspection(board, reading, cfg, run.header, first, 0);
}

/// A motor that a row tells something is told exactly that: the first that the row has for it.
pub proof fn a_selected_motor_gets_its_command(limit: Limit, commands: Seq<Command>, i: int)
    requires
        0 <= i < commands.len(),
        commands[i].motor_id == limit.motor_id,
        forall|j: int| 0 <= j < i ==> (#[trigger] commands[j]).motor_id != limit.motor_id,
    ensures
        order_for(limit, commands) == commands[i],
{
    lemma_command_for(commands, limit.motor_id, 0);
    let c = command_for(commands, limit.motor_id, 0)->0;
    let k = choose|k: int|
        0 <= k < commands.len() && c == #[trigger] commands[k] && c.motor_id == limit.motor_id
            && forall|j: int| 0 <= j < k ==> (#[trigger] commands[j]).motor_id != limit.motor_id;
    if k < i {
        assert(commands[k].motor_id != limit.motor_id);
    } else if i < k {
        assert(commands[i].motor_id != limit.motor_id);
    }
}

/// A motor that is not selected is told of no angle further from zero than it has to be: of all the
/// angles that the motors count in and that lie within its range, the one nearest to zero.
pub proof fn an_unselected_motor_rests_near_zero(limit: Limit, commands: Seq<Command>, mrad: int)
    requires
        crate::calibration::sound(limit),
        forall|i: int| 0 <= i < commands.len() ==> (#[trigger] commands[i]).motor_id != limit.motor_id,
        limit.min->0 <= mrad * MRAD <= limit.max->0,
    ensures
        order_for(limit, commands).motor_id == limit.motor_id,
        order_for(limit, commands).p >= 0 ==> order_for(limit, commands).p <= (if mrad < 0 {
            -mrad * MRAD
        } else {
            mrad * MRAD
        }),
        order_for(limit, commands).p < 0 ==> mrad * MRAD <= order_for(limit, commands).p,
{
    lemma_command_for(commands, limit.motor_id, 0);
    assert(command_for(commands, limit.motor_id, 0) is None) by {
        if let Some(c) = command_for(commands, limit.motor_id, 0) {
            let k = choose|k: int|
                0 <= k < commands.len() && c == #[trigger] commands[k] && c.motor_id == limit.motor_id
                    && forall|j: int|
                    0 <= j < k ==> (#[trigger] commands[j]).motor_id != limit.motor_id;
            assert(commands[k].motor_id != limit.motor_id);
        }
    }
    lemma_in_range(limit);
    crate::calibration::quantising_never_widens(limit);
    let low = ceil_mrad(limit.min->0 as int);
    let high = floor_mrad(limit.max->0 as int);
    assert(low <= mrad <= high) by (nonlinear_arith)
        requires
            limit.min->0 <= mrad * 1_000_000,
            mrad * 1_000_000 <= limit.max->0,
            low * 1_000_000 < limit.min->0 + 1_000_000,
            limit.max->0 - 1_000_000 < high * 1_000_000,
    ;
}

/// The first reason for which a task ends is the one that counts: once it is ending, nothing else
/// that goes wrong changes what it came to.
pub proof fn the_first_reason_counts(
    e: Experiment,
    first: Experiment,
    second: Experiment,
    states: (State, State),
    reasons: (Seq<char>, Seq<char>),
)
    requires
        e.owned,
        e.halted(first, states.0, reasons.0),
        first.halted(second, states.1, reasons.1),
    ensures
        first.stopping,
        second == first,
        first.owned && first.task == e.task,
        !e.stopping ==> first.outcome == states.0 && (first.error matches Some(why) && why@ == reasons.0),
        e.stopping ==> first == e,
{
}

/// Only whoever started a task stops it: one that has the robot is stopped under its own name and
/// with its own token, and with nothing else.
pub proof fn a_task_is_stopped_by_its_token(e: Experiment, id: Seq<char>, token: Option<Seq<char>>)
    ensures
        e.stop_fault(id, token) is None <==> (e.owned ==> (match e.task_id {
            Some(mine) => mine@ == id,
            None => false,
        }) && (match e.run_token {
            Some(mine) => token == Some(mine@),
            None => token is None,
        })),
{
}

/// Whether the word of the robot is good: its feedback is fresh, the motors report no fault, the
/// IMU is ready, and the ranges are not known to be missing.
pub open spec fn well(sight: Sight) -> bool {
    sight.fresh && !sight.faulty && sight.imu_ready && sight.limits_ready != Some(false)
}

/// A task is executed only on a robot that is well and otherwise at rest, and by one that is not
/// ending; and then it is. A robot that is not, has the task fail and the motors switched off.
pub proof fn a_task_runs_on_a_robot_that_is_well(
    e: Experiment,
    after: Experiment,
    sight: Sight,
    now_us: u64,
    duty: Duty,
)
    requires
        e.ticked(after, sight, now_us, duty),
    ensures
        duty == Duty::Execute <==> e.owned && e.task is Some && !e.stopping && well(sight) && sight.idle,
        duty == Duty::Free <==> !e.owned,
        duty == Duty::Held <==> e.owned && e.task is None,
        duty == Duty::WindDown <==> e.owned && e.task is Some && after.stopping,
        after.owned == e.owned && after.task == e.task,
        e.owned && e.task is Some && !e.stopping && !(well(sight) && sight.idle) ==> after.stopping
            && after.outcome == State::Failed,
        e.stopping ==> after.stopping && after.outcome == e.outcome && after.error == e.error,
{
}

/// The robot counts as ready only by the word of a tick in which no task had it, it was well, at
/// rest, and every motor was off; and that word counts for a tenth of a second.
pub proof fn readiness_is_fresh(
    e: Experiment,
    after: Experiment,
    sight: Sight,
    now_us: u64,
    later_us: u64,
    duty: Duty,
)
    requires
        e.ticked(after, sight, now_us, duty),
        now_us <= later_us,
    ensures
        after.ready(later_us) <==> !e.owned && sight.idle && well(sight) && sight.disabled && later_us
            - now_us < 100_000,
{
}

} // verus!
