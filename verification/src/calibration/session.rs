//! Changing a calibration while the robot is limp, and keeping the motors in step with it.

use crate::calibration::{
    copy_limits, copy_pose, fitted, has_id, wired_all, Board, Config, Limit, WireLimit, JOINTS,
    RETRY_MS,
};
use crate::scan::push_text;
use vstd::prelude::*;

verus! {

/// A request to look at the calibration or to change it.
pub enum CalibrationParams {
    Get,
    SetLimits { limits: Vec<Limit> },
    SetHome { positions: Vec<Option<i64>> },
    /// Take where a motor is now as its zero.
    MarkZero { motor_id: u8 },
}

/// What a client is told.
pub struct Status {
    /// Every motor that is there, and the joint it moves.
    pub motors: Vec<(u8, usize)>,
    pub config: Config,
    pub request_id: u64,
    pub busy: bool,
    pub synced: bool,
    pub editable: bool,
    pub error: Option<String>,
    pub home_error: Option<String>,
}

/// The motors that are there with the joints they move.
pub open spec fn moved(ids: Seq<u8>, joints: Seq<usize>) -> Seq<(u8, usize)>
    decreases ids.len(),
{
    if ids.len() == 0 || joints.len() != ids.len() {
        Seq::empty()
    } else {
        let rest = moved(ids.drop_last(), joints.drop_last());
        if ids.last() == 0 {
            rest
        } else {
            rest.push((ids.last(), joints.last()))
        }
    }
}

fn list_motors(board: &Board) -> (motors: Vec<(u8, usize)>)
    requires
        board.valid(),
    ensures
        motors@ == moved(board.ids@, board.joints@),
{
    let mut motors: Vec<(u8, usize)> = Vec::new();
    let mut at: usize = 0;
    proof {
        assert(board.ids@.take(0) =~= Seq::empty());
    }
    while at < board.ids.len()
        invariant
            at <= board.ids@.len(),
            board.valid(),
            motors@ == moved(board.ids@.take(at as int), board.joints@.take(at as int)),
        decreases board.ids@.len() - at,
    {
        proof {
            assert(board.ids@.take(at + 1).drop_last() =~= board.ids@.take(at as int));
            assert(board.joints@.take(at + 1).drop_last() =~= board.joints@.take(at as int));
        }
        if board.ids[at] != 0 {
            motors.push((board.ids[at], board.joints[at]));
        }
        at = at + 1;
    }
    proof {
        assert(board.ids@.take(at as int) =~= board.ids@);
        assert(board.joints@.take(at as int) =~= board.joints@);
    }
    motors
}

/// The calibration of a robot, and what is being done about it.
pub struct Calibration {
    pub board: Board,
    pub status: Status,
    pub pending: Option<CalibrationParams>,
    /// Whether there is a file to save to.
    pub saved: bool,
    pub load_error: Option<String>,
    pub next_sync_ms: Option<u64>,
    /// The ranges the motors last accepted, as far as that is known.
    pub onboard: Ghost<Option<Seq<WireLimit>>>,
}

/// What a changed calibration would be.
pub open spec fn proposed(config: Config, request: CalibrationParams, next: Config) -> bool {
    &&& next.version == config.version
    &&& next.limits@ == (match request {
        CalibrationParams::SetLimits { limits } => limits@,
        _ => config.limits@,
    })
    &&& next.home@ == (match request {
        CalibrationParams::SetHome { positions } => positions@,
        _ => config.home@,
    })
}

/// The calibration that a request asks for.
pub open spec fn asked(config: Config, request: CalibrationParams) -> Config {
    Config {
        version: config.version,
        limits: match request {
            CalibrationParams::SetLimits { limits } => limits,
            _ => config.limits,
        },
        home: match request {
            CalibrationParams::SetHome { positions } => positions,
            _ => config.home,
        },
    }
}

proof fn lemma_same_fault(a: Config, b: Config, board: Board)
    requires
        a.version == b.version,
        a.limits@ == b.limits@,
        a.home@ == b.home@,
    ensures
        a.fault(board) == b.fault(board),
        forall|from: int| a.first_astray(board, from) == b.first_astray(board, from),
{
    assert forall|from: int| a.first_astray(board, from) == b.first_astray(board, from) by {
        lemma_same_astray(a, b, board, from);
    }
}

proof fn lemma_same_astray(a: Config, b: Config, board: Board, from: int)
    requires
        a.limits@ == b.limits@,
        a.home@ == b.home@,
    ensures
        a.first_astray(board, from) == b.first_astray(board, from),
    decreases board.ids@.len() - from,
{
    if 0 <= from < board.ids@.len() {
        lemma_same_astray(a, b, board, from + 1);
    }
}

impl Calibration {
    /// What every session keeps to: the calibration in force has nothing wrong with it, a change
    /// that waits has nothing wrong with it either, and motors that are in step hold exactly the
    /// ranges of the calibration.
    pub open spec fn valid(self) -> bool {
        &&& self.board.valid()
        &&& self.status.config.valid(self.board)
        &&& self.pending matches Some(request) ==> self.load_error is None && self.acceptable(request)
        &&& self.status.synced ==> self.load_error is None && self.onboard@ == Some(
            wired_all(self.status.config.limits@),
        )
    }

    /// Whether a change would leave the calibration with nothing wrong with it.
    pub open spec fn acceptable(self, request: CalibrationParams) -> bool {
        &&& !(request is Get)
        &&& asked(self.status.config, request).valid(self.board)
        &&& request matches CalibrationParams::MarkZero { motor_id } ==> motor_id != 0
            && self.board.ids@.contains(motor_id)
    }

    /// A robot that was never calibrated. Its own calibration has to make sense: that is the case
    /// where no motor is fitted twice.
    pub fn new(board: Board) -> (c: Calibration)
        requires
            board.valid(),
            fitted(board.ids@).no_duplicates(),
        ensures
            c.valid(),
            c.board == board,
            c.load_error is None,
            c.pending is None,
            !c.saved,
            c.next_sync_ms is None,
            c.status.motors@ == moved(board.ids@, board.joints@),
            c.status.config.limits@.len() == fitted(board.ids@).len(),
            forall|i: int|
                0 <= i < c.status.config.limits@.len() ==> #[trigger] c.status.config.limits@[i] == (
                Limit {
                    motor_id: fitted(board.ids@)[i],
                    min: Some((-3 * crate::calibration::RADIAN) as i64),
                    max: Some((3 * crate::calibration::RADIAN) as i64),
                }),
            c.status.config.home@ == Seq::new(JOINTS as nat, |i: int| Some(0i64)),
            c.status.request_id == 0,
            !c.status.busy,
            !c.status.synced,
            !c.status.editable,
            c.status.error is None,
            c.status.home_error is None,
    {
        let motors = list_motors(&board);
        let config = Config::new(&board);
        proof {
            lemma_default_sound(config, board, 0);
        }
        Calibration {
            board,
            status: Status {
                motors,
                config,
                request_id: 0,
                busy: false,
                synced: false,
                editable: false,
                error: None,
                home_error: None,
            },
            pending: None,
            saved: false,
            load_error: None,
            next_sync_ms: None,
            onboard: Ghost(None),
        }
    }

    /// Takes over what was read from disk, or keeps the reason why nothing could be used: nothing
    /// moves under a calibration that could not be read.
    pub fn load(&mut self, path: &str, read: Result<Config, String>)
        requires
            old(self).valid(),
            old(self).load_error is None,
            old(self).pending is None,
            !old(self).status.synced,
            read matches Ok(config) ==> config.home@.len() == JOINTS,
        ensures
            final(self).valid(),
            *final(self) == (Calibration {
                saved: true,
                load_error: final(self).load_error,
                status: Status {
                    config: final(self).status.config,
                    error: final(self).status.error,
                    ..old(self).status
                },
                ..*old(self)
            }),
            match read {
                Ok(config) => match config.fault(old(self).board) {
                    None => final(self).load_error is None && final(self).status.config == config
                        && final(self).status.error == old(self).status.error,
                    Some(why) => {
                        &&& final(self).status.config == old(self).status.config
                        &&& final(self).load_error matches Some(error)
                        &&& error@ == unreadable(path@, why)
                        &&& final(self).status.error matches Some(shown)
                        &&& shown@ == error@
                    },
                },
                Err(why) => {
                    &&& final(self).status.config == old(self).status.config
                    &&& final(self).load_error matches Some(error)
                    &&& error@ == unreadable(path@, why@)
                    &&& final(self).status.error matches Some(shown)
                    &&& shown@ == error@
                },
            },
    {
        self.saved = true;
        let checked = match read {
            Ok(config) => match config.validate(&self.board) {
                Ok(()) => Ok(config),
                Err(why) => Err(why),
            },
            Err(why) => Err(why),
        };
        match checked {
            Ok(config) => {
                self.status.config = config;
            },
            Err(why) => {
                let mut error = String::new();
                push_text(&mut error, "无法读取标定文件 ");
                push_text(&mut error, path);
                push_text(&mut error, "：");
                push_text(&mut error, why.as_str());
                proof {
                    assert(error@ =~= unreadable(path@, why@));
                }
                self.status.error = Some(error.clone());
                self.load_error = Some(error);
            },
        }
    }

    /// The motors are gone: nothing is known of them any more, and a change that waited is off.
    pub fn disconnected(&mut self)
        requires
            old(self).valid(),
        ensures
            final(self).valid(),
            final(self).board == old(self).board,
            final(self).saved == old(self).saved,
            final(self).load_error == old(self).load_error,
            final(self).pending is None,
            final(self).next_sync_ms is None,
            !final(self).status.synced,
            !final(self).status.editable,
            final(self).status.config == old(self).status.config,
            final(self).status.request_id == old(self).status.request_id,
            final(self).status.motors == old(self).status.motors,
            final(self).status.home_error == old(self).status.home_error,
            match old(self).pending {
                Some(_) => !final(self).status.busy && (final(self).status.error matches Some(e) && e@
                    == "USB 已断开，标定请求已取消"@),
                None => final(self).status.busy == old(self).status.busy && final(self).status.error
                    == old(self).status.error,
            },
    {
        self.status.synced = false;
        self.next_sync_ms = None;
        self.status.editable = false;
        if self.pending.take().is_some() {
            self.status.busy = false;
            self.status.error = Some("USB 已断开，标定请求已取消".to_owned());
        }
    }

    /// Why a request is turned down.
    pub open spec fn refusal(self, request: CalibrationParams) -> Option<Seq<char>> {
        if request is Get {
            None
        } else if self.load_error is Some {
            Some(self.load_error->0@)
        } else if self.status.busy {
            Some("已有标定正在处理"@)
        } else if !self.status.editable {
            Some("请先放松，并等待全部已配置电机在线且失能"@)
        } else if request matches CalibrationParams::SetHome { positions } && positions@.len() != JOINTS {
            Some("默认站姿需要 15 个关节值"@)
        } else if request matches CalibrationParams::MarkZero { motor_id } && (motor_id == 0
            || !self.board.ids@.contains(motor_id)) {
            Some("未知电机 ID"@)
        } else if asked(self.status.config, request).fault(self.board) is Some {
            asked(self.status.config, request).fault(self.board)
        } else if request is SetHome && asked(self.status.config, request).first_astray(
            self.board,
            0,
        ) is Some {
            Some(
                crate::calibration::astray_text(
                    asked(self.status.config, request).first_astray(self.board, 0)->0,
                ),
            )
        } else {
            None
        }
    }

    /// Queues a change for the control loop. Only while the robot is limp with every motor known
    /// to be off, one at a time, and only one that makes sense.
    pub fn request(&mut self, request: CalibrationParams) -> (queued: Result<(), String>)
        requires
            old(self).valid(),
            old(self).status.request_id < u64::MAX,
        ensures
            final(self).valid(),
            match queued {
                Err(why) => *final(self) == *old(self) && old(self).refusal(request) == Some(why@),
                Ok(()) => old(self).refusal(request) is None && (if request is Get {
                    *final(self) == *old(self)
                } else {
                    *final(self) == (Calibration {
                        pending: Some(request),
                        status: Status {
                            request_id: (old(self).status.request_id + 1) as u64,
                            busy: true,
                            error: None,
                            ..old(self).status
                        },
                        ..*old(self)
                    })
                }),
            },
    {
        match &request {
            CalibrationParams::Get => {
                return Ok(());
            },
            _ => {},
        }
        match &self.load_error {
            Some(error) => {
                return Err(error.clone());
            },
            None => {},
        }
        if self.status.busy {
            return Err("已有标定正在处理".to_owned());
        }
        if !self.status.editable {
            return Err("请先放松，并等待全部已配置电机在线且失能".to_owned());
        }
        let mut next = self.status.config.copy();
        let mut pose = false;
        match &request {
            CalibrationParams::SetLimits { limits } => {
                next.limits = copy_limits(limits);
            },
            CalibrationParams::SetHome { positions } => {
                if positions.len() != JOINTS {
                    return Err("默认站姿需要 15 个关节值".to_owned());
                }
                next.home = copy_pose(positions);
                pose = true;
            },
            CalibrationParams::MarkZero { motor_id } => {
                if *motor_id == 0 || !has_id(&self.board.ids, *motor_id) {
                    return Err("未知电机 ID".to_owned());
                }
            },
            CalibrationParams::Get => {},
        }
        proof {
            lemma_same_fault(next, asked(self.status.config, request), self.board);
        }
        match next.validate(&self.board) {
            Err(why) => {
                return Err(why);
            },
            Ok(()) => {},
        }
        if pose {
            match next.home_error(&self.board) {
                Some(why) => {
                    return Err(why);
                },
                None => {},
            }
        }
        self.status.request_id = self.status.request_id + 1;
        self.status.busy = true;
        self.status.error = None;
        self.pending = Some(request);
        Ok(())
    }

    /// Why the motors must not be enabled, if they must not: only a calibration that was read, is
    /// not being changed, is known to the motors and has its pose within the ranges will do.
    pub fn enable_error(&self) -> (error: Option<String>)
        requires
            self.valid(),
        ensures
            match error {
                Some(why) => if self.load_error is Some {
                    why@ == self.load_error->0@
                } else if self.status.busy {
                    why@ == "标定尚未完成"@
                } else if !self.status.synced {
                    why@ == "限位尚未同步到 STM32，不能使能"@
                } else {
                    self.status.config.first_astray(self.board, 0) matches Some(id) && why@
                        == crate::calibration::astray_text(id)
                },
                None => self.load_error is None && !self.status.busy && self.status.synced
                    && self.status.config.first_astray(self.board, 0) is None && self.onboard@ == Some(
                    wired_all(self.status.config.limits@),
                ),
            },
    {
        match &self.load_error {
            Some(error) => {
                return Some(error.clone());
            },
            None => {},
        }
        if self.status.busy {
            return Some("标定尚未完成".to_owned());
        }
        if !self.status.synced {
            return Some("限位尚未同步到 STM32，不能使能".to_owned());
        }
        self.status.config.home_error(&self.board)
    }
}

pub open spec fn unreadable(path: Seq<char>, why: Seq<char>) -> Seq<char> {
    "无法读取标定文件 "@ + path + "："@ + why
}

proof fn lemma_default_sound(config: Config, board: Board, from: int)
    requires
        0 <= from <= config.limits@.len(),
        config.limits@.len() == fitted(board.ids@).len(),
        fitted(board.ids@).no_duplicates(),
        forall|i: int|
            0 <= i < config.limits@.len() ==> #[trigger] config.limits@[i] == (Limit {
                motor_id: fitted(board.ids@)[i],
                min: Some((-3 * crate::calibration::RADIAN) as i64),
                max: Some((3 * crate::calibration::RADIAN) as i64),
            }),
    ensures
        crate::calibration::limits_fault(config.limits@, fitted(board.ids@), from) is None,
    decreases config.limits@.len() - from,
{
    if from < config.limits@.len() {
        let limit = config.limits@[from];
        assert(fitted(board.ids@)[from] == limit.motor_id);
        assert(fitted(board.ids@).contains(limit.motor_id));
        if crate::calibration::earlier(config.limits@, limit.motor_id, from) {
            let j = choose|j: int| 0 <= j < from && (#[trigger] config.limits@[j]).motor_id == limit.motor_id;
            assert(fitted(board.ids@)[j] == fitted(board.ids@)[from]);
        }
        assert(crate::calibration::ceil_mrad(-3_000_000_000) == -3000);
        assert(crate::calibration::floor_mrad(3_000_000_000) == 3000);
        lemma_default_sound(config, board, from + 1);
    }
}

/// What a change has come to.
#[derive(Debug, Clone, Copy, PartialEq, Eq, Structural)]
pub enum Stage {
    /// Tell the motors the ranges in force.
    Sync,
    /// Tell the motors the new ranges.
    Apply,
    /// Have a motor take its place as zero.
    Zero,
    /// Save the new calibration.
    Save,
    /// Tell the motors the ranges in force again, after the new ones came to nothing.
    Restore,
    Done,
}

/// A change in progress.
pub struct Job {
    pub request: Option<CalibrationParams>,
    pub next: Config,
    pub stage: Stage,
    pub synced: bool,
    pub error: Option<String>,
    /// The ranges the motors last accepted, as far as that is known.
    pub onboard: Ghost<Option<Seq<WireLimit>>>,
}

impl Job {
    pub open spec fn changes_limits(self) -> bool {
        self.request matches Some(CalibrationParams::SetLimits { limits: _ })
    }

    /// Whether a change is one that is saved.
    pub open spec fn lasting(self) -> bool {
        self.request matches Some(r) && (r is SetLimits || r is SetHome)
    }

    /// What a job keeps to, against the session it belongs to.
    pub open spec fn valid(self, c: Calibration) -> bool {
        let before = c.status.config;
        &&& c.board.valid()
        &&& c.load_error is None
        &&& before.valid(c.board)
        &&& self.next.valid(c.board)
        &&& self.next.version == 1
        &&& !self.changes_limits() ==> self.next.limits@ == before.limits@
        &&& match self.request {
            Some(request) => proposed(before, request, self.next) && !(request is Get),
            None => self.next.limits@ == before.limits@ && self.next.home@ == before.home@,
        }
        &&& self.synced ==> self.onboard@ == Some(
            wired_all(
                if self.error is None && self.stage != Stage::Sync && self.stage != Stage::Restore {
                    self.next.limits@
                } else {
                    before.limits@
                },
            ),
        )
        &&& self.stage == Stage::Sync ==> self.error is None && !self.synced
        &&& self.stage == Stage::Apply ==> self.error is None && self.changes_limits() && !self.synced
        &&& self.stage == Stage::Zero ==> self.error is None && (self.request matches Some(
            CalibrationParams::MarkZero { motor_id: _ },
        ))
        &&& self.stage == Stage::Save ==> self.error is None && self.lasting() && c.saved
        &&& self.stage == Stage::Restore ==> self.error is Some && self.changes_limits()
        &&& (self.stage == Stage::Done && self.error is Some && self.changes_limits()) ==> (
        self.synced ==> self.onboard@ == Some(wired_all(before.limits@)))
    }

    /// Where a change starts once the motors are in step with the calibration in force.
    pub open spec fn start(request: Option<CalibrationParams>, saved: bool) -> Stage {
        match request {
            Some(CalibrationParams::SetLimits { limits: _ }) => Stage::Apply,
            Some(CalibrationParams::SetHome { positions: _ }) => if saved {
                Stage::Save
            } else {
                Stage::Done
            },
            Some(CalibrationParams::MarkZero { motor_id: _ }) => Stage::Zero,
            _ => Stage::Done,
        }
    }

    fn started(&self, saved: bool) -> (stage: Stage)
        ensures
            stage == Job::start(self.request, saved),
    {
        match &self.request {
            Some(CalibrationParams::SetLimits { limits: _ }) => Stage::Apply,
            Some(CalibrationParams::SetHome { positions: _ }) => if saved {
                Stage::Save
            } else {
                Stage::Done
            },
            Some(CalibrationParams::MarkZero { motor_id: _ }) => Stage::Zero,
            _ => Stage::Done,
        }
    }

    /// Goes on after a step. A step that failed ends the change; if it was about ranges, the
    /// motors may have accepted them, so they are told the ranges in force again, and if they do
    /// not accept those, they count as out of step.
    pub fn advance(&mut self, c: &Calibration, outcome: Result<(), String>)
        requires
            old(self).valid(*c),
            old(self).stage != Stage::Done,
        ensures
            final(self).valid(*c),
            final(self).request == old(self).request,
            final(self).next == old(self).next,
            old(self).stage == Stage::Restore ==> final(self).stage == Stage::Done && final(self).error
                == old(self).error && final(self).synced == outcome is Ok,
            old(self).stage != Stage::Restore ==> match outcome {
                Ok(()) => final(self).error is None && final(self).stage == (match old(self).stage {
                    Stage::Sync => Job::start(old(self).request, c.saved),
                    Stage::Apply => if c.saved {
                        Stage::Save
                    } else {
                        Stage::Done
                    },
                    _ => Stage::Done,
                }) && final(self).synced == (match old(self).stage {
                    Stage::Sync => !old(self).changes_limits(),
                    Stage::Apply => true,
                    _ => old(self).synced,
                }),
                Err(why) => final(self).error == Some(why) && final(self).stage == (
                if old(self).changes_limits() {
                    Stage::Restore
                } else {
                    Stage::Done
                }) && (!old(self).changes_limits() ==> final(self).synced == old(self).synced),
            },
    {
        let failed = outcome.is_err();
        let limits = match &self.request {
            Some(CalibrationParams::SetLimits { limits: _ }) => true,
            _ => false,
        };
        let stage = self.stage;
        proof {
            let told = match stage {
                Stage::Sync | Stage::Restore => Some(wired_all(c.status.config.limits@)),
                Stage::Apply => Some(wired_all(self.next.limits@)),
                _ => self.onboard@,
            };
            self.onboard@ = if failed && (stage == Stage::Sync || stage == Stage::Apply || stage
                == Stage::Restore) {
                None
            } else {
                told
            };
        }
        match stage {
            Stage::Restore => {
                self.synced = !failed;
                self.stage = Stage::Done;
                return;
            },
            _ => {},
        }
        match outcome {
            Err(why) => {
                self.error = Some(why);
                if limits {
                    self.synced = false;
                    self.stage = Stage::Restore;
                } else {
                    self.stage = Stage::Done;
                }
            },
            Ok(()) => {
                match stage {
                    Stage::Sync => {
                        self.synced = !limits;
                        self.stage = self.started(c.saved);
                    },
                    Stage::Apply => {
                        self.synced = true;
                        self.stage = if c.saved {
                            Stage::Save
                        } else {
                            Stage::Done
                        };
                    },
                    _ => {
                        self.stage = Stage::Done;
                    },
                }
            },
        }
    }
}

/// What the control loop sees, once per tick.
#[derive(Debug, Clone, Copy, PartialEq, Eq, Structural)]
pub struct Sight {
    /// What the motors say of their ranges, if they say anything.
    pub limits_ready: Option<bool>,
    /// Whether there is feedback and, as far as the motors report it, all of them are off.
    pub disabled: bool,
    /// Whether the robot is limp.
    pub limp: bool,
}

impl Calibration {
    /// Whether the calibration can be edited, given what is seen.
    pub open spec fn editable_now(self, sight: Sight) -> bool {
        sight.limp && sight.disabled && self.load_error is None
    }

    /// Whether there is anything to do this tick.
    pub open spec fn due(self, sight: Sight, now_ms: u64) -> bool {
        &&& self.editable_now(sight)
        &&& self.pending is Some || !((self.status.synced && sight.limits_ready != Some(false)) || (
        self.next_sync_ms matches Some(at) && now_ms < at))
    }

    /// Starts what there is to do this tick, before any request for power is looked at. A change
    /// that waits is turned down if the motors are not known to be off after all.
    pub fn tick(&mut self, sight: Sight, now_ms: u64) -> (job: Option<Job>)
        requires
            old(self).valid(),
        ensures
            final(self).valid(),
            final(self).board == old(self).board,
            final(self).saved == old(self).saved,
            final(self).load_error == old(self).load_error,
            final(self).next_sync_ms == old(self).next_sync_ms,
            final(self).status.config == old(self).status.config,
            final(self).status.request_id == old(self).status.request_id,
            final(self).status.motors == old(self).status.motors,
            final(self).status.synced == (old(self).status.synced && sight.limits_ready != Some(false)),
            final(self).status.editable == old(self).editable_now(sight),
            final(self).pending is None || old(self).load_error is Some,
            match final(self).status.home_error {
                Some(why) => old(self).status.config.first_astray(old(self).board, 0) matches Some(id)
                    && why@ == crate::calibration::astray_text(id),
                None => old(self).status.config.first_astray(old(self).board, 0) is None,
            },
            job is Some <==> old(self).due(sight, now_ms),
            match job {
                Some(j) => j.valid(*final(self)) && j.request == old(self).pending && j.error is None
                    && final(self).status.busy && final(self).status.error == old(self).status.error
                    && j.stage == (if final(self).status.synced {
                    Job::start(old(self).pending, old(self).saved)
                } else {
                    Stage::Sync
                }) && j.synced == (final(self).status.synced && j.stage != Stage::Apply),
                None => if old(self).load_error is None && !old(self).editable_now(sight)
                    && old(self).pending is Some {
                    !final(self).status.busy && (final(self).status.error matches Some(e) && e@
                        == "执行时电机未确认失能，标定已拒绝"@)
                } else {
                    final(self).status.busy == old(self).status.busy && final(self).status.error
                        == old(self).status.error
                },
            },
    {
        match sight.limits_ready {
            Some(false) => {
                self.status.synced = false;
            },
            _ => {},
        }
        self.status.editable = sight.limp && sight.disabled;
        self.status.home_error = self.status.config.home_error(&self.board);
        if self.load_error.is_some() {
            self.status.editable = false;
            return None;
        }
        let request = self.pending.take();
        if !self.status.editable {
            if request.is_some() {
                self.status.busy = false;
                self.status.error = Some("执行时电机未确认失能，标定已拒绝".to_owned());
            }
            return None;
        }
        let waiting = match self.next_sync_ms {
            Some(at) => now_ms < at,
            None => false,
        };
        if request.is_none() && (self.status.synced || waiting) {
            return None;
        }
        self.status.busy = true;
        let mut next = self.status.config.copy();
        let mut limits_change = false;
        match &request {
            Some(CalibrationParams::SetLimits { limits }) => {
                next.limits = copy_limits(limits);
                limits_change = true;
            },
            Some(CalibrationParams::SetHome { positions }) => {
                next.home = copy_pose(positions);
            },
            _ => {},
        }
        proof {
            if request is Some {
                lemma_same_fault(next, asked(self.status.config, request->0), self.board);
            } else {
                lemma_same_fault(next, self.status.config, self.board);
            }
        }
        let mut job = Job {
            request,
            next,
            stage: Stage::Sync,
            synced: false,
            error: None,
            onboard: self.onboard,
        };
        if self.status.synced {
            job.stage = job.started(self.saved);
            job.synced = !limits_change;
        }
        Some(job)
    }

    /// Takes over how a change ended. It counts only if every step of it went well; then the
    /// calibration is the one asked for, and otherwise it is what it was.
    pub fn settle(&mut self, job: Job, now_ms: u64)
        requires
            old(self).valid(),
            old(self).load_error is None,
            old(self).pending is None,
            job.valid(*old(self)),
            job.stage == Stage::Done,
            now_ms <= u64::MAX - RETRY_MS,
        ensures
            final(self).valid(),
            final(self).board == old(self).board,
            final(self).saved == old(self).saved,
            final(self).load_error is None,
            final(self).pending is None,
            !final(self).status.busy,
            final(self).status.error == job.error,
            final(self).status.synced == job.synced,
            final(self).next_sync_ms == (if job.synced {
                None
            } else {
                Some((now_ms + RETRY_MS) as u64)
            }),
            !job.synced ==> final(self).next_sync_ms == Some((now_ms + 1_000) as u64),
            final(self).status.config == (if job.error is None {
                job.next
            } else {
                old(self).status.config
            }),
            final(self).status.request_id == old(self).status.request_id,
            final(self).status.editable == old(self).status.editable,
            final(self).status.motors == old(self).status.motors,
            match final(self).status.home_error {
                Some(why) => final(self).status.config.first_astray(old(self).board, 0) matches Some(
                    id,
                ) && why@ == crate::calibration::astray_text(id),
                None => final(self).status.config.first_astray(old(self).board, 0) is None,
            },
    {
        proof {
            self.onboard@ = job.onboard@;
        }
        self.status.synced = job.synced;
        self.next_sync_ms = if job.synced {
            None
        } else {
            Some(now_ms + RETRY_MS)
        };
        if job.error.is_none() {
            self.status.config = job.next;
        }
        self.status.error = job.error;
        self.status.home_error = self.status.config.home_error(&self.board);
        self.status.busy = false;
    }
}

/// A client is told of every motor that is there, with the joint it moves, and of no other.
pub proof fn which_motors_are_told_of(ids: Seq<u8>, joints: Seq<usize>, id: u8, joint: usize)
    requires
        ids.len() == joints.len(),
    ensures
        moved(ids, joints).contains((id, joint)) <==> id != 0 && exists|i: int|
            0 <= i < ids.len() && (#[trigger] ids[i]) == id && joints[i] == joint,
    decreases ids.len(),
{
    if ids.len() > 0 {
        let (a, b) = (ids.drop_last(), joints.drop_last());
        let rest = moved(a, b);
        let all = moved(ids, joints);
        let last = ids.len() - 1;
        which_motors_are_told_of(a, b, id, joint);
        if exists|i: int| 0 <= i < a.len() && (#[trigger] a[i]) == id && b[i] == joint {
            let i = choose|i: int| 0 <= i < a.len() && (#[trigger] a[i]) == id && b[i] == joint;
            assert(ids[i] == id && joints[i] == joint);
        }
        if exists|i: int| 0 <= i < ids.len() && (#[trigger] ids[i]) == id && joints[i] == joint {
            let i = choose|i: int| 0 <= i < ids.len() && (#[trigger] ids[i]) == id && joints[i] == joint;
            if i < last {
                assert(a[i] == id && b[i] == joint);
            }
        }
        if rest.contains((id, joint)) {
            let i = choose|i: int| 0 <= i < rest.len() && rest[i] == (id, joint);
            assert(all[i] == (id, joint));
        }
        if all.contains((id, joint)) {
            let i = choose|i: int| 0 <= i < all.len() && all[i] == (id, joint);
            if i < rest.len() {
                assert(rest[i] == (id, joint));
            } else {
                assert(ids[last] == id && joints[last] == joint);
            }
        }
        if ids[last] == id && joints[last] == joint && id != 0 {
            assert(all[rest.len() as int] == (id, joint));
        }
    } else {
        assert(!moved(ids, joints).contains((id, joint)));
    }
}

/// A change is queued where the calibration could be read, nothing else waits, the robot is limp with its
/// motors known to be off, and what would come of it makes sense: a motor that is there, a value for
/// each of the fifteen joints, ranges with nothing wrong with them, and a pose within them.
pub proof fn which_changes_are_queued(c: Calibration, request: CalibrationParams)
    ensures
        request is Get ==> c.refusal(request) is None,
        !(request is Get) ==> (c.refusal(request) is None <==> {
            &&& c.load_error is None
            &&& !c.status.busy
            &&& c.status.editable
            &&& request matches CalibrationParams::SetHome { positions } ==> positions@.len() == 15
            &&& request matches CalibrationParams::MarkZero { motor_id } ==> motor_id != 0
                && c.board.ids@.contains(motor_id)
            &&& asked(c.status.config, request).fault(c.board) is None
            &&& request is SetHome ==> asked(c.status.config, request).first_astray(c.board, 0) is None
        }),
{
}

/// A change of the ranges changes the ranges, one of the pose the pose, and marking a zero neither.
pub proof fn what_a_change_changes(config: Config, request: CalibrationParams)
    ensures
        ({
            let next = asked(config, request);
            &&& next.version == config.version
            &&& request matches CalibrationParams::SetLimits { limits } ==> next.limits == limits && next.home
                == config.home
            &&& request matches CalibrationParams::SetHome { positions } ==> next.home == positions
                && next.limits == config.limits
            &&& request is Get || request is MarkZero ==> next.limits == config.limits && next.home
                == config.home
            &&& proposed(config, request, next)
        }),
{
}

/// A change of the ranges starts at the motors, one of the pose at the disk, where there is one, and a
/// zero at its motor.
pub proof fn where_a_change_starts(request: CalibrationParams, saved: bool)
    ensures
        Job::start(Some(request), saved) == Stage::Apply <==> request is SetLimits,
        Job::start(Some(request), saved) == Stage::Save <==> request is SetHome && saved,
        Job::start(Some(request), saved) == Stage::Zero <==> request is MarkZero,
        Job::start(None, saved) == Stage::Done,
{
}

/// The motors are told of a calibration only while the robot is limp and they are known to be off: for a
/// change that waits at once, and otherwise where they are out of step, no more often than is due.
pub proof fn when_the_motors_are_told(c: Calibration, sight: Sight, now_ms: u64)
    ensures
        c.editable_now(sight) <==> sight.limp && sight.disabled && c.load_error is None,
        c.due(sight, now_ms) ==> sight.limp && sight.disabled && c.load_error is None,
        c.editable_now(sight) && c.pending is Some ==> c.due(sight, now_ms),
        c.editable_now(sight) && c.pending is None ==> (c.due(sight, now_ms) <==> (!c.status.synced
            || sight.limits_ready == Some(false)) && (c.next_sync_ms is None || c.next_sync_ms->0 <= now_ms)),
{
}

} // verus!
