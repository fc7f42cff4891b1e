//! Controlled runs of a policy on the live robot, with the motors following it or not.
//!
//! The ordinary controller still does the inference. This module owns the clock of an experiment,
//! its schedule of commands and its life from being configured to the duck being home again.
//! Quantities are in billionths of their unit; a value that is not a finite number is `None`.

pub mod session;

use crate::net::Net;
use crate::scan::push_text;
use vstd::prelude::*;

verus! {

/// How many experiments are kept.
pub const MAX_SESSIONS: usize = 8;

/// How many segments a schedule may have.
pub const MAX_SEGMENTS: usize = 256;

/// How long an experiment may last, in milliseconds.
pub const MAX_DURATION_MS: u64 = 1_800_000;

/// How many records may wait to be written.
pub const RECORD_BUFFER: usize = 64;

/// How long the duck may take to get home before an experiment, in milliseconds.
pub const INITIALIZE_MS: u64 = 30_000;

/// How long an experiment that is ready waits to be started, in milliseconds.
pub const READY_MS: u64 = 60_000;

/// Whether the motors follow the policy.
#[derive(Debug, Clone, Copy, PartialEq, Eq, Structural)]
pub enum Mode {
    InferenceOnly,
    ClosedLoop,
}

/// Which policy an experiment is about.
#[derive(Debug, Clone, Copy, PartialEq, Eq, Structural)]
pub enum Policy {
    /// Whichever the controller picks.
    Auto,
    Walk,
    Stand,
}

/// A skill that a segment starts.
#[derive(Debug, Clone, Copy, PartialEq, Eq, Structural)]
pub enum Action {
    SitToggle,
    GroundPick,
    KickLeft,
    KickRight,
    Roulade,
}

impl Action {
    pub open spec fn label(self) -> Seq<char> {
        match self {
            Action::SitToggle => "SitToggle"@,
            Action::GroundPick => "GroundPick"@,
            Action::KickLeft => "KickLeft"@,
            Action::KickRight => "KickRight"@,
            Action::Roulade => "Roulade"@,
        }
    }

    pub fn name(self) -> (name: &'static str)
        ensures
            name@ == self.label(),
    {
        match self {
            Action::SitToggle => "SitToggle",
            Action::GroundPick => "GroundPick",
            Action::KickLeft => "KickLeft",
            Action::KickRight => "KickRight",
            Action::Roulade => "Roulade",
        }
    }
}

/// Which policies can be run.
#[derive(Debug, Clone, Copy, PartialEq, Eq, Structural)]
pub struct Availability {
    pub walk: bool,
    pub stand: bool,
    pub sitstand: bool,
    pub ground_pick: bool,
    pub kick_left: bool,
    pub kick_right: bool,
    pub roulade: bool,
}

impl Availability {
    pub open spec fn offers(self, action: Action) -> bool {
        match action {
            Action::SitToggle => self.sitstand,
            Action::GroundPick => self.ground_pick,
            Action::KickLeft => self.kick_left,
            Action::KickRight => self.kick_right,
            Action::Roulade => self.roulade,
        }
    }

    pub fn action(self, action: Action) -> (yes: bool)
        ensures
            yes == self.offers(action),
    {
        match action {
            Action::SitToggle => self.sitstand,
            Action::GroundPick => self.ground_pick,
            Action::KickLeft => self.kick_left,
            Action::KickRight => self.kick_right,
            Action::Roulade => self.roulade,
        }
    }

    pub open spec fn runs(self, policy: Policy) -> bool {
        match policy {
            Policy::Auto | Policy::Walk => self.walk,
            Policy::Stand => self.stand,
        }
    }
}

/// What the duck is told to do, and for how long.
#[derive(Debug, Clone, Copy)]
pub struct Segment {
    pub duration_ms: u64,
    pub action: Option<Action>,
    /// Forwards, sideways and turning.
    pub twist: [Option<i64>; 3],
    pub head: [Option<i64>; 4],
    /// Height, roll and pitch.
    pub body: [Option<i64>; 3],
}

/// An experiment, as it is asked for.
pub struct Config {
    pub mode: Mode,
    pub policy: Policy,
    pub segments: Vec<Segment>,
    pub max_temperature: Option<i64>,
    pub stop_on_fall: bool,
}

/// Whether a number is given and lies between two bounds.
pub open spec fn between(value: Option<i64>, low: int, high: int) -> bool {
    value matches Some(v) && low <= v <= high
}

fn is_between(value: Option<i64>, low: i64, high: i64) -> (yes: bool)
    ensures
        yes == between(value, low as int, high as int),
{
    match value {
        Some(v) => low <= v && v <= high,
        None => false,
    }
}

impl Segment {
    /// Whether every number of a segment is finite.
    pub open spec fn finite(self) -> bool {
        &&& forall|i: int| 0 <= i < 3 ==> (#[trigger] self.twist@[i]) is Some
        &&& forall|i: int| 0 <= i < 4 ==> (#[trigger] self.head@[i]) is Some
        &&& forall|i: int| 0 <= i < 3 ==> (#[trigger] self.body@[i]) is Some
    }

    /// What is wrong with a segment, how long it lasts apart.
    pub open spec fn fault(self) -> Option<Seq<char>> {
        if !self.finite() {
            Some("实验指令不能包含 NaN/Inf"@)
        } else if !(between(self.twist@[0], -300_000_000, 300_000_000) && between(
            self.twist@[1],
            -300_000_000,
            300_000_000,
        ) && between(self.twist@[2], -1_500_000_000, 1_500_000_000)) {
            Some("twist 超出平台范围：vx/vy ±0.3 m/s，vyaw ±1.5 rad/s"@)
        } else if !(forall|i: int|
            0 <= i < 4 ==> between(#[trigger] self.head@[i], -1_500_000_000, 1_500_000_000)) {
            Some("head 指令绝对值不能超过 1.5 rad"@)
        } else if !(between(self.body@[0], -25_000_000, 10_000_000) && between(
            self.body@[1],
            -260_000_000,
            260_000_000,
        ) && between(self.body@[2], -260_000_000, 260_000_000)) {
            Some("body 超出训练范围：z -0.025..0.010 m，roll/pitch ±0.26 rad"@)
        } else {
            None
        }
    }

    fn check(&self) -> (fault: Option<&'static str>)
        ensures
            match fault {
                Some(why) => self.fault() == Some(why@),
                None => self.fault() is None,
            },
    {
        let twist = self.twist;
        let head = self.head;
        let body = self.body;
        let finite = twist[0].is_some() && twist[1].is_some() && twist[2].is_some()
            && head[0].is_some() && head[1].is_some() && head[2].is_some() && head[3].is_some()
            && body[0].is_some() && body[1].is_some() && body[2].is_some();
        proof {
            assert(finite == self.finite()) by {
                if self.finite() {
                    assert(self.twist@[0] is Some && self.twist@[1] is Some && self.twist@[2] is Some);
                    assert(self.head@[0] is Some && self.head@[1] is Some && self.head@[2] is Some
                        && self.head@[3] is Some);
                    assert(self.body@[0] is Some && self.body@[1] is Some && self.body@[2] is Some);
                }
            }
        }
        if !finite {
            return Some("实验指令不能包含 NaN/Inf");
        }
        if !is_between(twist[0], -300_000_000, 300_000_000) || !is_between(
            twist[1],
            -300_000_000,
            300_000_000,
        ) || !is_between(twist[2], -1_500_000_000, 1_500_000_000) {
            return Some("twist 超出平台范围：vx/vy ±0.3 m/s，vyaw ±1.5 rad/s");
        }
        let steady = is_between(head[0], -1_500_000_000, 1_500_000_000) && is_between(
            head[1],
            -1_500_000_000,
            1_500_000_000,
        ) && is_between(head[2], -1_500_000_000, 1_500_000_000) && is_between(
            head[3],
            -1_500_000_000,
            1_500_000_000,
        );
        proof {
            assert(steady == (forall|i: int|
                0 <= i < 4 ==> between(#[trigger] self.head@[i], -1_500_000_000, 1_500_000_000)))
                by {
                if forall|i: int|
                    0 <= i < 4 ==> between(#[trigger] self.head@[i], -1_500_000_000, 1_500_000_000) {
                    assert(between(self.head@[0], -1_500_000_000, 1_500_000_000));
                    assert(between(self.head@[1], -1_500_000_000, 1_500_000_000));
                    assert(between(self.head@[2], -1_500_000_000, 1_500_000_000));
                    assert(between(self.head@[3], -1_500_000_000, 1_500_000_000));
                }
            }
        }
        if !steady {
            return Some("head 指令绝对值不能超过 1.5 rad");
        }
        if !is_between(body[0], -25_000_000, 10_000_000) || !is_between(
            body[1],
            -260_000_000,
            260_000_000,
        ) || !is_between(body[2], -260_000_000, 260_000_000) {
            return Some("body 超出训练范围：z -0.025..0.010 m，roll/pitch ±0.26 rad");
        }
        None
    }
}

/// When a segment starts: after all those before it.
pub open spec fn begins(segments: Seq<Segment>, at: int) -> int
    decreases at,
{
    if at <= 0 {
        0
    } else {
        begins(segments, at - 1) + segments[at - 1].duration_ms
    }
}

/// What is wrong with the segments from one on.
pub open spec fn segments_fault(segments: Seq<Segment>, from: int) -> Option<Seq<char>>
    decreases segments.len() - from,
{
    if from < 0 || from >= segments.len() {
        None
    } else if segments[from].duration_ms == 0 || segments[from].duration_ms % 20 != 0 {
        Some("每段 duration_ms 必须为正数且是 20 ms 的倍数"@)
    } else if begins(segments, from + 1) > u64::MAX {
        Some("实验时长溢出"@)
    } else if segments[from].fault() is Some {
        segments[from].fault()
    } else {
        segments_fault(segments, from + 1)
    }
}

impl Config {
    /// What is wrong with an experiment.
    pub open spec fn fault(self) -> Option<Seq<char>> {
        let segments = self.segments@;
        if segments.len() == 0 || segments.len() > MAX_SEGMENTS {
            Some("指令段数量须为 1..256"@)
        } else if segments_fault(segments, 0) is Some {
            segments_fault(segments, 0)
        } else if begins(segments, segments.len() as int) > MAX_DURATION_MS {
            Some("策略实验最长 30 分钟"@)
        } else if !between(self.max_temperature, 20_000_000_000, 80_000_000_000) {
            Some("max_temperature_c 必须为 20..80"@)
        } else {
            None
        }
    }

    pub fn copy(&self) -> (config: Config)
        ensures
            config.mode == self.mode,
            config.policy == self.policy,
            config.segments@ == self.segments@,
            config.max_temperature == self.max_temperature,
            config.stop_on_fall == self.stop_on_fall,
    {
        let mut segments: Vec<Segment> = Vec::new();
        let mut at: usize = 0;
        while at < self.segments.len()
            invariant
                at <= self.segments@.len(),
                segments@ == self.segments@.take(at as int),
            decreases self.segments@.len() - at,
        {
            segments.push(self.segments[at]);
            at = at + 1;
        }
        Config {
            mode: self.mode,
            policy: self.policy,
            segments,
            max_temperature: self.max_temperature,
            stop_on_fall: self.stop_on_fall,
        }
    }
}

/// Looks an experiment over.
pub fn validate(config: &Config) -> (ok: Result<(), String>)
    ensures
        match ok {
            Ok(()) => config.fault() is None,
            Err(why) => config.fault() == Some(why@),
        },
{
    if config.segments.len() == 0 || config.segments.len() > MAX_SEGMENTS {
        return Err("指令段数量须为 1..256".to_owned());
    }
    let mut duration: u64 = 0;
    let mut at: usize = 0;
    while at < config.segments.len()
        invariant
            at <= config.segments@.len(),
            0 < config.segments@.len() <= MAX_SEGMENTS,
            duration == begins(config.segments@, at as int),
            segments_fault(config.segments@, 0) == segments_fault(config.segments@, at as int),
        decreases config.segments@.len() - at,
    {
        let segment: &Segment = &config.segments[at];
        if segment.duration_ms == 0 || segment.duration_ms % 20 != 0 {
            return Err("每段 duration_ms 必须为正数且是 20 ms 的倍数".to_owned());
        }
        if segment.duration_ms > u64::MAX - duration {
            return Err("实验时长溢出".to_owned());
        }
        duration = duration + segment.duration_ms;
        match segment.check() {
            Some(why) => {
                return Err(why.to_owned());
            },
            None => {},
        }
        at = at + 1;
    }
    if duration > MAX_DURATION_MS {
        return Err("策略实验最长 30 分钟".to_owned());
    }
    if !is_between(config.max_temperature, 20_000_000_000, 80_000_000_000) {
        return Err("max_temperature_c 必须为 20..80".to_owned());
    }
    Ok(())
}

/// Which segment runs so long after the start, from one on.
pub open spec fn segment_at(segments: Seq<Segment>, elapsed_ms: int, from: int) -> Option<int>
    decreases segments.len() - from,
{
    if from < 0 || from >= segments.len() {
        None
    } else if elapsed_ms < segments[from].duration_ms {
        Some(from)
    } else {
        segment_at(segments, elapsed_ms - segments[from].duration_ms, from + 1)
    }
}

/// The segment that runs so long after the start, if the schedule is not over.
pub fn command_at(config: &Config, elapsed_ms: u64) -> (index: Option<usize>)
    ensures
        match index {
            Some(i) => i < config.segments@.len() && segment_at(config.segments@, elapsed_ms as int, 0)
                == Some(i as int),
            None => segment_at(config.segments@, elapsed_ms as int, 0) is None,
        },
{
    let mut left: u64 = elapsed_ms;
    let mut at: usize = 0;
    while at < config.segments.len()
        invariant
            at <= config.segments@.len(),
            segment_at(config.segments@, elapsed_ms as int, 0) == segment_at(
                config.segments@,
                left as int,
                at as int,
            ),
        decreases config.segments@.len() - at,
    {
        if left < config.segments[at].duration_ms {
            return Some(at);
        }
        left = left - config.segments[at].duration_ms;
        at = at + 1;
    }
    None
}

proof fn lemma_segment_at(segments: Seq<Segment>, elapsed_ms: int, from: int)
    requires
        0 <= from <= segments.len(),
        begins(segments, from) <= elapsed_ms,
    ensures
        ({
            let found = segment_at(segments, elapsed_ms - begins(segments, from), from);
            match found {
                Some(i) => from <= i < segments.len() && begins(segments, i) <= elapsed_ms < begins(
                    segments,
                    i + 1,
                ),
                None => begins(segments, segments.len() as int) <= elapsed_ms,
            }
        }),
    decreases segments.len() - from,
{
    if from < segments.len() {
        let left = elapsed_ms - begins(segments, from);
        if left >= segments[from].duration_ms {
            lemma_segment_at(segments, elapsed_ms, from + 1);
        }
    }
}

proof fn lemma_begins_rise(segments: Seq<Segment>, i: int, j: int)
    requires
        0 <= i <= j <= segments.len(),
    ensures
        begins(segments, i) <= begins(segments, j),
    decreases j - i,
{
    if i < j {
        lemma_begins_rise(segments, i, j - 1);
    }
}

/// A schedule has no gaps, no overlaps and a hard end: at every time before the end exactly the
/// segment whose turn it is runs, and from the end on none does.
pub proof fn a_schedule_has_a_hard_end(segments: Seq<Segment>, elapsed_ms: int, i: int)
    requires
        0 <= elapsed_ms,
        0 <= i < segments.len(),
    ensures
        segment_at(segments, elapsed_ms, 0) is None <==> elapsed_ms >= begins(
            segments,
            segments.len() as int,
        ),
        segment_at(segments, elapsed_ms, 0) == Some(i) <==> begins(segments, i) <= elapsed_ms < begins(
            segments,
            i + 1,
        ),
{
    lemma_segment_at(segments, elapsed_ms, 0);
    let n = segments.len() as int;
    lemma_begins_rise(segments, i + 1, n);
    match segment_at(segments, elapsed_ms, 0) {
        Some(k) => {
            lemma_begins_rise(segments, k + 1, n);
            if k < i {
                lemma_begins_rise(segments, k + 1, i);
            }
            if i < k {
                lemma_begins_rise(segments, i + 1, k);
            }
        },
        None => {},
    }
}

/// What the controller is asked for in one tick of an experiment.
#[derive(Debug, Clone, Copy)]
pub struct Drive {
    /// The segment whose command it is.
    pub segment: usize,
    /// The network it is pinned to, if any.
    pub policy: Option<Net>,
    /// The skill that starts now, if any.
    pub action: Option<Action>,
    pub inference_only: bool,
}

/// The first skill of a schedule, from one segment on, that cannot be run.
pub open spec fn unavailable(segments: Seq<Segment>, available: Availability, from: int) -> Option<Action>
    decreases segments.len() - from,
{
    if from < 0 || from >= segments.len() {
        None
    } else if segments[from].action matches Some(action) && !available.offers(action) {
        segments[from].action
    } else {
        unavailable(segments, available, from + 1)
    }
}

/// What an experiment is refused for, beyond what is wrong with it: a policy that is not there.
pub open spec fn unsupported(config: Config, available: Availability) -> Option<Seq<char>> {
    if !available.runs(config.policy) {
        Some("所选策略槽位当前没有可运行的策略"@)
    } else {
        match unavailable(config.segments@, available, 0) {
            Some(action) => Some("动作 "@ + action.label() + " 当前没有可运行的策略"@),
            None => None,
        }
    }
}

/// Whether every policy that an experiment needs is there.
pub fn check_support(config: &Config, available: Availability) -> (ok: Result<(), String>)
    ensures
        match ok {
            Ok(()) => unsupported(*config, available) is None,
            Err(why) => unsupported(*config, available) == Some(why@),
        },
{
    let runs = match config.policy {
        Policy::Auto | Policy::Walk => available.walk,
        Policy::Stand => available.stand,
    };
    if !runs {
        return Err("所选策略槽位当前没有可运行的策略".to_owned());
    }
    let mut at: usize = 0;
    while at < config.segments.len()
        invariant
            at <= config.segments@.len(),
            available.runs(config.policy),
            unavailable(config.segments@, available, 0) == unavailable(
                config.segments@,
                available,
                at as int,
            ),
        decreases config.segments@.len() - at,
    {
        match config.segments[at].action {
            Some(action) => {
                if !available.action(action) {
                    let mut why = String::new();
                    push_text(&mut why, "动作 ");
                    push_text(&mut why, action.name());
                    push_text(&mut why, " 当前没有可运行的策略");
                    proof {
                        assert(why@ =~= "动作 "@ + action.label() + " 当前没有可运行的策略"@);
                    }
                    return Err(why);
                }
            },
            None => {},
        }
        at = at + 1;
    }
    Ok(())
}

pub(crate) proof fn lemma_nothing_negative(segments: Seq<Segment>, n: int)
    ensures
        begins(segments, n) >= 0,
    decreases n,
{
    if n > 0 {
        lemma_nothing_negative(segments, n - 1);
    }
}

pub(crate) proof fn lemma_found_in_range(segments: Seq<Segment>, elapsed_ms: int)
    requires
        0 <= elapsed_ms,
    ensures
        segment_at(segments, elapsed_ms, 0) matches Some(k) ==> 0 <= k < segments.len(),
{
    lemma_segment_at(segments, elapsed_ms, 0);
}

/// Whether a number is given, and its magnitude is no larger than so much.
pub open spec fn no_more_than(value: Option<i64>, most: int) -> bool {
    value is Some && -most <= value->0 && value->0 <= most
}

/// Whether a segment keeps to what the platform can do: 0.3 m/s forwards and sideways and 1.5 rad/s
/// of turning, 1.5 rad of each joint of the head, and a body between 25 mm down and 10 mm up that
/// leans no more than 0.26 rad.
pub open spec fn on_the_platform(segment: Segment) -> bool {
    &&& no_more_than(segment.twist@[0], 300_000_000)
    &&& no_more_than(segment.twist@[1], 300_000_000)
    &&& no_more_than(segment.twist@[2], 1_500_000_000)
    &&& no_more_than(segment.head@[0], 1_500_000_000)
    &&& no_more_than(segment.head@[1], 1_500_000_000)
    &&& no_more_than(segment.head@[2], 1_500_000_000)
    &&& no_more_than(segment.head@[3], 1_500_000_000)
    &&& segment.body@[0] is Some
    &&& -25_000_000 <= segment.body@[0]->0
    &&& segment.body@[0]->0 <= 10_000_000
    &&& no_more_than(segment.body@[1], 260_000_000)
    &&& no_more_than(segment.body@[2], 260_000_000)
}

proof fn lemma_on_the_platform(segment: Segment)
    ensures
        segment.fault() is None <==> on_the_platform(segment),
{
    if segment.fault() is None {
        assert(segment.finite());
        assert(between(segment.head@[0], -1_500_000_000, 1_500_000_000));
        assert(between(segment.head@[1], -1_500_000_000, 1_500_000_000));
        assert(between(segment.head@[2], -1_500_000_000, 1_500_000_000));
        assert(between(segment.head@[3], -1_500_000_000, 1_500_000_000));
    }
    if on_the_platform(segment) {
        assert forall|i: int| 0 <= i < 4 implies between(
            #[trigger] segment.head@[i],
            -1_500_000_000,
            1_500_000_000,
        ) by {
            assert(i == 0 || i == 1 || i == 2 || i == 3);
        }
        assert forall|i: int| 0 <= i < 3 implies (#[trigger] segment.twist@[i]) is Some by {
            assert(i == 0 || i == 1 || i == 2);
        }
        assert forall|i: int| 0 <= i < 4 implies (#[trigger] segment.head@[i]) is Some by {
            assert(i == 0 || i == 1 || i == 2 || i == 3);
        }
        assert forall|i: int| 0 <= i < 3 implies (#[trigger] segment.body@[i]) is Some by {
            assert(i == 0 || i == 1 || i == 2);
        }
    }
}

proof fn lemma_segments_fault(segments: Seq<Segment>, from: int)
    requires
        0 <= from,
    ensures
        segments_fault(segments, from) is None <==> forall|i: int|
            from <= i < segments.len() ==> {
                &&& (#[trigger] segments[i]).duration_ms > 0
                &&& segments[i].duration_ms % 20 == 0
                &&& begins(segments, i + 1) <= u64::MAX
                &&& on_the_platform(segments[i])
            },
    decreases segments.len() - from,
{
    if from < segments.len() {
        lemma_segments_fault(segments, from + 1);
        lemma_on_the_platform(segments[from]);
    }
}

/// An experiment is taken exactly where it has one to 256 segments, each of them a positive multiple
/// of twenty milliseconds and within what the platform can do, lasts half an hour at most, and
/// stops at a temperature between twenty and eighty degrees.
pub proof fn a_sound_experiment_is_taken(config: Config)
    ensures
        config.fault() is None <==> {
            let segments = config.segments@;
            &&& 1 <= segments.len() <= 256
            &&& forall|i: int|
                0 <= i < segments.len() ==> (#[trigger] segments[i]).duration_ms > 0
                    && segments[i].duration_ms % 20 == 0 && on_the_platform(segments[i])
            &&& begins(segments, segments.len() as int) <= 30 * 60 * 1000
            &&& config.max_temperature is Some
            &&& 20_000_000_000 <= config.max_temperature->0
            &&& config.max_temperature->0 <= 80_000_000_000
        },
{
    let segments = config.segments@;
    lemma_segments_fault(segments, 0);
    if begins(segments, segments.len() as int) <= 30 * 60 * 1000 {
        assert forall|i: int|
            #![trigger segments[i]]
            0 <= i < segments.len() implies begins(segments, i + 1) <= u64::MAX by {
            lemma_begins_rise(segments, i + 1, segments.len() as int);
        }
    }
}

proof fn lemma_unavailable(segments: Seq<Segment>, available: Availability, from: int)
    requires
        0 <= from,
    ensures
        unavailable(segments, available, from) is None <==> forall|i: int|
            from <= i < segments.len() ==> ((#[trigger] segments[i]).action matches Some(action)
                ==> available.offers(action)),
    decreases segments.len() - from,
{
    if from < segments.len() {
        lemma_unavailable(segments, available, from + 1);
    }
}

/// An experiment needs the policies it names: that of walking or standing, and that of every skill
/// in its schedule.
pub proof fn every_policy_has_to_be_there(config: Config, available: Availability)
    ensures
        unsupported(config, available) is None <==> {
            &&& config.policy == Policy::Stand ==> available.stand
            &&& config.policy != Policy::Stand ==> available.walk
            &&& forall|i: int|
                #![trigger config.segments@[i]]
                0 <= i < config.segments@.len() ==> {
                    let action = config.segments@[i].action;
                    &&& action == Some(Action::SitToggle) ==> available.sitstand
                    &&& action == Some(Action::GroundPick) ==> available.ground_pick
                    &&& action == Some(Action::KickLeft) ==> available.kick_left
                    &&& action == Some(Action::KickRight) ==> available.kick_right
                    &&& action == Some(Action::Roulade) ==> available.roulade
                }
        },
{
    lemma_unavailable(config.segments@, available, 0);
    let segments = config.segments@;
    if unsupported(config, available) is None {
        assert forall|i: int|
            #![trigger config.segments@[i]]
            0 <= i < config.segments@.len() implies {
            let action = config.segments@[i].action;
            &&& action == Some(Action::SitToggle) ==> available.sitstand
            &&& action == Some(Action::GroundPick) ==> available.ground_pick
            &&& action == Some(Action::KickLeft) ==> available.kick_left
            &&& action == Some(Action::KickRight) ==> available.kick_right
            &&& action == Some(Action::Roulade) ==> available.roulade
        } by {
            assert(segments[i].action matches Some(action) ==> available.offers(action));
        }
    }
}

} // verus!
