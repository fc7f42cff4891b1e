//! Persistent motor coordinates. Only the control loop applies queued changes.
//!
//! Angles are whole billionths of a radian; a value that is not a finite number is `None`. The
//! caller talks to the motors and to the disk, and reports how each call went.

pub mod session;

use crate::scan::{decimal, push_decimal, push_text};
use vstd::prelude::*;

verus! {

/// How many joints a duck has.
pub const JOINTS: usize = 15;

/// A radian, in billionths.
pub const RADIAN: i64 = 1_000_000_000;

/// A thousandth of a radian, in billionths: what the motors count in.
pub const MRAD: i64 = 1_000_000;

/// The furthest from zero that anything may be, in either direction.
pub const REACH: i64 = 12_500_000_000;

/// How long to leave the motors alone after they refused their limits, in milliseconds.
pub const RETRY_MS: u64 = 1_000;

/// Which motors are fitted, and which joint each one moves. A motor numbered zero is not there.
pub struct Board {
    pub ids: Vec<u8>,
    pub joints: Vec<usize>,
}

/// The motors that are there.
pub open spec fn fitted(ids: Seq<u8>) -> Seq<u8>
    decreases ids.len(),
{
    if ids.len() == 0 {
        Seq::empty()
    } else if ids.last() == 0 {
        fitted(ids.drop_last())
    } else {
        fitted(ids.drop_last()).push(ids.last())
    }
}

impl Board {
    pub open spec fn valid(self) -> bool {
        &&& self.ids@.len() == self.joints@.len()
        &&& forall|i: int| 0 <= i < self.joints@.len() ==> #[trigger] self.joints@[i] < JOINTS
    }

    /// The motors that are there, in order.
    pub fn configured(&self) -> (ids: Vec<u8>)
        ensures
            ids@ == fitted(self.ids@),
    {
        let mut ids: Vec<u8> = Vec::new();
        let mut at: usize = 0;
        proof {
            assert(self.ids@.take(0) =~= Seq::empty());
        }
        while at < self.ids.len()
            invariant
                at <= self.ids@.len(),
                ids@ == fitted(self.ids@.take(at as int)),
            decreases self.ids@.len() - at,
        {
            proof {
                assert(self.ids@.take(at + 1).drop_last() =~= self.ids@.take(at as int));
            }
            if self.ids[at] != 0 {
                ids.push(self.ids[at]);
            }
            at = at + 1;
        }
        proof {
            assert(self.ids@.take(at as int) =~= self.ids@);
        }
        ids
    }
}

/// How far a motor may turn.
#[derive(Debug, Clone, Copy, PartialEq, Eq, Structural)]
pub struct Limit {
    pub motor_id: u8,
    pub min: Option<i64>,
    pub max: Option<i64>,
}

/// How far a motor may turn, as the motors are told.
#[derive(Debug, Clone, Copy, PartialEq, Eq, Structural)]
pub struct WireLimit {
    pub motor_id: u8,
    pub min_mrad: i32,
    pub max_mrad: i32,
}

/// The least whole thousandth of a radian that is not below an angle.
pub open spec fn ceil_mrad(angle: int) -> int {
    -((-angle) / (MRAD as int))
}

/// The greatest whole thousandth of a radian that is not above an angle.
pub open spec fn floor_mrad(angle: int) -> int {
    angle / (MRAD as int)
}

/// Whether both ends of a range are within reach, with a whole thousandth left between them.
pub open spec fn sound(limit: Limit) -> bool {
    &&& limit.min is Some
    &&& limit.max is Some
    &&& limit.min->0 >= -REACH
    &&& limit.max->0 <= REACH
    &&& ceil_mrad(limit.min->0 as int) < floor_mrad(limit.max->0 as int)
}

/// What the motors are told of a range: rounded inward.
pub open spec fn wired(limit: Limit) -> WireLimit {
    WireLimit {
        motor_id: limit.motor_id,
        min_mrad: ceil_mrad(limit.min->0 as int) as i32,
        max_mrad: floor_mrad(limit.max->0 as int) as i32,
    }
}

pub open spec fn wired_all(limits: Seq<Limit>) -> Seq<WireLimit> {
    Seq::new(limits.len(), |i: int| wired(limits[i]))
}

pub fn floor_of(angle: i64) -> (mrad: i64)
    requires
        -4 * REACH <= angle <= 4 * REACH,
    ensures
        mrad == floor_mrad(angle as int),
{
    let shifted: i64 = angle + 4 * REACH;
    proof {
        assert(4 * REACH as int == 50_000 * (MRAD as int));
        assert(shifted as int / (MRAD as int) == angle as int / (MRAD as int) + 50_000) by (nonlinear_arith)
            requires
                shifted as int == angle as int + 50_000 * (MRAD as int),
                MRAD as int == 1_000_000,
        ;
    }
    shifted / MRAD - 50_000
}

pub fn ceil_of(angle: i64) -> (mrad: i64)
    requires
        -4 * REACH <= angle <= 4 * REACH,
    ensures
        mrad == ceil_mrad(angle as int),
{
    let down = floor_of(-angle);
    -down
}

fn is_sound(limit: &Limit) -> (yes: bool)
    ensures
        yes == sound(*limit),
{
    match (limit.min, limit.max) {
        (Some(min), Some(max)) => {
            if min < -REACH || max > REACH || min > REACH || max < -REACH {
                proof {
                    if min >= -REACH && max <= REACH {
                        lemma_out_of_reach(min as int, max as int);
                    }
                }
                return false;
            }
            ceil_of(min) < floor_of(max)
        },
        _ => false,
    }
}

proof fn lemma_out_of_reach(min: int, max: int)
    requires
        min >= -REACH,
        max <= REACH,
        min > REACH || max < -REACH,
    ensures
        !(ceil_mrad(min) < floor_mrad(max)),
{
    assert(REACH as int == 12_500 * (MRAD as int));
    if min > REACH {
        assert((-min) / (MRAD as int) <= -12_500) by (nonlinear_arith)
            requires
                -min < -12_500 * (MRAD as int),
                MRAD as int == 1_000_000,
        ;
        assert(max / (MRAD as int) <= 12_500) by (nonlinear_arith)
            requires
                max <= 12_500 * (MRAD as int),
                MRAD as int == 1_000_000,
        ;
    } else {
        assert(max / (MRAD as int) <= -12_500) by (nonlinear_arith)
            requires
                max < -12_500 * (MRAD as int),
                MRAD as int == 1_000_000,
        ;
        assert((-min) / (MRAD as int) <= 12_500) by (nonlinear_arith)
            requires
                -min <= 12_500 * (MRAD as int),
                MRAD as int == 1_000_000,
        ;
    }
}

/// Rounding inward never widens a range: what the motors are told lies within it, and less than
/// a thousandth of a radian short of it at either end.
pub proof fn quantising_never_widens(limit: Limit)
    requires
        sound(limit),
    ensures
        limit.min->0 <= wired(limit).min_mrad * MRAD < limit.min->0 + MRAD,
        limit.max->0 - MRAD < wired(limit).max_mrad * MRAD <= limit.max->0,
        wired(limit).min_mrad < wired(limit).max_mrad,
{
    lemma_in_range(limit);
    let low = -(limit.min->0 as int);
    let high = limit.max->0 as int;
    vstd::arithmetic::div_mod::lemma_fundamental_div_mod(low, MRAD as int);
    vstd::arithmetic::div_mod::lemma_fundamental_div_mod(high, MRAD as int);
    vstd::arithmetic::div_mod::lemma_mod_bound(low, MRAD as int);
    vstd::arithmetic::div_mod::lemma_mod_bound(high, MRAD as int);
}

pub proof fn lemma_in_range(limit: Limit)
    requires
        sound(limit),
    ensures
        -12_500 <= ceil_mrad(limit.min->0 as int) < floor_mrad(limit.max->0 as int) <= 12_500,
        -REACH <= limit.min->0 <= REACH,
        -REACH <= limit.max->0 <= REACH,
{
    let min = limit.min->0 as int;
    let max = limit.max->0 as int;
    assert(REACH as int == 12_500 * (MRAD as int));
    if min > REACH || max < -REACH {
        lemma_out_of_reach(min, max);
    }
    assert((-min) / (MRAD as int) <= 12_500) by (nonlinear_arith)
        requires
            -min <= 12_500 * (MRAD as int),
            MRAD as int == 1_000_000,
    ;
    assert(max / (MRAD as int) <= 12_500) by (nonlinear_arith)
        requires
            max <= 12_500 * (MRAD as int),
            MRAD as int == 1_000_000,
    ;
}

/// The ranges of every motor, and the pose the robot stands in.
pub struct Config {
    pub version: u8,
    pub limits: Vec<Limit>,
    /// One angle for each joint.
    pub home: Vec<Option<i64>>,
}

/// Whether a motor's range came earlier in a list.
pub open spec fn earlier(limits: Seq<Limit>, id: u8, before: int) -> bool {
    exists|j: int| 0 <= j < before && (#[trigger] limits[j]).motor_id == id
}

/// What is wrong with the ranges from one on, if anything.
pub open spec fn limits_fault(limits: Seq<Limit>, ids: Seq<u8>, from: int) -> Option<Seq<char>>
    decreases limits.len() - from,
{
    if from < 0 || from >= limits.len() {
        None
    } else if !ids.contains(limits[from].motor_id) || earlier(limits, limits[from].motor_id, from) {
        Some("限位包含重复或未知电机 ID"@)
    } else if !sound(limits[from]) {
        Some("限位应在 ±12.5 rad 内，且下限至少比上限小 0.001 rad"@)
    } else {
        limits_fault(limits, ids, from + 1)
    }
}

/// Whether an angle of a pose is finite and within reach.
pub open spec fn reachable(angle: Option<i64>) -> bool {
    angle matches Some(a) && -REACH <= a <= REACH
}

impl Config {
    /// What is wrong with a calibration, if anything.
    pub open spec fn fault(self, board: Board) -> Option<Seq<char>> {
        let ids = fitted(board.ids@);
        if self.version != 1 {
            Some("标定文件版本不支持"@)
        } else if self.limits@.len() != ids.len() {
            Some("限位必须包含全部已配置电机"@)
        } else if limits_fault(self.limits@, ids, 0) is Some {
            limits_fault(self.limits@, ids, 0)
        } else if exists|i: int| 0 <= i < self.home@.len() && !reachable(#[trigger] self.home@[i]) {
            Some("默认站姿必须是有限弧度值，范围 ±12.5 rad"@)
        } else {
            None
        }
    }

    /// A calibration with nothing wrong with it.
    pub open spec fn valid(self, board: Board) -> bool {
        self.fault(board) is None && self.home@.len() == JOINTS
    }

    pub fn copy(&self) -> (config: Config)
        ensures
            config.version == self.version,
            config.limits@ == self.limits@,
            config.home@ == self.home@,
    {
        Config { version: self.version, limits: copy_limits(&self.limits), home: copy_pose(&self.home) }
    }

    /// The calibration of a robot that has none: three radians either way, and a pose of zeros.
    pub fn new(board: &Board) -> (config: Config)
        ensures
            config.version == 1,
            config.limits@.len() == fitted(board.ids@).len(),
            forall|i: int|
                0 <= i < config.limits@.len() ==> #[trigger] config.limits@[i] == (Limit {
                    motor_id: fitted(board.ids@)[i],
                    min: Some((-3 * RADIAN) as i64),
                    max: Some((3 * RADIAN) as i64),
                }),
            config.home@ == Seq::new(JOINTS as nat, |i: int| Some(0i64)),
    {
        let ids = board.configured();
        let mut limits: Vec<Limit> = Vec::new();
        let mut at: usize = 0;
        while at < ids.len()
            invariant
                at <= ids@.len(),
                limits@.len() == at,
                forall|i: int|
                    0 <= i < at ==> #[trigger] limits@[i] == (Limit {
                        motor_id: ids@[i],
                        min: Some((-3 * RADIAN) as i64),
                        max: Some((3 * RADIAN) as i64),
                    }),
            decreases ids@.len() - at,
        {
            limits.push(Limit { motor_id: ids[at], min: Some(-3 * RADIAN), max: Some(3 * RADIAN) });
            at = at + 1;
        }
        let mut home: Vec<Option<i64>> = Vec::new();
        let mut joint: usize = 0;
        while joint < JOINTS
            invariant
                joint <= JOINTS,
                home@.len() == joint,
                forall|i: int| 0 <= i < joint ==> home@[i] == Some(0i64),
            decreases JOINTS - joint,
        {
            home.push(Some(0));
            joint = joint + 1;
        }
        proof {
            assert(home@ =~= Seq::new(JOINTS as nat, |i: int| Some(0i64)));
        }
        Config { version: 1, limits, home }
    }

    /// Looks a calibration over.
    pub fn validate(&self, board: &Board) -> (ok: Result<(), String>)
        ensures
            match ok {
                Ok(()) => self.fault(*board) is None,
                Err(why) => self.fault(*board) == Some(why@),
            },
    {
        if self.version != 1 {
            return Err("标定文件版本不支持".to_owned());
        }
        let ids = board.configured();
        if self.limits.len() != ids.len() {
            return Err("限位必须包含全部已配置电机".to_owned());
        }
        match check_limits(&self.limits, &ids) {
            Some(why) => {
                return Err(why);
            },
            None => {},
        }
        let mut at: usize = 0;
        while at < self.home.len()
            invariant
                at <= self.home@.len(),
                self.version == 1,
                self.limits@.len() == fitted(board.ids@).len(),
                limits_fault(self.limits@, fitted(board.ids@), 0) is None,
                forall|i: int| 0 <= i < at ==> reachable(#[trigger] self.home@[i]),
            decreases self.home@.len() - at,
        {
            let fine = match self.home[at] {
                Some(angle) => -REACH <= angle && angle <= REACH,
                None => false,
            };
            if !fine {
                proof {
                    assert(!reachable(self.home@[at as int]));
                }
                return Err("默认站姿必须是有限弧度值，范围 ±12.5 rad".to_owned());
            }
            at = at + 1;
        }
        Ok(())
    }

    /// What the motors are told of their ranges.
    pub fn wire_limits(&self, board: &Board) -> (limits: Vec<WireLimit>)
        requires
            self.fault(*board) is None,
        ensures
            limits@ == wired_all(self.limits@),
    {
        let mut limits: Vec<WireLimit> = Vec::new();
        let mut at: usize = 0;
        while at < self.limits.len()
            invariant
                at <= self.limits@.len(),
                self.fault(*board) is None,
                limits@.len() == at,
                forall|i: int| 0 <= i < at ==> limits@[i] == wired(self.limits@[i]),
            decreases self.limits@.len() - at,
        {
            proof {
                lemma_all_sound(self.limits@, fitted(board.ids@), 0, at as int);
                lemma_in_range(self.limits@[at as int]);
            }
            let limit: Limit = self.limits[at];
            match (limit.min, limit.max) {
                (Some(min), Some(max)) => {
                    limits.push(
                        WireLimit {
                            motor_id: limit.motor_id,
                            min_mrad: ceil_of(min) as i32,
                            max_mrad: floor_of(max) as i32,
                        },
                    );
                },
                _ => {},
            }
            at = at + 1;
        }
        proof {
            assert(limits@ =~= wired_all(self.limits@));
        }
        limits
    }

    /// The range of a motor: the first that is given for it.
    pub open spec fn range(self, id: u8) -> Option<Limit> {
        first_limit(self.limits@, id, 0)
    }

    pub fn limit(&self, id: u8) -> (limit: Option<Limit>)
        ensures
            limit == self.range(id),
    {
        let mut at: usize = 0;
        while at < self.limits.len()
            invariant
                at <= self.limits@.len(),
                first_limit(self.limits@, id, 0) == first_limit(self.limits@, id, at as int),
            decreases self.limits@.len() - at,
        {
            if self.limits[at].motor_id == id {
                return Some(self.limits[at]);
            }
            at = at + 1;
        }
        None
    }

    /// Whether a motor's pose lies outside what the motors are told of its range.
    pub open spec fn astray(self, id: u8, joint: int) -> bool {
        self.range(id) matches Some(limit) && (self.home@[joint]->0 < ceil_mrad(limit.min->0 as int)
            * MRAD || self.home@[joint]->0 > floor_mrad(limit.max->0 as int) * MRAD)
    }

    /// The first motor from one on whose pose lies outside its range.
    pub open spec fn first_astray(self, board: Board, from: int) -> Option<u8>
        decreases board.ids@.len() - from,
    {
        if from < 0 || from >= board.ids@.len() {
            None
        } else if self.astray(board.ids@[from], board.joints@[from] as int) {
            Some(board.ids@[from])
        } else {
            self.first_astray(board, from + 1)
        }
    }

    /// Why the robot cannot stand up, if its pose lies outside the ranges.
    pub fn home_error(&self, board: &Board) -> (error: Option<String>)
        requires
            board.valid(),
            self.valid(*board),
        ensures
            match error {
                Some(why) => self.first_astray(*board, 0) matches Some(id) && why@ == astray_text(id),
                None => self.first_astray(*board, 0) is None,
            },
    {
        let mut at: usize = 0;
        while at < board.ids.len()
            invariant
                at <= board.ids@.len(),
                board.valid(),
                self.valid(*board),
                self.first_astray(*board, 0) == self.first_astray(*board, at as int),
            decreases board.ids@.len() - at,
        {
            let id: u8 = board.ids[at];
            let joint: usize = board.joints[at];
            match self.limit(id) {
                Some(limit) => {
                    proof {
                        lemma_first_limit(self.limits@, id, 0);
                        let k = choose|k: int| 0 <= k < self.limits@.len() && self.limits@[k] == limit;
                        lemma_all_sound(self.limits@, fitted(board.ids@), 0, k);
                        lemma_in_range(limit);
                        assert(reachable(self.home@[joint as int]));
                    }
                    match (limit.min, limit.max, self.home[joint]) {
                        (Some(min), Some(max), Some(pose)) => {
                            if pose < ceil_of(min) * MRAD || pose > floor_of(max) * MRAD {
                                return Some(astray_message(id));
                            }
                        },
                        _ => {},
                    }
                },
                None => {},
            }
            at = at + 1;
        }
        None
    }
}

/// The first range from one on that is given for a motor.
pub open spec fn first_limit(limits: Seq<Limit>, id: u8, from: int) -> Option<Limit>
    decreases limits.len() - from,
{
    if from < 0 || from >= limits.len() {
        None
    } else if limits[from].motor_id == id {
        Some(limits[from])
    } else {
        first_limit(limits, id, from + 1)
    }
}

pub proof fn lemma_first_limit(limits: Seq<Limit>, id: u8, from: int)
    requires
        0 <= from,
        first_limit(limits, id, from) is Some,
    ensures
        exists|k: int| 0 <= k < limits.len() && limits[k] == first_limit(limits, id, from)->0,
        first_limit(limits, id, from)->0.motor_id == id,
    decreases limits.len() - from,
{
    if from < limits.len() && limits[from].motor_id != id {
        lemma_first_limit(limits, id, from + 1);
    }
}

pub open spec fn astray_text(id: u8) -> Seq<char> {
    "电机 "@ + decimal(id as nat) + " 默认站姿超出限位，请重新设置默认站姿"@
}

fn astray_message(id: u8) -> (text: String)
    ensures
        text@ == astray_text(id),
{
    let mut text = String::new();
    push_text(&mut text, "电机 ");
    push_decimal(&mut text, id as u64);
    push_text(&mut text, " 默认站姿超出限位，请重新设置默认站姿");
    proof {
        assert(text@ =~= astray_text(id));
    }
    text
}

/// In ranges with nothing wrong with them, every one is sound.
pub proof fn lemma_all_sound(limits: Seq<Limit>, ids: Seq<u8>, from: int, at: int)
    requires
        0 <= from <= at < limits.len(),
        limits_fault(limits, ids, from) is None,
    ensures
        sound(limits[at]),
        ids.contains(limits[at].motor_id),
    decreases at - from,
{
    if from < at {
        lemma_all_sound(limits, ids, from + 1, at);
    }
}

pub fn copy_limits(limits: &Vec<Limit>) -> (copy: Vec<Limit>)
    ensures
        copy@ == limits@,
{
    let mut copy: Vec<Limit> = Vec::new();
    let mut at: usize = 0;
    while at < limits.len()
        invariant
            at <= limits@.len(),
            copy@ == limits@.take(at as int),
        decreases limits@.len() - at,
    {
        copy.push(limits[at]);
        at = at + 1;
    }
    copy
}

pub fn copy_pose(pose: &Vec<Option<i64>>) -> (copy: Vec<Option<i64>>)
    ensures
        copy@ == pose@,
{
    let mut copy: Vec<Option<i64>> = Vec::new();
    let mut at: usize = 0;
    while at < pose.len()
        invariant
            at <= pose@.len(),
            copy@ == pose@.take(at as int),
        decreases pose@.len() - at,
    {
        copy.push(pose[at]);
        at = at + 1;
    }
    copy
}

pub fn has_id(ids: &Vec<u8>, id: u8) -> (yes: bool)
    ensures
        yes == ids@.contains(id),
{
    let mut at: usize = 0;
    while at < ids.len()
        invariant
            at <= ids@.len(),
            forall|i: int| 0 <= i < at ==> ids@[i] != id,
        decreases ids@.len() - at,
    {
        if ids[at] == id {
            return true;
        }
        at = at + 1;
    }
    false
}

fn came_before(limits: &Vec<Limit>, id: u8, before: usize) -> (yes: bool)
    requires
        before <= limits@.len(),
    ensures
        yes == earlier(limits@, id, before as int),
{
    let mut at: usize = 0;
    while at < before
        invariant
            at <= before <= limits@.len(),
            forall|j: int| 0 <= j < at ==> (#[trigger] limits@[j]).motor_id != id,
        decreases before - at,
    {
        if limits[at].motor_id == id {
            return true;
        }
        at = at + 1;
    }
    false
}

fn check_limits(limits: &Vec<Limit>, ids: &Vec<u8>) -> (fault: Option<String>)
    ensures
        match fault {
            Some(why) => limits_fault(limits@, ids@, 0) == Some(why@),
            None => limits_fault(limits@, ids@, 0) is None,
        },
{
    let mut at: usize = 0;
    while at < limits.len()
        invariant
            at <= limits@.len(),
            limits_fault(limits@, ids@, 0) == limits_fault(limits@, ids@, at as int),
        decreases limits@.len() - at,
    {
        let id: u8 = limits[at].motor_id;
        if !has_id(ids, id) || came_before(limits, id, at) {
            return Some("限位包含重复或未知电机 ID".to_owned());
        }
        if !is_sound(&limits[at]) {
            return Some("限位应在 ±12.5 rad 内，且下限至少比上限小 0.001 rad".to_owned());
        }
        at = at + 1;
    }
    None
}

/// Whether a range holds an angle that the motors count in, and the next one.
pub open spec fn holds_two(limit: Limit, mrad: int) -> bool {
    limit.min->0 <= mrad * 1_000_000 && (mrad + 1) * 1_000_000 <= limit.max->0
}

/// A range is sound exactly where both of its ends are known, neither is further than 12.5 rad from
/// zero, and there are two neighbouring thousandths of a radian in it.
pub proof fn a_sound_range_has_room(limit: Limit)
    ensures
        sound(limit) <==> limit.min is Some && limit.max is Some && -12_500_000_000 <= limit.min->0
            && limit.max->0 <= 12_500_000_000 && exists|mrad: int| #[trigger] holds_two(limit, mrad),
{
    if limit.min is Some && limit.max is Some {
        let min = limit.min->0 as int;
        let max = limit.max->0 as int;
        let low = ceil_mrad(min);
        let high = floor_mrad(max);
        assert(min <= low * 1_000_000 && low * 1_000_000 < min + 1_000_000) by (nonlinear_arith)
            requires
                low == -((-min) / 1_000_000),
        ;
        assert(max - 1_000_000 < high * 1_000_000 && high * 1_000_000 <= max) by (nonlinear_arith)
            requires
                high == max / 1_000_000,
        ;
        if low < high {
            assert(holds_two(limit, low));
        }
        if exists|mrad: int| #[trigger] holds_two(limit, mrad) {
            let mrad = choose|mrad: int| #[trigger] holds_two(limit, mrad);
            assert(low <= mrad && mrad + 1 <= high);
        }
    }
}

proof fn lemma_limits_fault(limits: Seq<Limit>, ids: Seq<u8>, from: int)
    requires
        0 <= from,
    ensures
        limits_fault(limits, ids, from) is None <==> forall|i: int|
            from <= i < limits.len() ==> ids.contains((#[trigger] limits[i]).motor_id) && sound(limits[i])
                && forall|j: int| 0 <= j < i ==> (#[trigger] limits[j]).motor_id != limits[i].motor_id,
    decreases limits.len() - from,
{
    if from < limits.len() {
        lemma_limits_fault(limits, ids, from + 1);
        let id = limits[from].motor_id;
        if !earlier(limits, id, from) {
            assert forall|j: int| 0 <= j < from implies (#[trigger] limits[j]).motor_id != id by {
                if limits[j].motor_id == id {
                    assert(earlier(limits, id, from));
                }
            }
        }
    }
}

/// A calibration is taken exactly where it is of version one, has a sound range for each motor that
/// is there and for no other, and a pose within 12.5 rad of zero.
pub proof fn a_sound_calibration_is_taken(config: Config, board: Board)
    ensures
        config.fault(board) is None <==> {
            let limits = config.limits@;
            let ids = fitted(board.ids@);
            &&& config.version == 1
            &&& limits.len() == ids.len()
            &&& forall|i: int|
                0 <= i < limits.len() ==> ids.contains((#[trigger] limits[i]).motor_id) && sound(limits[i])
            &&& forall|i: int, j: int|
                0 <= j < i < limits.len() ==> (#[trigger] limits[j]).motor_id != (
                #[trigger] limits[i]).motor_id
            &&& forall|i: int|
                0 <= i < config.home@.len() ==> (#[trigger] config.home@[i]) is Some
                    && -12_500_000_000 <= config.home@[i]->0 && config.home@[i]->0 <= 12_500_000_000
        },
{
    let limits = config.limits@;
    let ids = fitted(board.ids@);
    lemma_limits_fault(limits, ids, 0);
    if forall|i: int|
        0 <= i < config.home@.len() ==> (#[trigger] config.home@[i]) is Some && -12_500_000_000
            <= config.home@[i]->0 && config.home@[i]->0 <= 12_500_000_000 {
        assert forall|i: int| 0 <= i < config.home@.len() implies reachable(
            #[trigger] config.home@[i],
        ) by {}
    } else {
        let i = choose|i: int|
            0 <= i < config.home@.len() && !((#[trigger] config.home@[i]) is Some && -12_500_000_000
                <= config.home@[i]->0 && config.home@[i]->0 <= 12_500_000_000);
        assert(!reachable(config.home@[i]));
    }
}

/// The motors that are there are those on the board that have a number.
pub proof fn a_motor_without_a_number_is_not_there(ids: Seq<u8>, id: u8)
    ensures
        fitted(ids).contains(id) <==> id != 0 && ids.contains(id),
        fitted(ids).len() <= ids.len(),
        !ids.contains(0u8) ==> fitted(ids) == ids,
    decreases ids.len(),
{
    if ids.len() > 0 {
        let rest = ids.drop_last();
        let last = ids.last();
        a_motor_without_a_number_is_not_there(rest, id);
        assert(ids =~= rest.push(last));
        assert(ids.contains(id) <==> rest.contains(id) || id == last) by {
            if rest.contains(id) {
                let k = choose|k: int| 0 <= k < rest.len() && rest[k] == id;
                assert(ids[k] == id);
            }
            if id == last {
                assert(ids[ids.len() - 1] == id);
            }
        }
        let kept = fitted(rest);
        assert(kept.push(last).contains(id) <==> kept.contains(id) || id == last) by {
            if kept.contains(id) {
                let k = choose|k: int| 0 <= k < kept.len() && kept[k] == id;
                assert(kept.push(last)[k] == id);
            }
            if id == last {
                assert(kept.push(last)[kept.len() as int] == id);
            }
        }
        if !ids.contains(0u8) {
            assert(!rest.contains(0u8)) by {
                if rest.contains(0u8) {
                    let k = choose|k: int| 0 <= k < rest.len() && rest[k] == 0u8;
                    assert(ids[k] == 0u8);
                }
            }
            assert(ids[ids.len() - 1] != 0u8);
        }
    } else {
        assert(fitted(ids) =~= ids);
    }
}

proof fn lemma_first_astray(config: Config, board: Board, from: int)
    requires
        0 <= from,
    ensures
        config.first_astray(board, from) is None <==> forall|k: int|
            from <= k < board.ids@.len() ==> !config.astray(
                #[trigger] board.ids@[k],
                board.joints@[k] as int,
            ),
    decreases board.ids@.len() - from,
{
    if from < board.ids@.len() {
        lemma_first_astray(config, board, from + 1);
    }
}

/// The robot stands up only into a pose that lies within every motor's range, by more than what
/// rounding inward takes off.
pub proof fn a_pose_lies_within_every_range(config: Config, board: Board, k: int, l: int)
    requires
        config.valid(board),
        config.first_astray(board, 0) is None,
        0 <= k < board.ids@.len(),
        0 <= l < config.limits@.len(),
        config.limits@[l].motor_id == board.ids@[k],
        0 <= board.joints@[k] < config.home@.len(),
    ensures
        config.limits@[l].min->0 <= config.home@[board.joints@[k] as int]->0
            <= config.limits@[l].max->0,
{
    lemma_first_astray(config, board, 0);
    a_sound_calibration_is_taken(config, board);
    let limits = config.limits@;
    let id = board.ids@[k];
    lemma_first_is(limits, id, 0, l);
    quantising_never_widens(limits[l]);
    lemma_in_range(limits[l]);
    assert(!config.astray(id, board.joints@[k] as int));
}

proof fn lemma_first_is(limits: Seq<Limit>, id: u8, from: int, l: int)
    requires
        0 <= from <= l < limits.len(),
        limits[l].motor_id == id,
        forall|i: int, j: int|
            0 <= j < i < limits.len() ==> (#[trigger] limits[j]).motor_id != (#[trigger] limits[i]).motor_id,
    ensures
        first_limit(limits, id, from) == Some(limits[l]),
    decreases l - from,
{
    if from < l {
        assert(limits[from].motor_id != limits[l].motor_id);
        lemma_first_is(limits, id, from + 1, l);
    }
}

/// A pose that lies a thousandth of a radian inside every range is never refused.
pub proof fn a_pose_inside_every_range_is_stood_in(config: Config, board: Board)
    requires
        board.valid(),
        config.valid(board),
        forall|k: int, l: int|
            0 <= k < board.ids@.len() && 0 <= l < config.limits@.len() && (
            #[trigger] config.limits@[l]).motor_id == (#[trigger] board.ids@[k]) ==> config.limits@[l].min->0
                + MRAD <= config.home@[board.joints@[k] as int]->0 <= config.limits@[l].max->0 - MRAD,
    ensures
        config.first_astray(board, 0) is None,
{
    lemma_first_astray(config, board, 0);
    a_sound_calibration_is_taken(config, board);
    let limits = config.limits@;
    assert forall|k: int| 0 <= k < board.ids@.len() implies !config.astray(
        #[trigger] board.ids@[k],
        board.joints@[k] as int,
    ) by {
        let id = board.ids@[k];
        if let Some(limit) = config.range(id) {
            lemma_first_limit(limits, id, 0);
            let l = choose|l: int| 0 <= l < limits.len() && limits[l] == limit;
            quantising_never_widens(limits[l]);
            lemma_in_range(limits[l]);
        }
    }
}

/// An angle can be reached where it is known and lies within twelve and a half radians of zero either
/// way.
pub proof fn what_can_be_reached(angle: Option<i64>)
    ensures
        reachable(angle) <==> angle is Some && -12_500_000_000 <= angle->0 <= 12_500_000_000,
{
}

/// The motors are told the ranges of the calibration, each motor its own and none wider than it is.
pub proof fn what_the_motors_are_told(limits: Seq<Limit>, i: int)
    requires
        0 <= i < limits.len(),
    ensures
        wired_all(limits).len() == limits.len(),
        wired_all(limits)[i] == wired(limits[i]),
        wired_all(limits)[i].motor_id == limits[i].motor_id,
{
}

} // verus!
