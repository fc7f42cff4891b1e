//! Policy files have one owner. Workers prepare; only the bus loop commits.
//!
//! Files, clocks and worker threads stay with the caller. It asks what a request comes to, does
//! what it is told to do on disk, and reports how that went.

pub mod commit;
pub mod convert;
pub mod record;
pub mod startup;
pub mod status;
pub mod upload;

use crate::control_owner::{acquired, ControlOwner, Owner};
use crate::hex::decoded;
use crate::models::record::{
    copy_text, entry, said, versions, RecordText, Records, Version, VersionText,
};
use crate::models::upload::{
    check_part, open_upload, opened, part_fault, role_of, Begin, Role, Slot, SlotText, Upload,
    MAX_POLICY,
};
use crate::net::{names_differ, Net};
use crate::scan::same_text;
use vstd::prelude::*;

verus! {

/// How long the word of the motors counts, in milliseconds.
pub const FRESH_MS: u64 = 500;

/// How far along an import is.
#[derive(Debug, Clone, Copy, PartialEq, Eq, Structural)]
pub enum Phase {
    Idle,
    Uploading,
    Converting,
    Validating,
    Pending,
    Done,
    Error,
}

impl Phase {
    pub fn as_str(self) -> (name: &'static str)
        ensures
            name@ == (match self {
                Phase::Idle => "idle"@,
                Phase::Uploading => "uploading"@,
                Phase::Converting => "converting"@,
                Phase::Validating => "validating"@,
                Phase::Pending => "pending"@,
                Phase::Done => "done"@,
                Phase::Error => "error"@,
            }),
    {
        match self {
            Phase::Idle => "idle",
            Phase::Uploading => "uploading",
            Phase::Converting => "converting",
            Phase::Validating => "validating",
            Phase::Pending => "pending",
            Phase::Done => "done",
            Phase::Error => "error",
        }
    }

    /// Whether a worker is at it, or its result is waiting.
    pub open spec fn busy(self) -> bool {
        self == Phase::Converting || self == Phase::Validating || self == Phase::Pending
    }

    fn is_busy(self) -> (yes: bool)
        ensures
            yes == self.busy(),
    {
        match self {
            Phase::Converting | Phase::Validating | Phase::Pending => true,
            _ => false,
        }
    }
}

/// The consumers that come with the robot, one for each thing it does.
pub struct Defaults {
    pub locomotion: Vec<u8>,
    pub sitstand: Vec<u8>,
    pub ground_pick: Vec<u8>,
    pub kick_left: Vec<u8>,
    pub kick_right: Vec<u8>,
    pub roulade: Vec<u8>,
}

impl Defaults {
    /// The built-in consumer for a network. Walking and standing share one.
    pub open spec fn consumer(self, net: Net) -> Seq<u8> {
        match net {
            Net::Walk | Net::Stand => self.locomotion@,
            Net::SitStand => self.sitstand@,
            Net::GroundPick => self.ground_pick@,
            Net::KickLeft => self.kick_left@,
            Net::KickRight => self.kick_right@,
            Net::Roulade => self.roulade@,
        }
    }

    /// A built-in consumer is no larger than one that is uploaded.
    pub open spec fn valid(self) -> bool {
        forall|net: Net| (#[trigger] self.consumer(net)).len() <= MAX_POLICY
    }

    pub fn default_policy(&self, net: Net) -> (bytes: &Vec<u8>)
        ensures
            bytes@ == self.consumer(net),
    {
        match net {
            Net::Walk | Net::Stand => &self.locomotion,
            Net::SitStand => &self.sitstand,
            Net::GroundPick => &self.ground_pick,
            Net::KickLeft => &self.kick_left,
            Net::KickRight => &self.kick_right,
            Net::Roulade => &self.roulade,
        }
    }
}

/// The other side of a pair whose consumer changes along: its slot, what it will run, and what it
/// must still be running then.
pub struct Companion {
    pub slot: Slot,
    pub version: Version,
    pub expected: String,
}

/// A version that has been checked and waits to be put in place.
pub struct Pending {
    pub slot: Slot,
    pub version: Version,
    /// Only the peer's consumer changes. Its model stays and is kept in the history.
    pub companion: Option<Companion>,
}

/// Everything there is to know about the policies.
pub struct Models {
    pub root: String,
    pub records: Records,
    pub slots: Vec<Slot>,
    pub upload: Option<Upload>,
    pub pending: Option<Pending>,
    pub phase: Phase,
    pub failed_phase: Option<Phase>,
    pub detail: String,
    pub editable: bool,
    pub observed_ms: u64,
    pub load_error: Option<String>,
    pub defaults: Defaults,
}

/// The slots that a list amounts to, by network.
pub open spec fn seated(slots: Seq<Slot>) -> Map<Net, SlotText>
    decreases slots.len(),
{
    if slots.len() == 0 {
        Map::empty()
    } else {
        seated(slots.drop_last()).insert(slots.last().net, slots.last()@)
    }
}

proof fn lemma_seated_get(slots: Seq<Slot>, at: int)
    requires
        0 <= at < slots.len(),
        forall|i: int| at < i < slots.len() ==> (#[trigger] slots[i]).net != slots[at].net,
    ensures
        seated(slots).dom().contains(slots[at].net),
        seated(slots)[slots[at].net] == slots[at]@,
    decreases slots.len(),
{
    if at < slots.len() - 1 {
        assert(slots.last().net != slots[at].net);
        lemma_seated_get(slots.drop_last(), at);
    }
}

proof fn lemma_seated_none(slots: Seq<Slot>, net: Net)
    requires
        forall|i: int| 0 <= i < slots.len() ==> (#[trigger] slots[i]).net != net,
    ensures
        !seated(slots).dom().contains(net),
    decreases slots.len(),
{
    if slots.len() > 0 {
        assert(slots.last().net != net);
        lemma_seated_none(slots.drop_last(), net);
    }
}

/// The slot that a name stands for.
pub open spec fn named(slots: Seq<Slot>, id: Seq<char>) -> Option<SlotText> {
    if exists|net: Net| net.name() == id && seated(slots).dom().contains(net) {
        Some(seated(slots)[choose|net: Net| net.name() == id && seated(slots).dom().contains(net)])
    } else {
        None
    }
}

/// The slot of a network, searched from the newest.
pub(crate) fn slot_of(slots: &Vec<Slot>, net: Net) -> (slot: Option<&Slot>)
    ensures
        match slot {
            Some(s) => seated(slots@).dom().contains(net) && seated(slots@)[net] == s@ && s.net == net,
            None => !seated(slots@).dom().contains(net),
        },
{
    let mut at: usize = slots.len();
    while at > 0
        invariant
            at <= slots@.len(),
            forall|i: int| at <= i < slots@.len() ==> (#[trigger] slots@[i]).net != net,
        decreases at,
    {
        at = at - 1;
        if slots[at].net == net {
            proof {
                lemma_seated_get(slots@, at as int);
            }
            return Some(&slots[at]);
        }
    }
    proof {
        lemma_seated_none(slots@, net);
    }
    None
}

/// The slot that a name stands for.
fn slot_named<'a>(slots: &'a Vec<Slot>, id: &str) -> (slot: Option<&'a Slot>)
    ensures
        match slot {
            Some(s) => named(slots@, id@) == Some(s@),
            None => named(slots@, id@) is None,
        },
{
    match Net::parse(id) {
        Some(net) => {
            proof {
                assert forall|other: Net| other.name() == id@ implies other == net by {
                    names_differ(other, net);
                }
            }
            slot_of(slots, net)
        },
        None => None,
    }
}

/// The versions in a history under some id, from an index on.
pub open spec fn with_id(history: Seq<VersionText>, id: Seq<char>, from: int) -> Option<VersionText>
    decreases history.len() - from,
{
    if from < 0 || from >= history.len() {
        None
    } else if history[from].id == id {
        Some(history[from])
    } else {
        with_id(history, id, from + 1)
    }
}

fn find_version<'a>(history: &'a Vec<Version>, id: &str) -> (version: Option<&'a Version>)
    ensures
        match version {
            Some(v) => with_id(versions(history@), id@, 0) == Some(v@),
            None => with_id(versions(history@), id@, 0) is None,
        },
{
    let mut at: usize = 0;
    while at < history.len()
        invariant
            at <= history@.len(),
            with_id(versions(history@), id@, 0) == with_id(versions(history@), id@, at as int),
        decreases history@.len() - at,
    {
        if same_text(history[at].id.as_str(), id) {
            return Some(&history[at]);
        }
        at = at + 1;
    }
    None
}

/// A request about policies.
pub enum Params {
    List,
    BeginBundle(Begin),
    BundleChunk { token: String, file: String, offset: usize, hex: String },
    FinishBundle { token: String },
    Cancel { token: String },
    Rollback { slot: String, version: String },
}

/// What a request that was granted comes to.
pub enum Step {
    /// Nothing more: answer with the status.
    Answer,
    /// Make the store's directory, drop the upload before this one, create the two files, with
    /// the built-in consumer in the first unless `custom`, and report the upload as begun.
    Open { upload: Upload, custom: bool, newly: bool },
    /// Append these bytes to the file and report them as stored.
    Append { role: Role, bytes: Vec<u8>, newly: bool },
    /// Have a worker prepare what was uploaded.
    Prepare(Upload),
    /// Delete the files of an upload.
    Discard(Upload),
    /// Have a worker check an earlier version again.
    Revalidate { slot: Slot, version: Version },
}

impl Models {
    /// What every store keeps to.
    pub open spec fn valid(self) -> bool {
        &&& self.records.distinct()
        &&& self.defaults.valid()
        &&& self.upload matches Some(upload) ==> upload.valid()
    }

    /// Whether the motors said recently that they are relaxed.
    pub open spec fn relaxed_at(self, now_ms: u64) -> bool {
        self.editable && (now_ms <= self.observed_ms || now_ms - self.observed_ms < FRESH_MS)
    }

    pub(crate) fn is_relaxed(&self, now_ms: u64) -> (yes: bool)
        ensures
            yes == self.relaxed_at(now_ms),
    {
        self.editable && (now_ms <= self.observed_ms || now_ms - self.observed_ms < FRESH_MS)
    }

    /// A store of these records, or of none and the reason why they could not be read.
    pub fn new(root: String, loaded: Result<Records, String>, defaults: Defaults, now_ms: u64) -> (m: Models)
        requires
            defaults.valid(),
            loaded matches Ok(records) ==> records.distinct(),
        ensures
            m.valid(),
            m.root == root,
            m.defaults == defaults,
            match loaded {
                Ok(records) => m.records == records && m.load_error is None,
                Err(why) => m.records@ == Map::<Seq<char>, RecordText>::empty() && m.load_error
                    == Some(why),
            },
            m.slots@.len() == 0,
            m.upload is None,
            m.pending is None,
            m.phase == Phase::Idle,
            m.failed_phase is None,
            m.detail@ == "选择模型文件后导入；每个模型保留两条 ONNX 历史。"@,
            !m.editable,
            m.observed_ms == now_ms,
    {
        let (records, load_error) = match loaded {
            Ok(records) => (records, None),
            Err(why) => (Records::new(), Some(why)),
        };
        Models {
            root,
            records,
            slots: Vec::new(),
            upload: None,
            pending: None,
            phase: Phase::Idle,
            failed_phase: None,
            detail: "选择模型文件后导入；每个模型保留两条 ONNX 历史。".to_owned(),
            editable: false,
            observed_ms: now_ms,
            load_error,
            defaults,
        }
    }

    pub fn load_error(&self) -> (error: Option<String>)
        ensures
            said(error) == said(self.load_error),
    {
        copy_text(&self.load_error)
    }

    /// Marks the store as unfit for anything but being listed.
    pub fn set_load_error(&mut self, error: String)
        ensures
            *final(self) == (Models { load_error: Some(error), ..*old(self) }),
    {
        self.load_error = Some(error);
    }

    /// Why a request gets no further than the door.
    pub open spec fn barred(self, params: Params, now_ms: u64) -> Option<Seq<char>> {
        if self.load_error is Some {
            said(self.load_error)
        } else if !(params is BundleChunk) && !self.relaxed_at(now_ms) {
            Some("操作已拒绝：请先放松，等待全部配置电机的新鲜失能反馈"@)
        } else {
            None
        }
    }

    /// Why a request that got through the door is refused.
    pub open spec fn refusal(self, params: Params, found: (Result<u64, String>, Result<u64, String>)) -> Option<
        Seq<char>,
    > {
        match params {
            Params::List => None,
            Params::BeginBundle(begin) => if self.phase.busy() {
                Some("已有模型任务正在处理"@)
            } else if begin.fault() is Some {
                begin.fault()
            } else if named(self.slots@, begin.slot@) is None {
                Some("未知模型槽位"@)
            } else {
                None
            },
            Params::BundleChunk { token, file, offset, hex } => if self.phase != Phase::Uploading {
                Some("没有正在上传的任务"@)
            } else if !self.uploads(token@) {
                Some("上传凭证已失效"@)
            } else {
                self.upload->0.chunk_fault(file@, offset as nat, hex@)
            },
            Params::FinishBundle { token } => if !self.uploads(token@) {
                Some("上传凭证已失效"@)
            } else if part_fault(self.upload->0.policy, found.0) is Some {
                part_fault(self.upload->0.policy, found.0)
            } else {
                part_fault(self.upload->0.model, found.1)
            },
            Params::Cancel { token } => if self.phase != Phase::Uploading {
                Some("只能取消尚未完成的上传"@)
            } else if !self.uploads(token@) {
                Some("上传凭证已失效"@)
            } else {
                None
            },
            Params::Rollback { slot, version } => if self.phase.busy() || self.phase
                == Phase::Uploading {
                Some("请等待当前任务完成"@)
            } else {
                match named(self.slots@, slot@) {
                    None => Some("未知模型槽位"@),
                    Some(s) => if with_id(entry(self.records@, s.key).history, version@, 0) is None {
                        Some("历史版本不存在或已过期"@)
                    } else {
                        None
                    },
                }
            },
        }
    }

    /// Whether a token is that of the upload in progress.
    pub open spec fn uploads(self, token: Seq<char>) -> bool {
        self.upload matches Some(upload) && upload.token@ == token
    }

    /// What holds of the store before and after a request that is granted, and of the step.
    pub open spec fn granted(
        self,
        after: Models,
        params: Params,
        newly: bool,
        token: Seq<char>,
        step: Step,
    ) -> bool {
        match params {
            Params::List => step is Answer && after == self,
            Params::BeginBundle(begin) => after == self && (step matches Step::Open {
                upload,
                custom,
                newly: n,
            } && n == newly && custom == begin.custom() && upload.valid() && opened(
                upload,
                begin,
                named(self.slots@, begin.slot@)->0,
                self.root@,
                token,
                self.defaults.consumer(named(self.slots@, begin.slot@)->0.net).len(),
            )),
            Params::BundleChunk { token: _, file, offset: _, hex } => after == self && (
            step matches Step::Append { role, bytes, newly: n } && n == newly && role_of(file@) == Some(
                role,
            ) && bytes@ == decoded(hex@)),
            Params::FinishBundle { token: _ } => step matches Step::Prepare(upload) && self.upload
                == Some(upload) && after.detail@ == (if upload.ready() {
                validating_detail()
            } else {
                converting_detail()
            }) && after == (Models {
                upload: None,
                phase: if upload.ready() {
                    Phase::Validating
                } else {
                    Phase::Converting
                },
                detail: after.detail,
                ..self
            }),
            Params::Cancel { token: _ } => step matches Step::Discard(upload) && self.upload == Some(
                upload,
            ) && after.detail@ == "策略导入已取消；机器人保持放松。"@ && after == (Models {
                upload: None,
                phase: Phase::Idle,
                failed_phase: None,
                detail: after.detail,
                ..self
            }),
            Params::Rollback { slot, version } => {
                let seat = named(self.slots@, slot@)->0;
                (step matches Step::Revalidate { slot: s, version: v } && s@ == seat && with_id(
                    entry(self.records@, seat.key).history,
                    version@,
                    0,
                ) == Some(v@)) && after.detail@ == "正在重新校验历史 ONNX"@ && after == (Models {
                    phase: Phase::Validating,
                    failed_phase: None,
                    detail: after.detail,
                    ..self
                })
            },
        }
    }
}

/// What a store says while a version is being checked.
pub open spec fn validating_detail() -> Seq<char> {
    "正在校验接口、动态张量、完整前处理→ONNX→后处理链路并预热"@
}

/// What a store says while weights are being converted.
pub open spec fn converting_detail() -> Seq<char> {
    "正在 RK3566 校验 PPO 权重并转换 ONNX（最长 120 秒）"@
}

impl Models {
    /// Decides a request. `token` is fresh, and `found` is how long the two files of the upload in
    /// progress are on disk. A request that is refused leaves the store and the lease as they
    /// were; one that is granted holds the lease, but for a cancelled upload, which gives it up.
    pub fn request(
        &mut self,
        lease: &mut ControlOwner,
        params: &Params,
        now_ms: u64,
        token: &str,
        found: &(Result<u64, String>, Result<u64, String>),
    ) -> (step: Result<Step, String>)
        requires
            old(self).valid(),
        ensures
            final(self).valid(),
            *params is List ==> step == Ok::<Step, String>(Step::Answer) && *final(self) == *old(self)
                && final(lease)@ == old(lease)@,
            !(*params is List) ==> match step {
                Err(why) => {
                    &&& *final(self) == *old(self)
                    &&& final(lease)@ == old(lease)@
                    &&& match old(self).barred(*params, now_ms) {
                        Some(reason) => why@ == reason,
                        None => if acquired(old(lease)@, Owner::PolicyImport) != Some(
                            Owner::PolicyImport,
                        ) {
                            why@ == crate::control_owner::occupied(old(lease)@->0)
                        } else {
                            old(self).refusal(*params, *found) == Some(why@)
                        },
                    }
                },
                Ok(s) => {
                    &&& old(self).barred(*params, now_ms) is None
                    &&& acquired(old(lease)@, Owner::PolicyImport) == Some(Owner::PolicyImport)
                    &&& old(self).refusal(*params, *found) is None
                    &&& final(lease)@ == (if *params is Cancel {
                        None
                    } else {
                        Some(Owner::PolicyImport)
                    })
                    &&& old(self).granted(*final(self), *params, old(lease)@ is None, token@, s)
                },
            },
    {
        match params {
            Params::List => {
                return Ok(Step::Answer);
            },
            _ => {},
        }
        match &self.load_error {
            Some(error) => {
                return Err(error.clone());
            },
            None => {},
        }
        let chunk = match params {
            Params::BundleChunk { .. } => true,
            _ => false,
        };
        if !chunk && !self.is_relaxed(now_ms) {
            return Err("操作已拒绝：请先放松，等待全部配置电机的新鲜失能反馈".to_owned());
        }
        let newly = match lease.acquire(Owner::PolicyImport) {
            Ok(newly) => newly,
            Err(why) => {
                return Err(why);
            },
        };
        let result = match params {
            Params::List => Ok(Step::Answer),
            Params::BeginBundle(begin) => self.begin(begin, newly, token),
            Params::BundleChunk { token: given, file, offset, hex } => self.take_chunk(
                given.as_str(),
                file.as_str(),
                *offset,
                hex.as_str(),
                newly,
            ),
            Params::FinishBundle { token: given } => self.finish(given.as_str(), found),
            Params::Cancel { token: given } => self.cancel(given.as_str()),
            Params::Rollback { slot, version } => self.roll_back(slot.as_str(), version.as_str()),
        };
        match &result {
            Err(_) => {
                if newly {
                    lease.release(Owner::PolicyImport);
                }
            },
            Ok(Step::Discard(_)) => {
                lease.release(Owner::PolicyImport);
            },
            _ => {},
        }
        result
    }

    fn begin(&self, begin: &Begin, newly: bool, token: &str) -> (step: Result<Step, String>)
        requires
            self.valid(),
        ensures
            forall|found: (Result<u64, String>, Result<u64, String>)|
                match step {
                    Err(why) => #[trigger] self.refusal(Params::BeginBundle(*begin), found) == Some(
                        why@,
                    ),
                    Ok(s) => self.refusal(Params::BeginBundle(*begin), found) is None,
                },
            step matches Ok(s) ==> self.granted(
                *self,
                Params::BeginBundle(*begin),
                newly,
                token@,
                s,
            ),
    {
        if self.phase.is_busy() {
            return Err("已有模型任务正在处理".to_owned());
        }
        match begin.check() {
            Some(why) => {
                return Err(why.to_owned());
            },
            None => {},
        }
        match slot_named(&self.slots, begin.slot.as_str()) {
            None => Err("未知模型槽位".to_owned()),
            Some(slot) => {
                let consumer = self.defaults.default_policy(slot.net);
                let upload = open_upload(begin, slot, self.root.as_str(), token, consumer.len());
                let custom = begin.policy_filename.is_some();
                Ok(Step::Open { upload, custom, newly })
            },
        }
    }

    fn take_chunk(
        &self,
        given: &str,
        file: &str,
        offset: usize,
        hex: &str,
        newly: bool,
    ) -> (step: Result<Step, String>)
        requires
            self.valid(),
        ensures
            match step {
                Err(why) => if self.phase != Phase::Uploading {
                    why@ == "没有正在上传的任务"@
                } else if !self.uploads(given@) {
                    why@ == "上传凭证已失效"@
                } else {
                    self.upload->0.chunk_fault(file@, offset as nat, hex@) == Some(why@)
                },
                Ok(s) => self.phase == Phase::Uploading && self.uploads(given@)
                    && self.upload->0.chunk_fault(file@, offset as nat, hex@) is None && (
                s matches Step::Append { role, bytes, newly: n } && n == newly && role_of(file@) == Some(
                    role,
                ) && bytes@ == decoded(hex@)),
            },
    {
        match self.phase {
            Phase::Uploading => {},
            _ => {
                return Err("没有正在上传的任务".to_owned());
            },
        }
        match &self.upload {
            Some(upload) => {
                if !same_text(upload.token.as_str(), given) {
                    return Err("上传凭证已失效".to_owned());
                }
                match upload.accept(file, offset, hex) {
                    Ok((role, bytes)) => Ok(Step::Append { role, bytes, newly }),
                    Err(why) => Err(why),
                }
            },
            None => Err("上传凭证已失效".to_owned()),
        }
    }

    fn finish(&mut self, given: &str, found: &(Result<u64, String>, Result<u64, String>)) -> (step: Result<
        Step,
        String,
    >)
        requires
            old(self).valid(),
        ensures
            final(self).valid(),
            match step {
                Err(why) => *final(self) == *old(self) && (if !old(self).uploads(given@) {
                    why@ == "上传凭证已失效"@
                } else if part_fault(old(self).upload->0.policy, found.0) is Some {
                    part_fault(old(self).upload->0.policy, found.0) == Some(why@)
                } else {
                    part_fault(old(self).upload->0.model, found.1) == Some(why@)
                }),
                Ok(s) => old(self).uploads(given@) && part_fault(old(self).upload->0.policy, found.0) is None
                    && part_fault(old(self).upload->0.model, found.1) is None && (
                s matches Step::Prepare(upload) && old(self).upload == Some(upload)
                    && final(self).detail@ == (if upload.ready() {
                    validating_detail()
                } else {
                    converting_detail()
                }) && *final(self) == (Models {
                    upload: None,
                    phase: if upload.ready() {
                        Phase::Validating
                    } else {
                        Phase::Converting
                    },
                    detail: final(self).detail,
                    ..*old(self)
                })),
            },
    {
        match &self.upload {
            Some(upload) => {
                if !same_text(upload.token.as_str(), given) {
                    return Err("上传凭证已失效".to_owned());
                }
                match check_part(&upload.policy, &found.0) {
                    Some(why) => {
                        return Err(why);
                    },
                    None => {},
                }
                match check_part(&upload.model, &found.1) {
                    Some(why) => {
                        return Err(why);
                    },
                    None => {},
                }
            },
            None => {
                return Err("上传凭证已失效".to_owned());
            },
        }
        match self.upload.take() {
            Some(upload) => {
                if upload.is_ready() {
                    self.validating();
                } else {
                    self.converting();
                }
                Ok(Step::Prepare(upload))
            },
            None => Err("上传凭证已失效".to_owned()),
        }
    }

    fn cancel(&mut self, given: &str) -> (step: Result<Step, String>)
        requires
            old(self).valid(),
        ensures
            final(self).valid(),
            match step {
                Err(why) => *final(self) == *old(self) && (if old(self).phase != Phase::Uploading {
                    why@ == "只能取消尚未完成的上传"@
                } else {
                    !old(self).uploads(given@) && why@ == "上传凭证已失效"@
                }),
                Ok(s) => old(self).phase == Phase::Uploading && old(self).uploads(given@) && (
                s matches Step::Discard(upload) && old(self).upload == Some(upload)
                    && final(self).detail@ == "策略导入已取消；机器人保持放松。"@ && *final(self) == (
                Models {
                    upload: None,
                    phase: Phase::Idle,
                    failed_phase: None,
                    detail: final(self).detail,
                    ..*old(self)
                })),
            },
    {
        match self.phase {
            Phase::Uploading => {},
            _ => {
                return Err("只能取消尚未完成的上传".to_owned());
            },
        }
        match &self.upload {
            Some(upload) => {
                if !same_text(upload.token.as_str(), given) {
                    return Err("上传凭证已失效".to_owned());
                }
            },
            None => {
                return Err("上传凭证已失效".to_owned());
            },
        }
        match self.upload.take() {
            Some(upload) => {
                self.phase = Phase::Idle;
                self.failed_phase = None;
                self.detail = "策略导入已取消；机器人保持放松。".to_owned();
                Ok(Step::Discard(upload))
            },
            None => Err("上传凭证已失效".to_owned()),
        }
    }

    fn roll_back(&mut self, slot: &str, version: &str) -> (step: Result<Step, String>)
        requires
            old(self).valid(),
        ensures
            final(self).valid(),
            match step {
                Err(why) => *final(self) == *old(self) && (if old(self).phase.busy() || old(self).phase
                    == Phase::Uploading {
                    why@ == "请等待当前任务完成"@
                } else {
                    match named(old(self).slots@, slot@) {
                        None => why@ == "未知模型槽位"@,
                        Some(s) => with_id(entry(old(self).records@, s.key).history, version@, 0) is None
                            && why@ == "历史版本不存在或已过期"@,
                    }
                }),
                Ok(st) => !(old(self).phase.busy() || old(self).phase == Phase::Uploading) && (named(
                    old(self).slots@,
                    slot@,
                ) matches Some(seat) && (st matches Step::Revalidate { slot: s, version: v } && s@
                    == seat && with_id(entry(old(self).records@, seat.key).history, version@, 0) == Some(
                    v@,
                )) && final(self).detail@ == "正在重新校验历史 ONNX"@ && *final(self) == (Models {
                    phase: Phase::Validating,
                    failed_phase: None,
                    detail: final(self).detail,
                    ..*old(self)
                })),
            },
    {
        let waiting = match self.phase {
            Phase::Uploading => true,
            phase => phase.is_busy(),
        };
        if waiting {
            return Err("请等待当前任务完成".to_owned());
        }
        let (seat, found) = match slot_named(&self.slots, slot) {
            None => {
                return Err("未知模型槽位".to_owned());
            },
            Some(seat) => match self.records.get(seat.key.as_str()) {
                None => {
                    return Err("历史版本不存在或已过期".to_owned());
                },
                Some(record) => match find_version(&record.history, version) {
                    None => {
                        return Err("历史版本不存在或已过期".to_owned());
                    },
                    Some(found) => (seat.copy(), found.copy()),
                },
            },
        };
        self.failed_phase = None;
        self.phase = Phase::Validating;
        self.detail = "正在重新校验历史 ONNX".to_owned();
        Ok(Step::Revalidate { slot: seat, version: found })
    }

    /// A worker starts converting weights.
    pub fn converting(&mut self)
        ensures
            final(self).detail@ == converting_detail(),
            *final(self) == (Models {
                phase: Phase::Converting,
                detail: final(self).detail,
                ..*old(self)
            }),
    {
        self.phase = Phase::Converting;
        self.detail = "正在 RK3566 校验 PPO 权重并转换 ONNX（最长 120 秒）".to_owned();
    }

    /// A worker starts checking a version.
    pub fn validating(&mut self)
        ensures
            final(self).detail@ == validating_detail(),
            *final(self) == (Models {
                phase: Phase::Validating,
                detail: final(self).detail,
                ..*old(self)
            }),
    {
        self.phase = Phase::Validating;
        self.detail = "正在校验接口、动态张量、完整前处理→ONNX→后处理链路并预热".to_owned();
    }
}

/// A task is under way while weights are converted, while a version is checked, and while one waits to
/// be put in place; at no other time.
pub proof fn when_a_task_is_under_way(phase: Phase)
    ensures
        phase.busy() <==> phase == Phase::Converting || phase == Phase::Validating || phase == Phase::Pending,
        !Phase::Idle.busy(),
        !Phase::Uploading.busy(),
        !Phase::Done.busy(),
        !Phase::Error.busy(),
{
}

/// Walking and standing come with one consumer, every other network with one of its own.
pub proof fn which_consumer_is_built_in(d: Defaults)
    ensures
        d.consumer(Net::Walk) == d.locomotion@,
        d.consumer(Net::Stand) == d.locomotion@,
        d.consumer(Net::SitStand) == d.sitstand@,
        d.consumer(Net::GroundPick) == d.ground_pick@,
        d.consumer(Net::KickLeft) == d.kick_left@,
        d.consumer(Net::KickRight) == d.kick_right@,
        d.consumer(Net::Roulade) == d.roulade@,
{
}

/// A request is let in where the records could be read and the motors said within the last half second
/// that they are relaxed; only a chunk of an upload under way does not need their word.
pub proof fn who_is_let_in(m: Models, params: Params, now_ms: u64)
    ensures
        m.barred(params, now_ms) is None <==> m.load_error is None && (params is BundleChunk || (m.editable && (
        now_ms <= m.observed_ms || now_ms - m.observed_ms < 500))),
        m.load_error matches Some(why) ==> m.barred(params, now_ms) == Some(why@),
{
}

/// What a request needs to be granted. An upload is opened for a slot that is there while no task is
/// under way; a chunk goes to the upload under way, by its token, and so does its end, once both files
/// have come whole; only an upload can be cancelled; and a version of a slot's history can be brought
/// back while nothing else is going on.
pub proof fn what_a_request_needs(
    m: Models,
    begin: Begin,
    token: String,
    file: String,
    offset: usize,
    hex: String,
    slot: String,
    version: String,
    found: (Result<u64, String>, Result<u64, String>),
)
    ensures
        m.refusal(Params::List, found) is None,
        m.refusal(Params::BeginBundle(begin), found) is None <==> m.phase != Phase::Converting && m.phase
            != Phase::Validating && m.phase != Phase::Pending && begin.fault() is None && named(
            m.slots@,
            begin.slot@,
        ) is Some,
        m.refusal(Params::BundleChunk { token, file, offset, hex }, found) is None <==> m.phase
            == Phase::Uploading && (m.upload matches Some(upload) && upload.token@ == token@
            && upload.chunk_fault(file@, offset as nat, hex@) is None),
        m.refusal(Params::FinishBundle { token }, found) is None <==> (m.upload matches Some(upload)
            && upload.token@ == token@ && part_fault(upload.policy, found.0) is None && part_fault(
            upload.model,
            found.1,
        ) is None),
        m.refusal(Params::Cancel { token }, found) is None <==> m.phase == Phase::Uploading && (
        m.upload matches Some(upload) && upload.token@ == token@),
        m.refusal(Params::Rollback { slot, version }, found) is None <==> m.phase != Phase::Converting
            && m.phase != Phase::Validating && m.phase != Phase::Pending && m.phase != Phase::Uploading
            && named(m.slots@, slot@) is Some && with_id(
            entry(m.records@, named(m.slots@, slot@)->0.key).history,
            version@,
            0,
        ) is Some,
{
}

/// The slot of a network is the one that was configured last, and no other network's.
pub proof fn the_last_slot_counts(slots: Seq<Slot>, slot: Slot, net: Net)
    ensures
        seated(slots.push(slot)).dom().contains(slot.net),
        seated(slots.push(slot))[slot.net] == slot@,
        net != slot.net ==> (seated(slots.push(slot)).dom().contains(net) <==> seated(slots).dom().contains(
            net,
        )),
        net != slot.net && seated(slots).dom().contains(net) ==> seated(slots.push(slot))[net] == seated(
            slots,
        )[net],
        !seated(Seq::empty()).dom().contains(net),
{
    assert(slots.push(slot).drop_last() =~= slots);
}

/// A name stands for the slot of the network that has it, and for none where that is not configured.
pub proof fn a_slot_is_found_by_its_name(slots: Seq<Slot>, net: Net)
    ensures
        named(slots, net.name()) is Some <==> seated(slots).dom().contains(net),
        seated(slots).dom().contains(net) ==> named(slots, net.name()) == Some(seated(slots)[net]),
{
    if exists|other: Net| other.name() == net.name() && seated(slots).dom().contains(other) {
        let other = choose|other: Net| other.name() == net.name() && seated(slots).dom().contains(other);
        crate::net::names_differ(other, net);
    }
}

/// A version is found by its id wherever in a history it stands, the newest of that id first.
pub proof fn a_version_is_found_by_its_id(history: Seq<VersionText>, id: Seq<char>, from: int)
    requires
        0 <= from <= history.len(),
    ensures
        with_id(history, id, from) is Some <==> exists|i: int|
            from <= i < history.len() && (#[trigger] history[i]).id == id,
        with_id(history, id, from) matches Some(version) ==> version.id == id && history.contains(version),
        from < history.len() && history[from].id == id ==> with_id(history, id, from) == Some(history[from]),
    decreases history.len() - from,
{
    if from < history.len() {
        if history[from].id != id {
            a_version_is_found_by_its_id(history, id, from + 1);
        }
    }
}

/// What a granted request leaves. Reading, opening and filling an upload change nothing yet; its end
/// hands the upload over and has it checked, or converted first where it is weights; cancelling lets it
/// go; and a rollback has the earlier version checked. The records, the slots and what is pending stay
/// as they are.
pub proof fn what_a_granted_request_leaves(
    m: Models,
    after: Models,
    params: Params,
    newly: bool,
    token: Seq<char>,
    step: Step,
)
    requires
        m.granted(after, params, newly, token, step),
    ensures
        after.records == m.records && after.slots == m.slots && after.pending == m.pending && after.root
            == m.root && after.editable == m.editable && after.observed_ms == m.observed_ms,
        params is List || params is BeginBundle || params is BundleChunk ==> after == m,
        params is FinishBundle ==> after.upload is None && (step matches Step::Prepare(upload) && m.upload
            == Some(upload) && (after.phase == Phase::Validating <==> upload.ready()) && (after.phase
            == Phase::Converting <==> !upload.ready())),
        params is Cancel ==> after.upload is None && after.phase == Phase::Idle && (
        step matches Step::Discard(upload) && m.upload == Some(upload)),
        params matches Params::Rollback { slot, version } ==> after.phase == Phase::Validating && after.upload
            == m.upload && (step matches Step::Revalidate { slot: s, version: v } && v@.id == version@ && entry(
            m.records@,
            s@.key,
        ).history.contains(v@)),
        params matches Params::BundleChunk { token: t, file, offset, hex } ==> (
        step matches Step::Append { role, bytes, newly: n } && (role == Role::Policy <==> file@ == "policy"@)
            && (role == Role::Model <==> file@ == "model"@)),
{
    if let Params::Rollback { slot, version } = params {
        let seat = named(m.slots@, slot@)->0;
        a_version_is_found_by_its_id(entry(m.records@, seat.key).history, version@, 0);
    }
    reveal_strlit("policy");
    reveal_strlit("model");
    assert("policy"@.len() == 6 && "model"@.len() == 5);
}

} // verus!
