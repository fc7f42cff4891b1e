//! From an upload to a policy in place: preparing a version, and committing it.

use crate::control_owner::{released, ControlOwner, Owner};
use crate::models::record::{entry, needed, Record, RecordText, Records, Version, VersionText};
use crate::models::upload::{Role, Slot, SlotText, Upload, DEFAULT_POLICY_LABEL};
use crate::models::{seated, slot_of, Companion, Models, Pending, Phase};
use crate::net::Net;
use crate::path::{is_in, join, joined, lies_in};
use crate::scan::{push_text, same_text};
use vstd::prelude::*;

verus! {

impl Models {
    /// Lets go of the upload before a new one, whose files the caller deletes.
    pub fn drop_upload(&mut self) -> (dropped: Option<Upload>)
        requires
            old(self).valid(),
        ensures
            final(self).valid(),
            dropped == old(self).upload,
            *final(self) == (Models { upload: None, ..*old(self) }),
    {
        self.upload.take()
    }

    /// The files of an upload have been created.
    pub fn begun(&mut self, upload: Upload, custom: bool)
        requires
            old(self).valid(),
            upload.valid(),
        ensures
            final(self).valid(),
            final(self).detail@ == (if custom {
                "正在上传策略代码与模型文件"@
            } else {
                "已绑定内置默认策略；正在上传模型文件"@
            }),
            *final(self) == (Models {
                upload: Some(upload),
                failed_phase: None,
                phase: Phase::Uploading,
                detail: final(self).detail,
                ..*old(self)
            }),
    {
        self.upload = Some(upload);
        self.failed_phase = None;
        self.phase = Phase::Uploading;
        self.detail = if custom {
            "正在上传策略代码与模型文件".to_owned()
        } else {
            "已绑定内置默认策略；正在上传模型文件".to_owned()
        };
    }

    /// Bytes of a file have been stored.
    pub fn stored(&mut self, role: Role, bytes: usize)
        requires
            old(self).valid(),
            old(self).upload matches Some(upload) && bytes <= upload.part(role).size - upload.part(
                role,
            ).received,
        ensures
            final(self).valid(),
            final(self).upload matches Some(upload) && {
                let before = old(self).upload->0;
                &&& upload.part(role).received == before.part(role).received + bytes
                &&& upload.part(role).size == before.part(role).size
                &&& upload.part(role).path == before.part(role).path
                &&& upload.part(role).name == before.part(role).name
                &&& role == Role::Policy ==> upload.model == before.model
                &&& role == Role::Model ==> upload.policy == before.policy
                &&& upload.token == before.token
                &&& upload.slot == before.slot
                &&& upload.activation == before.activation
                &&& upload.epsilon == before.epsilon
            },
            *final(self) == (Models { upload: final(self).upload, ..*old(self) }),
    {
        match self.upload.take() {
            Some(mut upload) => {
                upload.stored(role, bytes);
                self.upload = Some(upload);
            },
            None => {},
        }
    }
}

/// What could not be done on disk fails the request, which gives up a lease it had just taken.
pub fn failed(lease: &mut ControlOwner, newly: bool)
    ensures
        final(lease)@ == (if newly {
            released(old(lease)@, Owner::PolicyImport)
        } else {
            old(lease)@
        }),
{
    if newly {
        lease.release(Owner::PolicyImport);
    }
}

/// Where the model of a version is kept.
pub open spec fn model_file(root: Seq<char>, id: Seq<char>) -> Seq<char> {
    joined(root, id + "-model.onnx"@)
}

/// Where the consumer of a version is kept.
pub open spec fn policy_file(root: Seq<char>, id: Seq<char>) -> Seq<char> {
    joined(root, id + "-policy.py"@)
}

pub fn model_path(root: &str, id: &str) -> (path: String)
    ensures
        path@ == model_file(root@, id@),
{
    let mut name = String::new();
    push_text(&mut name, id);
    push_text(&mut name, "-model.onnx");
    proof {
        assert(name@ =~= id@ + "-model.onnx"@);
    }
    join(root, name.as_str())
}

pub fn policy_path(root: &str, id: &str) -> (path: String)
    ensures
        path@ == policy_file(root@, id@),
{
    let mut name = String::new();
    push_text(&mut name, id);
    push_text(&mut name, "-policy.py");
    proof {
        assert(name@ =~= id@ + "-policy.py"@);
    }
    join(root, name.as_str())
}

/// What a version that was uploaded is called.
pub open spec fn bundle_name(policy: Seq<char>, model: Seq<char>) -> Seq<char> {
    if policy == DEFAULT_POLICY_LABEL@ {
        DEFAULT_POLICY_LABEL@
    } else {
        policy + " + "@ + model
    }
}

/// The version that an upload becomes once its files are in their places.
pub fn bundle_version(root: &str, upload: &Upload) -> (version: Version)
    ensures
        version@ == (VersionText {
            id: upload.token@,
            name: bundle_name(upload.policy.name@, upload.model.name@),
            path: model_file(root@, upload.token@),
            policy_path: Some(policy_file(root@, upload.token@)),
            contract: None,
        }),
{
    let name = if same_text(upload.policy.name.as_str(), DEFAULT_POLICY_LABEL) {
        DEFAULT_POLICY_LABEL.to_owned()
    } else {
        let mut name = String::new();
        push_text(&mut name, upload.policy.name.as_str());
        push_text(&mut name, " + ");
        push_text(&mut name, upload.model.name.as_str());
        proof {
            assert(name@ =~= upload.policy.name@ + " + "@ + upload.model.name@);
        }
        name
    };
    Version {
        id: upload.token.clone(),
        name,
        path: model_path(root, upload.token.as_str()),
        policy_path: Some(policy_path(root, upload.token.as_str())),
        contract: None,
    }
}

/// What has to be loaded to try a version out.
pub enum Load {
    Alone { policy: String, model: String, net: Net },
    /// One consumer for both, fed by the two models in turn: the exact path that walking and
    /// standing will share.
    Pair { policy: String, walk: String, stand: String, peer: Slot, current: Version },
}

impl Models {
    /// Why a version cannot even be tried.
    pub open spec fn unready(self, slot: SlotText, version: VersionText) -> Option<Seq<char>> {
        match slot.net.partner() {
            Some(peer) => if seated(self.slots@).dom().contains(peer) && entry(
                self.records@,
                seated(self.slots@)[peer].key,
            ).active is None {
                Some("走/站配对槽位缺少活动模型"@)
            } else if version.policy_path is None {
                Some("策略缺少消费文件"@)
            } else {
                None
            },
            None => if version.policy_path is None {
                Some("策略缺少消费文件"@)
            } else {
                None
            },
        }
    }

    /// Whether a network shares its consumer with another that is configured.
    pub open spec fn paired(self, net: Net) -> bool {
        net.partner() matches Some(peer) && seated(self.slots@).dom().contains(peer)
    }

    /// What has to be loaded before a version can be put in place.
    pub fn prepare_version(&self, slot: &Slot, version: &Version) -> (load: Result<Load, String>)
        ensures
            match load {
                Err(why) => self.unready(slot@, version@) == Some(why@),
                Ok(Load::Alone { policy, model, net }) => self.unready(slot@, version@) is None
                    && !self.paired(slot.net) && Some(policy@) == version@.policy_path && model@
                    == version@.path && net == slot.net,
                Ok(Load::Pair { policy, walk, stand, peer, current }) => self.unready(
                    slot@,
                    version@,
                ) is None && self.paired(slot.net) && {
                    let other = seated(self.slots@)[slot.net.partner()->0];
                    &&& Some(policy@) == version@.policy_path
                    &&& peer@ == other
                    &&& Some(current@) == entry(self.records@, other.key).active
                    &&& walk@ == (if slot.net == Net::Walk {
                        version@.path
                    } else {
                        current@.path
                    })
                    &&& stand@ == (if slot.net == Net::Walk {
                        current@.path
                    } else {
                        version@.path
                    })
                },
            },
    {
        let other = match slot.net.peer() {
            Some(net) => slot_of(&self.slots, net),
            None => None,
        };
        match other {
            None => match &version.policy_path {
                None => Err("策略缺少消费文件".to_owned()),
                Some(policy) => Ok(
                    Load::Alone {
                        policy: policy.clone(),
                        model: version.path.clone(),
                        net: slot.net,
                    },
                ),
            },
            Some(peer) => {
                let current = match self.records.get(peer.key.as_str()) {
                    Some(record) => match &record.active {
                        Some(active) => active.copy(),
                        None => {
                            return Err("走/站配对槽位缺少活动模型".to_owned());
                        },
                    },
                    None => {
                        return Err("走/站配对槽位缺少活动模型".to_owned());
                    },
                };
                match &version.policy_path {
                    None => Err("策略缺少消费文件".to_owned()),
                    Some(policy) => {
                        let (walk, stand) = if slot.net == Net::Walk {
                            (version.path.clone(), current.path.clone())
                        } else {
                            (current.path.clone(), version.path.clone())
                        };
                        Ok(
                            Load::Pair {
                                policy: policy.clone(),
                                walk,
                                stand,
                                peer: peer.copy(),
                                current,
                            },
                        )
                    },
                }
            },
        }
    }
}

/// What the other side of a pair will run: its own model under the new consumer.
pub open spec fn companion_text(
    version: VersionText,
    current: VersionText,
    id: Seq<char>,
    contract: Seq<char>,
) -> VersionText {
    VersionText {
        id,
        name: if version.name == DEFAULT_POLICY_LABEL@ {
            DEFAULT_POLICY_LABEL@
        } else {
            "走/站共享消费文件"@
        },
        path: current.path,
        policy_path: version.policy_path,
        contract: Some(contract),
    }
}

/// A version that was loaded and warmed up, ready to be put in place. `id` is fresh, and
/// `contract` is what the consumer declared.
pub fn pending(slot: Slot, version: Version, load: Load, id: String, contract: String) -> (p: Pending)
    ensures
        p.slot == slot,
        p.version@ == (VersionText { contract: Some(contract@), ..version@ }),
        match load {
            Load::Alone { .. } => p.companion is None,
            Load::Pair { policy: _, walk: _, stand: _, peer, current } => p.companion matches Some(c)
                && c.slot == peer && c.expected@ == current@.id && c.version@ == companion_text(
                version@,
                current@,
                id@,
                contract@,
            ),
        },
{
    let companion = match load {
        Load::Alone { .. } => None,
        Load::Pair { policy: _, walk: _, stand: _, peer, current } => {
            let name = if same_text(version.name.as_str(), DEFAULT_POLICY_LABEL) {
                DEFAULT_POLICY_LABEL.to_owned()
            } else {
                "走/站共享消费文件".to_owned()
            };
            let policy_path = match &version.policy_path {
                Some(path) => Some(path.clone()),
                None => None,
            };
            Some(
                Companion {
                    slot: peer,
                    version: Version {
                        id,
                        name,
                        path: current.path,
                        policy_path,
                        contract: Some(contract.clone()),
                    },
                    expected: current.id,
                },
            )
        },
    };
    let mut version = version;
    version.contract = Some(contract);
    Pending { slot, version, companion }
}

/// What is said of a pair that would not load.
pub fn pair_failed(error: &str) -> (text: String)
    ensures
        text@ == "走/站联合校验失败，两侧均未改变："@ + error@,
{
    let mut text = String::new();
    push_text(&mut text, "走/站联合校验失败，两侧均未改变：");
    push_text(&mut text, error);
    proof {
        assert(text@ =~= "走/站联合校验失败，两侧均未改变："@ + error@);
    }
    text
}

/// What the bus loop does about a pending version.
pub enum Tick {
    /// There is none.
    Nothing,
    /// It cannot be put in place: delete the files of this version that no record needs.
    Refused(Version),
    /// Commit it to disk, and report how that went.
    Commit(Pending),
}

impl Models {
    /// Whether a slot is still configured as it was.
    pub open spec fn configured(self, slot: SlotText) -> bool {
        exists|i: int|
            0 <= i < self.slots@.len() && (#[trigger] self.slots@[i])@.key == slot.key
                && self.slots@[i].net == slot.net
    }

    fn is_configured(&self, slot: &Slot) -> (yes: bool)
        ensures
            yes == self.configured(slot@),
    {
        let mut at: usize = 0;
        while at < self.slots.len()
            invariant
                at <= self.slots@.len(),
                forall|i: int|
                    0 <= i < at ==> !((#[trigger] self.slots@[i])@.key == slot@.key && self.slots@[i].net
                        == slot.net),
            decreases self.slots@.len() - at,
        {
            if same_text(self.slots[at].key.as_str(), slot.key.as_str()) && self.slots[at].net
                == slot.net {
                proof {
                    assert(self.slots@[at as int]@.key == slot@.key);
                }
                return true;
            }
            at = at + 1;
        }
        false
    }

    /// Whether a pending version fits the robot as it is now configured: its slot is still there,
    /// a pair is still a pair, and the other side still runs what it ran when the two were tried
    /// together.
    pub open spec fn fits(self, pending: Pending) -> bool {
        &&& pending.slot.net.locomotion() ==> (seated(self.slots@).dom().contains(Net::Stand)
            <==> pending.companion is Some)
        &&& self.configured(pending.slot@)
        &&& pending.companion matches Some(c) ==> self.configured(c.slot@) && (entry(
            self.records@,
            c.slot@.key,
        ).active matches Some(active) && active.id == c.expected@)
    }

    fn is_fit(&self, pending: &Pending) -> (yes: bool)
        ensures
            yes == self.fits(*pending),
    {
        let stand = slot_of(&self.slots, Net::Stand).is_some();
        let locomotion = match pending.slot.net {
            Net::Walk | Net::Stand => true,
            _ => false,
        };
        if locomotion && stand != pending.companion.is_some() {
            return false;
        }
        if !self.is_configured(&pending.slot) {
            return false;
        }
        match &pending.companion {
            None => true,
            Some(c) => {
                if !self.is_configured(&c.slot) {
                    return false;
                }
                match self.records.get(c.slot.key.as_str()) {
                    Some(record) => match &record.active {
                        Some(active) => same_text(active.id.as_str(), c.expected.as_str()),
                        None => false,
                    },
                    None => false,
                }
            },
        }
    }

    /// The result of preparing a version. A failure gives the lease up.
    pub fn prepared(&mut self, lease: &mut ControlOwner, result: Result<Pending, String>)
        requires
            old(self).valid(),
        ensures
            final(self).valid(),
            match result {
                Ok(pending) => final(lease)@ == old(lease)@ && final(self).detail@
                    == "校验通过；等待控制循环确认放松后替换"@ && *final(self) == (Models {
                    pending: Some(pending),
                    phase: Phase::Pending,
                    detail: final(self).detail,
                    ..*old(self)
                }),
                Err(error) => final(lease)@ == released(old(lease)@, Owner::PolicyImport)
                    && final(self).detail@ == "校验失败，旧模型未改变："@ + error@ && *final(self) == (
                Models {
                    failed_phase: Some(old(self).phase),
                    phase: Phase::Error,
                    detail: final(self).detail,
                    ..*old(self)
                }),
            },
    {
        match result {
            Ok(pending) => {
                self.pending = Some(pending);
                self.phase = Phase::Pending;
                self.detail = "校验通过；等待控制循环确认放松后替换".to_owned();
            },
            Err(error) => {
                self.failed_phase = Some(self.phase);
                self.phase = Phase::Error;
                let mut detail = String::new();
                push_text(&mut detail, "校验失败，旧模型未改变：");
                push_text(&mut detail, error.as_str());
                proof {
                    assert(detail@ =~= "校验失败，旧模型未改变："@ + error@);
                }
                self.detail = detail;
                lease.release(Owner::PolicyImport);
            },
        }
    }

    /// Runs before any intent to enable or initialise is looked at. Fresh hardware proof is
    /// mandatory: a version is put in place only while the robot is relaxed, with policies loaded,
    /// and configured as it was when the version was tried.
    pub fn tick(&mut self, lease: &mut ControlOwner, relaxed: bool, loaded: bool, now_ms: u64) -> (tick: Tick)
        requires
            old(self).valid(),
        ensures
            final(self).valid(),
            match old(self).pending {
                None => tick is Nothing && final(lease)@ == old(lease)@ && *final(self) == (Models {
                    editable: relaxed,
                    observed_ms: now_ms,
                    ..*old(self)
                }),
                Some(pending) => if relaxed && loaded && old(self).fits(pending) {
                    tick == Tick::Commit(pending) && final(lease)@ == old(lease)@ && *final(self) == (
                    Models {
                        editable: relaxed,
                        observed_ms: now_ms,
                        pending: None,
                        ..*old(self)
                    })
                } else {
                    tick == Tick::Refused(pending.version) && final(lease)@ == released(
                        old(lease)@,
                        Owner::PolicyImport,
                    ) && final(self).detail@
                        == "替换已拒绝：需要当前模式不变、策略已加载、机器人已放松且全部配置电机有新鲜失能反馈。旧模型未改变；放松后重新导入或回滚。"@
                        && *final(self) == (Models {
                        editable: relaxed,
                        observed_ms: now_ms,
                        pending: None,
                        failed_phase: Some(Phase::Pending),
                        phase: Phase::Error,
                        detail: final(self).detail,
                        ..*old(self)
                    })
                },
            },
    {
        self.editable = relaxed;
        self.observed_ms = now_ms;
        match self.pending.take() {
            None => Tick::Nothing,
            Some(pending) => {
                if relaxed && loaded && self.is_fit(&pending) {
                    return Tick::Commit(pending);
                }
                self.failed_phase = Some(Phase::Pending);
                self.phase = Phase::Error;
                self.detail =
                "替换已拒绝：需要当前模式不变、策略已加载、机器人已放松且全部配置电机有新鲜失能反馈。旧模型未改变；放松后重新导入或回滚。".to_owned();
                lease.release(Owner::PolicyImport);
                Tick::Refused(pending.version)
            },
        }
    }
}

/// A slot and the version that is put in it, with the version it starts from if it has none.
pub struct Update {
    pub key: String,
    pub version: Version,
    pub fallback: Option<Version>,
}

/// The records after some updates.
pub open spec fn updated(records: Map<Seq<char>, RecordText>, updates: Seq<Update>) -> Map<
    Seq<char>,
    RecordText,
>
    decreases updates.len(),
{
    if updates.len() == 0 {
        records
    } else {
        let before = updated(records, updates.drop_last());
        let u = updates.last();
        let record = entry(before, u.key@);
        before.insert(
            u.key@,
            record.committed(
                u.version@,
                match u.fallback {
                    Some(f) => f@,
                    None => record.active->0,
                },
            ),
        )
    }
}

/// Whether every update that needs a version to start from brings one.
pub open spec fn grounded(records: Map<Seq<char>, RecordText>, updates: Seq<Update>) -> bool {
    forall|i: int|
        0 <= i < updates.len() ==> (#[trigger] updates[i]).fallback is Some || entry(
            updated(records, updates.take(i)),
            updates[i].key@,
        ).active is Some
}

/// Walking and standing change together: both come to run under the consumer of the new version,
/// the other one keeps its own model, and no other slot is touched.
pub proof fn a_pair_shares_one_consumer(
    records: Map<Seq<char>, RecordText>,
    updates: Seq<Update>,
    version: VersionText,
    current: VersionText,
    id: Seq<char>,
    contract: Seq<char>,
)
    requires
        updates.len() == 2,
        updates[0].key@ != updates[1].key@,
        updates[0].version@ == (VersionText { contract: Some(contract), ..version }),
        updates[1].version@ == companion_text(version, current, id, contract),
    ensures
        entry(updated(records, updates), updates[0].key@).active matches Some(own) && own.path
            == version.path && own.policy_path == version.policy_path,
        entry(updated(records, updates), updates[1].key@).active matches Some(other) && other.path
            == current.path && other.policy_path == version.policy_path,
        forall|key: Seq<char>|
            key != updates[0].key@ && key != updates[1].key@ ==> #[trigger] entry(
                updated(records, updates),
                key,
            ) == entry(records, key),
{
    reveal_with_fuel(updated, 3);
    assert(updates.drop_last().last() == updates[0]);
    assert(updates.last() == updates[1]);
}

/// Whether an update needs a version to start from: its slot has no active one.
pub fn needs_default(records: &Records, key: &str) -> (yes: bool)
    ensures
        yes == (entry(records@, key@).active is None),
{
    match records.get(key) {
        Some(record) => record.active.is_none(),
        None => true,
    }
}

/// The records after some updates, all of them or none: what was there stays as it was until the
/// caller has this on disk.
pub fn commit_updates(records: &Records, updates: &Vec<Update>) -> (next: Records)
    requires
        records.distinct(),
        grounded(records@, updates@),
    ensures
        next.distinct(),
        next@ == updated(records@, updates@),
{
    let mut next = records.copy();
    let mut at: usize = 0;
    proof {
        assert(updates@.take(0) =~= Seq::empty());
    }
    while at < updates.len()
        invariant
            at <= updates@.len(),
            next.distinct(),
            grounded(records@, updates@),
            next@ == updated(records@, updates@.take(at as int)),
        decreases updates@.len() - at,
    {
        let update = &updates[at];
        let ghost before = next@;
        proof {
            assert(updates@.take(at + 1).drop_last() =~= updates@.take(at as int));
            assert(updates@[at as int].fallback is Some || entry(before, update.key@).active is Some);
        }
        let record = match next.get(update.key.as_str()) {
            Some(record) => record.copy(),
            None => Record::blank(),
        };
        let fallback = match &update.fallback {
            Some(f) => Some(f),
            None => None,
        };
        let changed = record.committed(&update.version, fallback);
        next.put(update.key.as_str(), changed);
        at = at + 1;
    }
    proof {
        assert(updates@.take(at as int) =~= updates@);
    }
    next
}

/// The updates that put a pending version in place: its own slot, and the other side of a pair.
pub fn updates_of(pending: &Pending, fallback: Option<Version>, companion_fallback: Option<Version>) -> (updates: Vec<
    Update,
>)
    ensures
        updates@.len() == (if pending.companion is Some {
            2nat
        } else {
            1
        }),
        updates@[0].key@ == pending.slot@.key,
        updates@[0].version@ == pending.version@,
        updates@[0].fallback == fallback,
        pending.companion matches Some(c) ==> updates@[1].key@ == c.slot@.key && updates@[1].version@
            == c.version@ && updates@[1].fallback == companion_fallback,
{
    let mut updates: Vec<Update> = Vec::new();
    updates.push(
        Update { key: pending.slot.key.clone(), version: pending.version.copy(), fallback },
    );
    match &pending.companion {
        Some(c) => {
            updates.push(
                Update {
                    key: c.slot.key.clone(),
                    version: c.version.copy(),
                    fallback: companion_fallback,
                },
            );
        },
        None => {},
    }
    updates
}

impl Models {
    /// Whether a file lies in the store and no record needs it.
    pub open spec fn stale(self, path: Seq<char>) -> bool {
        lies_in(path, self.root@) && !needed(self.records@, path)
    }

    pub fn is_stale(&self, path: &str) -> (yes: bool)
        requires
            self.valid(),
        ensures
            yes == self.stale(path@),
    {
        is_in(path, self.root.as_str()) && !self.records.refers_to(path)
    }

    /// The files of a version that no record needs.
    pub fn stale_files(&self, version: &Version) -> (files: Vec<String>)
        requires
            self.valid(),
        ensures
            crate::scan::strings(files@) == self.leftovers(version@),
    {
        let mut files: Vec<String> = Vec::new();
        if self.is_stale(version.path.as_str()) {
            files.push(version.path.clone());
        }
        match &version.policy_path {
            Some(path) => {
                if self.is_stale(path.as_str()) {
                    files.push(path.clone());
                }
            },
            None => {},
        }
        proof {
            assert(crate::scan::strings(files@) =~= self.leftovers(version@));
        }
        files
    }

    pub open spec fn leftovers(self, version: VersionText) -> Seq<Seq<char>> {
        (if self.stale(version.path) {
            seq![version.path]
        } else {
            seq![]
        }) + (match version.policy_path {
            Some(path) => if self.stale(path) {
                seq![path]
            } else {
                seq![]
            },
            None => seq![],
        })
    }

    /// How committing a pending version to disk went. Either way the lease is given up; on
    /// success the new records take the place of the old, which are handed back so that their
    /// files can be cleared away.
    pub fn settle(&mut self, lease: &mut ControlOwner, paired: bool, result: Result<Records, String>) -> (replaced: Option<
        Records,
    >)
        requires
            old(self).valid(),
            result matches Ok(records) ==> records.distinct(),
        ensures
            final(self).valid(),
            final(lease)@ == released(old(lease)@, Owner::PolicyImport),
            match result {
                Ok(records) => replaced == Some(old(self).records) && final(self).detail@ == (
                if paired {
                    "走/站已原子更新并加载共享消费实例；另一侧 ONNX 未改变，消费文件已同步。机器人保持放松，需手动初始化/开启策略。两侧均保留最近两条历史。"@
                } else {
                    "替换成功并已即时加载；机器人保持放松，需手动初始化/开启策略。保留最近两条 ONNX 历史。"@
                }) && *final(self) == (Models {
                    records,
                    phase: Phase::Done,
                    detail: final(self).detail,
                    ..*old(self)
                }),
                Err(error) => replaced is None && final(self).detail@ == "保存失败，旧模型未改变："@
                    + error@ && *final(self) == (Models {
                    failed_phase: Some(Phase::Pending),
                    phase: Phase::Error,
                    detail: final(self).detail,
                    ..*old(self)
                }),
            },
    {
        lease.release(Owner::PolicyImport);
        match result {
            Ok(records) => {
                let mut records = records;
                std::mem::swap(&mut self.records, &mut records);
                self.phase = Phase::Done;
                self.detail = if paired {
                    "走/站已原子更新并加载共享消费实例；另一侧 ONNX 未改变，消费文件已同步。机器人保持放松，需手动初始化/开启策略。两侧均保留最近两条历史。".to_owned()
                } else {
                    "替换成功并已即时加载；机器人保持放松，需手动初始化/开启策略。保留最近两条 ONNX 历史。".to_owned()
                };
                Some(records)
            },
            Err(error) => {
                self.failed_phase = Some(Phase::Pending);
                self.phase = Phase::Error;
                let mut detail = String::new();
                push_text(&mut detail, "保存失败，旧模型未改变：");
                push_text(&mut detail, error.as_str());
                proof {
                    assert(detail@ =~= "保存失败，旧模型未改变："@ + error@);
                }
                self.detail = detail;
                None
            },
        }
    }

    /// Whether a file was needed by a version in some records.
    pub open spec fn formerly(records: Seq<crate::models::record::Entry>, path: Seq<char>) -> bool {
        exists|i: int| 0 <= i < records.len() && names(#[trigger] records[i].record@, path)
    }

    /// The files that earlier records named and no record needs any more: each of them, and
    /// nothing else.
    pub fn cleared(&self, replaced: &Records) -> (files: Vec<String>)
        requires
            self.valid(),
        ensures
            forall|path: Seq<char>|
                #![trigger crate::scan::strings(files@).contains(path)]
                crate::scan::strings(files@).contains(path) <==> self.stale(path)
                    && Models::formerly(replaced.entries@, path),
    {
        let mut files: Vec<String> = Vec::new();
        let mut at: usize = 0;
        while at < replaced.entries.len()
            invariant
                self.valid(),
                at <= replaced.entries@.len(),
                forall|path: Seq<char>|
                    #![trigger crate::scan::strings(files@).contains(path)]
                    crate::scan::strings(files@).contains(path) <==> self.stale(path)
                        && Models::formerly(replaced.entries@.take(at as int), path),
            decreases replaced.entries@.len() - at,
        {
            let ghost before = crate::scan::strings(files@);
            let mut more = self.cleared_record(&replaced.entries[at].record);
            let ghost added = crate::scan::strings(more@);
            files.append(&mut more);
            proof {
                let all = crate::scan::strings(files@);
                let seen = replaced.entries@.take(at as int);
                let next = replaced.entries@.take(at + 1);
                assert(all =~= before + added);
                assert forall|path: Seq<char>| #[trigger] all.contains(path) <==> self.stale(path)
                    && Models::formerly(next, path) by {
                    lemma_either(before, added, path);
                    if Models::formerly(seen, path) {
                        let i = choose|i: int|
                            0 <= i < seen.len() && names(#[trigger] seen[i].record@, path);
                        assert(next[i] == seen[i]);
                        assert(names(next[i].record@, path));
                    }
                    if names(replaced.entries@[at as int].record@, path) {
                        assert(names(next[at as int].record@, path));
                    }
                    if Models::formerly(next, path) {
                        let i = choose|i: int|
                            0 <= i < next.len() && names(#[trigger] next[i].record@, path);
                        if i < at {
                            assert(names(seen[i].record@, path));
                        }
                    }
                    assert(before.contains(path) <==> self.stale(path) && Models::formerly(seen, path));
                    assert(added.contains(path) <==> self.stale(path) && names(
                        replaced.entries@[at as int].record@,
                        path,
                    ));
                }
            }
            at = at + 1;
        }
        proof {
            assert(replaced.entries@.take(at as int) =~= replaced.entries@);
        }
        files
    }

    fn cleared_record(&self, record: &Record) -> (files: Vec<String>)
        requires
            self.valid(),
        ensures
            forall|path: Seq<char>|
                #![trigger crate::scan::strings(files@).contains(path)]
                crate::scan::strings(files@).contains(path) <==> self.stale(path) && names(
                    record@,
                    path,
                ),
    {
        let mut files: Vec<String> = match &record.active {
            Some(version) => self.stale_files(version),
            None => Vec::new(),
        };
        proof {
            assert forall|path: Seq<char>|
                #[trigger] crate::scan::strings(files@).contains(path) <==> self.stale(path) && (
                record@.active matches Some(active) && mentions(active, path)) by {
                match record@.active {
                    Some(active) => {
                        self.lemma_leftovers(active, path);
                    },
                    None => {},
                }
            }
        }
        let mut at: usize = 0;
        while at < record.history.len()
            invariant
                self.valid(),
                at <= record.history@.len(),
                forall|path: Seq<char>|
                    #![trigger crate::scan::strings(files@).contains(path)]
                    crate::scan::strings(files@).contains(path) <==> self.stale(path) && ((
                    record@.active matches Some(active) && mentions(active, path)) || exists|i: int|
                        0 <= i < at && mentions(#[trigger] record@.history[i], path)),
            decreases record.history@.len() - at,
        {
            let ghost before = crate::scan::strings(files@);
            let mut more = self.stale_files(&record.history[at]);
            let ghost added = crate::scan::strings(more@);
            files.append(&mut more);
            proof {
                let all = crate::scan::strings(files@);
                assert(all =~= before + added);
                assert forall|path: Seq<char>| #[trigger] all.contains(path) <==> self.stale(path) && ((
                record@.active matches Some(active) && mentions(active, path)) || exists|i: int|
                    0 <= i < at + 1 && mentions(#[trigger] record@.history[i], path)) by {
                    lemma_either(before, added, path);
                    self.lemma_leftovers(record@.history[at as int], path);
                    assert(before.contains(path) <==> self.stale(path) && ((
                    record@.active matches Some(active) && mentions(active, path)) || exists|i: int|
                        0 <= i < at && mentions(#[trigger] record@.history[i], path)));
                }
            }
            at = at + 1;
        }
        files
    }

    proof fn lemma_leftovers(self, version: VersionText, path: Seq<char>)
        ensures
            self.leftovers(version).contains(path) <==> self.stale(path) && mentions(version, path),
    {
        let first = if self.stale(version.path) {
            seq![version.path]
        } else {
            seq![]
        };
        let second = match version.policy_path {
            Some(p) => if self.stale(p) {
                seq![p]
            } else {
                seq![]
            },
            None => seq![],
        };
        lemma_either(first, second, path);
        if self.stale(version.path) {
            assert(first[0] == version.path);
        }
        match version.policy_path {
            Some(p) => {
                if self.stale(p) {
                    assert(second[0] == p);
                }
            },
            None => {},
        }
    }
}

/// Whether a version names a file, letter for letter.
pub open spec fn mentions(version: VersionText, path: Seq<char>) -> bool {
    version.path == path || version.policy_path == Some(path)
}

/// Whether a record names a file, letter for letter.
pub open spec fn names(record: RecordText, path: Seq<char>) -> bool {
    (record.active matches Some(active) && mentions(active, path)) || exists|i: int|
        0 <= i < record.history.len() && mentions(#[trigger] record.history[i], path)
}

proof fn lemma_either(a: Seq<Seq<char>>, b: Seq<Seq<char>>, path: Seq<char>)
    ensures
        (a + b).contains(path) <==> a.contains(path) || b.contains(path),
{
    if a.contains(path) {
        let i = choose|i: int| 0 <= i < a.len() && a[i] == path;
        assert((a + b)[i] == path);
    }
    if b.contains(path) {
        let i = choose|i: int| 0 <= i < b.len() && b[i] == path;
        assert((a + b)[a.len() + i] == path);
    }
    if (a + b).contains(path) {
        let i = choose|i: int| 0 <= i < (a + b).len() && (a + b)[i] == path;
        if i < a.len() {
            assert(a[i] == path);
        } else {
            assert(b[i - a.len()] == path);
        }
    }
}

/// A version's files lie in the store under its id, a model and a program.
pub proof fn where_a_version_is_kept(root: Seq<char>, id: Seq<char>)
    requires
        forall|i: int| 0 <= i < id.len() ==> #[trigger] id[i] != '/',
    ensures
        lies_in(model_file(root, id), root),
        lies_in(policy_file(root, id), root),
        crate::path::extension(model_file(root, id)) == Some("onnx"@),
        crate::path::extension(policy_file(root, id)) == Some("py"@),
{
    reveal_strlit("-model.onnx");
    reveal_strlit("-policy.py");
    reveal_strlit("-model");
    reveal_strlit("-policy");
    reveal_strlit("onnx");
    reveal_strlit("py");
    let model = id + "-model.onnx"@;
    let policy = id + "-policy.py"@;
    assert forall|i: int| 0 <= i < model.len() implies #[trigger] model[i] != '/' by {
        if i < id.len() {
            assert(model[i] == id[i]);
        } else {
            assert(model[i] == "-model.onnx"@[i - id.len()]);
        }
    }
    assert forall|i: int| 0 <= i < policy.len() implies #[trigger] policy[i] != '/' by {
        if i < id.len() {
            assert(policy[i] == id[i]);
        } else {
            assert(policy[i] == "-policy.py"@[i - id.len()]);
        }
    }
    assert(model.len() > 2 && policy.len() > 2);
    crate::path::a_joined_name_lies_in_its_directory(root, model);
    crate::path::a_joined_name_lies_in_its_directory(root, policy);
    assert(model =~= (id + "-model"@) + seq!['.'] + "onnx"@);
    assert(policy =~= (id + "-policy"@) + seq!['.'] + "py"@);
    crate::path::what_follows_the_last_dot(model_file(root, id), id + "-model"@, "onnx"@);
    crate::path::what_follows_the_last_dot(policy_file(root, id), id + "-policy"@, "py"@);
}

/// A version can be tried where it has a consumer and, for walking or standing, the other of the two,
/// where it is configured, runs something.
pub proof fn what_a_trial_needs(m: Models, slot: SlotText, version: VersionText)
    ensures
        m.unready(slot, version) is None <==> version.policy_path is Some && (m.paired(slot.net) ==> entry(
            m.records@,
            seated(m.slots@)[slot.net.partner()->0].key,
        ).active is Some),
        slot.net == Net::Walk ==> (m.paired(slot.net) <==> seated(m.slots@).dom().contains(Net::Stand)),
        slot.net == Net::Stand ==> (m.paired(slot.net) <==> seated(m.slots@).dom().contains(Net::Walk)),
        slot.net != Net::Walk && slot.net != Net::Stand ==> !m.paired(slot.net),
{
}

/// A pending version no longer fits once its slot is gone, once its pair was joined or parted, or once
/// the other side of the pair runs something else than it was tried with.
pub proof fn what_a_pending_version_fits(m: Models, pending: Pending)
    ensures
        m.fits(pending) ==> m.configured(pending.slot@),
        m.fits(pending) && (pending.slot.net == Net::Walk || pending.slot.net == Net::Stand) ==> (
        pending.companion is Some <==> seated(m.slots@).dom().contains(Net::Stand)),
        m.fits(pending) && pending.companion is Some ==> m.configured(pending.companion->0.slot@) && (entry(
            m.records@,
            pending.companion->0.slot@.key,
        ).active matches Some(active) && active.id == pending.companion->0.expected@),
        m.configured(pending.slot@) && pending.companion is None && pending.slot.net != Net::Walk
            && pending.slot.net != Net::Stand ==> m.fits(pending),
{
}

/// Committing one version touches its own slot alone: that runs the version, keeps what it ran before, and
/// every other slot stays.
pub proof fn a_commit_touches_its_own_slot(
    records: Map<Seq<char>, RecordText>,
    update: Update,
    key: Seq<char>,
)
    ensures
        entry(updated(records, seq![update]), update.key@).active == Some(update.version@),
        entry(records, update.key@).active matches Some(active) ==> entry(
            updated(records, seq![update]),
            update.key@,
        ).history[0] == active,
        key != update.key@ ==> entry(updated(records, seq![update]), key) == entry(records, key),
        updated(records, Seq::empty()) == records,
{
    let updates = seq![update];
    reveal_with_fuel(updated, 2);
    assert(updates.drop_last() =~= Seq::<Update>::empty());
    assert(updates.last() == update);
}

/// A version that was uploaded is called by its two files, or by the built-in consumer's name where it
/// has that.
pub proof fn what_an_uploaded_version_is_called(policy: Seq<char>, model: Seq<char>)
    ensures
        policy == DEFAULT_POLICY_LABEL@ ==> bundle_name(policy, model) == DEFAULT_POLICY_LABEL@,
        policy != DEFAULT_POLICY_LABEL@ ==> bundle_name(policy, model) == policy + " + "@ + model,
{
}

/// Only what lies in the store and no record needs is cleared away.
pub proof fn what_is_needed_stays(m: Models, version: VersionText, path: Seq<char>)
    ensures
        m.leftovers(version).contains(path) <==> lies_in(path, m.root@) && !needed(m.records@, path) && (
        version.path == path || version.policy_path == Some(path)),
{
    m.lemma_leftovers(version, path);
}

} // verus!
