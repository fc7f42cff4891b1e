//! Finding every slot a policy to run when the robot starts.

use crate::models::commit::{model_file, model_path, policy_file, policy_path};
use crate::models::record::{entry, said, Record, RecordText, Version, VersionText};
use crate::models::status::{base_name, base_name_of};
use crate::models::upload::{Slot, SlotText, DEFAULT_POLICY_LABEL};
use crate::models::{seated, slot_of, Models};
use crate::net::{Net, NETS};
use crate::path::{is_same, same_path};
use crate::scan::{push_text, same_text};
use vstd::prelude::*;

verus! {

/// The key under which a slot's versions are recorded: its name, and that of the file it is
/// configured with.
pub open spec fn slot_key(net: Net, path: Seq<char>) -> Seq<char> {
    net.name() + "--"@ + base_name(path)
}

/// The version a slot starts from: the configured model under the built-in consumer.
pub fn default_version(root: &str, id: String) -> (version: Version)
    ensures
        version@ == (VersionText {
            id: id@,
            name: DEFAULT_POLICY_LABEL@,
            path: model_file(root@, id@),
            policy_path: Some(policy_file(root@, id@)),
            contract: None,
        }),
{
    let path = model_path(root, id.as_str());
    let policy = policy_path(root, id.as_str());
    Version {
        id,
        name: DEFAULT_POLICY_LABEL.to_owned(),
        path,
        policy_path: Some(policy),
        contract: None,
    }
}

/// What an old version becomes, which was a model alone: the built-in consumer beside it.
pub open spec fn migrated(root: Seq<char>, version: VersionText) -> VersionText {
    VersionText {
        id: version.id,
        name: DEFAULT_POLICY_LABEL@,
        path: model_file(root, version.id),
        policy_path: Some(policy_file(root, version.id)),
        contract: None,
    }
}

/// What there is to do on disk for an old version.
pub struct Migration {
    /// Where the model belongs.
    pub model: String,
    /// Where the built-in consumer is written.
    pub policy: String,
    /// Whether the model lies elsewhere and has to be copied, unless that was done before.
    pub moved: bool,
}

/// What there is to do on disk before a version can be brought up to date, if it is an old one.
pub fn migration(root: &str, version: &Version) -> (todo: Option<Migration>)
    ensures
        match todo {
            None => version.policy_path is Some,
            Some(m) => version.policy_path is None && m.model@ == model_file(root@, version@.id)
                && m.policy@ == policy_file(root@, version@.id) && m.moved == !same_path(
                version@.path,
                model_file(root@, version@.id),
            ),
        },
{
    if version.policy_path.is_some() {
        return None;
    }
    let model = model_path(root, version.id.as_str());
    let policy = policy_path(root, version.id.as_str());
    let moved = !is_same(version.path.as_str(), model.as_str());
    Some(Migration { model, policy, moved })
}

/// Brings an old version up to date once that has been done. Hands back where its model was, if
/// that has moved.
pub fn migrate(root: &str, version: &mut Version) -> (obsolete: Option<String>)
    requires
        old(version).policy_path is None,
    ensures
        final(version)@ == migrated(root@, old(version)@),
        said(obsolete) == (if same_path(old(version)@.path, model_file(root@, old(version)@.id)) {
            None
        } else {
            Some(old(version)@.path)
        }),
{
    let model = model_path(root, version.id.as_str());
    let policy = policy_path(root, version.id.as_str());
    let obsolete = if is_same(version.path.as_str(), model.as_str()) {
        None
    } else {
        Some(version.path.clone())
    };
    version.name = DEFAULT_POLICY_LABEL.to_owned();
    version.path = model;
    version.policy_path = Some(policy);
    version.contract = None;
    obsolete
}

/// How a version's name and its consumer go together.
#[derive(Debug, Clone, Copy, PartialEq, Eq, Structural)]
pub enum Naming {
    /// As they should.
    Keep,
    /// A version called the built-in one has another consumer: only the robot itself gives that
    /// name, so its consumer is out of date and is replaced.
    Replace,
    /// A version has the built-in consumer under another name and takes its name.
    Rename,
}

pub open spec fn naming_of(name: Seq<char>, consumer: Seq<u8>, default: Seq<u8>) -> Naming {
    if name == DEFAULT_POLICY_LABEL@ && consumer != default {
        Naming::Replace
    } else if name != DEFAULT_POLICY_LABEL@ && consumer == default {
        Naming::Rename
    } else {
        Naming::Keep
    }
}

fn same_bytes(a: &[u8], b: &[u8]) -> (same: bool)
    ensures
        same == (a@ == b@),
{
    if a.len() != b.len() {
        return false;
    }
    let mut at: usize = 0;
    while at < a.len()
        invariant
            at <= a@.len(),
            a@.len() == b@.len(),
            forall|i: int| 0 <= i < at ==> a@[i] == b@[i],
        decreases a@.len() - at,
    {
        if a[at] != b[at] {
            return false;
        }
        at = at + 1;
    }
    proof {
        assert(a@ =~= b@);
    }
    true
}

/// Gives the built-in consumer its name, and says whether its file has to be replaced.
pub fn normalize_default_name(version: &mut Version, consumer: &[u8], default: &[u8]) -> (naming: Naming)
    ensures
        naming == naming_of(old(version)@.name, consumer@, default@),
        final(version)@ == (if naming == Naming::Rename {
            VersionText { name: DEFAULT_POLICY_LABEL@, ..old(version)@ }
        } else {
            old(version)@
        }),
{
    let built_in = same_text(version.name.as_str(), DEFAULT_POLICY_LABEL);
    let same = same_bytes(consumer, default);
    if built_in && !same {
        Naming::Replace
    } else if !built_in && same {
        version.name = DEFAULT_POLICY_LABEL.to_owned();
        Naming::Rename
    } else {
        Naming::Keep
    }
}

/// What bringing a version up to date came to.
pub struct Fit {
    /// The file that the version no longer uses.
    pub obsolete: Option<String>,
    /// What becomes of its consumer and its name.
    pub naming: Naming,
    /// Whether the records have to be written down again.
    pub changed: bool,
}

/// A version with a consumer of its own: what it is, or what it is migrated to.
pub open spec fn with_consumer(root: Seq<char>, version: VersionText) -> VersionText {
    if version.policy_path is None {
        migrated(root, version)
    } else {
        version
    }
}

/// A version brought up to date, given what its consumer and the built-in one read.
pub open spec fn refitted(
    root: Seq<char>,
    version: VersionText,
    consumer: Seq<u8>,
    default: Seq<u8>,
) -> VersionText {
    let moved = with_consumer(root, version);
    if naming_of(moved.name, consumer, default) == Naming::Rename {
        VersionText { name: DEFAULT_POLICY_LABEL@, ..moved }
    } else {
        moved
    }
}

/// Brings a version up to date: a version that is a model alone gets the built-in consumer beside
/// it, and whatever has the built-in consumer is called by its name. `consumer` is what the
/// version's consumer reads, once it has one.
pub fn refit(root: &str, version: &mut Version, consumer: &[u8], default: &[u8]) -> (fit: Fit)
    ensures
        final(version)@ == refitted(root@, old(version)@, consumer@, default@),
        fit.naming == naming_of(with_consumer(root@, old(version)@).name, consumer@, default@),
        fit.changed == (old(version)@.policy_path is None || fit.naming != Naming::Keep),
        said(fit.obsolete) == (if old(version)@.policy_path is Some || same_path(
            old(version)@.path,
            model_file(root@, old(version)@.id),
        ) {
            None
        } else {
            Some(old(version)@.path)
        }),
{
    let single = version.policy_path.is_none();
    let obsolete = if single {
        migrate(root, version)
    } else {
        None
    };
    let naming = normalize_default_name(version, consumer, default);
    let changed = single || naming != Naming::Keep;
    Fit { obsolete, naming, changed }
}

/// Every version that has been brought up to date has a consumer, and one that is brought up to
/// date again, with its consumer replaced where that was called for, stays as it is.
pub proof fn refitting_is_done_once(
    root: Seq<char>,
    version: VersionText,
    consumer: Seq<u8>,
    default: Seq<u8>,
)
    ensures
        ({
            let after = refitted(root, version, consumer, default);
            let naming = naming_of(with_consumer(root, version).name, consumer, default);
            let now = if naming == Naming::Replace {
                default
            } else {
                consumer
            };
            &&& after.policy_path is Some
            &&& with_consumer(root, after) == after
            &&& naming_of(after.name, now, default) == Naming::Keep
            &&& refitted(root, after, now, default) == after
        }),
{
}

impl Models {
    /// Starts configuring the slots anew.
    pub fn clear_slots(&mut self)
        requires
            old(self).valid(),
        ensures
            final(self).valid(),
            final(self).slots@.len() == 0,
            *final(self) == (Models { slots: final(self).slots, ..*old(self) }),
    {
        self.slots = Vec::new();
    }

    /// Configures a slot and finds its record, a blank one if it is new. Hands back the key.
    pub fn place(&mut self, net: Net, path: &str) -> (key: String)
        requires
            old(self).valid(),
        ensures
            final(self).valid(),
            key@ == slot_key(net, path@),
            seated(final(self).slots@) == seated(old(self).slots@).insert(
                net,
                (SlotText { key: key@, path: path@, net }),
            ),
            final(self).records@ == old(self).records@.insert(key@, entry(old(self).records@, key@)),
            *final(self) == (Models {
                slots: final(self).slots,
                records: final(self).records,
                ..*old(self)
            }),
    {
        let mut key = String::new();
        push_text(&mut key, net.id());
        push_text(&mut key, "--");
        let file = base_name_of(path);
        push_text(&mut key, file.as_str());
        proof {
            assert(key@ =~= slot_key(net, path@));
        }
        let ghost before = self.slots@;
        self.slots.push(Slot { key: key.clone(), path: path.to_owned(), net });
        proof {
            assert(self.slots@.drop_last() =~= before);
        }
        if self.records.get(key.as_str()).is_none() {
            self.records.put(key.as_str(), Record::blank());
        } else {
            proof {
                assert(self.records@ =~= self.records@.insert(key@, self.records@[key@]));
            }
        }
        key
    }

    /// Puts a record back after its versions were looked over.
    pub fn put_record(&mut self, key: &str, record: Record)
        requires
            old(self).valid(),
        ensures
            final(self).valid(),
            final(self).records@ == old(self).records@.insert(key@, record@),
            *final(self) == (Models { records: final(self).records, ..*old(self) }),
    {
        self.records.put(key, record);
    }

    /// The consumer that a slot runs, if it is configured and runs one.
    pub open spec fn consumer_of(self, net: Net) -> Option<Seq<char>> {
        if seated(self.slots@).dom().contains(net) {
            match entry(self.records@, seated(self.slots@)[net].key).active {
                Some(active) => active.policy_path,
                None => None,
            }
        } else {
            None
        }
    }

    fn consumer(&self, net: Net) -> (path: Option<&String>)
        ensures
            match path {
                Some(p) => self.consumer_of(net) == Some(p@),
                None => self.consumer_of(net) is None,
            },
    {
        match slot_of(&self.slots, net) {
            Some(slot) => match self.records.get(slot.key.as_str()) {
                Some(record) => match &record.active {
                    Some(active) => match &active.policy_path {
                        Some(path) => Some(path),
                        None => None,
                    },
                    None => None,
                },
                None => None,
            },
            None => None,
        }
    }

    /// The two consumers of walking and standing, where they are two: equal ones can share a file
    /// without changing what they mean.
    pub fn unshared(&self) -> (pair: Option<(String, String)>)
        ensures
            match (self.consumer_of(Net::Walk), self.consumer_of(Net::Stand)) {
                (Some(walk), Some(stand)) => if same_path(walk, stand) {
                    pair is None
                } else {
                    pair matches Some((w, s)) && w@ == walk && s@ == stand
                },
                _ => pair is None,
            },
    {
        match (self.consumer(Net::Walk), self.consumer(Net::Stand)) {
            (Some(walk), Some(stand)) => {
                if is_same(walk.as_str(), stand.as_str()) {
                    None
                } else {
                    Some((walk.clone(), stand.clone()))
                }
            },
            _ => None,
        }
    }

    /// Has standing use the consumer of walking, which reads the same. Different ones are left
    /// alone: no winner is chosen.
    pub fn share(&mut self, walk: &[u8], stand: &[u8]) -> (shared: bool)
        requires
            old(self).valid(),
            old(self).consumer_of(Net::Walk) is Some,
            old(self).consumer_of(Net::Stand) is Some,
        ensures
            final(self).valid(),
            shared == (walk@ == stand@),
            !shared ==> *final(self) == *old(self),
            shared ==> {
                let key = seated(old(self).slots@)[Net::Stand].key;
                let record = old(self).records@[key];
                &&& final(self).records@ == old(self).records@.insert(
                    key,
                    (RecordText {
                        active: Some(
                            (VersionText {
                                policy_path: old(self).consumer_of(Net::Walk),
                                ..record.active->0
                            }),
                        ),
                        ..record
                    }),
                )
                &&& *final(self) == (Models { records: final(self).records, ..*old(self) })
            },
    {
        if !same_bytes(walk, stand) {
            return false;
        }
        let policy = match self.consumer(Net::Walk) {
            Some(path) => path.clone(),
            None => {
                return true;
            },
        };
        let (key, record) = match slot_of(&self.slots, Net::Stand) {
            Some(slot) => match self.records.get(slot.key.as_str()) {
                Some(record) => (slot.key.clone(), record.copy()),
                None => {
                    return true;
                },
            },
            None => {
                return true;
            },
        };
        let mut record = record;
        match record.active.take() {
            Some(mut active) => {
                active.policy_path = Some(policy);
                record.active = Some(active);
            },
            None => {},
        }
        self.records.put(key.as_str(), record);
        true
    }

    /// The model a slot runs.
    pub fn active_path(&self, key: &str) -> (path: Option<String>)
        ensures
            said(path) == (match entry(self.records@, key@).active {
                Some(active) => Some(active.path),
                None => None,
            }),
    {
        match self.records.get(key) {
            Some(record) => match &record.active {
                Some(active) => Some(active.path.clone()),
                None => None,
            },
            None => None,
        }
    }
}

/// One policy to load when the robot starts.
pub enum Restore {
    /// Walking and standing together, if their consumers read the same.
    Pair { walk_policy: String, stand_policy: String, walk: String, stand: String },
    Alone { net: Net, name: String, policy: String, model: String },
    /// It cannot be had, and the robot does not start.
    Missing(String),
}

#[verifier::ext_equal]
pub enum RestoreText {
    Pair { walk_policy: Seq<char>, stand_policy: Seq<char>, walk: Seq<char>, stand: Seq<char> },
    Alone { net: Net, name: Seq<char>, policy: Seq<char>, model: Seq<char> },
    Missing(Seq<char>),
}

impl View for Restore {
    type V = RestoreText;

    open spec fn view(&self) -> RestoreText {
        match self {
            Restore::Pair { walk_policy, stand_policy, walk, stand } => RestoreText::Pair {
                walk_policy: walk_policy@,
                stand_policy: stand_policy@,
                walk: walk@,
                stand: stand@,
            },
            Restore::Alone { net, name, policy, model } => RestoreText::Alone {
                net: *net,
                name: name@,
                policy: policy@,
                model: model@,
            },
            Restore::Missing(why) => RestoreText::Missing(why@),
        }
    }
}

pub open spec fn planned(list: Seq<Restore>) -> Seq<RestoreText> {
    Seq::new(list.len(), |i: int| list[i]@)
}

impl Models {
    /// What a slot runs.
    pub open spec fn active_of(self, net: Net) -> Option<VersionText> {
        entry(self.records@, seated(self.slots@)[net].key).active
    }

    fn active(&self, slot: &Slot) -> (version: Option<&Version>)
        ensures
            match version {
                Some(v) => entry(self.records@, slot@.key).active == Some(v@),
                None => entry(self.records@, slot@.key).active is None,
            },
    {
        match self.records.get(slot.key.as_str()) {
            Some(record) => match &record.active {
                Some(active) => Some(active),
                None => None,
            },
            None => None,
        }
    }

    /// How walking and standing are loaded together.
    pub open spec fn pair_text(self) -> RestoreText {
        match (self.active_of(Net::Walk), self.active_of(Net::Stand)) {
            (None, _) => RestoreText::Missing("走策略缺少活动版本"@),
            (_, None) => RestoreText::Missing("站策略缺少活动版本"@),
            (Some(walk), Some(stand)) => match (walk.policy_path, stand.policy_path) {
                (None, _) => RestoreText::Missing("走策略缺少消费文件"@),
                (_, None) => RestoreText::Missing("站策略缺少消费文件"@),
                (Some(w), Some(s)) => RestoreText::Pair {
                    walk_policy: w,
                    stand_policy: s,
                    walk: walk.path,
                    stand: stand.path,
                },
            },
        }
    }

    /// How a policy is loaded on its own.
    pub open spec fn alone_text(self, net: Net) -> RestoreText {
        match self.active_of(net) {
            None => RestoreText::Missing(
                "策略槽位 "@ + seated(self.slots@)[net].key + " 缺少活动版本"@,
            ),
            Some(version) => match version.policy_path {
                None => RestoreText::Missing(
                    "策略版本 "@ + version.name + " 尚未迁移为双文件"@,
                ),
                Some(policy) => RestoreText::Alone {
                    net,
                    name: version.name,
                    policy,
                    model: version.path,
                },
            },
        }
    }

    /// What is loaded, up to some network in the order of their names.
    pub open spec fn plan(self, n: nat) -> Seq<RestoreText>
        decreases n,
    {
        let slots = seated(self.slots@);
        if n == 0 {
            if slots.dom().contains(Net::Walk) && slots.dom().contains(Net::Stand) {
                seq![self.pair_text()]
            } else {
                seq![]
            }
        } else {
            let net = Net::listed(n - 1);
            let before = self.plan((n - 1) as nat);
            if !slots.dom().contains(net) || (slots.dom().contains(Net::Stand) && net.locomotion()) {
                before
            } else {
                before.push(self.alone_text(net))
            }
        }
    }

    fn pair(&self, walk: &Slot, stand: &Slot) -> (step: Restore)
        requires
            seated(self.slots@)[Net::Walk] == walk@,
            seated(self.slots@)[Net::Stand] == stand@,
        ensures
            step@ == self.pair_text(),
    {
        let walk = match self.active(walk) {
            Some(version) => version,
            None => {
                return Restore::Missing("走策略缺少活动版本".to_owned());
            },
        };
        let stand = match self.active(stand) {
            Some(version) => version,
            None => {
                return Restore::Missing("站策略缺少活动版本".to_owned());
            },
        };
        match (&walk.policy_path, &stand.policy_path) {
            (None, _) => Restore::Missing("走策略缺少消费文件".to_owned()),
            (_, None) => Restore::Missing("站策略缺少消费文件".to_owned()),
            (Some(w), Some(s)) => Restore::Pair {
                walk_policy: w.clone(),
                stand_policy: s.clone(),
                walk: walk.path.clone(),
                stand: stand.path.clone(),
            },
        }
    }

    fn alone(&self, slot: &Slot, net: Net) -> (step: Restore)
        requires
            seated(self.slots@)[net] == slot@,
        ensures
            step@ == self.alone_text(net),
    {
        match self.active(slot) {
            None => {
                let mut why = String::new();
                push_text(&mut why, "策略槽位 ");
                push_text(&mut why, slot.key.as_str());
                push_text(&mut why, " 缺少活动版本");
                proof {
                    assert(why@ =~= "策略槽位 "@ + slot@.key + " 缺少活动版本"@);
                }
                Restore::Missing(why)
            },
            Some(version) => match &version.policy_path {
                None => {
                    let mut why = String::new();
                    push_text(&mut why, "策略版本 ");
                    push_text(&mut why, version.name.as_str());
                    push_text(&mut why, " 尚未迁移为双文件");
                    proof {
                        assert(why@ =~= "策略版本 "@ + version@.name + " 尚未迁移为双文件"@);
                    }
                    Restore::Missing(why)
                },
                Some(policy) => Restore::Alone {
                    net,
                    name: version.name.clone(),
                    policy: policy.clone(),
                    model: version.path.clone(),
                },
            },
        }
    }

    /// What is loaded when the robot starts, in order; the first that cannot be had stops it.
    /// Walking and standing come first, as one, where both are configured.
    pub fn restore_controls(&self) -> (steps: Vec<Restore>)
        ensures
            planned(steps@) == self.plan(NETS as nat),
    {
        let mut steps: Vec<Restore> = Vec::new();
        let stand = slot_of(&self.slots, Net::Stand);
        match (slot_of(&self.slots, Net::Walk), stand) {
            (Some(walk), Some(s)) => {
                steps.push(self.pair(walk, s));
            },
            _ => {},
        }
        let paired = stand.is_some();
        let mut n: usize = 0;
        proof {
            assert(planned(steps@) =~= self.plan(0));
        }
        while n < NETS
            invariant
                n <= NETS,
                paired == seated(self.slots@).dom().contains(Net::Stand),
                planned(steps@) == self.plan(n as nat),
            decreases NETS - n,
        {
            let net = Net::at(n);
            let ghost before = planned(steps@);
            let locomotion = match net {
                Net::Walk | Net::Stand => true,
                _ => false,
            };
            match slot_of(&self.slots, net) {
                Some(slot) => {
                    if !(paired && locomotion) {
                        steps.push(self.alone(slot, net));
                        proof {
                            assert(planned(steps@) =~= before.push(self.alone_text(net)));
                        }
                    }
                },
                None => {},
            }
            n = n + 1;
        }
        steps
    }
}

/// Whether walking and standing can be loaded together: only if their consumers read the same.
pub fn check_shared(walk: &[u8], stand: &[u8]) -> (same: Result<(), String>)
    ensures
        match same {
            Ok(()) => walk@ == stand@,
            Err(why) => walk@ != stand@ && why@ == "走/站消费文件不同，不能共享状态；需先统一两者的消费文件"@,
        },
{
    if same_bytes(walk, stand) {
        Ok(())
    } else {
        Err("走/站消费文件不同，不能共享状态；需先统一两者的消费文件".to_owned())
    }
}

/// Bringing a version up to date once is enough: what results has a consumer, and the built-in
/// one under its own name needs nothing more.
pub proof fn migrating_is_done_once(root: Seq<char>, version: VersionText, default: Seq<u8>)
    ensures
        migrated(root, version).policy_path is Some,
        migrated(root, version).id == version.id,
        naming_of(migrated(root, version).name, default, default) == Naming::Keep,
{
}

/// A slot is recorded under its name and the name of its file, wherever that lies.
pub proof fn what_a_slot_is_recorded_under(net: Net, path: Seq<char>, other: Seq<char>)
    ensures
        slot_key(net, path) == net.name() + "--"@ + base_name(path),
        base_name(path) == base_name(other) ==> slot_key(net, path) == slot_key(net, other),
{
}

/// An old version that was a model alone keeps its id, gets the built-in consumer under its name, and
/// both its files lie where a version's files lie.
pub proof fn what_an_old_version_becomes(root: Seq<char>, version: VersionText)
    ensures
        migrated(root, version).id == version.id,
        migrated(root, version).name == DEFAULT_POLICY_LABEL@,
        migrated(root, version).path == model_file(root, version.id),
        migrated(root, version).policy_path == Some(policy_file(root, version.id)),
        migrated(root, version).contract is None,
        version.policy_path is Some ==> with_consumer(root, version) == version,
        version.policy_path is None ==> with_consumer(root, version) == migrated(root, version),
{
}

/// A version has the built-in name exactly where it has the built-in consumer: one that has the name
/// alone gets the consumer, and one that has the consumer alone gets the name.
pub proof fn a_name_goes_with_its_consumer(
    root: Seq<char>,
    version: VersionText,
    consumer: Seq<u8>,
    default: Seq<u8>,
)
    ensures
        ({
            let now = with_consumer(root, version);
            let after = refitted(root, version, consumer, default);
            let naming = naming_of(now.name, consumer, default);
            &&& naming == Naming::Replace <==> now.name == DEFAULT_POLICY_LABEL@ && consumer != default
            &&& naming == Naming::Rename <==> now.name != DEFAULT_POLICY_LABEL@ && consumer == default
            &&& consumer == default ==> after.name == DEFAULT_POLICY_LABEL@
            &&& consumer != default ==> after.name == now.name
            &&& after.id == now.id && after.path == now.path && after.policy_path == now.policy_path
        }),
{
}

/// Walking and standing are loaded together where each runs a version that has a consumer; anything less
/// stops the robot.
pub proof fn how_a_pair_is_loaded(m: Models)
    ensures
        ({
            let walk = m.active_of(Net::Walk);
            let stand = m.active_of(Net::Stand);
            &&& m.pair_text() is Pair <==> walk is Some && stand is Some && walk->0.policy_path is Some
                && stand->0.policy_path is Some
            &&& m.pair_text() matches RestoreText::Pair { walk_policy, stand_policy, walk: w, stand: s } ==> {
                &&& Some(walk_policy) == walk->0.policy_path
                &&& Some(stand_policy) == stand->0.policy_path
                &&& w == walk->0.path
                &&& s == stand->0.path
            }
            &&& !(m.pair_text() is Pair) ==> m.pair_text() is Missing
        }),
{
}

/// Any other policy is loaded on its own, where it runs a version that has a consumer.
pub proof fn how_a_policy_is_loaded(m: Models, net: Net)
    ensures
        m.alone_text(net) is Alone <==> m.active_of(net) is Some && m.active_of(net)->0.policy_path is Some,
        m.alone_text(net) matches RestoreText::Alone { net: n, name, policy, model } ==> n == net && name
            == m.active_of(net)->0.name && Some(policy) == m.active_of(net)->0.policy_path && model
            == m.active_of(net)->0.path,
        !(m.alone_text(net) is Alone) ==> m.alone_text(net) is Missing,
{
}

/// Everything that is configured is loaded, once: walking and standing first, as one, where both are
/// there, and each other network on its own.
pub proof fn everything_configured_is_loaded(m: Models, n: nat, k: int)
    requires
        0 <= k < n <= 7,
    ensures
        ({
            let slots = seated(m.slots@);
            let net = Net::listed(k);
            let both = slots.dom().contains(Net::Walk) && slots.dom().contains(Net::Stand);
            &&& both ==> m.plan(n).len() > 0 && m.plan(n)[0] == m.pair_text()
            &&& slots.dom().contains(net) && !((net == Net::Walk || net == Net::Stand) && slots.dom().contains(
                Net::Stand,
            )) ==> m.plan(n).contains(m.alone_text(net))
        }),
    decreases n,
{
    let before = m.plan((n - 1) as nat);
    let all = m.plan(n);
    let slots = seated(m.slots@);
    if n > 1 {
        everything_configured_is_loaded(m, (n - 1) as nat, if k < n - 1 {
            k
        } else {
            0
        });
    } else {
        assert(m.plan(0) =~= (if slots.dom().contains(Net::Walk) && slots.dom().contains(Net::Stand) {
            seq![m.pair_text()]
        } else {
            seq![]
        }));
    }
    let net = Net::listed(k);
    if slots.dom().contains(net) && !((net == Net::Walk || net == Net::Stand) && slots.dom().contains(
        Net::Stand,
    )) {
        let want = m.alone_text(net);
        if k == n - 1 {
            assert(all[before.len() as int] == want);
        } else {
            let i = choose|i: int| 0 <= i < before.len() && before[i] == want;
            assert(all[i] == want);
        }
    }
}

/// Nothing is loaded that is not configured: a plan has no more steps than there are slots.
pub proof fn nothing_else_is_loaded(m: Models, n: nat, i: int)
    requires
        n <= 7,
        0 <= i < m.plan(n).len(),
    ensures
        ({
            let slots = seated(m.slots@);
            let both = slots.dom().contains(Net::Walk) && slots.dom().contains(Net::Stand);
            ||| both && i == 0 && m.plan(n)[i] == m.pair_text()
            ||| exists|net: Net|
                slots.dom().contains(net) && !(slots.dom().contains(Net::Stand) && net.locomotion())
                    && m.plan(n)[i] == #[trigger] m.alone_text(net)
        }),
    decreases n,
{
    let slots = seated(m.slots@);
    if n > 0 {
        let before = m.plan((n - 1) as nat);
        if i < before.len() {
            nothing_else_is_loaded(m, (n - 1) as nat, i);
            assert(m.plan(n)[i] == before[i]);
        } else {
            assert(m.plan(n)[i] == m.alone_text(Net::listed(n - 1)));
        }
    }
}

/// A slot's consumer is that of the version it runs.
pub proof fn whose_consumer_runs(m: Models, net: Net)
    ensures
        m.consumer_of(net) is Some <==> seated(m.slots@).dom().contains(net) && m.active_of(net) is Some
            && m.active_of(net)->0.policy_path is Some,
        m.consumer_of(net) is Some ==> m.consumer_of(net) == m.active_of(net)->0.policy_path,
{
}

} // verus!
