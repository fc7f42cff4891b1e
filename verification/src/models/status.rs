//! What a client is told about the policies.

use crate::control_owner::{ControlOwner, Owner};
use crate::models::record::{copy_text, entry, said, Version, VersionText};
use crate::models::upload::Slot;
use crate::models::{seated, slot_of, Models, Phase};
use crate::net::{Net, NETS};
use crate::path::{file_name, file_name_of};
use crate::scan::text_of;
use vstd::prelude::*;

verus! {

/// A version, as a client sees it.
pub struct Summary {
    pub id: String,
    pub name: String,
    pub contract: Option<String>,
}

#[verifier::ext_equal]
pub struct SummaryText {
    pub id: Seq<char>,
    pub name: Seq<char>,
    pub contract: Option<Seq<char>>,
}

impl View for Summary {
    type V = SummaryText;

    open spec fn view(&self) -> SummaryText {
        SummaryText { id: self.id@, name: self.name@, contract: said(self.contract) }
    }
}

/// What is told of a version.
pub open spec fn summary(version: VersionText) -> SummaryText {
    SummaryText { id: version.id, name: version.name, contract: version.contract }
}

pub open spec fn summaries(history: Seq<VersionText>) -> Seq<SummaryText> {
    Seq::new(history.len(), |i: int| summary(history[i]))
}

pub open spec fn told(list: Seq<Summary>) -> Seq<SummaryText> {
    Seq::new(list.len(), |i: int| list[i]@)
}

fn summarise(version: &Version) -> (s: Summary)
    ensures
        s@ == summary(version@),
{
    Summary {
        id: version.id.clone(),
        name: version.name.clone(),
        contract: copy_text(&version.contract),
    }
}

/// A slot, as a client sees it.
pub struct SlotStatus {
    pub net: Net,
    /// The name of the configured file.
    pub file: String,
    pub active: Option<Summary>,
    /// Whether walking and standing share one consumer here.
    pub shared: bool,
    pub history: Vec<Summary>,
}

#[verifier::ext_equal]
pub struct SlotStatusText {
    pub net: Net,
    pub file: Seq<char>,
    pub active: Option<SummaryText>,
    pub shared: bool,
    pub history: Seq<SummaryText>,
}

impl View for SlotStatus {
    type V = SlotStatusText;

    open spec fn view(&self) -> SlotStatusText {
        SlotStatusText {
            net: self.net,
            file: self.file@,
            active: match self.active {
                Some(s) => Some(s@),
                None => None,
            },
            shared: self.shared,
            history: told(self.history@),
        }
    }
}

/// The name of a file, or nothing where a path has none.
pub open spec fn base_name(path: Seq<char>) -> Seq<char> {
    match file_name(path) {
        Some(name) => name,
        None => Seq::empty(),
    }
}

pub fn base_name_of(path: &str) -> (name: String)
    ensures
        name@ == base_name(path@),
{
    match file_name_of(path) {
        Some(name) => text_of(&name),
        None => String::new(),
    }
}

/// The statuses of the configured slots among the first networks in the order of their names.
pub open spec fn listing(m: Models, n: nat) -> Seq<SlotStatusText>
    decreases n,
{
    if n == 0 {
        Seq::empty()
    } else {
        let net = Net::listed(n - 1);
        let before = listing(m, (n - 1) as nat);
        if seated(m.slots@).dom().contains(net) {
            before.push(m.slot_text(net))
        } else {
            before
        }
    }
}

pub open spec fn shown(list: Seq<SlotStatus>) -> Seq<SlotStatusText> {
    Seq::new(list.len(), |i: int| list[i]@)
}

/// Everything a client is told.
pub struct Status {
    pub slots: Vec<SlotStatus>,
    pub phase: Phase,
    pub failed_phase: Option<Phase>,
    pub detail: String,
    pub control_owner: Option<Owner>,
    pub editable: bool,
    pub token: Option<String>,
    pub received: Option<usize>,
}

impl Models {
    /// What is told of a configured slot.
    pub open spec fn slot_text(self, net: Net) -> SlotStatusText {
        let slot = seated(self.slots@)[net];
        let record = entry(self.records@, slot.key);
        SlotStatusText {
            net,
            file: base_name(slot.path),
            active: match record.active {
                Some(active) => Some(summary(active)),
                None => None,
            },
            shared: seated(self.slots@).dom().contains(Net::Stand) && net.locomotion(),
            history: summaries(record.history),
        }
    }

    fn slot_status(&self, slot: &Slot, net: Net) -> (status: SlotStatus)
        requires
            seated(self.slots@).dom().contains(net),
            seated(self.slots@)[net] == slot@,
        ensures
            status@ == self.slot_text(net),
    {
        let mut history: Vec<Summary> = Vec::new();
        let mut active = None;
        match self.records.get(slot.key.as_str()) {
            Some(record) => {
                match &record.active {
                    Some(version) => {
                        active = Some(summarise(version));
                    },
                    None => {},
                }
                let mut at: usize = 0;
                while at < record.history.len()
                    invariant
                        at <= record.history@.len(),
                        history@.len() == at,
                        forall|i: int| 0 <= i < at ==> history@[i]@ == summary(record@.history[i]),
                    decreases record.history@.len() - at,
                {
                    history.push(summarise(&record.history[at]));
                    at = at + 1;
                }
            },
            None => {},
        }
        let locomotion = match net {
            Net::Walk | Net::Stand => true,
            _ => false,
        };
        let status = SlotStatus {
            net,
            file: base_name_of(slot.path.as_str()),
            active,
            shared: slot_of(&self.slots, Net::Stand).is_some() && locomotion,
            history,
        };
        proof {
            assert(told(history@) =~= summaries(entry(self.records@, slot@.key).history));
        }
        status
    }

    /// The configured slots, in the order of their names.
    pub fn list(&self) -> (slots: Vec<SlotStatus>)
        ensures
            shown(slots@) == listing(*self, NETS as nat),
    {
        let mut slots: Vec<SlotStatus> = Vec::new();
        let mut n: usize = 0;
        proof {
            assert(shown(slots@) =~= Seq::empty());
        }
        while n < NETS
            invariant
                n <= NETS,
                shown(slots@) == listing(*self, n as nat),
            decreases NETS - n,
        {
            let net = Net::at(n);
            let ghost before = shown(slots@);
            match slot_of(&self.slots, net) {
                Some(slot) => {
                    let status = self.slot_status(slot, net);
                    slots.push(status);
                    proof {
                        assert(shown(slots@) =~= before.push(self.slot_text(net)));
                    }
                },
                None => {},
            }
            n = n + 1;
        }
        slots
    }

    /// What a client is told. Editing is offered only on fresh word from the motors and only if
    /// the records could be read.
    pub fn status(&self, lease: &ControlOwner, now_ms: u64) -> (status: Status)
        requires
            self.valid(),
        ensures
            shown(status.slots@) == listing(*self, NETS as nat),
            status.phase == self.phase,
            status.failed_phase == self.failed_phase,
            status.detail@ == (match self.load_error {
                Some(error) => error@,
                None => self.detail@,
            }),
            status.control_owner == lease@,
            status.editable == (self.relaxed_at(now_ms) && self.load_error is None),
            match self.upload {
                Some(upload) => (status.token matches Some(token) && token@ == upload.token@)
                    && status.received == Some((upload.policy.received + upload.model.received) as usize),
                None => status.token is None && status.received is None,
            },
    {
        let detail = match &self.load_error {
            Some(error) => error.clone(),
            None => self.detail.clone(),
        };
        let (token, received) = match &self.upload {
            Some(upload) => (Some(upload.token.clone()), Some(upload.received())),
            None => (None, None),
        };
        Status {
            slots: self.list(),
            phase: self.phase,
            failed_phase: self.failed_phase,
            detail,
            control_owner: lease.current(),
            editable: self.is_relaxed(now_ms) && self.load_error.is_none(),
            token,
            received,
        }
    }

    /// What an experiment records of the policies it ran under: walking and standing.
    pub fn experiment_identity(&self) -> (slots: Vec<SlotStatus>)
        ensures
            shown(slots@) == (if seated(self.slots@).dom().contains(Net::Stand) {
                seq![self.slot_text(Net::Stand)]
            } else {
                seq![]
            }) + (if seated(self.slots@).dom().contains(Net::Walk) {
                seq![self.slot_text(Net::Walk)]
            } else {
                seq![]
            }),
    {
        let mut slots: Vec<SlotStatus> = Vec::new();
        match slot_of(&self.slots, Net::Stand) {
            Some(slot) => {
                slots.push(self.slot_status(slot, Net::Stand));
            },
            None => {},
        }
        match slot_of(&self.slots, Net::Walk) {
            Some(slot) => {
                slots.push(self.slot_status(slot, Net::Walk));
            },
            None => {},
        }
        proof {
            assert(shown(slots@) =~= (if seated(self.slots@).dom().contains(Net::Stand) {
                seq![self.slot_text(Net::Stand)]
            } else {
                seq![]
            }) + (if seated(self.slots@).dom().contains(Net::Walk) {
                seq![self.slot_text(Net::Walk)]
            } else {
                seq![]
            }));
        }
        slots
    }
}

/// What is told of a version is its id, its name and what its consumer declared, and not where it lies.
pub proof fn what_is_told_of_a_version(history: Seq<VersionText>, i: int)
    requires
        0 <= i < history.len(),
    ensures
        summaries(history).len() == history.len(),
        summaries(history)[i].id == history[i].id,
        summaries(history)[i].name == history[i].name,
        summaries(history)[i].contract == history[i].contract,
{
}

/// A slot is told of by its file's name; its versions are those of its record, and walking and standing
/// share a consumer where standing is configured.
pub proof fn what_is_told_of_a_slot(m: Models, net: Net)
    ensures
        ({
            let told = m.slot_text(net);
            let record = entry(m.records@, seated(m.slots@)[net].key);
            &&& told.net == net
            &&& told.file == base_name(seated(m.slots@)[net].path)
            &&& told.active is Some <==> record.active is Some
            &&& record.active matches Some(active) ==> told.active->0.id == active.id
            &&& told.shared <==> seated(m.slots@).dom().contains(Net::Stand) && (net == Net::Walk || net
                == Net::Stand)
            &&& told.history == summaries(record.history)
        }),
{
}

/// Every configured slot is listed, and nothing else is.
pub proof fn every_slot_is_listed(m: Models, n: nat, k: int)
    requires
        0 <= k < n,
    ensures
        seated(m.slots@).dom().contains(Net::listed(k)) ==> listing(m, n).contains(
            m.slot_text(Net::listed(k)),
        ),
        forall|i: int|
            0 <= i < listing(m, n).len() ==> seated(m.slots@).dom().contains(
                (#[trigger] listing(m, n)[i]).net,
            ) && listing(m, n)[i] == m.slot_text(listing(m, n)[i].net),
    decreases n,
{
    let before = listing(m, (n - 1) as nat);
    let all = listing(m, n);
    if n > 1 {
        every_slot_is_listed(m, (n - 1) as nat, if k < n - 1 {
            k
        } else {
            0
        });
    }
    if seated(m.slots@).dom().contains(Net::listed(k)) {
        let told = m.slot_text(Net::listed(k));
        if k == n - 1 {
            assert(all[before.len() as int] == told);
        } else {
            let i = choose|i: int| 0 <= i < before.len() && before[i] == told;
            assert(all[i] == told);
        }
    }
    assert forall|i: int| 0 <= i < all.len() implies seated(m.slots@).dom().contains(
        (#[trigger] all[i]).net,
    ) && all[i] == m.slot_text(all[i].net) by {
        if i < before.len() {
            assert(all[i] == before[i]);
        }
    }
}

} // verus!
