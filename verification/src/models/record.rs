//! Which version of a policy each slot runs, and which ones it ran before.

use crate::path::{is_same, same_path};
use crate::scan::same_text;
use vstd::prelude::*;

verus! {

/// One version of a policy: a model, and the code that consumes what it puts out.
pub struct Version {
    pub id: String,
    pub name: String,
    pub path: String,
    /// Older versions were a model alone.
    pub policy_path: Option<String>,
    /// What the consumer declared when it was last loaded, as its JSON text.
    pub contract: Option<String>,
}

/// What a version says.
#[verifier::ext_equal]
pub struct VersionText {
    pub id: Seq<char>,
    pub name: Seq<char>,
    pub path: Seq<char>,
    pub policy_path: Option<Seq<char>>,
    pub contract: Option<Seq<char>>,
}

/// What an optional text says.
pub open spec fn said(text: Option<String>) -> Option<Seq<char>> {
    match text {
        Some(t) => Some(t@),
        None => None,
    }
}

pub fn copy_text(text: &Option<String>) -> (copy: Option<String>)
    ensures
        said(copy) == said(*text),
{
    match text {
        Some(t) => Some(t.clone()),
        None => None,
    }
}

impl View for Version {
    type V = VersionText;

    open spec fn view(&self) -> VersionText {
        VersionText {
            id: self.id@,
            name: self.name@,
            path: self.path@,
            policy_path: said(self.policy_path),
            contract: said(self.contract),
        }
    }
}

impl Version {
    /// Another of the same version.
    pub fn copy(&self) -> (version: Version)
        ensures
            version@ == self@,
    {
        Version {
            id: self.id.clone(),
            name: self.name.clone(),
            path: self.path.clone(),
            policy_path: copy_text(&self.policy_path),
            contract: copy_text(&self.contract),
        }
    }
}

impl VersionText {
    /// Whether a file belongs to a version.
    pub open spec fn refers_to(self, path: Seq<char>) -> bool {
        same_path(self.path, path) || (self.policy_path matches Some(policy) && same_path(
            policy,
            path,
        ))
    }
}

impl Version {
    pub fn refers_to(&self, path: &str) -> (yes: bool)
        ensures
            yes == self@.refers_to(path@),
    {
        if is_same(self.path.as_str(), path) {
            return true;
        }
        match &self.policy_path {
            Some(policy) => is_same(policy.as_str(), path),
            None => false,
        }
    }
}

/// What a slot runs, and what it ran before, newest first.
pub struct Record {
    pub active: Option<Version>,
    pub history: Vec<Version>,
}

#[verifier::ext_equal]
pub struct RecordText {
    pub active: Option<VersionText>,
    pub history: Seq<VersionText>,
}

/// What a list of versions says.
pub open spec fn versions(v: Seq<Version>) -> Seq<VersionText> {
    Seq::new(v.len(), |i: int| v[i]@)
}

/// What an optional version says.
pub open spec fn edition(version: Option<Version>) -> Option<VersionText> {
    match version {
        Some(v) => Some(v@),
        None => None,
    }
}

impl View for Record {
    type V = RecordText;

    open spec fn view(&self) -> RecordText {
        RecordText { active: edition(self.active), history: versions(self.history@) }
    }
}

/// How many earlier versions a slot keeps.
pub const KEPT: usize = 2;

/// A history without the version of some id.
pub open spec fn without(history: Seq<VersionText>, id: Seq<char>) -> Seq<VersionText>
    decreases history.len(),
{
    if history.len() == 0 {
        Seq::empty()
    } else {
        let rest = without(history.drop_last(), id);
        if history.last().id == id {
            rest
        } else {
            rest.push(history.last())
        }
    }
}

/// No more than the newest versions a slot keeps.
pub open spec fn newest(history: Seq<VersionText>) -> Seq<VersionText> {
    if history.len() > KEPT {
        history.take(KEPT as int)
    } else {
        history
    }
}

impl RecordText {
    /// A record of nothing yet.
    pub open spec fn blank() -> RecordText {
        RecordText { active: None, history: Seq::empty() }
    }

    /// A record once `version` is made active. What was active becomes the newest of the history,
    /// from which `version` itself is taken out.
    pub open spec fn committed(self, version: VersionText, fallback: VersionText) -> RecordText {
        let previous = match self.active {
            Some(active) => active,
            None => fallback,
        };
        RecordText {
            active: Some(version),
            history: newest(seq![previous] + without(self.history, version.id)),
        }
    }

    /// Whether a version occurs in a record, active or not.
    pub open spec fn holds(self, version: VersionText) -> bool {
        self.active == Some(version) || self.history.contains(version)
    }

    /// Whether any version in a record needs a file.
    pub open spec fn refers_to(self, path: Seq<char>) -> bool {
        (self.active matches Some(active) && active.refers_to(path)) || exists|i: int|
            0 <= i < self.history.len() && (#[trigger] self.history[i]).refers_to(path)
    }
}

impl Record {
    pub fn blank() -> (record: Record)
        ensures
            record@ == RecordText::blank(),
    {
        let record = Record { active: None, history: Vec::new() };
        proof {
            assert(versions(record.history@) =~= Seq::empty());
        }
        record
    }

    pub fn copy(&self) -> (record: Record)
        ensures
            record@ == self@,
    {
        let active = match &self.active {
            Some(version) => Some(version.copy()),
            None => None,
        };
        let mut history: Vec<Version> = Vec::new();
        let mut at: usize = 0;
        while at < self.history.len()
            invariant
                at <= self.history@.len(),
                history@.len() == at,
                forall|i: int| 0 <= i < at ==> history@[i]@ == self.history@[i]@,
            decreases self.history@.len() - at,
        {
            history.push(self.history[at].copy());
            at = at + 1;
        }
        proof {
            assert(versions(history@) =~= versions(self.history@));
        }
        Record { active, history }
    }

    /// This record once `version` is made active, `fallback` standing for an active version where
    /// there was none.
    pub fn committed(&self, version: &Version, fallback: Option<&Version>) -> (record: Record)
        requires
            self@.active is None ==> fallback is Some,
        ensures
            fallback matches Some(f) ==> record@ == self@.committed(version@, f@),
            fallback is None ==> record@ == self@.committed(version@, self@.active->0),
    {
        let mut history: Vec<Version> = Vec::new();
        let ghost previous: VersionText;
        match &self.active {
            Some(active) => {
                history.push(active.copy());
                proof {
                    previous = active@;
                }
            },
            None => {
                match fallback {
                    Some(f) => {
                        history.push(f.copy());
                        proof {
                            previous = f@;
                        }
                    },
                    None => {},
                }
            },
        }
        let ghost kept = seq![previous];
        let mut at: usize = 0;
        proof {
            assert(versions(history@) =~= kept);
            assert(versions(self.history@).take(0) =~= Seq::empty());
            assert(kept + without(versions(self.history@).take(0), version@.id) =~= kept);
        }
        while at < self.history.len()
            invariant
                at <= self.history@.len(),
                versions(history@) == kept + without(
                    versions(self.history@).take(at as int),
                    version@.id,
                ),
            decreases self.history@.len() - at,
        {
            let ghost before = versions(history@);
            proof {
                let all = versions(self.history@);
                assert(all.take(at + 1).drop_last() =~= all.take(at as int));
                assert(all.take(at + 1).last() == self.history@[at as int]@);
            }
            if !same_text(self.history[at].id.as_str(), version.id.as_str()) {
                let one = self.history[at].copy();
                let ghost said = one@;
                history.push(one);
                proof {
                    assert(versions(history@) =~= before.push(said));
                    assert(before.push(said) =~= kept + without(
                        versions(self.history@).take(at as int),
                        version@.id,
                    ).push(said));
                }
            }
            at = at + 1;
        }
        proof {
            assert(versions(self.history@).take(at as int) =~= versions(self.history@));
        }
        let ghost whole = versions(history@);
        if history.len() > KEPT {
            history.truncate(KEPT);
            proof {
                assert(versions(history@) =~= whole.take(KEPT as int));
            }
        }
        Record { active: Some(version.copy()), history }
    }

    pub fn refers_to(&self, path: &str) -> (yes: bool)
        ensures
            yes == self@.refers_to(path@),
    {
        match &self.active {
            Some(active) => {
                if active.refers_to(path) {
                    return true;
                }
            },
            None => {},
        }
        let mut at: usize = 0;
        while at < self.history.len()
            invariant
                at <= self.history@.len(),
                !(self@.active matches Some(active) && active.refers_to(path@)),
                forall|i: int| 0 <= i < at ==> !(#[trigger] self@.history[i]).refers_to(path@),
            decreases self.history@.len() - at,
        {
            if self.history[at].refers_to(path) {
                proof {
                    assert(self@.history[at as int].refers_to(path@));
                }
                return true;
            }
            at = at + 1;
        }
        false
    }
}

/// One slot's record under its key.
pub struct Entry {
    pub key: String,
    pub record: Record,
}

/// Every slot's record, by key.
pub struct Records {
    pub entries: Vec<Entry>,
}

/// The records that a list of entries amounts to.
pub open spec fn mapped(entries: Seq<Entry>) -> Map<Seq<char>, RecordText>
    decreases entries.len(),
{
    if entries.len() == 0 {
        Map::empty()
    } else {
        mapped(entries.drop_last()).insert(entries.last().key@, entries.last().record@)
    }
}

impl View for Records {
    type V = Map<Seq<char>, RecordText>;

    open spec fn view(&self) -> Map<Seq<char>, RecordText> {
        mapped(self.entries@)
    }
}

proof fn lemma_mapped_get(entries: Seq<Entry>, at: int)
    requires
        0 <= at < entries.len(),
        forall|i: int| at < i < entries.len() ==> (#[trigger] entries[i]).key@ != entries[at].key@,
    ensures
        mapped(entries).dom().contains(entries[at].key@),
        mapped(entries)[entries[at].key@] == entries[at].record@,
    decreases entries.len(),
{
    if at < entries.len() - 1 {
        assert(entries.last().key@ != entries[at].key@);
        lemma_mapped_get(entries.drop_last(), at);
    }
}

proof fn lemma_mapped_none(entries: Seq<Entry>, key: Seq<char>)
    requires
        forall|i: int| 0 <= i < entries.len() ==> (#[trigger] entries[i]).key@ != key,
    ensures
        !mapped(entries).dom().contains(key),
    decreases entries.len(),
{
    if entries.len() > 0 {
        assert(entries.last().key@ != key);
        lemma_mapped_none(entries.drop_last(), key);
    }
}

proof fn lemma_mapped_update(entries: Seq<Entry>, at: int, entry: Entry)
    requires
        0 <= at < entries.len(),
        entry.key@ == entries[at].key@,
        forall|i: int| at < i < entries.len() ==> (#[trigger] entries[i]).key@ != entries[at].key@,
    ensures
        mapped(entries.update(at, entry)) == mapped(entries).insert(entry.key@, entry.record@),
    decreases entries.len(),
{
    let changed = entries.update(at, entry);
    if at == entries.len() - 1 {
        assert(changed.drop_last() =~= entries.drop_last());
        assert(mapped(changed) =~= mapped(entries).insert(entry.key@, entry.record@));
    } else {
        assert(entries.last().key@ != entries[at].key@);
        lemma_mapped_update(entries.drop_last(), at, entry);
        assert(changed.drop_last() =~= entries.drop_last().update(at, entry));
        assert(mapped(changed) =~= mapped(entries).insert(entry.key@, entry.record@));
    }
}

proof fn lemma_mapped_from(entries: Seq<Entry>, key: Seq<char>)
    requires
        mapped(entries).dom().contains(key),
    ensures
        exists|i: int|
            0 <= i < entries.len() && (#[trigger] entries[i]).key@ == key && entries[i].record@
                == mapped(entries)[key],
    decreases entries.len(),
{
    if entries.len() > 0 {
        if entries.last().key@ == key {
            assert(entries[entries.len() - 1].key@ == key);
        } else {
            lemma_mapped_from(entries.drop_last(), key);
            let i = choose|i: int|
                0 <= i < entries.drop_last().len() && (#[trigger] entries.drop_last()[i]).key@ == key
                    && entries.drop_last()[i].record@ == mapped(entries.drop_last())[key];
            assert(entries[i].key@ == key);
        }
    }
}

impl Records {
    /// No records.
    pub fn new() -> (records: Records)
        ensures
            records@ == Map::<Seq<char>, RecordText>::empty(),
            records.distinct(),
    {
        Records { entries: Vec::new() }
    }

    /// No two entries have one key.
    pub open spec fn distinct(self) -> bool {
        forall|i: int, j: int|
            0 <= i < j < self.entries@.len() ==> (#[trigger] self.entries@[i]).key@ != (
            #[trigger] self.entries@[j]).key@
    }

    fn find(&self, key: &str) -> (at: Option<usize>)
        ensures
            match at {
                Some(i) => i < self.entries@.len() && self.entries@[i as int].key@ == key@
                    && self@.dom().contains(key@) && self@[key@] == self.entries@[i as int].record@
                    && forall|j: int|
                    i < j < self.entries@.len() ==> (#[trigger] self.entries@[j]).key@ != key@,
                None => !self@.dom().contains(key@),
            },
    {
        let mut at: usize = self.entries.len();
        while at > 0
            invariant
                at <= self.entries@.len(),
                forall|j: int| at <= j < self.entries@.len() ==> (#[trigger] self.entries@[j]).key@ != key@,
            decreases at,
        {
            at = at - 1;
            if same_text(self.entries[at].key.as_str(), key) {
                proof {
                    lemma_mapped_get(self.entries@, at as int);
                }
                return Some(at);
            }
        }
        proof {
            lemma_mapped_none(self.entries@, key@);
        }
        None
    }

    /// The record under a key.
    pub fn get(&self, key: &str) -> (record: Option<&Record>)
        ensures
            match record {
                Some(r) => self@.dom().contains(key@) && self@[key@] == r@,
                None => !self@.dom().contains(key@),
            },
    {
        match self.find(key) {
            Some(at) => Some(&self.entries[at].record),
            None => None,
        }
    }

    /// Puts a record under a key.
    pub fn put(&mut self, key: &str, record: Record)
        requires
            old(self).distinct(),
        ensures
            final(self)@ == old(self)@.insert(key@, record@),
            final(self).distinct(),
    {
        match self.find(key) {
            Some(at) => {
                let entry = Entry { key: key.to_owned(), record };
                proof {
                    lemma_mapped_update(self.entries@, at as int, entry);
                }
                self.entries.set(at, entry);
            },
            None => {
                let ghost before = self.entries@;
                let entry = Entry { key: key.to_owned(), record };
                let ghost put = entry;
                proof {
                    assert forall|i: int| 0 <= i < before.len() implies (#[trigger] before[i]).key@
                        != key@ by {
                        if before[i].key@ == key@ {
                            lemma_mapped_last(before, i);
                        }
                    }
                }
                self.entries.push(entry);
                proof {
                    assert(self.entries@.drop_last() =~= before);
                    assert(self.entries@.last() == put);
                }
            },
        }
    }

    pub fn copy(&self) -> (records: Records)
        requires
            self.distinct(),
        ensures
            records@ == self@,
            records.distinct(),
    {
        let mut entries: Vec<Entry> = Vec::new();
        let mut at: usize = 0;
        proof {
            assert(self.entries@.take(0) =~= Seq::empty());
            assert(mapped(self.entries@.take(0)) =~= mapped(entries@));
        }
        while at < self.entries.len()
            invariant
                at <= self.entries@.len(),
                entries@.len() == at,
                forall|i: int| 0 <= i < at ==> (#[trigger] entries@[i]).key@ == self.entries@[i].key@,
                mapped(entries@) == mapped(self.entries@.take(at as int)),
            decreases self.entries@.len() - at,
        {
            let ghost before = entries@;
            let entry = Entry {
                key: self.entries[at].key.clone(),
                record: self.entries[at].record.copy(),
            };
            entries.push(entry);
            proof {
                assert(entries@.drop_last() =~= before);
                assert(self.entries@.take(at + 1).drop_last() =~= self.entries@.take(at as int));
            }
            at = at + 1;
        }
        proof {
            assert(self.entries@.take(at as int) =~= self.entries@);
        }
        Records { entries }
    }

    /// Whether any record needs a file.
    pub fn refers_to(&self, path: &str) -> (yes: bool)
        requires
            self.distinct(),
        ensures
            yes == needed(self@, path@),
    {
        let mut at: usize = 0;
        while at < self.entries.len()
            invariant
                at <= self.entries@.len(),
                self.distinct(),
                forall|i: int| 0 <= i < at ==> !(#[trigger] self.entries@[i]).record@.refers_to(path@),
            decreases self.entries@.len() - at,
        {
            if self.entries[at].record.refers_to(path) {
                proof {
                    let key = self.entries@[at as int].key@;
                    lemma_mapped_get(self.entries@, at as int);
                    assert(self@.dom().contains(key) && self@[key].refers_to(path@));
                }
                return true;
            }
            at = at + 1;
        }
        proof {
            assert forall|key: Seq<char>| self@.dom().contains(key) implies !(
            #[trigger] self@[key]).refers_to(path@) by {
                lemma_mapped_from(self.entries@, key);
            }
        }
        false
    }
}

proof fn lemma_mapped_last(entries: Seq<Entry>, at: int)
    requires
        0 <= at < entries.len(),
    ensures
        mapped(entries).dom().contains(entries[at].key@),
    decreases entries.len(),
{
    if at < entries.len() - 1 {
        lemma_mapped_last(entries.drop_last(), at);
    }
}

/// Whether any record needs a file.
pub open spec fn needed(records: Map<Seq<char>, RecordText>, path: Seq<char>) -> bool {
    exists|key: Seq<char>| records.dom().contains(key) && (#[trigger] records[key]).refers_to(path)
}

/// The record under a key, or a blank one.
pub open spec fn entry(records: Map<Seq<char>, RecordText>, key: Seq<char>) -> RecordText {
    if records.dom().contains(key) {
        records[key]
    } else {
        RecordText::blank()
    }
}

proof fn lemma_without(history: Seq<VersionText>, id: Seq<char>)
    ensures
        forall|i: int| 0 <= i < without(history, id).len() ==> (#[trigger] without(history, id)[i]).id != id,
    decreases history.len(),
{
    if history.len() > 0 {
        lemma_without(history.drop_last(), id);
    }
}

/// A slot never keeps more than two earlier versions, the version just made active is not among
/// them unless it was active already, and what was active is the newest of them.
pub proof fn history_keeps_two(record: RecordText, version: VersionText, fallback: VersionText)
    ensures
        record.committed(version, fallback).active == Some(version),
        1 <= record.committed(version, fallback).history.len() <= KEPT,
        record.active matches Some(active) ==> record.committed(version, fallback).history[0] == active,
        (record.active matches Some(active) && active.id != version.id) ==> forall|i: int|
            0 <= i < record.committed(version, fallback).history.len() ==> (
            #[trigger] record.committed(version, fallback).history[i]).id != version.id,
{
    lemma_without(record.history, version.id);
}

/// A version that was replaced can be brought back: committing another and then the first again
/// leaves the first active and the other at hand.
pub proof fn a_rollback_swaps_back(
    record: RecordText,
    first: VersionText,
    second: VersionText,
    fallback: VersionText,
)
    requires
        record.active == Some(first),
    ensures
        record.committed(second, fallback).holds(first),
        record.committed(second, fallback).committed(first, fallback).active == Some(first),
        record.committed(second, fallback).committed(first, fallback).history[0] == second,
{
    let after = record.committed(second, fallback);
    assert(after.history[0] == first);
    assert(after.history.contains(first));
}

/// Taking a version out of a history leaves every other, in order.
pub proof fn only_that_version_is_taken_out(history: Seq<VersionText>, id: Seq<char>, version: VersionText)
    ensures
        without(history, id).contains(version) <==> history.contains(version) && version.id != id,
        (forall|i: int| 0 <= i < history.len() ==> (#[trigger] history[i]).id != id) ==> without(history, id)
            == history,
    decreases history.len(),
{
    if history.len() > 0 {
        let rest = history.drop_last();
        let kept = without(rest, id);
        let all = without(history, id);
        only_that_version_is_taken_out(rest, id, version);
        if rest.contains(version) {
            let i = choose|i: int| 0 <= i < rest.len() && rest[i] == version;
            assert(history[i] == version);
        }
        if history.contains(version) {
            let i = choose|i: int| 0 <= i < history.len() && history[i] == version;
            if i < rest.len() {
                assert(rest[i] == version);
            }
        }
        if kept.contains(version) {
            let i = choose|i: int| 0 <= i < kept.len() && kept[i] == version;
            assert(all[i] == version);
        }
        if all.contains(version) {
            let i = choose|i: int| 0 <= i < all.len() && all[i] == version;
            if i < kept.len() {
                assert(kept[i] == version);
            }
        }
        if history.last() == version {
            assert(history[history.len() - 1] == version);
            if version.id != id {
                assert(all[kept.len() as int] == version);
            }
        }
        if forall|i: int| 0 <= i < history.len() ==> (#[trigger] history[i]).id != id {
            assert forall|i: int| 0 <= i < rest.len() implies (#[trigger] rest[i]).id != id by {
                assert(rest[i] == history[i]);
            }
            assert(history[history.len() - 1].id != id);
            assert(rest.push(history.last()) =~= history);
        }
    } else {
        assert(without(history, id) =~= history);
    }
}

/// What is kept of a history is its beginning, two versions at most.
pub proof fn the_newest_two_are_kept(history: Seq<VersionText>)
    ensures
        newest(history).is_prefix_of(history),
        newest(history).len() == (if history.len() < 2 {
            history.len()
        } else {
            2
        }),
{
}

/// Making a version active puts what was active at the front of the history, before what was there
/// already, but for that version itself.
pub proof fn what_becomes_of_the_last_version(record: RecordText, version: VersionText, fallback: VersionText)
    ensures
        ({
            let after = record.committed(version, fallback);
            let earlier = without(record.history, version.id);
            &&& after.active == Some(version)
            &&& record.active is Some ==> after.history[0] == record.active->0
            &&& record.active is None ==> after.history[0] == fallback
            &&& earlier.len() > 0 ==> after.history.len() == 2 && after.history[1] == earlier[0]
            &&& earlier.len() == 0 ==> after.history.len() == 1
        }),
{
}

/// A file is needed where the active version or one of the history is made of it.
pub proof fn what_a_record_needs(record: RecordText, version: VersionText, path: Seq<char>)
    ensures
        version.refers_to(path) <==> same_path(version.path, path) || (version.policy_path is Some && same_path(
            version.policy_path->0,
            path,
        )),
        record.holds(version) && version.refers_to(path) ==> record.refers_to(path),
        version.refers_to(version.path),
{
    if record.holds(version) && version.refers_to(path) {
        if record.active != Some(version) {
            let i = choose|i: int| 0 <= i < record.history.len() && record.history[i] == version;
            assert(record.history[i].refers_to(path));
        }
    }
}

/// A record is found under its own key, and where there is none a blank one stands for it; a file that a
/// record needs is needed.
pub proof fn records_are_found_by_key(
    records: Map<Seq<char>, RecordText>,
    key: Seq<char>,
    other: Seq<char>,
    record: RecordText,
    path: Seq<char>,
)
    ensures
        entry(records.insert(key, record), key) == record,
        other != key ==> entry(records.insert(key, record), other) == entry(records, other),
        !records.dom().contains(key) ==> entry(records, key).active is None && entry(records, key).history.len()
            == 0,
        record.refers_to(path) ==> needed(records.insert(key, record), path),
{
    let all = records.insert(key, record);
    if record.refers_to(path) {
        assert(all.dom().contains(key) && all[key].refers_to(path));
    }
}

/// Entries are found by key: each under its own, where no two share one.
pub proof fn every_entry_is_found(entries: Seq<Entry>, i: int)
    requires
        0 <= i < entries.len(),
        forall|a: int, b: int|
            0 <= a < b < entries.len() ==> (#[trigger] entries[a]).key@ != (#[trigger] entries[b]).key@,
    ensures
        mapped(entries).dom().contains(entries[i].key@),
        mapped(entries)[entries[i].key@] == entries[i].record@,
{
    lemma_mapped_get(entries, i);
}

} // verus!
