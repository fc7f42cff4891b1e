//! Which network drives, and for how long: scheduling the skills.
//!
//! Everything here is pure computation between reading the sensors and the safety layer. It holds
//! no handle on the motors: by construction it cannot command one, only propose which policy is
//! asked.
//!
//! A tick, in order: windows that have run out end; the network is picked (a roll before a kick
//! before a ground pick before sitting and rising before standing before walking); the policy
//! runs, outside; and if that went well, the windows move on.
//!
//! Times are in microseconds. A command's speed and the threshold it is held against are in any
//! unit, as long as it is the same.

use crate::custom_policy::{ContextText, CustomPolicy, PolicyContext};
use crate::net::Net;
use crate::scan::{push_text, same_text};
use vstd::prelude::*;

verus! {

/// How much of a cycle the phase counts in.
pub const CYCLE: u64 = 10;

/// A ground pick hands back at this part of its cycle.
pub const GROUND_PICK_END_PHASE: u64 = 7;

/// How long the duck rises before the main policy takes over.
pub const RISE_US: u64 = 1_000_000;

/// How recently a roll must have been asked for, at the end of one, for another to follow. A held
/// button asks anew every tick, so this is "still held".
pub const ROULADE_CHAIN_WINDOW: u64 = 150_000;

/// The longest that any window or tick may be.
pub const LONGEST: u64 = 0xFFFF_FFFF_FFFF;

/// A whole, in the parts that scales and ratios count in.
pub const WHOLE: u32 = 1_000;

/// How what a policy puts out is applied. Scales, ratios and filters are in thousandths.
#[derive(Debug, Clone, Copy, PartialEq, Eq, Structural)]
pub struct Tuning {
    pub action_scale: u32,
    /// The standing policy is trained to be applied whole.
    pub standing_action_scale: u32,
    /// Standing runs softer, at this fraction of the running gain.
    pub standing_gain_ratio: u32,
    pub gain: u16,
    /// First-order low-pass on the head joints. `None` is no filtering.
    pub head_lowpass: Option<u32>,
    /// The same for the leg joints.
    pub legs_lowpass: Option<u32>,
}

impl Default for Tuning {
    fn default() -> (t: Self)
        ensures
            t == (Tuning {
                action_scale: 900,
                standing_action_scale: 1_000,
                standing_gain_ratio: 800,
                gain: 200,
                head_lowpass: Some(500),
                legs_lowpass: Some(700),
            }),
    {
        Tuning {
            action_scale: 900,
            standing_action_scale: 1_000,
            standing_gain_ratio: 800,
            gain: 200,
            head_lowpass: Some(500),
            legs_lowpass: Some(700),
        }
    }
}

/// The numbers of the scripted skills. Scales and ratios are in thousandths.
#[derive(Debug, Clone, Copy, PartialEq, Eq, Structural)]
pub struct SkillTuning {
    /// One cycle of a ground pick.
    pub ground_pick_period: u64,
    pub ground_pick_action_scale: u32,
    /// Gain multiplier while the pick runs.
    pub ground_pick_gain_ratio: u32,
    /// How long a kick stays on its network.
    pub kick_duration: u64,
    /// One roll.
    pub roulade_duration: u64,
    pub roulade_action_scale: u32,
    pub roulade_gain_ratio: u32,
}

impl Default for SkillTuning {
    fn default() -> (t: Self)
        ensures
            t == (SkillTuning {
                ground_pick_period: 4_000_000,
                ground_pick_action_scale: 1_000,
                ground_pick_gain_ratio: 1_000,
                kick_duration: 500_000,
                roulade_duration: 1_000_000,
                roulade_action_scale: 1_000,
                roulade_gain_ratio: 1_000,
            }),
    {
        SkillTuning {
            ground_pick_period: 4_000_000,
            ground_pick_action_scale: 1_000,
            ground_pick_gain_ratio: 1_000,
            kick_duration: 500_000,
            roulade_duration: 1_000_000,
            roulade_action_scale: 1_000,
            roulade_gain_ratio: 1_000,
        }
    }
}

impl SkillTuning {
    pub open spec fn valid(self) -> bool {
        &&& 0 < self.ground_pick_period <= LONGEST
        &&& self.kick_duration <= LONGEST
        &&& self.roulade_duration <= LONGEST
    }
}

/// Where the duck is between sitting and standing.
#[derive(Debug, Clone, Copy, PartialEq, Eq, Structural)]
pub enum Sit {
    Up,
    /// The sitting network holds the seat.
    Sitting,
    /// The sitting network rises for so much longer.
    Rising { remaining: u64 },
}

/// What a policy has entered, and what it still has to enter afresh. Entry counts only once a
/// frame has gone well. Labels tell sitting from rising, and pending starts cover a new episode
/// of what already runs.
pub struct PolicyEntry {
    pub active: Option<(Net, &'static str)>,
    pub pending: Vec<Net>,
}

impl PolicyEntry {
    pub fn new() -> (e: PolicyEntry)
        ensures
            e.active is None,
            e.pending@ == Seq::<Net>::empty(),
    {
        PolicyEntry { active: None, pending: Vec::new() }
    }

    /// Whether a network has to start afresh. Walking and standing never do.
    pub open spec fn must_reset(self, net: Net, label: Seq<char>) -> bool {
        !net.locomotion() && (!(self.active matches Some((n, l)) && n == net && l@ == label)
            || self.pending@.contains(net))
    }

    fn is_pending(&self, net: Net) -> (yes: bool)
        ensures
            yes == self.pending@.contains(net),
    {
        let mut at: usize = 0;
        while at < self.pending.len()
            invariant
                at <= self.pending@.len(),
                forall|i: int| 0 <= i < at ==> self.pending@[i] != net,
            decreases self.pending@.len() - at,
        {
            if self.pending[at] == net {
                return true;
            }
            at = at + 1;
        }
        false
    }

    /// A network starts a new episode.
    pub fn restart(&mut self, net: Net)
        ensures
            final(self).active == old(self).active,
            final(self).pending@ == (if old(self).pending@.contains(net) {
                old(self).pending@
            } else {
                old(self).pending@.push(net)
            }),
    {
        if !self.is_pending(net) {
            self.pending.push(net);
        }
    }

    pub fn needs_reset(&self, net: Net, label: &str) -> (yes: bool)
        ensures
            yes == self.must_reset(net, label@),
    {
        match net {
            Net::Walk | Net::Stand => {
                return false;
            },
            _ => {},
        }
        let here = match self.active {
            Some((n, l)) => n == net && same_text(l, label),
            None => false,
        };
        !here || self.is_pending(net)
    }

    /// A frame of a network went well.
    pub fn entered(&mut self, net: Net, label: &'static str)
        ensures
            final(self).active == Some((net, label)),
            final(self).pending@ == others(old(self).pending@, net),
    {
        self.active = Some((net, label));
        let mut kept: Vec<Net> = Vec::new();
        let mut at: usize = 0;
        proof {
            assert(self.pending@.take(0) =~= Seq::empty());
        }
        while at < self.pending.len()
            invariant
                at <= self.pending@.len(),
                kept@ == others(self.pending@.take(at as int), net),
            decreases self.pending@.len() - at,
        {
            proof {
                assert(self.pending@.take(at + 1).drop_last() =~= self.pending@.take(at as int));
            }
            if self.pending[at] != net {
                kept.push(self.pending[at]);
            }
            at = at + 1;
        }
        proof {
            assert(self.pending@.take(at as int) =~= self.pending@);
        }
        self.pending = kept;
    }
}

/// A list without one network.
pub open spec fn others(pending: Seq<Net>, net: Net) -> Seq<Net>
    decreases pending.len(),
{
    if pending.len() == 0 {
        Seq::empty()
    } else if pending.last() == net {
        others(pending.drop_last(), net)
    } else {
        others(pending.drop_last(), net).push(pending.last())
    }
}

proof fn lemma_others(pending: Seq<Net>, net: Net, other: Net)
    ensures
        !others(pending, net).contains(net),
        other != net ==> (others(pending, net).contains(other) <==> pending.contains(other)),
    decreases pending.len(),
{
    if pending.len() > 0 {
        let rest = pending.drop_last();
        lemma_others(rest, net, other);
        let kept = others(rest, net);
        assert(pending =~= rest.push(pending.last()));
        if pending.last() != net {
            assert forall|n: Net| kept.push(pending.last()).contains(n) <==> kept.contains(n) || n
                == pending.last() by {
                lemma_push_contains(kept, pending.last(), n);
            }
        }
        lemma_push_contains(rest, pending.last(), other);
    }
}

proof fn lemma_push_contains(s: Seq<Net>, last: Net, n: Net)
    ensures
        s.push(last).contains(n) <==> s.contains(n) || n == last,
{
    if s.contains(n) {
        let i = choose|i: int| 0 <= i < s.len() && s[i] == n;
        assert(s.push(last)[i] == n);
    }
    if n == last {
        assert(s.push(last)[s.len() as int] == n);
    }
    if s.push(last).contains(n) && n != last {
        let i = choose|i: int| 0 <= i < s.push(last).len() && s.push(last)[i] == n;
        assert(s[i] == n);
    }
}

/// A skill starts afresh exactly once per episode: it has to until a frame of it has gone well,
/// not after that, and again when it is started anew, or after anything else has run; a start
/// that waits survives whatever runs before it.
pub proof fn every_episode_resets_once(
    before: PolicyEntry,
    after: PolicyEntry,
    restarted: PolicyEntry,
    net: Net,
    other: Net,
    label: &'static str,
)
    requires
        !net.locomotion(),
        after.active == Some((net, label)),
        after.pending@ == others(before.pending@, net),
        restarted.active == after.active,
        restarted.pending@ == (if after.pending@.contains(net) {
            after.pending@
        } else {
            after.pending@.push(net)
        }),
    ensures
        !after.must_reset(net, label@),
        restarted.must_reset(net, label@),
        other != net ==> (after.pending@.contains(other) <==> before.pending@.contains(other)),
        (other != net && !other.locomotion()) ==> after.must_reset(other, label@),
{
    lemma_others(before.pending@, net, other);
    lemma_push_contains(after.pending@, net, net);
}

/// A network with the policy that drives it.
pub struct Loaded {
    pub net: Net,
    pub policy: CustomPolicy,
}

/// Which policies a robot is configured with, besides walking.
#[derive(Debug, Clone, Copy, PartialEq, Eq, Structural)]
pub struct Skills {
    pub stand: bool,
    pub sitstand: bool,
    pub ground_pick: bool,
    pub kick_left: bool,
    pub kick_right: bool,
    pub roulade: bool,
}

/// Which network drives.
pub struct Controller {
    pub custom_policies: Vec<Loaded>,
    /// One consumer owns the history of walking and standing; only its model switches.
    pub locomotion: Option<CustomPolicy>,
    pub entry: PolicyEntry,
    pub has: Skills,
    pub standing_threshold: u64,
    pub standing_disabled: bool,
    pub tuning: Tuning,
    pub skills: SkillTuning,
    /// How long a ground pick has run.
    pub ground_pick: Option<u64>,
    /// Which leg kicks, and for how much longer.
    pub kick: Option<(bool, u64)>,
    /// How much longer a roll lasts.
    pub roulade: Option<u64>,
    /// For how much longer a request for a roll counts as a held button.
    pub roulade_chain: u64,
    pub sit: Sit,
}

/// The network that drives this tick, and how it is asked.
pub struct Selection {
    pub net: Net,
    pub label: &'static str,
    pub context: PolicyContext,
    /// Whether the consumer that walking and standing share is asked.
    pub shared: bool,
    /// Whether the policy has to start afresh.
    pub reset: bool,
}

#[verifier::ext_equal]
pub struct SelectionText {
    pub net: Net,
    pub label: Seq<char>,
    pub context: ContextText,
}

impl Selection {
    pub open spec fn said(self) -> SelectionText {
        SelectionText { net: self.net, label: self.label@, context: self.context@ }
    }
}

/// A network under a label, in a context of its own name.
pub open spec fn plain(net: Net, label: Seq<char>) -> SelectionText {
    SelectionText {
        net,
        label,
        context: ContextText { action: label, phase: None, body_active: false },
    }
}

/// Whether two networks' policies are the same but for a wish to start afresh.
pub open spec fn marked(before: Seq<Loaded>, after: Seq<Loaded>) -> bool {
    after.len() == before.len() && forall|i: int|
        0 <= i < before.len() ==> (#[trigger] after[i]) == (Loaded {
            net: before[i].net,
            policy: CustomPolicy { needs_reset: true, ..before[i].policy },
        })
}

/// Whether the first policy of a network is to start afresh, and nothing else is different.
pub open spec fn afresh(before: Seq<Loaded>, after: Seq<Loaded>, net: Net) -> bool {
    exists|at: int|
        {
            &&& 0 <= at < before.len()
            &&& (#[trigger] before[at]).net == net
            &&& forall|i: int| 0 <= i < at ==> (#[trigger] before[i]).net != net
            &&& after == before.update(
                at,
                Loaded { net, policy: CustomPolicy { needs_reset: true, ..before[at].policy } },
            )
        }
}

/// Which policies go when one is replaced: that of its network, or both of walking and standing.
pub open spec fn replaced(n: Net, net: Option<Net>) -> bool {
    match net {
        Some(one) => n == one,
        None => n.locomotion(),
    }
}

/// The policies that are left when one is replaced.
pub open spec fn unloaded(list: Seq<Loaded>, net: Option<Net>) -> Seq<Loaded>
    decreases list.len(),
{
    if list.len() == 0 {
        Seq::empty()
    } else if replaced(list.last().net, net) {
        unloaded(list.drop_last(), net)
    } else {
        unloaded(list.drop_last(), net).push(list.last())
    }
}

impl Controller {
    pub open spec fn valid(self) -> bool {
        &&& self.skills.valid()
        &&& self.ground_pick matches Some(t) ==> t * CYCLE < GROUND_PICK_END_PHASE
            * self.skills.ground_pick_period
        &&& self.kick matches Some((_, t)) ==> t <= LONGEST
        &&& self.roulade matches Some(t) ==> t <= LONGEST
        &&& self.roulade_chain <= ROULADE_CHAIN_WINDOW
        &&& self.sit matches Sit::Rising { remaining } ==> remaining <= RISE_US
    }

    pub fn new(has: Skills, standing_threshold: u64, tuning: Tuning, skills: SkillTuning) -> (c: Controller)
        requires
            skills.valid(),
        ensures
            c.valid(),
            c.custom_policies@ == Seq::<Loaded>::empty(),
            c.locomotion is None,
            c.entry.active is None,
            c.entry.pending@ == Seq::<Net>::empty(),
            c.has == has,
            c.standing_threshold == standing_threshold,
            !c.standing_disabled,
            c.tuning == tuning,
            c.skills == skills,
            c.ground_pick is None,
            c.kick is None,
            c.roulade is None,
            c.roulade_chain == 0,
            c.sit == Sit::Up,
    {
        Controller {
            custom_policies: Vec::new(),
            locomotion: None,
            entry: PolicyEntry::new(),
            has,
            standing_threshold,
            standing_disabled: false,
            tuning,
            skills,
            ground_pick: None,
            kick: None,
            roulade: None,
            roulade_chain: 0,
            sit: Sit::Up,
        }
    }

    /// Everything about a controller but its policies and what they have entered.
    pub open spec fn same_schedule(self, after: Controller) -> bool {
        after == (Controller {
            custom_policies: after.custom_policies,
            locomotion: after.locomotion,
            entry: after.entry,
            ..self
        })
    }

    /// Has every policy start afresh.
    pub fn reset(&mut self)
        requires
            old(self).valid(),
        ensures
            final(self).valid(),
            old(self).same_schedule(*final(self)),
            final(self).entry.active is None,
            final(self).entry.pending@ == Seq::<Net>::empty(),
            marked(old(self).custom_policies@, final(self).custom_policies@),
            final(self).locomotion == (match old(self).locomotion {
                Some(policy) => Some(CustomPolicy { needs_reset: true, ..policy }),
                None => None,
            }),
    {
        self.entry = PolicyEntry::new();
        match self.locomotion.take() {
            Some(mut policy) => {
                policy.mark_reset();
                self.locomotion = Some(policy);
            },
            None => {},
        }
        let ghost mid = *self;
        let mut at: usize = 0;
        while at < self.custom_policies.len()
            invariant
                at <= self.custom_policies@.len() == mid.custom_policies@.len(),
                *self == (Controller { custom_policies: self.custom_policies, ..mid }),
                forall|i: int|
                    0 <= i < at ==> (#[trigger] self.custom_policies@[i]) == (Loaded {
                        net: mid.custom_policies@[i].net,
                        policy: CustomPolicy { needs_reset: true, ..mid.custom_policies@[i].policy },
                    }),
                forall|i: int|
                    at <= i < mid.custom_policies@.len() ==> (#[trigger] self.custom_policies@[i])
                        == mid.custom_policies@[i],
            decreases self.custom_policies@.len() - at,
        {
            self.custom_policies[at].policy.mark_reset();
            at = at + 1;
        }
    }

    fn drop_policies(&mut self, net: Option<Net>)
        requires
            old(self).valid(),
        ensures
            final(self).valid(),
            old(self).same_schedule(*final(self)),
            final(self).entry == old(self).entry,
            final(self).locomotion == old(self).locomotion,
            final(self).custom_policies@ == unloaded(old(self).custom_policies@, net),
    {
        let mut left: Vec<Loaded> = Vec::new();
        std::mem::swap(&mut self.custom_policies, &mut left);
        let ghost before = left@;
        let mut kept: Vec<Loaded> = Vec::new();
        proof {
            assert(before.skip(before.len() as int) =~= Seq::empty());
        }
        let mut back: Vec<Loaded> = Vec::new();
        while left.len() > 0
            invariant
                left@ == before.take(left@.len() as int),
                left@.len() <= before.len(),
                back@ =~= before.skip(left@.len() as int).reverse(),
            decreases left@.len(),
        {
            let ghost n = left@.len();
            match left.pop() {
                Some(loaded) => {
                    back.push(loaded);
                    proof {
                        assert(left@ =~= before.take(n - 1));
                        assert(back@ =~= before.skip(n - 1).reverse());
                    }
                },
                None => {},
            }
        }
        proof {
            assert(back@ =~= before.reverse());
            assert(before.take(0) =~= Seq::empty());
        }
        while back.len() > 0
            invariant
                back@.len() <= before.len(),
                back@ =~= before.skip(before.len() - back@.len()).reverse(),
                kept@ == unloaded(before.take(before.len() - back@.len()), net),
            decreases back@.len(),
        {
            let ghost n = before.len() - back@.len();
            proof {
                assert(before.take(n + 1).drop_last() =~= before.take(n));
            }
            match back.pop() {
                Some(loaded) => {
                    proof {
                        assert(loaded == before[n]);
                        assert(back@ =~= before.skip(n + 1).reverse());
                    }
                    let dropped = match net {
                        Some(one) => loaded.net == one,
                        None => match loaded.net {
                            Net::Walk | Net::Stand => true,
                            _ => false,
                        },
                    };
                    if !dropped {
                        kept.push(loaded);
                    }
                },
                None => {},
            }
        }
        proof {
            assert(before.take(before.len() as int) =~= before);
        }
        self.custom_policies = kept;
    }

    /// Puts a policy in place. Every policy starts afresh.
    pub fn replace_custom_policy(&mut self, net: Net, policy: CustomPolicy)
        requires
            old(self).valid(),
        ensures
            final(self).valid(),
            old(self).same_schedule(*final(self)),
            final(self).entry.active is None,
            final(self).entry.pending@ == Seq::<Net>::empty(),
            marked(
                unloaded(old(self).custom_policies@, Some(net)).push((Loaded { net, policy })),
                final(self).custom_policies@,
            ),
            final(self).locomotion == (match old(self).locomotion {
                Some(shared) => Some(CustomPolicy { needs_reset: true, ..shared }),
                None => None,
            }),
    {
        self.drop_policies(Some(net));
        self.custom_policies.push(Loaded { net, policy });
        self.reset();
    }

    /// Puts the policy in place that walking and standing share.
    pub fn replace_locomotion_policy(&mut self, policy: CustomPolicy)
        requires
            old(self).valid(),
        ensures
            final(self).valid(),
            old(self).same_schedule(*final(self)),
            final(self).entry.active is None,
            final(self).entry.pending@ == Seq::<Net>::empty(),
            final(self).locomotion == Some(CustomPolicy { needs_reset: true, ..policy }),
            marked(
                unloaded(old(self).custom_policies@, None),
                final(self).custom_policies@,
            ),
    {
        self.drop_policies(None);
        self.locomotion = Some(policy);
        self.reset();
    }

    pub fn set_standing_disabled(&mut self, disabled: bool)
        ensures
            *final(self) == (Controller { standing_disabled: disabled, ..*old(self) }),
    {
        self.standing_disabled = disabled;
    }

    /// Whether a command this slow is stood through.
    pub open spec fn stands(self, twist: u64) -> bool {
        self.has.stand && !self.standing_disabled && twist <= self.standing_threshold
    }

    /// Starts a policy experiment from plain locomotion: a skill that was interrupted must not
    /// silently choose another network than the experiment asks for.
    pub fn reset_for_policy_experiment(&mut self)
        requires
            old(self).valid(),
        ensures
            final(self).valid(),
            final(self).ground_pick is None,
            final(self).kick is None,
            final(self).roulade is None,
            final(self).roulade_chain == 0,
            final(self).sit == Sit::Up,
            final(self).entry.active is None,
            final(self).entry.pending@ == Seq::<Net>::empty(),
            final(self).has == old(self).has,
            marked(old(self).custom_policies@, final(self).custom_policies@),
            final(self).locomotion == (match old(self).locomotion {
                Some(policy) => Some(CustomPolicy { needs_reset: true, ..policy }),
                None => None,
            }),
            (Controller {
                ground_pick: None,
                kick: None,
                roulade: None,
                roulade_chain: 0,
                sit: Sit::Up,
                ..*old(self)
            }).same_schedule(*final(self)),
    {
        self.ground_pick = None;
        self.kick = None;
        self.roulade = None;
        self.roulade_chain = 0;
        self.sit = Sit::Up;
        self.reset();
    }

    pub fn has_sitstand(&self) -> (yes: bool)
        ensures
            yes == self.has.sitstand,
    {
        self.has.sitstand
    }

    pub fn is_sitting(&self) -> (yes: bool)
        ensures
            yes == (self.sit == Sit::Sitting),
    {
        match self.sit {
            Sit::Sitting => true,
            _ => false,
        }
    }

    pub fn is_rising(&self) -> (yes: bool)
        ensures
            yes == (self.sit is Rising),
    {
        match self.sit {
            Sit::Rising { .. } => true,
            _ => false,
        }
    }

    pub fn cancel_rise(&mut self)
        requires
            old(self).valid(),
        ensures
            final(self).valid(),
            *final(self) == (Controller {
                sit: if old(self).sit is Rising {
                    Sit::Up
                } else {
                    old(self).sit
                },
                ..*old(self)
            }),
    {
        if self.is_rising() {
            self.sit = Sit::Up;
        }
    }

    /// Whether a scripted move is under way. Sitting is not one: a seated duck is parked.
    pub open spec fn moving(self) -> bool {
        self.ground_pick is Some || self.kick is Some || self.roulade is Some || self.sit is Rising
    }

    pub fn busy(&self) -> (yes: bool)
        ensures
            yes == self.moving(),
    {
        self.ground_pick.is_some() || self.kick.is_some() || self.roulade.is_some()
            || self.is_rising()
    }

    /// The state once a network's new episode is queued.
    pub open spec fn queued(self, after: Controller, net: Net) -> bool {
        &&& after.entry.active == self.entry.active
        &&& after.entry.pending@ == (if self.entry.pending@.contains(net) {
            self.entry.pending@
        } else {
            self.entry.pending@.push(net)
        })
    }

    /// What asking for a ground pick does.
    pub open spec fn picked(self, after: Controller, ok: Result<(), &'static str>) -> bool {
        match ok {
            Ok(()) => {
                &&& self.has.ground_pick && self.ground_pick is None
                &&& self.queued(after, Net::GroundPick)
                &&& after == (Controller {
                    ground_pick: Some(0),
                    entry: after.entry,
                    ..self
                })
            },
            Err(why) => after == self && (if !self.has.ground_pick {
                why@ == "no ground-pick policy loaded"@
            } else {
                self.ground_pick is Some && why@ == "ground pick already running"@
            }),
        }
    }

    /// Starts a ground pick, unless one is running.
    pub fn start_ground_pick(&mut self) -> (ok: Result<(), &'static str>)
        requires
            old(self).valid(),
        ensures
            final(self).valid(),
            old(self).picked(*final(self), ok),
    {
        if !self.has.ground_pick {
            return Err("no ground-pick policy loaded");
        }
        if self.ground_pick.is_some() {
            return Err("ground pick already running");
        }
        self.ground_pick = Some(0);
        self.entry.restart(Net::GroundPick);
        Ok(())
    }

    /// What asking for a kick does.
    pub open spec fn kicked(self, after: Controller, left: bool, ok: Result<(), &'static str>) -> bool {
        ({
            let loaded = if left {
                self.has.kick_left
            } else {
                self.has.kick_right
            };
            let free = self.kick is None && self.ground_pick is None
                && self.roulade is None;
            match ok {
                Ok(()) => {
                    &&& loaded && free
                    &&& self.queued(
                        after,
                        if left {
                            Net::KickLeft
                        } else {
                            Net::KickRight
                        },
                    )
                    &&& after == (Controller {
                        kick: Some((left, self.skills.kick_duration)),
                        entry: after.entry,
                        ..self
                    })
                },
                Err(why) => after == self && (if !loaded {
                    why@ == "no kick policy loaded for that leg"@
                } else {
                    !free && why@ == "a scripted move is already running"@
                }),
            }
        })
    }

    /// Starts a kick, unless a scripted move is running.
    pub fn start_kick(&mut self, left: bool) -> (ok: Result<(), &'static str>)
        requires
            old(self).valid(),
        ensures
            final(self).valid(),
            old(self).kicked(*final(self), left, ok),
    {
        let loaded = if left {
            self.has.kick_left
        } else {
            self.has.kick_right
        };
        if !loaded {
            return Err("no kick policy loaded for that leg");
        }
        if self.kick.is_some() || self.ground_pick.is_some() || self.roulade.is_some() {
            return Err("a scripted move is already running");
        }
        self.kick = Some((left, self.skills.kick_duration));
        self.entry.restart(
            if left {
                Net::KickLeft
            } else {
                Net::KickRight
            },
        );
        Ok(())
    }

    /// What asking for a roll does.
    pub open spec fn rolled(self, after: Controller, started: Result<bool, &'static str>) -> bool {
        match started {
            Ok(false) => self.roulade is Some && after == (Controller {
                roulade_chain: ROULADE_CHAIN_WINDOW,
                ..self
            }),
            Ok(true) => {
                &&& self.roulade is None && self.has.roulade && self.ground_pick is None
                &&& self.queued(after, Net::Roulade)
                &&& after == (Controller {
                    roulade: Some(self.skills.roulade_duration),
                    roulade_chain: 0,
                    entry: after.entry,
                    ..self
                })
            },
            Err(why) => self.roulade is None && after == self && (
            if !self.has.roulade {
                why@ == "no roulade policy loaded"@
            } else {
                self.ground_pick is Some && why@ == "a ground pick is running"@
            }),
        }
    }

    /// Asks for a roll: starts one, or keeps one going. `true` where one was started.
    pub fn request_roulade(&mut self) -> (started: Result<bool, &'static str>)
        requires
            old(self).valid(),
        ensures
            final(self).valid(),
            old(self).rolled(*final(self), started),
    {
        if self.roulade.is_some() {
            self.roulade_chain = ROULADE_CHAIN_WINDOW;
            return Ok(false);
        }
        if !self.has.roulade {
            return Err("no roulade policy loaded");
        }
        if self.ground_pick.is_some() {
            return Err("a ground pick is running");
        }
        self.roulade = Some(self.skills.roulade_duration);
        self.entry.restart(Net::Roulade);
        self.roulade_chain = 0;
        Ok(true)
    }

    /// What sitting down or standing up does.
    pub open spec fn toggled(self, after: Controller, what: Result<&'static str, &'static str>) -> bool {
        match self.sit {
            Sit::Up => if self.has.sitstand {
                &&& what matches Ok(name) && name@ == "sit"@
                &&& self.queued(after, Net::SitStand)
                &&& after == (Controller {
                    sit: Sit::Sitting,
                    entry: after.entry,
                    ..self
                })
            } else {
                &&& what matches Err(why) && why@ == "no sitstand policy loaded"@
                &&& after == self
            },
            Sit::Sitting => {
                &&& what matches Ok(name) && name@ == "stand"@
                &&& self.queued(after, Net::SitStand)
                &&& after == (Controller {
                    sit: Sit::Rising { remaining: RISE_US },
                    entry: after.entry,
                    ..self
                })
            },
            Sit::Rising { remaining: _ } => {
                &&& what matches Err(why) && why@ == "already standing up"@
                &&& after == self
            },
        }
    }

    /// Sits if standing, stands if sitting, and does neither while rising.
    pub fn sit_toggle(&mut self) -> (what: Result<&'static str, &'static str>)
        requires
            old(self).valid(),
        ensures
            final(self).valid(),
            old(self).toggled(*final(self), what),
    {
        match self.sit {
            Sit::Up => {
                if !self.has.sitstand {
                    return Err("no sitstand policy loaded");
                }
                self.sit = Sit::Sitting;
                self.entry.restart(Net::SitStand);
                Ok("sit")
            },
            Sit::Sitting => {
                self.entry.restart(Net::SitStand);
                self.sit = Sit::Rising { remaining: RISE_US };
                Ok("stand")
            },
            Sit::Rising { .. } => Err("already standing up"),
        }
    }

    /// Sits down to be switched off. The caller sees to the timing.
    pub fn begin_shutdown_sit(&mut self)
        requires
            old(self).valid(),
        ensures
            final(self).valid(),
            old(self).queued(*final(self), Net::SitStand),
            *final(self) == (Controller {
                sit: Sit::Sitting,
                entry: final(self).entry,
                ..*old(self)
            }),
    {
        self.entry.restart(Net::SitStand);
        self.sit = Sit::Sitting;
    }

    /// Rises after having been switched on sitting down.
    pub fn begin_boot_rise(&mut self)
        requires
            old(self).valid(),
        ensures
            final(self).valid(),
            old(self).queued(*final(self), Net::SitStand),
            *final(self) == (Controller {
                sit: Sit::Rising { remaining: RISE_US },
                entry: final(self).entry,
                ..*old(self)
            }),
    {
        self.entry.restart(Net::SitStand);
        self.sit = Sit::Rising { remaining: RISE_US };
    }

    /// Closes a rise that was only tried out, while the motors were off, so that the network is
    /// warm. What it put out is thrown away, and if it went well, the real rise starts from where
    /// the trial did.
    pub fn end_boot_trial(&mut self, went_well: bool)
        requires
            old(self).valid(),
        ensures
            final(self).valid(),
            final(self).entry.active is None,
            marked(old(self).custom_policies@, final(self).custom_policies@),
            went_well ==> final(self).sit == (Sit::Rising { remaining: RISE_US })
                && final(self).entry.pending@ == seq![Net::SitStand],
            !went_well ==> final(self).sit == (if old(self).sit is Rising {
                Sit::Up
            } else {
                old(self).sit
            }) && final(self).entry.pending@ == Seq::<Net>::empty(),
            final(self).locomotion == (match old(self).locomotion {
                Some(policy) => Some(CustomPolicy { needs_reset: true, ..policy }),
                None => None,
            }),
            *final(self) == (Controller {
                sit: final(self).sit,
                entry: final(self).entry,
                custom_policies: final(self).custom_policies,
                locomotion: final(self).locomotion,
                ..*old(self)
            }),
    {
        self.cancel_rise();
        self.reset();
        if went_well {
            self.begin_boot_rise();
            proof {
                assert(self.entry.pending@ =~= seq![Net::SitStand]);
            }
        }
    }

    /// What is left of the windows once those that have run out are over. A roll that is still
    /// asked for starts over.
    pub open spec fn expired(self) -> Controller {
        Controller {
            kick: match self.kick {
                Some((_, 0)) => None,
                kick => kick,
            },
            roulade: match self.roulade {
                Some(0) => if self.roulade_chain > 0 {
                    Some(self.skills.roulade_duration)
                } else {
                    None
                },
                roulade => roulade,
            },
            sit: match self.sit {
                Sit::Rising { remaining: 0 } => Sit::Up,
                sit => sit,
            },
            ..self
        }
    }

    /// Whether a roll starts over.
    pub open spec fn rolls_on(self) -> bool {
        self.roulade == Some(0u64) && self.roulade_chain > 0
    }

    /// Which network drives once the windows that have run out are over: a roll before a kick
    /// before a ground pick before sitting and rising before standing before walking.
    pub open spec fn choice(self, twist: u64, body_active: bool, selected: Option<Net>) -> SelectionText {
        if self.roulade is Some {
            plain(Net::Roulade, "roulade"@)
        } else if let Some((left, _)) = self.kick {
            if left {
                plain(Net::KickLeft, "kick_left"@)
            } else {
                plain(Net::KickRight, "kick_right"@)
            }
        } else if self.ground_pick is Some {
            SelectionText {
                net: Net::GroundPick,
                label: "ground_pick"@,
                context: ContextText {
                    action: "ground_pick"@,
                    phase: Some((self.ground_pick->0, self.skills.ground_pick_period)),
                    body_active: false,
                },
            }
        } else {
            match self.sit {
                Sit::Sitting => plain(Net::SitStand, "sit"@),
                Sit::Rising { remaining: _ } => plain(Net::SitStand, "rise"@),
                Sit::Up => {
                    let stand = match selected {
                        Some(net) => net == Net::Stand,
                        None => self.stands(twist) || (body_active && self.has.stand),
                    };
                    let net = if stand {
                        Net::Stand
                    } else {
                        Net::Walk
                    };
                    let label = if stand {
                        "stand"@
                    } else {
                        "walk"@
                    };
                    SelectionText {
                        net,
                        label,
                        context: ContextText { action: label, phase: None, body_active },
                    }
                },
            }
        }
    }

    fn expire(&mut self)
        requires
            old(self).valid(),
        ensures
            final(self).valid(),
            *final(self) == (Controller { entry: final(self).entry, ..old(self).expired() }),
            if old(self).rolls_on() {
                old(self).queued(*final(self), Net::Roulade)
            } else {
                final(self).entry == old(self).entry
            },
    {
        match self.kick {
            Some((_, remaining)) => {
                if remaining == 0 {
                    self.kick = None;
                }
            },
            None => {},
        }
        match self.roulade {
            Some(remaining) => {
                if remaining == 0 {
                    if self.roulade_chain > 0 {
                        self.entry.restart(Net::Roulade);
                        self.roulade = Some(self.skills.roulade_duration);
                    } else {
                        self.roulade = None;
                    }
                }
            },
            None => {},
        }
        match self.sit {
            Sit::Rising { remaining } => {
                if remaining == 0 {
                    self.sit = Sit::Up;
                }
            },
            _ => {},
        }
    }

    fn choose_net(&self, twist: u64, body_active: bool, selected: Option<Net>) -> (s: (Net, &'static str, PolicyContext))
        requires
            selected matches Some(net) ==> net.locomotion(),
        ensures
            (SelectionText { net: s.0, label: s.1@, context: s.2@ }) == self.choice(
                twist,
                body_active,
                selected,
            ),
    {
        if self.roulade.is_some() {
            return (Net::Roulade, "roulade", PolicyContext::new("roulade", None, false));
        }
        match self.kick {
            Some((left, _)) => {
                return if left {
                    (Net::KickLeft, "kick_left", PolicyContext::new("kick_left", None, false))
                } else {
                    (Net::KickRight, "kick_right", PolicyContext::new("kick_right", None, false))
                };
            },
            None => {},
        }
        match self.ground_pick {
            Some(elapsed) => {
                return (
                    Net::GroundPick,
                    "ground_pick",
                    PolicyContext::new(
                        "ground_pick",
                        Some((elapsed, self.skills.ground_pick_period)),
                        false,
                    ),
                );
            },
            None => {},
        }
        match self.sit {
            Sit::Sitting => (Net::SitStand, "sit", PolicyContext::new("sit", None, false)),
            Sit::Rising { .. } => (Net::SitStand, "rise", PolicyContext::new("rise", None, false)),
            Sit::Up => {
                let stand = match selected {
                    Some(net) => net == Net::Stand,
                    None => (self.has.stand && !self.standing_disabled && twist
                        <= self.standing_threshold) || (body_active && self.has.stand),
                };
                if stand {
                    (Net::Stand, "stand", PolicyContext::new("stand", None, body_active))
                } else {
                    (Net::Walk, "walk", PolicyContext::new("walk", None, body_active))
                }
            },
        }
    }

    /// Whether the policy of a network is there.
    pub open spec fn loaded(self, net: Net) -> bool {
        exists|i: int| 0 <= i < self.custom_policies@.len() && (#[trigger] self.custom_policies@[i]).net == net
    }

    fn find_policy(&self, net: Net) -> (at: Option<usize>)
        ensures
            at is Some <==> self.loaded(net),
            at matches Some(k) ==> k < self.custom_policies@.len() && self.custom_policies@[k as int].net == net
                && forall|i: int| 0 <= i < k ==> (#[trigger] self.custom_policies@[i]).net != net,
    {
        let mut at: usize = 0;
        while at < self.custom_policies.len()
            invariant
                at <= self.custom_policies@.len(),
                forall|i: int| 0 <= i < at ==> (#[trigger] self.custom_policies@[i]).net != net,
            decreases self.custom_policies@.len() - at,
        {
            if self.custom_policies[at].net == net {
                return Some(at);
            }
            at = at + 1;
        }
        None
    }

    /// What is missing for a network to drive.
    pub open spec fn lacking(self, net: Net) -> Option<Seq<char>> {
        if net.locomotion() && self.has.stand {
            if self.locomotion is None {
                Some("走/站缺少共享消费运行器"@)
            } else {
                None
            }
        } else if !self.loaded(net) {
            Some("策略槽位 "@ + net_label(net) + " 缺少双文件运行器"@)
        } else {
            None
        }
    }

    /// Picks the network that drives this tick. `selected` pins standing or walking, for an
    /// experiment. A policy that enters a new episode is told to start afresh. One that is not
    /// there fails the tick, with the windows that had run out already over, and the episode still
    /// to be entered.
    pub fn step_selected(&mut self, twist: u64, body_active: bool, selected: Option<Net>) -> (selection: Result<
        Selection,
        String,
    >)
        requires
            old(self).valid(),
            selected matches Some(net) ==> net.locomotion(),
        ensures
            final(self).valid(),
            *final(self) == (Controller {
                entry: final(self).entry,
                custom_policies: final(self).custom_policies,
                ..old(self).expired()
            }),
            if selection is Ok && selection->Ok_0.reset {
                afresh(old(self).custom_policies@, final(self).custom_policies@, selection->Ok_0.net)
            } else {
                final(self).custom_policies == old(self).custom_policies
            },
            if old(self).rolls_on() {
                old(self).queued(*final(self), Net::Roulade)
            } else {
                final(self).entry == old(self).entry
            },
            ({
                let chosen = old(self).expired().choice(twist, body_active, selected);
                match selection {
                    Ok(s) => {
                        &&& s.said() == chosen
                        &&& final(self).lacking(chosen.net) is None
                        &&& s.shared == (chosen.net.locomotion() && old(self).has.stand)
                        &&& s.reset == (!s.shared && final(self).entry.must_reset(s.net, s.label@))
                    },
                    Err(why) => final(self).lacking(chosen.net) == Some(why@),
                }
            }),
    {
        self.expire();
        let (net, label, context) = self.choose_net(twist, body_active, selected);
        proof {
            let ghost after = *self;
            assert(after.choice(twist, body_active, selected) == old(self).expired().choice(
                twist,
                body_active,
                selected,
            ));
        }
        let locomotion = match net {
            Net::Walk | Net::Stand => true,
            _ => false,
        };
        if locomotion && self.has.stand {
            if self.locomotion.is_none() {
                return Err("走/站缺少共享消费运行器".to_owned());
            }
            return Ok(Selection { net, label, context, shared: true, reset: false });
        }
        let at: usize = match self.find_policy(net) {
            Some(at) => at,
            None => {
                let mut why = String::new();
                push_text(&mut why, "策略槽位 ");
                push_text(&mut why, net_name(net));
                push_text(&mut why, " 缺少双文件运行器");
                proof {
                    assert(why@ =~= "策略槽位 "@ + net_label(net) + " 缺少双文件运行器"@);
                }
                return Err(why);
            },
        };
        let reset = self.entry.needs_reset(net, label);
        if reset {
            let ghost before = self.custom_policies@;
            self.custom_policies[at].policy.mark_reset();
            proof {
                assert(before[at as int].net == net);
                assert(self.custom_policies@[at as int].net == net);
                assert(afresh(before, self.custom_policies@, net));
            }
        }
        Ok(Selection { net, label, context, shared: false, reset })
    }

    /// Picks the network that drives an ordinary tick.
    pub fn step(&mut self, twist: u64, body_active: bool) -> (selection: Result<Selection, String>)
        requires
            old(self).valid(),
        ensures
            final(self).valid(),
            *final(self) == (Controller {
                entry: final(self).entry,
                custom_policies: final(self).custom_policies,
                ..old(self).expired()
            }),
            if selection is Ok && selection->Ok_0.reset {
                afresh(old(self).custom_policies@, final(self).custom_policies@, selection->Ok_0.net)
            } else {
                final(self).custom_policies == old(self).custom_policies
            },
            if old(self).rolls_on() {
                old(self).queued(*final(self), Net::Roulade)
            } else {
                final(self).entry == old(self).entry
            },
            ({
                let chosen = old(self).expired().choice(twist, body_active, None);
                match selection {
                    Ok(s) => {
                        &&& s.said() == chosen
                        &&& final(self).lacking(chosen.net) is None
                        &&& s.shared == (chosen.net.locomotion() && old(self).has.stand)
                        &&& s.reset == (!s.shared && final(self).entry.must_reset(s.net, s.label@))
                    },
                    Err(why) => final(self).lacking(chosen.net) == Some(why@),
                }
            }),
    {
        self.step_selected(twist, body_active, None)
    }

    /// So much less of a window.
    pub open spec fn less(remaining: u64, dt_us: u64) -> u64 {
        if remaining > dt_us {
            (remaining - dt_us) as u64
        } else {
            0
        }
    }

    /// What a frame that went well does to the windows.
    pub open spec fn moved(self, after: Controller, net: Net, label: &'static str, dt_us: u64, busy: bool) -> bool {
        &&& busy == after.moving()
        &&& after.entry.active == Some((net, label))
        &&& after.entry.pending@ == others(self.entry.pending@, net)
        &&& after == (Controller {
            entry: after.entry,
            ground_pick: match self.ground_pick {
                Some(t) => if (t + dt_us) * CYCLE >= GROUND_PICK_END_PHASE
                    * self.skills.ground_pick_period {
                    None
                } else {
                    Some((t + dt_us) as u64)
                },
                None => None,
            },
            kick: match self.kick {
                Some((left, t)) => Some((left, Controller::less(t, dt_us))),
                None => None,
            },
            roulade: match self.roulade {
                Some(t) => Some(Controller::less(t, dt_us)),
                None => None,
            },
            roulade_chain: if self.roulade is Some {
                Controller::less(self.roulade_chain, dt_us)
            } else {
                self.roulade_chain
            },
            sit: match self.sit {
                Sit::Rising { remaining } => Sit::Rising {
                    remaining: Controller::less(remaining, dt_us),
                },
                sit => sit,
            },
            ..self
        })
    }

    /// Moves the windows on after a frame that went well, and says whether a scripted move is
    /// still under way. A pick is over at its cutoff; the other windows end with the next tick.
    pub fn finish_step(&mut self, selection: &Selection, dt_us: u64) -> (busy: bool)
        requires
            old(self).valid(),
            dt_us <= LONGEST,
        ensures
            final(self).valid(),
            old(self).moved(*final(self), selection.net, selection.label, dt_us, busy),
    {
        self.entry.entered(selection.net, selection.label);
        match self.ground_pick {
            Some(t) => {
                let now: u64 = t + dt_us;
                if now * CYCLE >= GROUND_PICK_END_PHASE * self.skills.ground_pick_period {
                    self.ground_pick = None;
                } else {
                    self.ground_pick = Some(now);
                }
            },
            None => {},
        }
        match self.kick {
            Some((left, t)) => {
                self.kick = Some((left, less_of(t, dt_us)));
            },
            None => {},
        }
        match self.roulade {
            Some(t) => {
                self.roulade = Some(less_of(t, dt_us));
                self.roulade_chain = less_of(self.roulade_chain, dt_us);
            },
            None => {},
        }
        match self.sit {
            Sit::Rising { remaining } => {
                self.sit = Sit::Rising { remaining: less_of(remaining, dt_us) };
            },
            _ => {},
        }
        self.busy()
    }
}

fn less_of(remaining: u64, dt_us: u64) -> (left: u64)
    ensures
        left == Controller::less(remaining, dt_us),
{
    if remaining > dt_us {
        remaining - dt_us
    } else {
        0
    }
}

/// What a network is called in a message.
pub open spec fn net_label(net: Net) -> Seq<char> {
    match net {
        Net::Walk => "Walk"@,
        Net::Stand => "Stand"@,
        Net::SitStand => "SitStand"@,
        Net::GroundPick => "GroundPick"@,
        Net::KickLeft => "KickLeft"@,
        Net::KickRight => "KickRight"@,
        Net::Roulade => "Roulade"@,
    }
}

pub fn net_name(net: Net) -> (name: &'static str)
    ensures
        name@ == net_label(net),
{
    match net {
        Net::Walk => "Walk",
        Net::Stand => "Stand",
        Net::SitStand => "SitStand",
        Net::GroundPick => "GroundPick",
        Net::KickLeft => "KickLeft",
        Net::KickRight => "KickRight",
        Net::Roulade => "Roulade",
    }
}

/// The order of precedence: a roll beats everything, a kick everything but a roll, a pick
/// everything but those two, and only a duck that is up and does nothing of the kind walks or
/// stands.
pub proof fn scripted_moves_come_first(c: Controller, twist: u64, body_active: bool, selected: Option<Net>)
    requires
        selected matches Some(net) ==> net.locomotion(),
    ensures
        ({
            let net = c.choice(twist, body_active, selected).net;
            &&& c.roulade is Some <==> net == Net::Roulade
            &&& (net == Net::KickLeft || net == Net::KickRight) <==> c.roulade is None && c.kick is Some
            &&& net == Net::GroundPick <==> c.roulade is None && c.kick is None && c.ground_pick is Some
            &&& net.locomotion() <==> !c.moving() && c.sit == Sit::Up
        }),
{
}

/// Every window ends: a kick, a roll that is not asked for again and a rise are over once as much
/// time has passed as they last.
pub proof fn every_window_ends(c: Controller, after: Controller)
    requires
        c.roulade_chain == 0,
        after == (Controller {
            kick: match c.kick {
                Some((left, t)) => Some((left, Controller::less(t, t))),
                None => None,
            },
            roulade: match c.roulade {
                Some(t) => Some(Controller::less(t, t)),
                None => None,
            },
            sit: match c.sit {
                Sit::Rising { remaining } => Sit::Rising {
                    remaining: Controller::less(remaining, remaining),
                },
                sit => sit,
            },
            ..c
        }),
    ensures
        after.expired().kick is None,
        after.expired().roulade is None,
        !(after.expired().sit is Rising),
{
}

/// The leg that was asked for kicks: with no roll under way, a kick of the left leg is driven by the
/// left leg's network under its name, and a kick of the right leg by the right leg's.
pub proof fn the_leg_that_was_asked_for_kicks(
    c: Controller,
    twist: u64,
    body_active: bool,
    selected: Option<Net>,
    left: bool,
    remaining: u64,
)
    requires
        c.roulade is None,
        c.kick == Some((left, remaining)),
    ensures
        ({
            let chosen = c.choice(twist, body_active, selected);
            &&& left ==> chosen.net == Net::KickLeft && chosen.label == "kick_left"@
                && chosen.context.action == "kick_left"@
            &&& !left ==> chosen.net == Net::KickRight && chosen.label == "kick_right"@
                && chosen.context.action == "kick_right"@
            &&& chosen.context.phase is None && !chosen.context.body_active
        }),
{
}

/// Each network drives exactly in its own case. A roll beats a kick, a kick a ground pick, a pick
/// sitting and rising; and a duck that is up and does none of that stands or walks: as an experiment
/// has it, or standing where that can be done and the command is slow or the body is posed.
pub proof fn every_network_has_its_case(
    c: Controller,
    twist: u64,
    body_active: bool,
    selected: Option<Net>,
)
    requires
        selected matches Some(net) ==> net.locomotion(),
    ensures
        ({
            let chosen = c.choice(twist, body_active, selected);
            let idle = c.roulade is None && c.kick is None && c.ground_pick is None;
            let slow = c.has.stand && !c.standing_disabled && twist <= c.standing_threshold;
            let stands = selected == Some(Net::Stand) || (selected is None && (slow || (body_active
                && c.has.stand)));
            &&& chosen.net == Net::Roulade <==> c.roulade is Some
            &&& chosen.net == Net::KickLeft <==> c.roulade is None && (c.kick matches Some((true, _)))
            &&& chosen.net == Net::KickRight <==> c.roulade is None && (c.kick matches Some((false, _)))
            &&& chosen.net == Net::GroundPick <==> c.roulade is None && c.kick is None
                && c.ground_pick is Some
            &&& chosen.net == Net::SitStand <==> idle && c.sit != Sit::Up
            &&& chosen.net == Net::Stand <==> idle && c.sit == Sit::Up && stands
            &&& chosen.net == Net::Walk <==> idle && c.sit == Sit::Up && !stands
        }),
{
}

/// A network is asked under the name of what it does, and told no more than it needs: a pick how
/// far it has got, standing and walking whether the body is posed.
pub proof fn a_network_is_asked_under_its_name(
    c: Controller,
    twist: u64,
    body_active: bool,
    selected: Option<Net>,
)
    ensures
        ({
            let chosen = c.choice(twist, body_active, selected);
            &&& chosen.context.action == chosen.label
            &&& chosen.net != Net::SitStand ==> chosen.label == chosen.net.name()
            &&& chosen.net == Net::SitStand && c.sit == Sit::Sitting ==> chosen.label == "sit"@
            &&& chosen.net == Net::SitStand && c.sit != Sit::Sitting ==> chosen.label == "rise"@
            &&& chosen.net == Net::GroundPick ==> chosen.context.phase == Some(
                (c.ground_pick->0, c.skills.ground_pick_period),
            )
            &&& chosen.net != Net::GroundPick ==> chosen.context.phase is None
            &&& chosen.context.body_active <==> body_active && chosen.net.locomotion()
        }),
{
}

/// What is started drives the next tick: a kick its leg's network, a roll its own, a pick its own
/// where no kick or roll is running, and sitting down or standing up the sitting network where no
/// scripted move is. Each starts a new episode of its policy.
pub proof fn what_is_started_drives(
    c: Controller,
    after: Controller,
    left: bool,
    ok: Result<(), &'static str>,
    started: Result<bool, &'static str>,
    what: Result<&'static str, &'static str>,
    twist: u64,
    body_active: bool,
)
    requires
        c.skills.kick_duration > 0,
        c.skills.roulade_duration > 0,
    ensures
        c.kicked(after, left, ok) && ok is Ok ==> {
            &&& after.expired().choice(twist, body_active, None).net == (if left {
                Net::KickLeft
            } else {
                Net::KickRight
            })
            &&& after.entry.pending@.contains(
                if left {
                    Net::KickLeft
                } else {
                    Net::KickRight
                },
            )
        },
        c.rolled(after, started) && started == Ok::<bool, &'static str>(true) ==> {
            &&& after.expired().choice(twist, body_active, None).net == Net::Roulade
            &&& after.entry.pending@.contains(Net::Roulade)
        },
        c.picked(after, ok) && ok is Ok && c.kick is None && c.roulade is None ==> {
            &&& after.expired().choice(twist, body_active, None).net == Net::GroundPick
            &&& after.expired().choice(twist, body_active, None).context.phase == Some(
                (0u64, c.skills.ground_pick_period),
            )
            &&& after.entry.pending@.contains(Net::GroundPick)
        },
        c.toggled(after, what) && what is Ok && !c.moving() ==> {
            &&& after.expired().choice(twist, body_active, None).net == Net::SitStand
            &&& after.entry.pending@.contains(Net::SitStand)
            &&& c.sit == Sit::Up ==> after.sit == Sit::Sitting
            &&& c.sit == Sit::Sitting ==> after.sit == (Sit::Rising { remaining: 1_000_000 })
        },
{
    let net = if left {
        Net::KickLeft
    } else {
        Net::KickRight
    };
    lemma_push_contains(c.entry.pending@, net, net);
    lemma_push_contains(c.entry.pending@, Net::Roulade, Net::Roulade);
    lemma_push_contains(c.entry.pending@, Net::GroundPick, Net::GroundPick);
    lemma_push_contains(c.entry.pending@, Net::SitStand, Net::SitStand);
}

/// When a skill may be started: a kick where that leg has a policy and no kick, pick or roll is
/// running; a pick where it has a policy and none is running; a roll where it has a policy and no
/// pick is running, while during a roll asking only keeps it going; and sitting where there is a
/// policy for it, but never while rising. A refusal changes nothing.
pub proof fn when_a_skill_starts(
    c: Controller,
    after: Controller,
    left: bool,
    ok: Result<(), &'static str>,
    started: Result<bool, &'static str>,
    what: Result<&'static str, &'static str>,
)
    ensures
        c.kicked(after, left, ok) ==> {
            let loaded = (left && c.has.kick_left) || (!left && c.has.kick_right);
            &&& ok is Ok <==> loaded && c.kick is None && c.ground_pick is None && c.roulade is None
            &&& ok is Ok ==> after.kick == Some((left, c.skills.kick_duration)) && after.sit == c.sit
            &&& ok is Err ==> after == c
        },
        c.picked(after, ok) ==> {
            &&& ok is Ok <==> c.has.ground_pick && c.ground_pick is None
            &&& ok is Ok ==> after.ground_pick == Some(0u64) && after.kick == c.kick && after.sit == c.sit
            &&& ok is Err ==> after == c
        },
        c.rolled(after, started) ==> {
            &&& started == Ok::<bool, &'static str>(false) <==> c.roulade is Some
            &&& started == Ok::<bool, &'static str>(true) <==> c.roulade is None && c.has.roulade
                && c.ground_pick is None
            &&& started is Err ==> after == c
            &&& c.roulade is Some ==> after.roulade == c.roulade && after.roulade_chain == 150_000
            &&& started == Ok::<bool, &'static str>(true) ==> after.roulade == Some(
                c.skills.roulade_duration,
            ) && after.roulade_chain == 0
        },
        c.toggled(after, what) ==> {
            &&& what is Ok <==> c.sit == Sit::Sitting || (c.sit == Sit::Up && c.has.sitstand)
            &&& what is Err ==> after == c
        },
{
}

/// A window that has time left goes on unchanged, and one that has none is over, except a roll that
/// was asked for again in time, which starts over. Nothing else changes with it.
pub proof fn windows_end_when_they_have_run_out(c: Controller)
    ensures
        ({
            let now = c.expired();
            &&& now.kick is Some <==> (c.kick matches Some((_, t)) && t > 0)
            &&& now.kick is Some ==> now.kick == c.kick
            &&& c.roulade is Some && c.roulade->0 > 0 ==> now.roulade == c.roulade
            &&& c.roulade == Some(0u64) && c.roulade_chain == 0 ==> now.roulade is None
            &&& c.roulade == Some(0u64) && c.roulade_chain > 0 ==> now.roulade == Some(
                c.skills.roulade_duration,
            )
            &&& c.roulade is None ==> now.roulade is None
            &&& c.rolls_on() <==> c.roulade == Some(0u64) && c.roulade_chain > 0
            &&& now.sit is Rising <==> (c.sit matches Sit::Rising { remaining } && remaining > 0)
            &&& !(c.sit is Rising) || now.sit is Rising ==> now.sit == c.sit
            &&& c.sit is Rising && !(now.sit is Rising) ==> now.sit == Sit::Up
            &&& now.ground_pick == c.ground_pick && now.roulade_chain == c.roulade_chain
            &&& now.has == c.has && now.skills == c.skills && now.entry == c.entry && now.tuning
                == c.tuning && now.standing_threshold == c.standing_threshold && now.standing_disabled
                == c.standing_disabled && now.custom_policies == c.custom_policies && now.locomotion
                == c.locomotion
        }),
{
}

/// A frame takes exactly its time off every window that is running, down to nothing, and a pick is
/// over once seven tenths of its cycle have passed. The leg that kicks stays the same.
pub proof fn a_frame_takes_its_time_off(
    c: Controller,
    after: Controller,
    net: Net,
    label: &'static str,
    dt_us: u64,
    busy: bool,
)
    requires
        c.valid(),
        dt_us <= LONGEST,
        c.moved(after, net, label, dt_us, busy),
    ensures
        c.kick is Some <==> after.kick is Some,
        c.kick matches Some((left, t)) ==> {
            &&& dt_us <= t ==> after.kick == Some((left, (t - dt_us) as u64))
            &&& t <= dt_us ==> after.kick == Some((left, 0u64))
        },
        c.roulade is Some <==> after.roulade is Some,
        c.roulade matches Some(t) ==> {
            &&& dt_us <= t ==> after.roulade->0 == t - dt_us
            &&& t <= dt_us ==> after.roulade->0 == 0
            &&& dt_us <= c.roulade_chain ==> after.roulade_chain == c.roulade_chain - dt_us
            &&& c.roulade_chain <= dt_us ==> after.roulade_chain == 0
        },
        c.roulade is None ==> after.roulade_chain == c.roulade_chain,
        c.sit matches Sit::Rising { remaining } ==> (after.sit matches Sit::Rising { remaining: left } && (
        dt_us <= remaining ==> left == remaining - dt_us) && (remaining <= dt_us ==> left == 0)),
        !(c.sit is Rising) ==> after.sit == c.sit,
        after.ground_pick is Some <==> (c.ground_pick matches Some(t) && 10 * (t + dt_us) < 7
            * c.skills.ground_pick_period),
        after.ground_pick is Some ==> after.ground_pick->0 == c.ground_pick->0 + dt_us,
        busy <==> after.ground_pick is Some || after.kick is Some || after.roulade is Some
            || after.sit is Rising,
        after.has == c.has && after.skills == c.skills && after.custom_policies == c.custom_policies,
        !after.entry.must_reset(net, label@),
{
    lemma_others(c.entry.pending@, net, net);
}

/// Two frames take as much off a kick as one that lasts as long as both.
pub proof fn frames_add_up(t: u64, first: u64, second: u64)
    requires
        first + second <= u64::MAX,
    ensures
        Controller::less(Controller::less(t, first), second) == Controller::less(
            t,
            (first + second) as u64,
        ),
        Controller::less(t, 0) == t,
        Controller::less(t, first) <= t,
{
}

/// Walking and standing never start afresh; a skill does exactly where the last frame was of
/// something else, or a new episode of it waits.
pub proof fn who_starts_afresh(entry: PolicyEntry, net: Net, label: Seq<char>)
    ensures
        net == Net::Walk || net == Net::Stand ==> !entry.must_reset(net, label),
        net != Net::Walk && net != Net::Stand ==> (entry.must_reset(net, label) <==> !(
        entry.active matches Some((last, name)) && last == net && name@ == label)
            || entry.pending@.contains(net)),
{
}

/// A network drives only where its policy is there: walking and standing share one where there is
/// a standing policy, and every other has its own.
pub proof fn a_network_needs_its_policy(c: Controller, net: Net)
    ensures
        c.lacking(net) is None <==> if (net == Net::Walk || net == Net::Stand) && c.has.stand {
            c.locomotion is Some
        } else {
            exists|i: int|
                0 <= i < c.custom_policies@.len() && (#[trigger] c.custom_policies@[i]).net == net
        },
{
}

/// Replacing a network's policy drops that one and keeps every other, in order.
pub proof fn only_the_replaced_policy_goes(list: Seq<Loaded>, net: Option<Net>, one: Loaded)
    ensures
        unloaded(list, net).contains(one) <==> list.contains(one) && (match net {
            Some(n) => one.net != n,
            None => one.net != Net::Walk && one.net != Net::Stand,
        }),
        unloaded(list, net).len() <= list.len(),
        (forall|i: int| 0 <= i < list.len() ==> !replaced((#[trigger] list[i]).net, net)) ==> unloaded(
            list,
            net,
        ) == list,
    decreases list.len(),
{
    if list.len() > 0 {
        let rest = list.drop_last();
        let last = list.last();
        only_the_replaced_policy_goes(rest, net, one);
        assert(list =~= rest.push(last));
        assert(list.contains(one) <==> rest.contains(one) || one == last) by {
            if rest.contains(one) {
                let k = choose|k: int| 0 <= k < rest.len() && rest[k] == one;
                assert(list[k] == one);
            }
            if one == last {
                assert(list[list.len() - 1] == one);
            }
        }
        let kept = unloaded(rest, net);
        assert(kept.push(last).contains(one) <==> kept.contains(one) || one == last) by {
            if kept.contains(one) {
                let k = choose|k: int| 0 <= k < kept.len() && kept[k] == one;
                assert(kept.push(last)[k] == one);
            }
            if one == last {
                assert(kept.push(last)[kept.len() as int] == one);
            }
        }
        if forall|i: int| 0 <= i < list.len() ==> !replaced((#[trigger] list[i]).net, net) {
            assert(!replaced(list[list.len() - 1].net, net));
            assert forall|i: int| 0 <= i < rest.len() implies !replaced((#[trigger] rest[i]).net, net) by {
                assert(rest[i] == list[i]);
            }
        }
    } else {
        assert(unloaded(list, net) =~= list);
    }
}

/// Marking every policy has each start afresh and changes nothing else of it; marking one does so to the
/// first that drives that network, and leaves the others.
pub proof fn what_marking_changes(before: Seq<Loaded>, after: Seq<Loaded>, net: Net, k: int)
    requires
        0 <= k < before.len(),
    ensures
        marked(before, after) ==> {
            &&& after.len() == before.len()
            &&& after[k].policy.needs_reset
            &&& after[k].net == before[k].net
            &&& after[k].policy.last_output == before[k].policy.last_output && after[k].policy.failed
                == before[k].policy.failed && after[k].policy.period_us == before[k].policy.period_us
        },
        afresh(before, after, net) ==> {
            &&& after.len() == before.len()
            &&& after[k].net == before[k].net
            &&& before[k].net != net ==> after[k] == before[k]
            &&& before[k].net == net && (forall|i: int| 0 <= i < k ==> (#[trigger] before[i]).net != net)
                ==> after[k].policy.needs_reset && after[k].policy.last_output == before[k].policy.last_output
        },
{
    if afresh(before, after, net) {
        let at = choose|at: int|
            {
                &&& 0 <= at < before.len()
                &&& (#[trigger] before[at]).net == net
                &&& forall|i: int| 0 <= i < at ==> (#[trigger] before[i]).net != net
                &&& after == before.update(
                    at,
                    Loaded { net, policy: CustomPolicy { needs_reset: true, ..before[at].policy } },
                )
            };
        if before[k].net == net && (forall|i: int| 0 <= i < k ==> (#[trigger] before[i]).net != net) {
            assert(at == k) by {
                if at < k {
                    assert(before[at].net != net);
                }
                if k < at {
                    assert(before[k].net != net);
                }
            }
        }
    }
}

/// A new episode waits once, however often it is asked for, and no other is lost by it.
pub proof fn an_episode_waits_once(c: Controller, after: Controller, net: Net, other: Net)
    requires
        c.queued(after, net),
    ensures
        after.entry.pending@.contains(net),
        c.entry.pending@.contains(other) ==> after.entry.pending@.contains(other),
        after.entry.pending@.contains(other) ==> other == net || c.entry.pending@.contains(other),
        c.entry.pending@.contains(net) ==> after.entry.pending@ == c.entry.pending@,
        after.entry.active == c.entry.active,
{
    lemma_push_contains(c.entry.pending@, net, net);
    lemma_push_contains(c.entry.pending@, net, other);
}

/// A network is named to people by its own name.
pub proof fn what_people_call_a_network()
    ensures
        net_label(Net::Walk) == "Walk"@,
        net_label(Net::Stand) == "Stand"@,
        net_label(Net::SitStand) == "SitStand"@,
        net_label(Net::GroundPick) == "GroundPick"@,
        net_label(Net::KickLeft) == "KickLeft"@,
        net_label(Net::KickRight) == "KickRight"@,
        net_label(Net::Roulade) == "Roulade"@,
{
}

/// Loading and dropping policies touches no window: what was under way stays under way.
pub proof fn policies_change_under_a_schedule(c: Controller, after: Controller)
    requires
        c.same_schedule(after),
    ensures
        after.kick == c.kick && after.roulade == c.roulade && after.roulade_chain == c.roulade_chain,
        after.ground_pick == c.ground_pick && after.sit == c.sit && after.skills == c.skills && after.has == c.has,
        after.standing_threshold == c.standing_threshold && after.standing_disabled == c.standing_disabled,
        after.moving() == c.moving(),
{
}

} // verus!
