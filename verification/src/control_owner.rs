//! One process-wide lease for operations that may replace or drive a policy or own the motors.

use crate::scan::push_text;
use vstd::prelude::*;

verus! {

#[derive(Debug, Clone, Copy, PartialEq, Eq, Structural)]
pub enum Owner {
    PolicyImport,
    MotorExperiment,
    PolicyExperiment,
}

impl Owner {
    /// The name a client sees.
    pub open spec fn name(self) -> Seq<char> {
        match self {
            Owner::PolicyImport => "policy_import"@,
            Owner::MotorExperiment => "motor_experiment"@,
            Owner::PolicyExperiment => "policy_experiment"@,
        }
    }

    pub fn as_str(self) -> (name: &'static str)
        ensures
            name@ == self.name(),
    {
        match self {
            Owner::PolicyImport => "policy_import",
            Owner::MotorExperiment => "motor_experiment",
            Owner::PolicyExperiment => "policy_experiment",
        }
    }
}

/// The lease, and who holds it.
pub struct ControlOwner {
    held: Option<Owner>,
}

impl View for ControlOwner {
    type V = Option<Owner>;

    closed spec fn view(&self) -> Option<Owner> {
        self.held
    }
}

/// What someone who is refused the lease is told.
pub open spec fn occupied(holder: Owner) -> Seq<char> {
    "机器人当前由 "@ + holder.name() + " 占用；请等待其结束或先放松"@
}

/// Who holds a lease after someone asked for it: whoever held it, or else the one who asked.
pub open spec fn acquired(held: Option<Owner>, wanted: Owner) -> Option<Owner> {
    match held {
        Some(holder) => Some(holder),
        None => Some(wanted),
    }
}

/// Who holds a lease after someone gave it up: no one, if it was theirs to give.
pub open spec fn released(held: Option<Owner>, expected: Owner) -> Option<Owner> {
    if held == Some(expected) {
        None
    } else {
        held
    }
}

impl Default for ControlOwner {
    /// A lease nobody holds.
    fn default() -> (lease: Self)
        ensures
            lease@ == None::<Owner>,
    {
        ControlOwner { held: None }
    }
}

impl ControlOwner {
    pub fn current(&self) -> (holder: Option<Owner>)
        ensures
            holder == self@,
    {
        self.held
    }

    /// Takes the lease, or goes on holding it. Acquiring an already-owned lease is idempotent for
    /// the owning subsystem: this lets a chunked upload continue while every competing subsystem
    /// is still rejected. `true` when this call created the lease.
    pub fn acquire(&mut self, wanted: Owner) -> (created: Result<bool, String>)
        ensures
            final(self)@ == acquired(old(self)@, wanted),
            match created {
                Ok(new) => acquired(old(self)@, wanted) == Some(wanted) && new == (old(self)@ is None),
                Err(why) => old(self)@ matches Some(holder) && holder != wanted && why@ == occupied(
                    holder,
                ),
            },
    {
        match self.held {
            None => {
                self.held = Some(wanted);
                Ok(true)
            },
            Some(current) => {
                if current == wanted {
                    Ok(false)
                } else {
                    let mut why = String::new();
                    push_text(&mut why, "机器人当前由 ");
                    push_text(&mut why, current.as_str());
                    push_text(&mut why, " 占用；请等待其结束或先放松");
                    proof {
                        assert(why@ =~= occupied(current));
                    }
                    Err(why)
                }
            },
        }
    }

    /// Gives the lease up, if `expected` holds it.
    pub fn release(&mut self, expected: Owner)
        ensures
            final(self)@ == released(old(self)@, expected),
    {
        match self.held {
            Some(current) => {
                if current == expected {
                    self.held = None;
                }
            },
            None => {},
        }
    }
}

/// The lease is exclusive: while someone holds it, no one else gets it by asking and no one else
/// can give it up; asking again changes nothing; and what was taken and given up is free again.
pub proof fn the_lease_is_exclusive(held: Option<Owner>, one: Owner, other: Owner)
    requires
        one != other,
    ensures
        held is None ==> acquired(held, one) == Some(one),
        held == Some(one) ==> acquired(held, other) == Some(one),
        held == Some(one) ==> released(held, other) == Some(one),
        acquired(acquired(held, one), one) == acquired(held, one),
        held is None ==> released(acquired(held, one), one) == held,
{
}

/// Only who holds the lease can give it up, and giving it up leaves it to nobody.
pub proof fn giving_up_frees_the_lease(held: Option<Owner>, owner: Owner)
    ensures
        held == Some(owner) ==> released(held, owner) is None,
        held != Some(owner) ==> released(held, owner) == held,
        acquired(held, owner) is Some,
        held is Some ==> acquired(held, owner) == held,
        Owner::PolicyImport.name() == "policy_import"@,
        Owner::MotorExperiment.name() == "motor_experiment"@,
        Owner::PolicyExperiment.name() == "policy_experiment"@,
{
}

} // verus!
