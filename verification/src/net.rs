//! The networks a duck carries, one per thing it was taught to do.

use crate::scan::same_text;
use vstd::prelude::*;

verus! {

#[derive(Debug, Clone, Copy, PartialEq, Eq, Structural)]
pub enum Net {
    Walk,
    Stand,
    SitStand,
    GroundPick,
    KickLeft,
    KickRight,
    Roulade,
}

impl Net {
    /// The name of a network's slot.
    pub open spec fn name(self) -> Seq<char> {
        match self {
            Net::Walk => "walk"@,
            Net::Stand => "stand"@,
            Net::SitStand => "sitstand"@,
            Net::GroundPick => "ground_pick"@,
            Net::KickLeft => "kick_left"@,
            Net::KickRight => "kick_right"@,
            Net::Roulade => "roulade"@,
        }
    }

    pub fn id(self) -> (id: &'static str)
        ensures
            id@ == self.name(),
    {
        match self {
            Net::Walk => "walk",
            Net::Stand => "stand",
            Net::SitStand => "sitstand",
            Net::GroundPick => "ground_pick",
            Net::KickLeft => "kick_left",
            Net::KickRight => "kick_right",
            Net::Roulade => "roulade",
        }
    }

    /// The networks in the order of their names.
    pub open spec fn listed(at: int) -> Net {
        if at == 0 {
            Net::GroundPick
        } else if at == 1 {
            Net::KickLeft
        } else if at == 2 {
            Net::KickRight
        } else if at == 3 {
            Net::Roulade
        } else if at == 4 {
            Net::SitStand
        } else if at == 5 {
            Net::Stand
        } else {
            Net::Walk
        }
    }

    pub fn at(at: usize) -> (net: Net)
        requires
            at < NETS,
        ensures
            net == Net::listed(at as int),
    {
        if at == 0 {
            Net::GroundPick
        } else if at == 1 {
            Net::KickLeft
        } else if at == 2 {
            Net::KickRight
        } else if at == 3 {
            Net::Roulade
        } else if at == 4 {
            Net::SitStand
        } else if at == 5 {
            Net::Stand
        } else {
            Net::Walk
        }
    }

    /// The network a slot's name stands for.
    pub fn parse(id: &str) -> (net: Option<Net>)
        ensures
            match net {
                Some(n) => n.name() == id@,
                None => forall|n: Net| n.name() != id@,
            },
    {
        let mut at: usize = 0;
        while at < NETS
            invariant
                at <= NETS,
                forall|i: int| 0 <= i < at ==> (#[trigger] Net::listed(i)).name() != id@,
            decreases NETS - at,
        {
            let net = Net::at(at);
            if same_text(net.id(), id) {
                return Some(net);
            }
            at = at + 1;
        }
        proof {
            assert forall|n: Net| n.name() != id@ by {
                assert(Net::listed(0) == Net::GroundPick);
                assert(Net::listed(1) == Net::KickLeft);
                assert(Net::listed(2) == Net::KickRight);
                assert(Net::listed(3) == Net::Roulade);
                assert(Net::listed(4) == Net::SitStand);
                assert(Net::listed(5) == Net::Stand);
                assert(Net::listed(6) == Net::Walk);
            }
        }
        None
    }

    /// Whether a network is one of the two that stand and walk by turns.
    pub open spec fn locomotion(self) -> bool {
        self == Net::Walk || self == Net::Stand
    }

    /// The other of the two that walk and stand.
    pub open spec fn partner(self) -> Option<Net> {
        match self {
            Net::Walk => Some(Net::Stand),
            Net::Stand => Some(Net::Walk),
            _ => None,
        }
    }

    pub fn peer(self) -> (peer: Option<Net>)
        ensures
            peer == self.partner(),
    {
        match self {
            Net::Walk => Some(Net::Stand),
            Net::Stand => Some(Net::Walk),
            _ => None,
        }
    }
}

/// How many networks there are.
pub const NETS: usize = 7;

/// No two networks share a name.
pub proof fn names_differ(a: Net, b: Net)
    requires
        a.name() == b.name(),
    ensures
        a == b,
{
    reveal_strlit("walk");
    reveal_strlit("stand");
    reveal_strlit("sitstand");
    reveal_strlit("ground_pick");
    reveal_strlit("kick_left");
    reveal_strlit("kick_right");
    reveal_strlit("roulade");
    assert(a.name().len() == b.name().len());
    assert("walk"@[0] == 'w');
    assert("stand"@[0] == 's' && "stand"@.len() == 5);
    assert("sitstand"@.len() == 8);
    assert("ground_pick"@.len() == 11);
    assert("kick_left"@.len() == 9);
    assert("kick_right"@.len() == 10);
    assert("roulade"@.len() == 7);
}

/// Walking and standing are the two that take turns, and each is the other's partner; no other network
/// has one.
pub proof fn who_takes_turns(net: Net)
    ensures
        net.locomotion() <==> net.partner() is Some,
        Net::Walk.partner() == Some(Net::Stand),
        Net::Stand.partner() == Some(Net::Walk),
        net.partner() matches Some(other) ==> other != net && other.partner() == Some(net),
        net != Net::Walk && net != Net::Stand ==> net.partner() is None,
{
}

/// Every network is listed once, in the order of the names.
pub proof fn every_network_is_listed(net: Net, i: int, j: int)
    requires
        0 <= i < 7,
        0 <= j < 7,
    ensures
        exists|k: int| 0 <= k < 7 && #[trigger] Net::listed(k) == net,
        Net::listed(i) == Net::listed(j) ==> i == j,
        Net::listed(0).name() == "ground_pick"@,
        Net::listed(1).name() == "kick_left"@,
        Net::listed(2).name() == "kick_right"@,
        Net::listed(3).name() == "roulade"@,
        Net::listed(4).name() == "sitstand"@,
        Net::listed(5).name() == "stand"@,
        Net::listed(6).name() == "walk"@,
{
    match net {
        Net::GroundPick => {
            assert(Net::listed(0) == net);
        },
        Net::KickLeft => {
            assert(Net::listed(1) == net);
        },
        Net::KickRight => {
            assert(Net::listed(2) == net);
        },
        Net::Roulade => {
            assert(Net::listed(3) == net);
        },
        Net::SitStand => {
            assert(Net::listed(4) == net);
        },
        Net::Stand => {
            assert(Net::listed(5) == net);
        },
        Net::Walk => {
            assert(Net::listed(6) == net);
        },
    }
}

/// A network goes by its own name.
pub proof fn what_a_network_is_called()
    ensures
        Net::Walk.name() == "walk"@,
        Net::Stand.name() == "stand"@,
        Net::SitStand.name() == "sitstand"@,
        Net::GroundPick.name() == "ground_pick"@,
        Net::KickLeft.name() == "kick_left"@,
        Net::KickRight.name() == "kick_right"@,
        Net::Roulade.name() == "roulade"@,
{
}

} // verus!
