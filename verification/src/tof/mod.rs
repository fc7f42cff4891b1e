//! The head's depth sensor: an 8x8 matrix of distances, once per scan.
//!
//! Raw zone distances and a per-zone status, in the sensor's own frame. There is no
//! reprojection: turning zones into directions needs the head's kinematics.

pub mod sensor;
pub mod status;

use vstd::prelude::*;

verus! {

/// The sensor's resolution.
pub const ROWS: usize = 8;

pub const COLS: usize = 8;

pub const ZONES: usize = 64;

/// Status code for "measured, nothing there".
pub const STATUS_NO_TARGET: u8 = 255;

/// One scan, as the driver produces it. The two lists are parallel and row-major; a distance is
/// only meaningful where the status says so.
pub struct Frame {
    pub rows: u8,
    pub cols: u8,
    pub distance_mm: Vec<i16>,
    pub status: Vec<u8>,
}

/// What one zone of a frame actually says.
///
/// The status byte is the difference between "nothing is there" and "I could not tell": empty
/// space is information, an unusable measurement is not.
#[derive(Debug, Clone, Copy, PartialEq, Eq, Structural)]
pub enum Zone {
    /// A measurement, in millimetres.
    Range(i16),
    /// The sensor looked and found nothing in range.
    NoTarget,
    /// The measurement failed. Carries the raw code.
    Unusable(u8),
}

/// Status codes of a usable range: valid, and valid with a large pulse.
pub open spec fn status_valid(status: u8) -> bool {
    status == 5 || status == 9
}

/// What a distance under a status says. A valid status with a distance that is not above zero is
/// no range: the sensor reports those on a failed convergence.
pub open spec fn reading(status: u8, distance: i16) -> Zone {
    if status_valid(status) {
        if distance > 0 {
            Zone::Range(distance)
        } else {
            Zone::Unusable(status)
        }
    } else if status == STATUS_NO_TARGET {
        Zone::NoTarget
    } else {
        Zone::Unusable(status)
    }
}

impl Frame {
    /// The status at an index; a missing one says that nothing is there.
    pub open spec fn status_at(self, index: int) -> u8 {
        if 0 <= index < self.status@.len() {
            self.status@[index]
        } else {
            STATUS_NO_TARGET
        }
    }

    /// The distance at an index, or zero.
    pub open spec fn distance_at(self, index: int) -> i16 {
        if 0 <= index < self.distance_mm@.len() {
            self.distance_mm@[index]
        } else {
            0
        }
    }

    /// What the zone at an index says.
    pub open spec fn zone_at(self, index: int) -> Zone {
        reading(self.status_at(index), self.distance_at(index))
    }

    /// The zone at `index`, interpreted. A short or ragged frame reads as no target.
    pub fn zone(&self, index: usize) -> (zone: Zone)
        ensures
            zone == self.zone_at(index as int),
    {
        let status: u8 = if index < self.status.len() {
            self.status[index]
        } else {
            STATUS_NO_TARGET
        };
        let distance: i16 = if index < self.distance_mm.len() {
            self.distance_mm[index]
        } else {
            0
        };
        if status == 5 || status == 9 {
            if distance > 0 {
                Zone::Range(distance)
            } else {
                Zone::Unusable(status)
            }
        } else if status == STATUS_NO_TARGET {
            Zone::NoTarget
        } else {
            Zone::Unusable(status)
        }
    }

    /// Every zone, row-major, interpreted.
    pub fn zones(&self) -> (zones: Vec<Zone>)
        ensures
            zones@ == Seq::new(self.distance_mm@.len(), |i: int| self.zone_at(i)),
    {
        let mut zones: Vec<Zone> = Vec::new();
        let mut at: usize = 0;
        while at < self.distance_mm.len()
            invariant
                at <= self.distance_mm@.len(),
                zones@.len() == at,
                forall|i: int| 0 <= i < at ==> zones@[i] == self.zone_at(i),
            decreases self.distance_mm@.len() - at,
        {
            zones.push(self.zone(at));
            at = at + 1;
        }
        proof {
            assert(zones@ =~= Seq::new(self.distance_mm@.len(), |i: int| self.zone_at(i)));
        }
        zones
    }

    /// How many of the first `n` zones carry a usable range.
    pub open spec fn ranges(self, n: nat) -> nat
        decreases n,
    {
        if n == 0 {
            0
        } else {
            self.ranges((n - 1) as nat) + (if self.zone_at(n - 1) is Range {
                1nat
            } else {
                0
            })
        }
    }

    /// How many zones carry a usable range: the one number that says whether the sensor is seeing
    /// anything at all.
    pub fn valid_count(&self) -> (count: usize)
        ensures
            count == self.ranges(self.distance_mm@.len()),
            count <= self.distance_mm@.len(),
    {
        let mut count: usize = 0;
        let mut at: usize = 0;
        while at < self.distance_mm.len()
            invariant
                at <= self.distance_mm@.len(),
                count <= at,
                count == self.ranges(at as nat),
            decreases self.distance_mm@.len() - at,
        {
            match self.zone(at) {
                Zone::Range(_) => {
                    count = count + 1;
                },
                _ => {},
            }
            at = at + 1;
        }
        count
    }
}

/// A reading is exactly one of three things, and only a valid status with a distance above zero
/// is a range: "nothing there" and "could not measure" are never confused.
pub proof fn a_status_decides_what_a_distance_means(status: u8, distance: i16)
    ensures
        reading(status, distance) is Range <==> status_valid(status) && distance > 0,
        reading(status, distance) is NoTarget <==> status == STATUS_NO_TARGET,
        reading(status, distance) matches Zone::Range(mm) ==> mm == distance,
        reading(status, distance) matches Zone::Unusable(code) ==> code == status,
{
}

/// Two codes out of all say that a distance is one, and one that the sensor looked and found nothing;
/// where a frame is too short to say, nothing is there.
pub proof fn what_a_code_says(frame: Frame, status: u8, distance: i16, index: int)
    ensures
        distance > 0 && (status == 5 || status == 9) ==> reading(status, distance) == Zone::Range(distance),
        distance <= 0 && (status == 5 || status == 9) ==> reading(status, distance) == Zone::Unusable(status),
        status == 255 ==> reading(status, distance) == Zone::NoTarget,
        status != 5 && status != 9 && status != 255 ==> reading(status, distance) == Zone::Unusable(status),
        index >= frame.status@.len() ==> frame.zone_at(index) == Zone::NoTarget,
        0 <= index < frame.status@.len() && index < frame.distance_mm@.len() ==> frame.zone_at(index)
            == reading(frame.status@[index], frame.distance_mm@[index]),
{
}

/// The number of ranges counts each zone that carries one, once.
pub proof fn ranges_are_counted(frame: Frame, n: nat)
    ensures
        frame.ranges(n) <= n,
        frame.zone_at(n as int) is Range ==> frame.ranges(n + 1) == frame.ranges(n) + 1,
        !(frame.zone_at(n as int) is Range) ==> frame.ranges(n + 1) == frame.ranges(n),
        frame.ranges(0) == 0,
    decreases n,
{
    if n > 0 {
        ranges_are_counted(frame, (n - 1) as nat);
    }
}

} // verus!
