//! What the *board* says about itself, as opposed to what the robot says.
//!
//! The kernel exposes every thermal sensor it knows about as a directory with a `temp` file.
//! The caller reads those; this decides what they amount to.

use crate::number::{number, parse_number, Number, MOST, ONE};
use crate::scan::{chars_of, is_at, stands_at, trim, trimmed};
use vstd::prelude::*;

verus! {

/// Millidegrees Celsius, per the kernel's thermal sysfs ABI.
pub const MILLI_PER_DEGREE: u128 = 1000;

/// What [`hottest_zone_c`] counts a degree in: billionths of a millidegree.
pub const PARTS_PER_DEGREE: u128 = 1_000_000_000_000;

/// One entry of the thermal directory: its name, and what its `temp` file said, if it could be
/// read at all.
pub struct Entry {
    pub name: String,
    pub raw: Option<String>,
}

impl Entry {
    /// The temperature this entry reports, in billionths of a millidegree. Nothing for an entry
    /// that is no thermal zone, that cannot be read, or that reads as zero, below zero, or
    /// nonsense: a fault is likelier than a freezing board. What is above zero counts for
    /// something, and what is past the largest count for that.
    pub open spec fn temperature(self) -> Option<u128> {
        match self.raw {
            Some(raw) if stands_at(self.name@, "thermal_zone"@, 0) => match number(trimmed(raw@)) {
                Some(n) if n.positive() => Some(n.count()),
                _ => None,
            },
            _ => None,
        }
    }
}

fn read_temperature(entry: &Entry) -> (t: Option<u128>)
    ensures
        t == entry.temperature(),
{
    let name = chars_of(entry.name.as_str());
    let prefix = chars_of("thermal_zone");
    if !is_at(name.as_slice(), prefix.as_slice(), 0) {
        return None;
    }
    match &entry.raw {
        None => None,
        Some(raw) => {
            let chars = chars_of(raw.as_str());
            let value = parse_number(trim(chars.as_slice()));
            match value {
                Some(n) => n.counted(),
                None => None,
            }
        },
    }
}

/// The hottest thermal zone on the board, in [`PARTS_PER_DEGREE`].
///
/// **The maximum across zones, not the CPU's alone.** Reporting the hottest of them is the
/// conservative answer to "is this board too hot", and it cannot silently omit the zone that
/// was actually climbing.
///
/// `None` when there are no readable zones, and never zero: a zone that reads as nonsense is
/// skipped.
pub fn hottest_zone_c(entries: &[Entry]) -> (hottest: Option<u128>)
    ensures
        match hottest {
            None => forall|i: int| 0 <= i < entries@.len() ==> (#[trigger] entries@[i]).temperature() is None,
            Some(t) => {
                &&& t > 0
                &&& exists|i: int|
                    0 <= i < entries@.len() && (#[trigger] entries@[i]).temperature() == Some(t)
                &&& forall|i: int|
                    0 <= i < entries@.len() && (#[trigger] entries@[i]).temperature() is Some
                        ==> entries@[i].temperature()->0 <= t
            },
        },
{
    let mut hottest: Option<u128> = None;
    let mut at: usize = 0;
    while at < entries.len()
        invariant
            at <= entries@.len(),
            match hottest {
                None => forall|i: int| 0 <= i < at ==> (#[trigger] entries@[i]).temperature() is None,
                Some(t) => {
                    &&& t > 0
                    &&& exists|i: int| 0 <= i < at && (#[trigger] entries@[i]).temperature() == Some(t)
                    &&& forall|i: int|
                        0 <= i < at && (#[trigger] entries@[i]).temperature() is Some
                            ==> entries@[i].temperature()->0 <= t
                },
            },
        decreases entries@.len() - at,
    {
        let ghost previous = hottest;
        let reading = read_temperature(&entries[at]);
        match reading {
            None => {},
            Some(t) => {
                let higher = match hottest {
                    None => true,
                    Some(high) => t > high,
                };
                if higher {
                    hottest = Some(t);
                    assert(entries@[at as int].temperature() == Some(t));
                }
            },
        }
        at = at + 1;
    }
    hottest
}

/// A zone that reads a plain number of millidegrees reports a thousandth of that many degrees.
pub proof fn millidegrees_are_thousandths(entry: Entry, milli: nat)
    requires
        entry.raw is Some,
        stands_at(entry.name@, "thermal_zone"@, 0),
        0 < milli,
        milli * ONE <= MOST,
        number(trimmed(entry.raw->0@)) == Some(
            (Number::Finite { negative: false, nanos: (milli * ONE) as u128, more: false }),
        ),
    ensures
        entry.temperature() is Some,
        entry.temperature()->0 * MILLI_PER_DEGREE == milli * PARTS_PER_DEGREE,
{
}

/// A zone counts where it is one, could be read, and reads above zero; nothing else does.
pub proof fn which_zones_count(entry: Entry)
    ensures
        entry.temperature() is Some <==> entry.raw is Some && stands_at(entry.name@, "thermal_zone"@, 0) && (
        number(trimmed(entry.raw->0@)) matches Some(Number::Finite { negative, nanos, more }) && !negative && (
        nanos > 0 || more)),
        entry.temperature() matches Some(t) ==> t > 0,
{
}

} // verus!
