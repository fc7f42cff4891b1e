//! The depth theremin: a hand's distance in front of the beak becomes a note.
//!
//! **One gesture, three outputs.** Closeness drives the pitch, the level *and* how far the mouth
//! opens: literally one number, because a mouth that opens on a different curve from the pitch
//! reads as an animation playing over a sound.
//!
//! **An explicit mode.** It is up or it is down, and the only judgement made here is about the
//! *sensor*: is a frame recent enough to play. A frame that stops arriving takes the level to
//! zero and leaves the instrument in hand.

use crate::scan::{decimal, push_decimal, push_text, push_wide};
use vstd::prelude::*;

verus! {

/// How long a depth frame stays playable, in microseconds.
pub const FRAME_STALE_US: u64 = 500_000;

/// A hand that the tracker found. Distances and fractions are in the tracker's own units.
#[derive(Debug, Clone, Copy, PartialEq, Eq, Structural)]
pub struct Hand {
    pub range: u64,
    /// Where it is in the playable band, from far to near.
    pub closeness: u64,
    /// How many zones saw it.
    pub zones: u32,
    /// Whether it is a hand that was seen a moment ago, bridging a dropout.
    pub held: bool,
}

/// What clients are shown.
pub struct State {
    pub hand_range: Option<u64>,
    pub zones: u32,
    pub held: bool,
    /// What the sensor is actually saying about each zone.
    pub sensor: Option<String>,
    pub mouth: u64,
}

/// What one tick of the theremin produced. Not a frequency: that needs the duck's register,
/// which lives with its voice.
pub struct Note {
    /// Mouth opening to drive. A silent theremin is a *closed* mouth, and that has to be
    /// commanded too.
    pub mouth: u64,
    pub state: State,
    /// Where the hand is in the playable band. `None` is silence.
    pub closeness: Option<u64>,
}

/// What a tick calls for.
#[derive(Debug, Clone, Copy, PartialEq, Eq, Structural)]
pub enum Tick {
    /// The instrument is down: not silence, nothing.
    Nothing,
    /// The sensor is silent: forget the held hand, and close the beak.
    Silent,
    /// Track the hand in the newest frame.
    Track,
}

/// Whether a frame of this age can still be played.
pub open spec fn fresh(age_us: Option<u64>) -> bool {
    age_us matches Some(age) && age < FRAME_STALE_US
}

pub struct Theremin {
    /// Up or down. The whole state machine.
    pub active: bool,
}

impl Theremin {
    /// An instrument that is down.
    pub fn new() -> (t: Self)
        ensures
            !t.active,
    {
        Theremin { active: false }
    }

    /// Whether depth frames are arriving at all, given the age of the newest.
    pub fn has_frames(age_us: Option<u64>) -> (yes: bool)
        ensures
            yes == fresh(age_us),
    {
        match age_us {
            Some(age) => age < FRAME_STALE_US,
            None => false,
        }
    }

    /// Picks the instrument up, or puts it down, and says whether that changed anything. Either
    /// way the caller forgets the hand it was tracking: held notes do not survive being put down.
    pub fn set_active(&mut self, active: bool) -> (changed: bool)
        ensures
            final(self).active == active,
            changed == (old(self).active != active),
    {
        let changed = active != self.active;
        self.active = active;
        changed
    }

    /// What one tick calls for, given the age of the newest frame.
    pub fn tick(&self, age_us: Option<u64>) -> (tick: Tick)
        ensures
            tick == (if !self.active {
                Tick::Nothing
            } else if fresh(age_us) {
                Tick::Track
            } else {
                Tick::Silent
            }),
    {
        if !self.active {
            return Tick::Nothing;
        }
        if Theremin::has_frames(age_us) {
            Tick::Track
        } else {
            Tick::Silent
        }
    }
}

/// The note of a sensor that has stopped talking.
pub fn silence() -> (note: Note)
    ensures
        note.mouth == 0,
        note.closeness is None,
        note.state.mouth == 0,
        note.state.hand_range is None,
        note.state.zones == 0,
        !note.state.held,
        note.state.sensor matches Some(text) && text@ == "no depth frames"@,
{
    Note {
        mouth: 0,
        state: State {
            hand_range: None,
            zones: 0,
            held: false,
            sensor: Some("no depth frames".to_owned()),
            mouth: 0,
        },
        closeness: None,
    }
}

/// How many zones a frame has, by its histogram: a list of codes, each with the number of zones
/// that carry it.
pub open spec fn zones_of(histogram: Seq<(u8, usize)>) -> nat
    decreases histogram.len(),
{
    if histogram.len() == 0 {
        0
    } else {
        zones_of(histogram.drop_last()) + histogram.last().1 as nat
    }
}

/// How many zones carry a believed code.
pub open spec fn usable(histogram: Seq<(u8, usize)>, believed: Seq<u8>) -> nat
    decreases histogram.len(),
{
    if histogram.len() == 0 {
        0
    } else {
        usable(histogram.drop_last(), believed) + (if believed.contains(histogram.last().0) {
            histogram.last().1 as nat
        } else {
            0
        })
    }
}

/// The codes in the order in which they are listed: how many zones each covers, with a mark on the
/// ones that are acted on.
pub open spec fn codes_text(histogram: Seq<(u8, usize)>, believed: Seq<u8>) -> Seq<char>
    decreases histogram.len(),
{
    if histogram.len() == 0 {
        Seq::empty()
    } else {
        let (code, count) = histogram.last();
        codes_text(histogram.drop_last(), believed) + (if histogram.len() == 1 {
            ""@
        } else {
            " "@
        }) + decimal(code as nat) + (if believed.contains(code) {
            "*"@
        } else {
            ""@
        }) + ":"@ + decimal(count as nat)
    }
}

fn is_believed(believed: &[u8], code: u8) -> (yes: bool)
    ensures
        yes == believed@.contains(code),
{
    let mut at: usize = 0;
    while at < believed.len()
        invariant
            at <= believed@.len(),
            forall|i: int| 0 <= i < at ==> believed@[i] != code,
        decreases believed@.len() - at,
    {
        if believed[at] == code {
            return true;
        }
        at = at + 1;
    }
    false
}

/// A frame's histogram of status codes as a line: how many zones are usable, and how many zones
/// each code covers.
pub fn describe(histogram: &[(u8, usize)], believed: &[u8]) -> (text: String)
    ensures
        text@ == decimal(usable(histogram@, believed@)) + " usable · "@ + codes_text(
            histogram@,
            believed@,
        ),
{
    let mut total: u128 = 0;
    let mut codes = String::new();
    let mut at: usize = 0;
    proof {
        reveal_strlit("");
    }
    while at < histogram.len()
        invariant
            at <= histogram@.len(),
            total == usable(histogram@.take(at as int), believed@),
            total <= at * 0x1_0000_0000_0000_0000,
            codes@ == codes_text(histogram@.take(at as int), believed@),
            ""@.len() == 0,
        decreases histogram@.len() - at,
    {
        let (code, count) = histogram[at];
        let trusted = is_believed(believed, code);
        let ghost now = histogram@.take(at + 1);
        proof {
            assert(now.drop_last() =~= histogram@.take(at as int));
            assert(now.last() == (code, count));
        }
        if trusted {
            total = total + count as u128;
        }
        if at > 0 {
            push_text(&mut codes, " ");
        }
        push_decimal(&mut codes, code as u64);
        if trusted {
            push_text(&mut codes, "*");
        }
        push_text(&mut codes, ":");
        push_decimal(&mut codes, count as u64);
        proof {
            assert(codes@ =~= codes_text(now, believed@));
        }
        at = at + 1;
    }
    let mut text = String::new();
    push_wide(&mut text, total);
    push_text(&mut text, " usable · ");
    push_text(&mut text, codes.as_str());
    proof {
        assert(histogram@.take(at as int) =~= histogram@);
        assert(text@ =~= decimal(usable(histogram@, believed@)) + " usable · "@ + codes_text(
            histogram@,
            believed@,
        ));
    }
    text
}

/// The note of a frame in which the tracker found this hand, or none.
///
/// The beak opens as far as the note is high, which is the same number.
pub fn note_of(hand: Option<Hand>, histogram: &[(u8, usize)], believed: &[u8]) -> (note: Note)
    ensures
        note.closeness == (match hand {
            Some(h) => Some(h.closeness),
            None => None,
        }),
        note.mouth == (match hand {
            Some(h) => h.closeness,
            None => 0,
        }),
        note.state.mouth == note.mouth,
        note.state.hand_range == (match hand {
            Some(h) => Some(h.range),
            None => None,
        }),
        note.state.zones == (match hand {
            Some(h) => h.zones,
            None => 0,
        }),
        note.state.held == (hand matches Some(h) && h.held),
        note.state.sensor matches Some(text) && text@ == decimal(usable(histogram@, believed@))
            + " usable · "@ + codes_text(histogram@, believed@),
{
    let sensor = Some(describe(histogram, believed));
    match hand {
        Some(h) => Note {
            mouth: h.closeness,
            state: State {
                hand_range: Some(h.range),
                zones: h.zones,
                held: h.held,
                sensor,
                mouth: h.closeness,
            },
            closeness: Some(h.closeness),
        },
        None => Note {
            mouth: 0,
            state: State { hand_range: None, zones: 0, held: false, sensor, mouth: 0 },
            closeness: None,
        },
    }
}

/// No readout calls more zones usable than the frame has.
pub proof fn no_zone_is_usable_twice(histogram: Seq<(u8, usize)>, believed: Seq<u8>)
    ensures
        usable(histogram, believed) <= zones_of(histogram),
    decreases histogram.len(),
{
    if histogram.len() > 0 {
        no_zone_is_usable_twice(histogram.drop_last(), believed);
    }
}

/// A frame can be played while it is younger than half a second, and never where there is none.
pub proof fn how_long_a_frame_can_be_played(age_us: u64)
    ensures
        fresh(Some(age_us)) <==> age_us < 500_000,
        !fresh(None),
{
}

/// The zones of a frame are those of its codes together, and the usable ones those of the believed
/// codes.
pub proof fn zones_are_counted_by_code(histogram: Seq<(u8, usize)>, believed: Seq<u8>, code: u8, count: usize)
    ensures
        zones_of(histogram.push((code, count))) == zones_of(histogram) + count,
        believed.contains(code) ==> usable(histogram.push((code, count)), believed) == usable(
            histogram,
            believed,
        ) + count,
        !believed.contains(code) ==> usable(histogram.push((code, count)), believed) == usable(
            histogram,
            believed,
        ),
        zones_of(Seq::empty()) == 0,
        usable(Seq::empty(), believed) == 0,
{
    assert(histogram.push((code, count)).drop_last() =~= histogram);
}

/// A code is shown with how many zones it covers, a mark on it where it is acted on, and a space between
/// it and the one before.
pub proof fn how_a_code_is_shown(histogram: Seq<(u8, usize)>, believed: Seq<u8>, code: u8, count: usize)
    requires
        histogram.len() > 0,
    ensures
        codes_text(Seq::empty(), believed).len() == 0,
        believed.contains(code) ==> codes_text(histogram.push((code, count)), believed) == codes_text(
            histogram,
            believed,
        ) + " "@ + decimal(code as nat) + "*"@ + ":"@ + decimal(count as nat),
        !believed.contains(code) ==> codes_text(histogram.push((code, count)), believed) == codes_text(
            histogram,
            believed,
        ) + " "@ + decimal(code as nat) + ":"@ + decimal(count as nat),
{
    reveal_strlit("");
    assert(histogram.push((code, count)).drop_last() =~= histogram);
    let front = codes_text(histogram, believed) + " "@ + decimal(code as nat);
    assert(front + ""@ =~= front);
}

} // verus!
