//! The robot's voice, at play time: who holds the sound card, and what is written to it.
//!
//! The card is exclusive and single-client, which decides everything here. A new sound cuts the
//! one before it; a ride, an instrument or a chorale holds the card until it is put down; and a
//! ride has *two* exits that are not the same sound: a client that says "released" cuts it, while
//! a hold that merely went stale lands it.
//!
//! The caller owns the player process. It is asked to stop one, told what to start, and reports
//! back what became of it.

use crate::chorale::score::Note;
use crate::chorale::Part;
use crate::scan::{chars_of, spells};
use vstd::prelude::*;

verus! {

/// How long the blocking goodbye may hold up the power-off, in milliseconds: a ceiling on a
/// wedged card, not a playback budget.
pub const BLOCKING_PLAY_MAX_MS: u64 = 1500;

/// How far ahead of playback a synthesized voice is written, in microseconds. An instrument's
/// whole quality is this number.
pub const SYNTH_LEAD_US: u64 = 30_000;

/// How far ahead of playback a ride is written, in microseconds. More would only delay its
/// release.
pub const RIDE_LEAD_US: u64 = 250_000;

/// How many bytes of a ride are written at a time.
pub const CHUNK: usize = 8192;

/// What owns the sound card.
#[derive(Debug, Clone, Copy, PartialEq, Eq, Structural)]
pub enum Ride {
    /// Nothing. The card is free for one-shots.
    Off,
    /// A ride: start and loop are being streamed into an open pipe.
    Riding,
    /// The end of a ride, or an instrument fading out. Reaped when the player exits.
    Landing,
    /// An instrument, until the loop takes it away.
    Theremin,
    /// One part of a chorale.
    Singing,
}

/// What the ride trigger currently says.
#[derive(Debug, Clone, Copy, PartialEq, Eq, Structural)]
pub enum WheeeHold {
    Held,
    /// A client said so.
    Released,
    /// The hold went stale: the client stopped re-notifying, or stopped existing.
    Decayed,
}

/// What became of the player process.
#[derive(Debug, Clone, Copy, PartialEq, Eq, Structural)]
pub enum Child {
    Running,
    /// Exited, or cannot be asked.
    Gone,
}

/// What the ride trigger asks the caller to do.
#[derive(Debug, Clone, Copy, PartialEq, Eq, Structural)]
pub enum Trigger {
    Nothing,
    /// Start a ride: whatever was playing has been stopped.
    Start,
    /// Whatever was playing has been stopped.
    Cut,
}

/// Whether an instrument or a part may be started.
#[derive(Debug, Clone, Copy, PartialEq, Eq, Structural)]
pub enum Taking {
    /// It is already playing, and is left playing.
    Already,
    /// This robot has no voice; `warn` the first time that is noticed.
    NoVoice { warn: bool },
    /// The card is free: open it.
    Go,
}

/// Who holds the card, and what the writer has been told.
pub struct Player {
    ride: Ride,
    /// Whether a player process is kept.
    child: bool,
    /// The rider loops while this holds.
    held: bool,
    /// Whether a writer is rendering from live parameters.
    live: bool,
    /// The piece and part being sung.
    singing: Option<(String, Part)>,
    /// A missing voice is logged once.
    warned: bool,
}

/// The state of a player.
#[verifier::ext_equal]
pub struct Playing {
    pub ride: Ride,
    pub child: bool,
    pub held: bool,
    pub live: bool,
    pub singing: Option<(Seq<char>, Part)>,
    pub warned: bool,
}

/// What stopping whatever is on the card leaves.
pub open spec fn stopped(s: Playing) -> Playing {
    Playing {
        ride: Ride::Off,
        child: false,
        held: false,
        live: false,
        singing: None,
        warned: s.warned,
    }
}

/// What landing a ride leaves: the writer is let out of its loop with the pipe still open. Where
/// there is no process there is nothing to land.
pub open spec fn landed(s: Playing) -> Playing {
    Playing {
        ride: if s.child {
            Ride::Landing
        } else {
            Ride::Off
        },
        held: false,
        ..s
    }
}

/// What asking after a landing process leaves.
pub open spec fn reaped(s: Playing, child: Child) -> Playing {
    if !s.child || child == Child::Gone {
        Playing { ride: Ride::Off, child: false, ..s }
    } else {
        s
    }
}

impl Player {
    pub closed spec fn state(self) -> Playing {
        Playing {
            ride: self.ride,
            child: self.child,
            held: self.held,
            live: self.live,
            singing: match self.singing {
                Some((name, part)) => Some((name@, part)),
                None => None,
            },
            warned: self.warned,
        }
    }

    /// What every player keeps to: a rider loops only while riding, a piece is sung only while
    /// singing, and an instrument or a part always has a writer.
    pub open spec fn valid(self) -> bool {
        playing_valid(self.state())
    }

    pub fn new() -> (p: Self)
        ensures
            p.valid(),
            p.state() == (Playing {
                ride: Ride::Off,
                child: false,
                held: false,
                live: false,
                singing: None,
                warned: false,
            }),
    {
        Player { ride: Ride::Off, child: false, held: false, live: false, singing: None, warned: false }
    }

    pub fn ride(&self) -> (ride: Ride)
        ensures
            ride == self.state().ride,
    {
        self.ride
    }

    pub fn has_child(&self) -> (yes: bool)
        ensures
            yes == self.state().child,
    {
        self.child
    }

    pub fn is_held(&self) -> (yes: bool)
        ensures
            yes == self.state().held,
    {
        self.held
    }

    pub fn is_live(&self) -> (yes: bool)
        ensures
            yes == self.state().live,
    {
        self.live
    }

    /// Stops whatever is on the card, now. Says whether there is a process to end.
    pub fn stop_child(&mut self) -> (kill: bool)
        ensures
            final(self).state() == stopped(old(self).state()),
            kill == old(self).state().child,
            final(self).valid(),
    {
        let kill = self.child;
        self.held = false;
        self.live = false;
        self.singing = None;
        self.ride = Ride::Off;
        self.child = false;
        kill
    }

    /// Whether a one-shot may play. A ride owns the card for as long as it lasts: the one-shot is
    /// dropped, not queued. The blocking goodbye is the one exception.
    ///
    /// Where it may, what was playing has been stopped, and the answer says whether there is a
    /// process to end.
    pub fn play(&mut self, blocking: bool) -> (go: Option<bool>)
        ensures
            go is Some <==> blocking || old(self).state().ride == Ride::Off,
            go matches Some(kill) ==> kill == old(self).state().child && final(self).state()
                == stopped(old(self).state()) && final(self).valid(),
            go is None ==> final(self).state() == old(self).state(),
    {
        if self.ride != Ride::Off && !blocking {
            return None;
        }
        Some(self.stop_child())
    }

    /// The bank has no such sound, or the robot no voice: whether to say so.
    pub fn missing(&mut self) -> (warn: bool)
        ensures
            warn == !old(self).state().warned,
            final(self).state() == (Playing { warned: true, ..old(self).state() }),
    {
        let warn = !self.warned;
        self.warned = true;
        warn
    }

    /// A one-shot is playing.
    pub fn playing(&mut self)
        requires
            old(self).valid(),
        ensures
            final(self).valid(),
            final(self).state() == (Playing { child: true, ..old(self).state() }),
    {
        self.child = true;
    }

    /// Takes the card for an instrument. An instrument already in hand is left playing, because
    /// restarting it would drop the note the player is in the middle of.
    pub fn theremin_start(&mut self, has_voice: bool) -> (taking: Taking)
        requires
            old(self).valid(),
        ensures
            final(self).valid(),
            ({
                let s = old(self).state();
                if s.ride == Ride::Theremin && s.live {
                    taking == Taking::Already && final(self).state() == s
                } else if !has_voice {
                    taking == Taking::NoVoice { warn: !s.warned } && final(self).state() == (Playing {
                        warned: true,
                        ..s
                    })
                } else {
                    taking == Taking::Go && final(self).state() == stopped(s)
                }
            }),
    {
        if self.ride == Ride::Theremin && self.live {
            return Taking::Already;
        }
        if !has_voice {
            let warn = self.missing();
            return Taking::NoVoice { warn };
        }
        self.stop_child();
        Taking::Go
    }

    /// The instrument's pipe is open and its writer runs.
    pub fn theremin_up(&mut self)
        requires
            old(self).valid(),
            old(self).state().ride == Ride::Off,
        ensures
            final(self).valid(),
            final(self).state() == (Playing {
                ride: Ride::Theremin,
                child: true,
                live: true,
                ..old(self).state()
            }),
    {
        self.child = true;
        self.ride = Ride::Theremin;
        self.live = true;
    }

    /// Takes the card to sing one part of a piece. The same piece and part again is left alone;
    /// a different one restarts the voice.
    pub fn sing_start(&mut self, piece: &str, part: Part, has_voice: bool) -> (taking: Taking)
        requires
            old(self).valid(),
        ensures
            final(self).valid(),
            ({
                let s = old(self).state();
                if s.ride == Ride::Singing && s.live && s.singing == Some((piece@, part)) {
                    taking == Taking::Already && final(self).state() == s
                } else if !has_voice {
                    taking == Taking::NoVoice { warn: !s.warned } && final(self).state() == (Playing {
                        warned: true,
                        ..s
                    })
                } else {
                    taking == Taking::Go && final(self).state() == stopped(s)
                }
            }),
    {
        let same = match &self.singing {
            Some((name, sung)) => {
                let chars = chars_of(name.as_str());
                *sung == part && spells(chars.as_slice(), piece)
            },
            None => false,
        };
        if self.ride == Ride::Singing && same && self.live {
            return Taking::Already;
        }
        if !has_voice {
            let warn = self.missing();
            return Taking::NoVoice { warn };
        }
        self.stop_child();
        Taking::Go
    }

    /// The part's pipe is open and its writer runs.
    pub fn sing_up(&mut self, piece: &str, part: Part)
        requires
            old(self).valid(),
            old(self).state().ride == Ride::Off,
        ensures
            final(self).valid(),
            final(self).state() == (Playing {
                ride: Ride::Singing,
                child: true,
                live: true,
                singing: Some((piece@, part)),
                ..old(self).state()
            }),
    {
        self.child = true;
        self.ride = Ride::Singing;
        self.live = true;
        self.singing = Some((piece.to_owned(), part));
    }

    /// Stops singing: the writer fades out and lets the card go. Says whether there was a writer
    /// to tell.
    pub fn sing_stop(&mut self) -> (fade: bool)
        requires
            old(self).valid(),
        ensures
            final(self).valid(),
            if old(self).state().ride == Ride::Singing {
                fade == old(self).state().live && final(self).state() == (Playing {
                    ride: Ride::Landing,
                    live: false,
                    singing: None,
                    ..old(self).state()
                })
            } else {
                !fade && final(self).state() == old(self).state()
            },
    {
        if self.ride != Ride::Singing {
            return false;
        }
        let fade = self.live;
        self.live = false;
        self.singing = None;
        self.ride = Ride::Landing;
        fade
    }

    /// Puts the instrument down: the note fades out, then the card is let go.
    pub fn theremin_stop(&mut self) -> (fade: bool)
        requires
            old(self).valid(),
        ensures
            final(self).valid(),
            if old(self).state().ride == Ride::Theremin {
                fade == old(self).state().live && final(self).state() == (Playing {
                    ride: Ride::Landing,
                    live: false,
                    ..old(self).state()
                })
            } else {
                !fade && final(self).state() == old(self).state()
            },
    {
        if self.ride != Ride::Theremin {
            return false;
        }
        let fade = self.live;
        self.live = false;
        self.ride = Ride::Landing;
        fade
    }

    /// Frees the card once a faded-out instrument's process is gone. Until then the card is still
    /// held, so a quack right after letting go is dropped rather than talking over the tail.
    pub fn theremin_settle(&mut self, child: Child)
        requires
            old(self).valid(),
        ensures
            final(self).valid(),
            final(self).state() == (if old(self).state().ride == Ride::Landing && !old(
                self,
            ).state().live {
                reaped(old(self).state(), child)
            } else {
                old(self).state()
            }),
    {
        if self.ride == Ride::Landing && !self.live {
            self.reap_landing(child);
        }
    }

    fn reap_landing(&mut self, child: Child)
        requires
            old(self).valid(),
            old(self).state().ride == Ride::Landing,
        ensures
            final(self).valid(),
            final(self).state() == reaped(old(self).state(), child),
    {
        if !self.child || child == Child::Gone {
            self.child = false;
            self.ride = Ride::Off;
        }
    }

    fn land_ride(&mut self)
        requires
            old(self).valid(),
            old(self).state().ride == Ride::Riding,
        ensures
            final(self).valid(),
            final(self).state() == landed(old(self).state()),
    {
        self.held = false;
        self.ride = Ride::Landing;
        if !self.child {
            self.ride = Ride::Off;
        }
    }

    /// The ride, level-driven: called every tick with what the hold currently says.
    ///
    /// An instrument or a chorale keeps the card whatever the trigger does.
    pub fn wheee(&mut self, hold: WheeeHold, child: Child) -> (asked: Trigger)
        requires
            old(self).valid(),
        ensures
            final(self).valid(),
            (asked, final(self).state()) == trigger(old(self).state(), hold, child),
    {
        if self.ride == Ride::Theremin || self.ride == Ride::Singing {
            return Trigger::Nothing;
        }
        match hold {
            WheeeHold::Held => {
                if self.ride != Ride::Riding {
                    self.stop_child();
                    return Trigger::Start;
                }
            },
            WheeeHold::Released => {
                if self.ride != Ride::Off {
                    self.stop_child();
                    return Trigger::Cut;
                }
            },
            WheeeHold::Decayed => {
                if self.ride == Ride::Riding {
                    self.land_ride();
                } else if self.ride == Ride::Landing {
                    self.reap_landing(child);
                }
            },
        }
        Trigger::Nothing
    }

    /// A ride is streaming: start, then loop while held, then end.
    pub fn riding(&mut self)
        requires
            old(self).valid(),
            old(self).state().ride == Ride::Off,
        ensures
            final(self).valid(),
            final(self).state() == (Playing {
                ride: Ride::Riding,
                child: true,
                held: true,
                ..old(self).state()
            }),
    {
        self.child = true;
        self.ride = Ride::Riding;
        self.held = true;
    }

    /// The bank has no ride, and the plain one-shot was tried instead. The ride is latched
    /// anyway: the trigger asks every tick, and without a latch it would start a process fifty
    /// times a second for as long as it is held.
    pub fn degraded(&mut self)
        requires
            old(self).valid(),
            old(self).state().ride == Ride::Off,
        ensures
            final(self).valid(),
            final(self).state() == (Playing { ride: Ride::Riding, ..old(self).state() }),
    {
        self.ride = Ride::Riding;
    }
}

/// What every player keeps to.
pub open spec fn playing_valid(s: Playing) -> bool {
    &&& s.held ==> s.ride == Ride::Riding && s.child
    &&& s.singing is Some <==> s.ride == Ride::Singing
    &&& s.live <==> (s.ride == Ride::Theremin || s.ride == Ride::Singing)
}

/// What the ride trigger does to a player.
pub open spec fn trigger(s: Playing, hold: WheeeHold, child: Child) -> (Trigger, Playing) {
    if s.ride == Ride::Theremin || s.ride == Ride::Singing {
        (Trigger::Nothing, s)
    } else {
        match hold {
            WheeeHold::Held => if s.ride != Ride::Riding {
                (Trigger::Start, stopped(s))
            } else {
                (Trigger::Nothing, s)
            },
            WheeeHold::Released => if s.ride != Ride::Off {
                (Trigger::Cut, stopped(s))
            } else {
                (Trigger::Nothing, s)
            },
            WheeeHold::Decayed => if s.ride == Ride::Riding {
                (Trigger::Nothing, landed(s))
            } else if s.ride == Ride::Landing {
                (Trigger::Nothing, reaped(s, child))
            } else {
                (Trigger::Nothing, s)
            },
        }
    }
}

/// Both exits of a ride end with the card free: a release at once, a decayed hold as soon as the
/// process that plays the landing is gone. Neither leaves the rider looping.
pub proof fn both_exits_free_the_card(s: Playing)
    requires
        playing_valid(s),
        s.ride == Ride::Riding,
    ensures
        trigger(s, WheeeHold::Released, Child::Running).1.ride == Ride::Off,
        !trigger(s, WheeeHold::Released, Child::Running).1.held,
        ({
            let landing = trigger(s, WheeeHold::Decayed, Child::Running).1;
            &&& !landing.held
            &&& !s.child ==> landing.ride == Ride::Off
            &&& s.child ==> landing.ride == Ride::Landing && landing.child && trigger(
                landing,
                WheeeHold::Decayed,
                Child::Gone,
            ).1.ride == Ride::Off
        }),
{
}

/// A trigger that stays held starts a ride once: once riding, holding asks for nothing more.
pub proof fn a_held_trigger_does_not_re_enter(s: Playing, child: Child)
    requires
        playing_valid(s),
        s.ride == Ride::Riding,
    ensures
        trigger(s, WheeeHold::Held, child) == (Trigger::Nothing, s),
{
}

/// A 32-bit number, least significant byte first.
pub open spec fn le32(b: Seq<u8>, at: int) -> nat {
    (b[at] + b[at + 1] * 0x100 + b[at + 2] * 0x1_0000 + b[at + 3] * 0x100_0000) as nat
}

/// The chunks of a sound file from `pos` on, once a rate is known or zero before: the rate and
/// where the samples stand. A chunk is padded to an even length.
pub open spec fn samples_from(b: Seq<u8>, pos: int, rate: nat) -> Option<(nat, int, int)>
    decreases
        (if pos < b.len() {
            b.len() - pos
        } else {
            0
        }),
    when pos >= 0
{
    if pos + 8 > b.len() {
        None
    } else {
        let size = le32(b, pos + 4);
        let body = pos + 8;
        let next = body + size + size % 2;
        let tag = b.subrange(pos, pos + 4);
        if tag == seq![0x66u8, 0x6D, 0x74, 0x20] && body + 8 <= b.len() {
            samples_from(b, next, le32(b, body + 4))
        } else if tag == seq![0x64u8, 0x61, 0x74, 0x61] && rate > 0 {
            Some(
                (
                    rate,
                    body,
                    if body + size < b.len() {
                        body + size
                    } else {
                        b.len() as int
                    },
                ),
            )
        } else {
            samples_from(b, next, rate)
        }
    }
}

/// What a sound file holds: its sample rate, and its samples as raw bytes.
pub open spec fn wav_contents(b: Seq<u8>) -> Option<(nat, Seq<u8>)> {
    if b.len() < 12 || b.subrange(0, 4) != seq![0x52u8, 0x49, 0x46, 0x46] || b.subrange(8, 12) != seq![
        0x57u8,
        0x41,
        0x56,
        0x45,
    ] {
        None
    } else {
        match samples_from(b, 12, 0) {
            Some((rate, from, to)) => Some((rate, b.subrange(from, to))),
            None => None,
        }
    }
}

fn tagged(b: &[u8], at: usize, c0: u8, c1: u8, c2: u8, c3: u8) -> (yes: bool)
    requires
        at + 4 <= b@.len(),
    ensures
        yes == (b@.subrange(at as int, at + 4) == seq![c0, c1, c2, c3]),
{
    let yes = b[at] == c0 && b[at + 1] == c1 && b[at + 2] == c2 && b[at + 3] == c3;
    proof {
        let s = b@.subrange(at as int, at + 4);
        let t = seq![c0, c1, c2, c3];
        if yes {
            assert(s =~= t);
        } else {
            assert(s[0] != t[0] || s[1] != t[1] || s[2] != t[2] || s[3] != t[3]);
        }
    }
    yes
}

fn read_le32(b: &[u8], at: usize) -> (value: u32)
    requires
        at + 4 <= b@.len(),
    ensures
        value == le32(b@, at as int),
{
    b[at] as u32 + b[at + 1] as u32 * 0x100 + b[at + 2] as u32 * 0x1_0000 + b[at + 3] as u32
        * 0x100_0000
}

/// Reads a sound file: the sample rate and the raw samples. A minimal chunk walk, enough for the
/// mono 16-bit files that the voice bank contains.
pub fn read_wav_pcm(b: &[u8]) -> (read: Option<(u32, Vec<u8>)>)
    ensures
        match wav_contents(b@) {
            Some((rate, samples)) => read matches Some((r, s)) && r == rate && s@ == samples,
            None => read is None,
        },
{
    let size: usize = b.len();
    if size < 12 {
        return None;
    }
    if !tagged(b, 0, 0x52, 0x49, 0x46, 0x46) || !tagged(b, 8, 0x57, 0x41, 0x56, 0x45) {
        return None;
    }
    let mut rate: u32 = 0;
    let mut pos: usize = 12;
    while pos <= size - 8
        invariant
            size == b@.len(),
            size >= 12,
            pos <= size,
            samples_from(b@, 12, 0) == samples_from(b@, pos as int, rate as nat),
            wav_contents(b@) == (match samples_from(b@, 12, 0) {
                Some((rate, from, to)) => Some((rate, b@.subrange(from, to))),
                None => None,
            }),
        decreases size - pos,
    {
        let length: u64 = read_le32(b, pos + 4) as u64;
        let body: usize = pos + 8;
        let ghost at = pos as int;
        if tagged(b, pos, 0x66, 0x6D, 0x74, 0x20) && size - body >= 8 {
            rate = read_le32(b, body + 4);
        } else if tagged(b, pos, 0x64, 0x61, 0x74, 0x61) && rate > 0 {
            let to: usize = if length < (size - body) as u64 {
                body + length as usize
            } else {
                size
            };
            let mut samples: Vec<u8> = Vec::new();
            let mut k: usize = body;
            while k < to
                invariant
                    body <= k <= to <= b@.len(),
                    samples@ == b@.subrange(body as int, k as int),
                decreases to - k,
            {
                samples.push(b[k]);
                k = k + 1;
                assert(samples@ =~= b@.subrange(body as int, k as int));
            }
            return Some((rate, samples));
        }
        let step: u64 = length + length % 2;
        if step > (size - body) as u64 {
            proof {
                assert(samples_from(b@, at + 8 + step, rate as nat) is None);
            }
            return None;
        }
        pos = body + step as usize;
    }
    None
}

/// A piece of a ride.
#[derive(Debug, Clone, Copy, PartialEq, Eq, Structural)]
pub enum Stretch {
    Start,
    Loop,
    End,
}

/// What the ride's writer does next.
#[derive(Debug, Clone, Copy, PartialEq, Eq, Structural)]
pub enum Step {
    /// Write these bytes of a stretch.
    Write { stretch: Stretch, from: usize, to: usize },
    /// The loop is empty and still held: look again.
    Wait,
    Done,
}

/// Where a ride's writer is: the stretch, and how far into it.
#[derive(Debug, Clone, Copy, PartialEq, Eq, Structural)]
pub struct Rider {
    pub stretch: Stretch,
    pub at: usize,
}

/// How long each stretch of a ride is, in bytes.
#[derive(Debug, Clone, Copy, PartialEq, Eq, Structural)]
pub struct Lengths {
    pub start: usize,
    pub looped: usize,
    pub end: usize,
}

impl Lengths {
    pub open spec fn of(self, stretch: Stretch) -> usize {
        match stretch {
            Stretch::Start => self.start,
            Stretch::Loop => self.looped,
            Stretch::End => self.end,
        }
    }
}

/// The next chunk of a stretch.
pub open spec fn chunk_end(at: usize, length: usize) -> usize {
    if length - at < CHUNK {
        length
    } else {
        (at + CHUNK) as usize
    }
}

/// What a rider writes next. The hold is looked at only between passes of the loop, so a pass
/// that has begun is played out.
pub open spec fn ride_step(r: Rider, held: bool, lengths: Lengths) -> (Step, Rider) {
    match r.stretch {
        Stretch::Start if r.at < lengths.start => (
            Step::Write { stretch: r.stretch, from: r.at, to: chunk_end(r.at, lengths.start) },
            Rider { at: chunk_end(r.at, lengths.start), ..r },
        ),
        Stretch::Loop if 0 < r.at < lengths.looped => (
            Step::Write { stretch: r.stretch, from: r.at, to: chunk_end(r.at, lengths.looped) },
            Rider { at: chunk_end(r.at, lengths.looped), ..r },
        ),
        Stretch::End if r.at < lengths.end => (
            Step::Write { stretch: r.stretch, from: r.at, to: chunk_end(r.at, lengths.end) },
            Rider { at: chunk_end(r.at, lengths.end), ..r },
        ),
        Stretch::End => (Step::Done, r),
        _ => if held && lengths.looped == 0 {
            (Step::Wait, Rider { stretch: Stretch::Loop, at: 0 })
        } else if held {
            (
                Step::Write { stretch: Stretch::Loop, from: 0, to: chunk_end(0, lengths.looped) },
                Rider { stretch: Stretch::Loop, at: chunk_end(0, lengths.looped) },
            )
        } else if lengths.end == 0 {
            (Step::Done, Rider { stretch: Stretch::End, at: 0 })
        } else {
            (
                Step::Write { stretch: Stretch::End, from: 0, to: chunk_end(0, lengths.end) },
                Rider { stretch: Stretch::End, at: chunk_end(0, lengths.end) },
            )
        },
    }
}

fn next_end(at: usize, length: usize) -> (to: usize)
    requires
        at <= length,
    ensures
        to == chunk_end(at, length),
{
    if length - at < CHUNK {
        length
    } else {
        at + CHUNK
    }
}

impl Rider {
    pub fn new() -> (r: Self)
        ensures
            r == (Rider { stretch: Stretch::Start, at: 0 }),
    {
        Rider { stretch: Stretch::Start, at: 0 }
    }

    /// Whether the rider is inside its stretch, and inside a pass where it loops.
    pub open spec fn inside(self, lengths: Lengths) -> bool {
        &&& self.at <= lengths.of(self.stretch)
        &&& self.stretch == Stretch::Loop && lengths.looped > 0 ==> self.at > 0
    }

    /// What to write next.
    pub fn next(&mut self, held: bool, lengths: Lengths) -> (step: Step)
        requires
            old(self).inside(lengths),
        ensures
            final(self).inside(lengths),
            (step, *final(self)) == ride_step(*old(self), held, lengths),
    {
        match self.stretch {
            Stretch::Start => {
                if self.at < lengths.start {
                    let from = self.at;
                    self.at = next_end(from, lengths.start);
                    return Step::Write { stretch: Stretch::Start, from, to: self.at };
                }
            },
            Stretch::Loop => {
                if 0 < self.at && self.at < lengths.looped {
                    let from = self.at;
                    self.at = next_end(from, lengths.looped);
                    return Step::Write { stretch: Stretch::Loop, from, to: self.at };
                }
            },
            Stretch::End => {
                if self.at < lengths.end {
                    let from = self.at;
                    self.at = next_end(from, lengths.end);
                    return Step::Write { stretch: Stretch::End, from, to: self.at };
                }
                return Step::Done;
            },
        }
        if held {
            self.stretch = Stretch::Loop;
            self.at = 0;
            if lengths.looped == 0 {
                return Step::Wait;
            }
            self.at = next_end(0, lengths.looped);
            return Step::Write { stretch: Stretch::Loop, from: 0, to: self.at };
        }
        self.stretch = Stretch::End;
        self.at = 0;
        if lengths.end == 0 {
            return Step::Done;
        }
        self.at = next_end(0, lengths.end);
        Step::Write { stretch: Stretch::End, from: 0, to: self.at }
    }
}

/// A rider writes a stretch without a gap: each write begins where the last one in its stretch
/// ended, is not empty, and ends inside the stretch; and a ride that is over never starts again.
pub proof fn a_ride_has_no_gaps(r: Rider, held: bool, lengths: Lengths)
    requires
        r.inside(lengths),
    ensures
        ride_step(r, held, lengths).0 matches Step::Write { stretch, from, to } ==> {
            let next = ride_step(r, held, lengths).1;
            &&& from < to <= lengths.of(stretch)
            &&& next.stretch == stretch && next.at == to
            &&& stretch == r.stretch ==> from == r.at || from == 0
            &&& stretch != r.stretch ==> from == 0 && r.at == lengths.of(r.stretch)
        },
        r.stretch == Stretch::End ==> ride_step(r, held, lengths).1.stretch == Stretch::End,
        !held && r.stretch == Stretch::Loop && r.at == lengths.looped ==> ride_step(
            r,
            held,
            lengths,
        ).1.stretch == Stretch::End,
{
}

/// What to do about a sound that is being waited for.
#[derive(Debug, Clone, Copy, PartialEq, Eq, Structural)]
pub enum Wait {
    Over,
    Again,
    Kill,
}

/// Waits for a sound, but not forever: the robot is switched off behind the last one, and a clipped
/// goodbye is better than a robot that stays on.
pub fn wait_bounded(child: Child, elapsed_ms: u64) -> (wait: Wait)
    ensures
        wait == (if child == Child::Gone {
            Wait::Over
        } else if elapsed_ms >= BLOCKING_PLAY_MAX_MS {
            Wait::Kill
        } else {
            Wait::Again
        }),
        wait == Wait::Over <==> child == Child::Gone,
        wait == Wait::Kill <==> child == Child::Running && elapsed_ms >= 1_500,
{
    if child == Child::Gone {
        Wait::Over
    } else if elapsed_ms >= BLOCKING_PLAY_MAX_MS {
        Wait::Kill
    } else {
        Wait::Again
    }
}

/// How long a writer waits before its next block so that it stays `lead` ahead of playback, in
/// microseconds. Two bytes to the sample.
pub open spec fn wait_us(sent: int, rate: int, elapsed: int, lead: int) -> int {
    let played = (sent * 1_000_000) / (rate * 2);
    if played > elapsed + lead {
        played - elapsed - lead
    } else {
        0
    }
}

pub fn pace(sent: u64, rate: u32, elapsed_us: u64, lead_us: u64) -> (us: u128)
    requires
        rate > 0,
    ensures
        us == wait_us(sent as int, rate as int, elapsed_us as int, lead_us as int),
{
    let played: u128 = (sent as u128 * 1_000_000) / (rate as u128 * 2);
    let ahead: u128 = elapsed_us as u128 + lead_us as u128;
    if played > ahead {
        played - ahead
    } else {
        0
    }
}

/// Whether a note sounds at a place in the score that is `parts` of `per_tick` to the tick.
pub open spec fn sounds_at(note: Note, parts: int, per_tick: int) -> bool {
    note.start * per_tick <= parts < note.ends() * per_tick
}

/// Whether a sounding note is still held: it is released a little early, so that a change of
/// chord re-articulates rather than sliding.
pub open spec fn still_held(note: Note, parts: int, per_tick: int) -> bool {
    (parts - note.start * per_tick) * 100 < note.length * per_tick * 92
}

/// What a voice sings at a place in the score: the first note of its line that sounds there, and
/// whether it is still held.
pub fn note_at(line: &[Note], parts: i128, per_tick: u32) -> (found: Option<(usize, bool)>)
    requires
        per_tick > 0,
        -0x1_0000_0000_0000_0000_0000_0000 <= parts <= 0x1_0000_0000_0000_0000_0000_0000,
    ensures
        match found {
            Some((k, held)) => {
                &&& k < line@.len()
                &&& sounds_at(line@[k as int], parts as int, per_tick as int)
                &&& held == still_held(line@[k as int], parts as int, per_tick as int)
                &&& forall|i: int|
                    0 <= i < k ==> !sounds_at(#[trigger] line@[i], parts as int, per_tick as int)
            },
            None => forall|i: int|
                0 <= i < line@.len() ==> !sounds_at(
                    #[trigger] line@[i],
                    parts as int,
                    per_tick as int,
                ),
        },
{
    let mut k: usize = 0;
    while k < line.len()
        invariant
            k <= line@.len(),
            per_tick > 0,
            -0x1_0000_0000_0000_0000_0000_0000 <= parts <= 0x1_0000_0000_0000_0000_0000_0000,
            forall|i: int|
                0 <= i < k ==> !sounds_at(#[trigger] line@[i], parts as int, per_tick as int),
        decreases line@.len() - k,
    {
        let note = line[k];
        proof {
            let s = note.start as int;
            let l = note.length as int;
            let q = per_tick as int;
            assert(0 <= s * q <= 0x1_0000_0000_0000_0000 * 0x1_0000_0000) by (nonlinear_arith)
                requires
                    0 <= s <= 0xFFFF_FFFF_FFFF_FFFF,
                    0 < q <= 0xFFFF_FFFF,
            ;
            assert(0 <= l * q <= 0x1_0000_0000_0000_0000 * 0x1_0000_0000) by (nonlinear_arith)
                requires
                    0 <= l <= 0xFFFF_FFFF_FFFF_FFFF,
                    0 < q <= 0xFFFF_FFFF,
            ;
            assert((s + l) * q == s * q + l * q) by (nonlinear_arith);
        }
        let from: i128 = note.start as i128 * per_tick as i128;
        let span: i128 = note.length as i128 * per_tick as i128;
        if from <= parts && parts < from + span {
            let held = (parts - from) * 100 < span * 92;
            return Some((k, held));
        }
        k = k + 1;
    }
    None
}

/// When the trigger starts a ride and when it cuts one. A held trigger starts one unless one runs, a
/// released one cuts whatever rides or lands, and a stale hold starts and cuts nothing. An instrument or
/// a chorale keeps the card whatever the trigger does.
pub proof fn what_the_trigger_asks(s: Playing, hold: WheeeHold, child: Child)
    ensures
        ({
            let (asked, after) = trigger(s, hold, child);
            let instrument = s.ride == Ride::Theremin || s.ride == Ride::Singing;
            &&& asked == Trigger::Start <==> hold == WheeeHold::Held && (s.ride == Ride::Off || s.ride
                == Ride::Landing)
            &&& asked == Trigger::Cut <==> hold == WheeeHold::Released && (s.ride == Ride::Riding || s.ride
                == Ride::Landing)
            &&& asked != Trigger::Nothing ==> after.ride == Ride::Off && !after.child && !after.held
                && !after.live && after.singing is None && after.warned == s.warned
            &&& instrument ==> after == s
            &&& hold == WheeeHold::Decayed && s.ride == Ride::Riding ==> !after.held && after.child == s.child
                && (after.ride == Ride::Landing <==> s.child) && (after.ride == Ride::Off <==> !s.child)
            &&& hold == WheeeHold::Decayed && s.ride == Ride::Landing ==> (after.ride == Ride::Off <==> child
                == Child::Gone || !s.child) && (after.ride == Ride::Off || after == s)
            &&& hold == WheeeHold::Held && s.ride == Ride::Riding ==> after == s
            &&& s.ride == Ride::Off && hold != WheeeHold::Held ==> after == s
        }),
{
}

/// Stopping lets everything go, and forgets only what was playing.
pub proof fn stopping_frees_the_card(s: Playing)
    ensures
        stopped(s).ride == Ride::Off,
        !stopped(s).child,
        !stopped(s).held,
        !stopped(s).live,
        stopped(s).singing is None,
        stopped(s).warned == s.warned,
        playing_valid(stopped(s)),
{
}

/// A ride is its start, its loop for as long as the hold lasts, and its end. What has begun is played
/// out; the hold is looked at between passes: held, another pass of the loop follows, and otherwise the
/// end, behind which nothing is written.
pub proof fn a_ride_loops_while_it_is_held(r: Rider, held: bool, lengths: Lengths)
    requires
        r.inside(lengths),
    ensures
        ({
            let (step, after) = ride_step(r, held, lengths);
            let under_way = r.at < lengths.of(r.stretch) && (r.stretch != Stretch::Loop || r.at > 0);
            &&& under_way ==> after.stretch == r.stretch && step is Write
            &&& !under_way && r.stretch != Stretch::End && held ==> after.stretch == Stretch::Loop && step
                != Step::Done
            &&& !under_way && r.stretch != Stretch::End && held && lengths.looped > 0 ==> (
            step matches Step::Write { stretch, from, to } && stretch == Stretch::Loop && from == 0)
            &&& !under_way && r.stretch != Stretch::End && !held ==> after.stretch == Stretch::End
            &&& !under_way && r.stretch != Stretch::End && !held && lengths.end > 0 ==> (
            step matches Step::Write { stretch, from, to } && stretch == Stretch::End && from == 0)
            &&& !under_way && r.stretch == Stretch::End ==> step == Step::Done && after == r
            &&& step matches Step::Write { stretch, from, to } ==> {
                &&& to - from <= 8192
                &&& to < lengths.of(stretch) ==> to - from == 8192
                &&& after == (Rider { stretch, at: to })
            }
            &&& step == Step::Wait ==> held && lengths.looped == 0
        }),
{
}

/// A writer stays just so far ahead of what has been played: it waits exactly as long as it is further
/// ahead, and not at all where it is not. Two bytes are a sample.
pub proof fn a_writer_keeps_its_lead(rate: int, seconds: int, elapsed: int, lead: int)
    requires
        rate > 0,
        seconds >= 0,
        elapsed >= 0,
        lead >= 0,
    ensures
        ({
            let ahead = seconds * 1_000_000 - elapsed;
            let wait = wait_us(2 * rate * seconds, rate, elapsed, lead);
            &&& ahead <= lead ==> wait == 0
            &&& ahead > lead ==> wait == ahead - lead
        }),
{
    let r = rate * 2;
    assert((2 * rate * seconds) * 1_000_000 == (seconds * 1_000_000) * r) by (nonlinear_arith)
        requires
            r == rate * 2,
    ;
    vstd::arithmetic::div_mod::lemma_div_multiples_vanish(seconds * 1_000_000, r);
    assert(r * (seconds * 1_000_000) == (seconds * 1_000_000) * r) by (nonlinear_arith);
}

/// A writer that has sent more never waits less, and one that comes later never waits longer.
pub proof fn waiting_follows_the_lead(sent: int, more: int, rate: int, elapsed: int, later: int, lead: int)
    requires
        rate > 0,
        0 <= sent <= more,
        elapsed <= later,
    ensures
        wait_us(sent, rate, elapsed, lead) <= wait_us(more, rate, elapsed, lead),
        wait_us(sent, rate, elapsed, lead) >= wait_us(sent, rate, later, lead),
        wait_us(sent, rate, elapsed, lead) >= 0,
{
    vstd::arithmetic::div_mod::lemma_div_is_ordered(sent * 1_000_000, more * 1_000_000, rate * 2);
}

/// A note sounds from its start to just before its end, and is held for the first ninety-two hundredths
/// of that.
pub proof fn a_note_is_let_go_a_little_early(note: Note, tick: int)
    requires
        0 <= tick,
    ensures
        sounds_at(note, tick, 1) <==> note.start <= tick < note.start + note.length,
        sounds_at(note, tick, 1) ==> (still_held(note, tick, 1) <==> 100 * (tick - note.start) < 92
            * note.length),
{
    assert(note.start * 1 == note.start && note.length * 1 == note.length && note.ends() * 1 == note.ends());
}

/// A place in the score is the same place however finely a tick is divided.
pub proof fn a_place_is_a_place(note: Note, tick: int, per_tick: int)
    requires
        per_tick > 0,
    ensures
        sounds_at(note, tick * per_tick, per_tick) <==> sounds_at(note, tick, 1),
        still_held(note, tick * per_tick, per_tick) <==> still_held(note, tick, 1),
{
    let (s, e, l) = (note.start as int, note.ends(), note.length as int);
    assert(s * per_tick <= tick * per_tick <==> s <= tick) by (nonlinear_arith)
        requires
            per_tick > 0,
    ;
    assert(tick * per_tick < e * per_tick <==> tick < e) by (nonlinear_arith)
        requires
            per_tick > 0,
    ;
    assert((tick * per_tick - s * per_tick) * 100 == ((tick - s) * 100) * per_tick) by (nonlinear_arith);
    assert(l * per_tick * 92 == (l * 92) * per_tick) by (nonlinear_arith);
    let (a, b) = ((tick - s) * 100, l * 92);
    assert(a * per_tick < b * per_tick <==> a < b) by (nonlinear_arith)
        requires
            per_tick > 0,
    ;
    assert(s * 1 == s && e * 1 == e && l * 1 == l);
}

/// A sound file is its chunks, each with a length, least significant byte first, and padded to an even
/// one. The format chunk says the rate, the data chunk behind it holds the samples, as far as they are
/// there, and every other chunk is passed over.
pub proof fn what_a_sound_file_holds(b: Seq<u8>, pos: int, rate: nat)
    requires
        0 <= pos,
    ensures
        ({
            let size = b[pos + 4] + b[pos + 5] * 0x100 + b[pos + 6] * 0x1_0000 + b[pos + 7] * 0x100_0000;
            let body = pos + 8;
            let next = body + size + size % 2;
            let format = b.subrange(pos, pos + 4) == seq![0x66u8, 0x6D, 0x74, 0x20];
            let data = b.subrange(pos, pos + 4) == seq![0x64u8, 0x61, 0x74, 0x61];
            &&& b.len() < body ==> samples_from(b, pos, rate) is None
            &&& b.len() >= body + 8 && format ==> samples_from(b, pos, rate) == samples_from(
                b,
                next,
                (b[body + 4] + b[body + 5] * 0x100 + b[body + 6] * 0x1_0000 + b[body + 7] * 0x100_0000) as nat,
            )
            &&& b.len() >= body && data && rate > 0 && body + size <= b.len() ==> samples_from(b, pos, rate)
                == Some((rate, body, body + size))
            &&& b.len() >= body && data && rate > 0 && body + size > b.len() ==> samples_from(b, pos, rate)
                == Some((rate, body, b.len() as int))
            &&& b.len() >= body && !format && (!data || rate == 0) ==> samples_from(b, pos, rate)
                == samples_from(b, next, rate)
        }),
{
    if b.len() >= pos + 8 {
        let tag = b.subrange(pos, pos + 4);
        if tag == seq![0x66u8, 0x6D, 0x74, 0x20] {
            assert(tag[0] == 0x66);
        }
        if tag == seq![0x64u8, 0x61, 0x74, 0x61] {
            assert(tag[0] == 0x64);
        }
    }
}

/// Only what begins as a `RIFF` of kind `WAVE` is a sound file.
pub proof fn what_is_a_sound_file(b: Seq<u8>)
    ensures
        wav_contents(b) is Some ==> b.len() >= 12 && b[0] == 0x52 && b[1] == 0x49 && b[2] == 0x46 && b[3]
            == 0x46 && b[8] == 0x57 && b[9] == 0x41 && b[10] == 0x56 && b[11] == 0x45,
        wav_contents(b) matches Some((rate, samples)) ==> samples_from(b, 12, 0) is Some && exists|from: int, to: int|
            #![trigger b.subrange(from, to)]
            samples == b.subrange(from, to) && samples_from(b, 12, 0) == Some((rate, from, to)),
{
    if wav_contents(b) is Some {
        let (riff, wave) = (b.subrange(0, 4), b.subrange(8, 12));
        assert(riff[0] == 0x52 && riff[1] == 0x49 && riff[2] == 0x46 && riff[3] == 0x46);
        assert(wave[0] == 0x57 && wave[1] == 0x41 && wave[2] == 0x56 && wave[3] == 0x45);
        let (rate, from, to) = samples_from(b, 12, 0)->0;
        assert(wav_contents(b) == Some((rate, b.subrange(from, to))));
    }
}

/// An instrument is written thirty milliseconds ahead of what is heard, a ride a quarter of a second.
pub proof fn how_far_ahead_sound_is_written()
    ensures
        SYNTH_LEAD_US == 30_000,
        RIDE_LEAD_US == 250_000,
{
}

} // verus!
