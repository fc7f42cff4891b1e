//! Keeping several ducks together without a shared clock.
//!
//! Nobody shares a clock: they share a **beat**. The duck conducting puts a beat counter on the
//! air and bumps it once per musical beat; everyone else listens, and *the arrival of a new
//! counter value is the downbeat*. A follower does not chase single beats: it averages the
//! *phase* over a sliding window, and takes the tempo from the score.
//!
//! Times are local clock readings in microseconds. Everything here is a pure function of them,
//! and exact: positions are fractions, never rounded.

use crate::chorale::score::Tempo;
use vstd::prelude::*;

verus! {

/// Middle of the advertising-slot window, in microseconds.
///
/// The conductor sings this long after handing a beat to the radio, so that its own beat and the
/// one everybody hears are the same beat.
pub const SLOT_MEAN_US: i64 = 125_000;

/// How many beats the phase is averaged over.
pub const WINDOW: usize = 24;

/// A beat this far from where the phase puts it is not a beat, in microseconds: a scan that sat
/// in a queue, or a stale advertisement read again.
pub const OUTLIER_US: i64 = 200_000;

/// How many beats must be heard before singing. One carries the whole slot window as its error
/// bar; four is about a bar.
pub const LOCK: usize = 4;

/// The clock readings and beat numbers this module counts in.
pub const CLOCK_LIMIT: i64 = 0x1000_0000_0000_0000;

pub const BEAT_LIMIT: i64 = 0x20_0000_0000_0000;

/// A place in the score, in beats: `parts / per_beat`.
#[derive(Debug, Clone, Copy, PartialEq, Eq, Structural)]
pub struct Position {
    pub parts: i128,
    pub per_beat: i128,
}

/// How many units of a tempo's reckoning make a beat. A microsecond is [`Tempo::pace`] of them.
pub open spec fn beat_units(tempo: Tempo) -> int {
    60_000_000 * tempo.per
}

fn units_per_beat(tempo: &Tempo) -> (units: i128)
    requires
        tempo.valid(),
    ensures
        units == beat_units(*tempo),
        60_000_000 <= units <= 60_000_000 * 0x1_0000_0000,
{
    60_000_000 * tempo.per as i128
}

/// The duck holding the beat.
///
/// Deliberately dumb: it counts beats and says when to put each one on the air. It does not know
/// or care whether anyone is listening.
pub struct Conductor {
    tempo: Tempo,
    /// The last beat handed to the radio, or `None` before the first: "beat 0 has gone out" and
    /// "nothing has gone out yet" are different states.
    emitted: Option<u64>,
    started_at: i64,
}

/// How many whole beats have passed at a tempo, saturating.
pub open spec fn beats_elapsed(tempo: Tempo, elapsed: int) -> int {
    let beats = (elapsed * tempo.pace()) / beat_units(tempo);
    if beats > u64::MAX {
        u64::MAX as int
    } else {
        beats
    }
}

impl Conductor {
    pub closed spec fn tempo(self) -> Tempo {
        self.tempo
    }

    /// The last beat handed to the radio.
    pub closed spec fn emitted(self) -> Option<u64> {
        self.emitted
    }

    /// The local time at which beat zero was due.
    pub closed spec fn started(self) -> int {
        self.started_at as int
    }

    pub open spec fn valid(self) -> bool {
        self.tempo().valid() && -CLOCK_LIMIT <= self.started() <= CLOCK_LIMIT
    }

    pub fn new(tempo: Tempo, now: i64) -> (c: Self)
        requires
            tempo.valid(),
            -CLOCK_LIMIT <= now <= CLOCK_LIMIT,
        ensures
            c.valid(),
            c.tempo() == tempo,
            c.emitted() is None,
            c.started() == now,
    {
        Conductor { tempo, emitted: None, started_at: now }
    }

    /// The beat that has been reached at a time, where it has not gone out yet.
    pub open spec fn turned_over(self, now: int) -> Option<u64> {
        let elapsed = if now < self.started() {
            0
        } else {
            now - self.started()
        };
        let reached = beats_elapsed(self.tempo(), elapsed);
        match self.emitted() {
            Some(last) => if reached > last {
                Some(reached as u64)
            } else {
                None
            },
            None => Some(reached as u64),
        }
    }

    /// The next beat that should go on the air, if it is due.
    ///
    /// Called as often as the caller likes; it gives a beat only when the beat has actually
    /// turned over, which is the moment the advertisement should change.
    pub fn due(&mut self, now: i64) -> (beat: Option<u64>)
        requires
            old(self).valid(),
            -CLOCK_LIMIT <= now <= CLOCK_LIMIT,
        ensures
            final(self).valid(),
            final(self).tempo() == old(self).tempo(),
            final(self).started() == old(self).started(),
            beat == old(self).turned_over(now as int),
            final(self).emitted() == (if beat is Some {
                beat
            } else {
                old(self).emitted()
            }),
    {
        let elapsed: i128 = if now < self.started_at {
            0
        } else {
            now as i128 - self.started_at as i128
        };
        let pace: i128 = self.tempo.pace_of() as i128;
        let units = units_per_beat(&self.tempo);
        proof {
            assert(0 <= elapsed * pace <= 0x2000_0000_0000_0000 * 0x1_0000_0000_0000) by (nonlinear_arith)
                requires
                    0 <= elapsed <= 0x2000_0000_0000_0000,
                    0 <= pace <= 0x1_0000_0000_0000,
            ;
        }
        let beats: i128 = (elapsed * pace) / units;
        proof {
            assert(beats >= 0) by (nonlinear_arith)
                requires
                    beats == (elapsed * pace) / (units as int),
                    elapsed * pace >= 0,
                    units > 0,
            ;
        }
        let reached: u64 = if beats > u64::MAX as i128 {
            u64::MAX
        } else {
            beats as u64
        };
        match self.emitted {
            Some(last) => {
                if reached <= last {
                    return None;
                }
            },
            None => {},
        }
        self.emitted = Some(reached);
        Some(reached)
    }

    /// Where in the score the conductor should be singing: behind its own beat counter by
    /// [`SLOT_MEAN_US`], because it sings what the room is *hearing*.
    pub fn position_beats(&self, now: i64) -> (at: Position)
        requires
            self.valid(),
            -CLOCK_LIMIT <= now <= CLOCK_LIMIT,
        ensures
            at.parts == (now - self.started() - SLOT_MEAN_US) * self.tempo().pace(),
            at.parts == (now - self.started() - 125_000) * self.tempo().pace(),
            at.per_beat == beat_units(self.tempo()),
            at.per_beat == 60_000_000 * self.tempo().per,
    {
        let past: i128 = now as i128 - self.started_at as i128 - SLOT_MEAN_US as i128;
        let pace: i128 = self.tempo.pace_of() as i128;
        proof {
            assert(-0x4000_0000_0000_0000 * 0x1_0000_0000_0000 <= past * pace <= 0x4000_0000_0000_0000
                * 0x1_0000_0000_0000) by (nonlinear_arith)
                requires
                    -0x4000_0000_0000_0000 <= past <= 0x4000_0000_0000_0000,
                    0 <= pace <= 0x1_0000_0000_0000,
            ;
        }
        Position { parts: past * pace, per_beat: units_per_beat(&self.tempo) }
    }

    /// The beat currently on the air, as the wire carries it: a byte, wrapping.
    pub fn wire_beat(&self) -> (byte: u8)
        ensures
            byte == (match self.emitted() {
                Some(beat) => (beat % 256) as u8,
                None => 0,
            }),
    {
        match self.emitted {
            Some(beat) => (beat % 256) as u8,
            None => 0,
        }
    }

    /// Beats handed to the radio so far, unwrapped.
    pub fn beat(&self) -> (beat: Option<u64>)
        ensures
            beat == self.emitted(),
    {
        self.emitted
    }
}

/// One heard beat: which beat it was, and when it arrived here.
#[derive(Debug, Clone, Copy, PartialEq, Eq, Structural)]
pub struct Heard {
    pub beat: i64,
    pub at: i64,
}

/// When a beat puts beat zero, in the tempo's units.
pub open spec fn implied(tempo: Tempo, heard: Heard) -> int {
    heard.at * tempo.pace() - beat_units(tempo) * heard.beat
}

/// The implied beat zeros added up.
pub open spec fn implied_sum(tempo: Tempo, heard: Seq<Heard>) -> int
    decreases heard.len(),
{
    if heard.len() == 0 {
        0
    } else {
        implied_sum(tempo, heard.drop_last()) + implied(tempo, heard.last())
    }
}

/// A wrapped byte back into a beat number, given the last one: the nearest number that the byte
/// can stand for, the earlier counter block on a tie.
pub open spec fn unwrapped(last: Option<int>, beat: u8) -> int {
    match last {
        None => beat as int,
        Some(last) => {
            let candidate = last - last % 256 + beat;
            if candidate < last - 128 {
                candidate + 256
            } else if candidate > last + 128 {
                candidate - 256
            } else {
                candidate
            }
        },
    }
}

/// However the counter wraps, a beat number unwraps to one its byte can stand for, no more than
/// half a turn from the last one.
pub proof fn an_unwrapped_beat_is_near(last: int, beat: u8)
    ensures
        unwrapped(Some(last), beat) % 256 == beat,
        last - 128 <= unwrapped(Some(last), beat) <= last + 128,
{
}

/// The counter wraps without the music jumping: from any beat, a step of less than half a turn
/// either way is understood as that step.
pub proof fn wrapping_does_not_jump(last: int, step: int)
    requires
        -128 < step < 128,
    ensures
        unwrapped(Some(last), ((last + step) % 256) as u8) == last + step,
{
}

/// A duck locking onto somebody else's beat.
///
/// Holds where the conductor's beat zero landed, averaged over the last [`WINDOW`] beats. The
/// tempo comes from the score, so this is the only thing that has to be measured.
pub struct Follower {
    tempo: Tempo,
    heard: Vec<Heard>,
    /// The implied beat zeros of what was heard, added up.
    sum: i128,
}

/// Whether a list of beats is within what can be counted.
pub open spec fn bounded(heard: Seq<Heard>) -> bool {
    forall|i: int|
        0 <= i < heard.len() ==> -CLOCK_LIMIT <= (#[trigger] heard[i]).at <= CLOCK_LIMIT && -BEAT_LIMIT
            <= heard[i].beat <= BEAT_LIMIT
}

/// The most one implied beat zero can amount to.
pub open spec fn implied_limit() -> int {
    0x1000_0000_0000_0000int * 0x1_0000_0000_0000int + 60_000_000int * 0x1_0000_0000int
        * 0x20_0000_0000_0000int
}

proof fn lemma_implied(tempo: Tempo, heard: Heard)
    requires
        tempo.valid(),
        -CLOCK_LIMIT <= heard.at <= CLOCK_LIMIT,
        -BEAT_LIMIT <= heard.beat <= BEAT_LIMIT,
    ensures
        -implied_limit() <= implied(tempo, heard) <= implied_limit(),
        -0x1000_0000_0000_0000 * 0x1_0000_0000_0000 <= heard.at * tempo.pace() <= 0x1000_0000_0000_0000
            * 0x1_0000_0000_0000,
        -60_000_000 * 0x1_0000_0000 * 0x20_0000_0000_0000 <= beat_units(tempo) * heard.beat
            <= 60_000_000 * 0x1_0000_0000 * 0x20_0000_0000_0000,
{
    let at = heard.at as int;
    let pace = tempo.pace() as int;
    let units = beat_units(tempo);
    let beat = heard.beat as int;
    assert(-0x1000_0000_0000_0000 * 0x1_0000_0000_0000 <= at * pace <= 0x1000_0000_0000_0000
        * 0x1_0000_0000_0000) by (nonlinear_arith)
        requires
            -0x1000_0000_0000_0000 <= at <= 0x1000_0000_0000_0000,
            0 <= pace <= 0x1_0000_0000_0000,
    ;
    assert(-60_000_000 * 0x1_0000_0000 * 0x20_0000_0000_0000 <= units * beat <= 60_000_000
        * 0x1_0000_0000 * 0x20_0000_0000_0000) by (nonlinear_arith)
        requires
            0 <= units <= 60_000_000 * 0x1_0000_0000,
            -0x20_0000_0000_0000 <= beat <= 0x20_0000_0000_0000,
    ;
}

proof fn lemma_sum_bound(tempo: Tempo, heard: Seq<Heard>)
    requires
        tempo.valid(),
        bounded(heard),
    ensures
        -heard.len() * implied_limit() <= implied_sum(tempo, heard) <= heard.len() * implied_limit(),
    decreases heard.len(),
{
    if heard.len() > 0 {
        let rest = heard.drop_last();
        assert(bounded(rest)) by {
            assert forall|i: int| 0 <= i < rest.len() implies -CLOCK_LIMIT <= (#[trigger] rest[i]).at
                <= CLOCK_LIMIT && -BEAT_LIMIT <= rest[i].beat <= BEAT_LIMIT by {
                assert(rest[i] == heard[i]);
            }
        }
        lemma_sum_bound(tempo, rest);
        assert(heard[heard.len() - 1] == heard.last());
        lemma_implied(tempo, heard.last());
        assert(heard.len() * implied_limit() == rest.len() * implied_limit() + implied_limit())
            by (nonlinear_arith)
            requires
                heard.len() == rest.len() + 1,
        ;
        assert(-heard.len() * implied_limit() == -rest.len() * implied_limit() - implied_limit())
            by (nonlinear_arith)
            requires
                heard.len() == rest.len() + 1,
        ;
    }
}

proof fn lemma_sum_without_first(tempo: Tempo, heard: Seq<Heard>)
    requires
        heard.len() > 0,
    ensures
        implied_sum(tempo, heard) == implied(tempo, heard[0]) + implied_sum(tempo, heard.remove(0)),
    decreases heard.len(),
{
    if heard.len() == 1 {
        assert(heard.drop_last() =~= Seq::<Heard>::empty());
        assert(heard.remove(0) =~= Seq::<Heard>::empty());
    } else {
        let rest = heard.drop_last();
        lemma_sum_without_first(tempo, rest);
        assert(heard.remove(0).drop_last() =~= rest.remove(0));
        assert(heard.remove(0).last() == heard.last());
    }
}

/// Whether a beat is too far from where the phase puts it, once the follower is locked: its
/// implied beat zero lies more than [`OUTLIER_US`] from the average.
pub open spec fn outlying(tempo: Tempo, heard: Seq<Heard>, beat: int, at: int) -> bool {
    let n = heard.len();
    let off = n * (at * tempo.pace() - beat_units(tempo) * beat) - implied_sum(tempo, heard);
    let most = OUTLIER_US * tempo.pace() * n;
    n >= LOCK && (off > most || off < -most)
}

/// What is remembered once a beat has been taken: the last [`WINDOW`] of them.
pub open spec fn remembered(heard: Seq<Heard>, new: Heard) -> Seq<Heard> {
    let now = heard.push(new);
    if now.len() > WINDOW {
        now.remove(0)
    } else {
        now
    }
}

impl Follower {
    pub closed spec fn tempo(self) -> Tempo {
        self.tempo
    }

    /// The beats the phase is averaged over.
    pub closed spec fn heard(self) -> Seq<Heard> {
        self.heard@
    }

    closed spec fn kept(self) -> bool {
        self.sum == implied_sum(self.tempo, self.heard@)
    }

    pub closed spec fn valid(self) -> bool {
        &&& self.tempo.valid()
        &&& self.heard@.len() <= WINDOW
        &&& bounded(self.heard@)
        &&& self.kept()
    }

    /// The number of the last beat heard.
    pub open spec fn last_beat(self) -> Option<int> {
        if self.heard().len() == 0 {
            None
        } else {
            Some(self.heard().last().beat as int)
        }
    }

    pub fn new(tempo: Tempo) -> (f: Self)
        requires
            tempo.valid(),
        ensures
            f.valid(),
            f.tempo() == tempo,
            f.heard().len() == 0,
    {
        Follower { tempo, heard: Vec::new(), sum: 0 }
    }

    /// A wrapped byte back into a beat number.
    pub fn unwrap(&self, beat: u8) -> (number: i64)
        requires
            self.valid(),
        ensures
            number == unwrapped(self.last_beat(), beat),
            -BEAT_LIMIT - 128 <= number <= BEAT_LIMIT + 128,
    {
        let size: usize = self.heard.len();
        if size == 0 {
            return beat as i64;
        }
        assert(self.heard@[size - 1] == self.heard@.last());
        let last: i64 = self.heard[size - 1].beat;
        let turn: i64 = if last >= 0 {
            last % 256
        } else {
            let back: i64 = (-last) % 256;
            if back == 0 {
                0
            } else {
                256 - back
            }
        };
        let candidate: i64 = last - turn + beat as i64;
        if candidate < last - 128 {
            candidate + 256
        } else if candidate > last + 128 {
            candidate - 256
        } else {
            candidate
        }
    }

    /// Takes one heard beat: `beat` is the wrapped byte off the wire, `at` the local time the new
    /// value arrived. To be called **only when the counter changes**.
    ///
    /// What cannot be a beat is dropped rather than averaged in, because one outlier of half a
    /// second would drag the phase further than a window of good beats pulls it back.
    pub fn observe(&mut self, beat: u8, at: i64)
        requires
            old(self).valid(),
            -CLOCK_LIMIT <= at <= CLOCK_LIMIT,
            -BEAT_LIMIT <= unwrapped(old(self).last_beat(), beat) <= BEAT_LIMIT,
        ensures
            final(self).valid(),
            final(self).tempo() == old(self).tempo(),
            ({
                let number = unwrapped(old(self).last_beat(), beat);
                if outlying(old(self).tempo(), old(self).heard(), number, at as int) {
                    *final(self) == *old(self)
                } else {
                    final(self).heard() == remembered(
                        old(self).heard(),
                        Heard { beat: number as i64, at },
                    )
                }
            }),
    {
        let number = self.unwrap(beat);
        let new = Heard { beat: number, at };
        let pace: i128 = self.tempo.pace_of() as i128;
        let units = units_per_beat(&self.tempo);
        let n: i128 = self.heard.len() as i128;
        proof {
            lemma_implied(self.tempo, new);
            lemma_sum_bound(self.tempo, self.heard@);
            let m = implied_limit();
            assert(n * m <= 24 * m && -n * m >= -24 * m) by (nonlinear_arith)
                requires
                    0 <= n <= 24,
                    m >= 0,
            ;
        }
        let zero: i128 = at as i128 * pace - units * number as i128;
        if self.heard.len() >= LOCK {
            proof {
                let m = implied_limit();
                assert(-24 * m <= n * zero <= 24 * m) by (nonlinear_arith)
                    requires
                        0 <= n <= 24,
                        -m <= zero <= m,
                        m >= 0,
                ;
                assert(0 <= OUTLIER_US * pace * n <= 200_000 * 0x1_0000_0000_0000 * 24)
                    by (nonlinear_arith)
                    requires
                        0 <= n <= 24,
                        0 <= pace <= 0x1_0000_0000_0000,
                        OUTLIER_US == 200_000,
                ;
                assert(0 <= OUTLIER_US * pace <= 200_000 * 0x1_0000_0000_0000) by (nonlinear_arith)
                    requires
                        0 <= pace <= 0x1_0000_0000_0000,
                        OUTLIER_US == 200_000,
                ;
            }
            let off: i128 = n * zero - self.sum;
            let most: i128 = OUTLIER_US as i128 * pace * n;
            if off > most || off < -most {
                return ;
            }
        }
        let ghost before = self.heard@;
        self.heard.push(new);
        self.sum = self.sum + zero;
        proof {
            assert(self.heard@.drop_last() =~= before);
            assert forall|i: int| 0 <= i < self.heard@.len() implies -CLOCK_LIMIT <= (
            #[trigger] self.heard@[i]).at <= CLOCK_LIMIT && -BEAT_LIMIT <= self.heard@[i].beat
                <= BEAT_LIMIT by {
                if i < before.len() {
                    assert(self.heard@[i] == before[i]);
                }
            }
        }
        if self.heard.len() > WINDOW {
            let ghost all = self.heard@;
            proof {
                assert(all[0] == before[0]);
                lemma_implied(self.tempo, all[0]);
                lemma_sum_without_first(self.tempo, all);
            }
            let first = self.heard[0];
            let gone: i128 = first.at as i128 * pace - units * first.beat as i128;
            self.heard.remove(0);
            self.sum = self.sum - gone;
            proof {
                assert forall|i: int| 0 <= i < self.heard@.len() implies -CLOCK_LIMIT <= (
                #[trigger] self.heard@[i]).at <= CLOCK_LIMIT && -BEAT_LIMIT <= self.heard@[i].beat
                    <= BEAT_LIMIT by {
                    assert(self.heard@[i] == all[i + 1]);
                }
            }
        }
    }

    /// Whether enough beats have been heard to sing to.
    pub fn locked(&self) -> (yes: bool)
        ensures
            yes == (self.heard().len() >= LOCK),
            yes <==> self.heard().len() >= 4,
    {
        self.heard.len() >= LOCK
    }

    /// Where in the score to be singing now. `None` until [`Follower::locked`].
    pub fn position_beats(&self, now: i64) -> (at: Option<Position>)
        requires
            self.valid(),
            -CLOCK_LIMIT <= now <= CLOCK_LIMIT,
        ensures
            at is Some <==> self.heard().len() >= LOCK,
            at matches Some(p) ==> {
                let n = self.heard().len();
                &&& p.parts == now * self.tempo().pace() * n - implied_sum(self.tempo(), self.heard())
                &&& p.per_beat == beat_units(self.tempo()) * n
                &&& p.per_beat > 0
            },
    {
        if self.heard.len() < LOCK {
            return None;
        }
        let pace: i128 = self.tempo.pace_of() as i128;
        let units = units_per_beat(&self.tempo);
        let n: i128 = self.heard.len() as i128;
        proof {
            lemma_sum_bound(self.tempo, self.heard@);
            let m = implied_limit();
            assert(n * m <= 24 * m && -n * m >= -24 * m) by (nonlinear_arith)
                requires
                    0 <= n <= 24,
                    m >= 0,
            ;
            assert(-0x1000_0000_0000_0000 * 0x1_0000_0000_0000 <= now * pace <= 0x1000_0000_0000_0000
                * 0x1_0000_0000_0000) by (nonlinear_arith)
                requires
                    -0x1000_0000_0000_0000 <= now <= 0x1000_0000_0000_0000,
                    0 <= pace <= 0x1_0000_0000_0000,
            ;
            assert(-24 * 0x1000_0000_0000_0000 * 0x1_0000_0000_0000 <= now * pace * n <= 24
                * 0x1000_0000_0000_0000 * 0x1_0000_0000_0000) by (nonlinear_arith)
                requires
                    -0x1000_0000_0000_0000 * 0x1_0000_0000_0000 <= now * pace <= 0x1000_0000_0000_0000
                        * 0x1_0000_0000_0000,
                    0 <= n <= 24,
            ;
            assert(0 < units * n <= 24 * 60_000_000 * 0x1_0000_0000) by (nonlinear_arith)
                requires
                    0 < units <= 60_000_000 * 0x1_0000_0000,
                    0 < n <= 24,
            ;
        }
        Some(Position { parts: now as i128 * pace * n - self.sum, per_beat: units * n })
    }

    /// How far each remembered beat's idea of beat zero lies from the average, times the number of
    /// beats, in the tempo's units. A healthy lock keeps these small.
    pub fn deviations(&self) -> (off: Vec<i128>)
        requires
            self.valid(),
        ensures
            off@.len() == self.heard().len(),
            forall|i: int|
                0 <= i < off@.len() ==> #[trigger] off@[i] == self.heard().len() * implied(
                    self.tempo(),
                    self.heard()[i],
                ) - implied_sum(self.tempo(), self.heard()),
    {
        let pace: i128 = self.tempo.pace_of() as i128;
        let units = units_per_beat(&self.tempo);
        let n: i128 = self.heard.len() as i128;
        let mut off: Vec<i128> = Vec::new();
        let mut at: usize = 0;
        proof {
            lemma_sum_bound(self.tempo, self.heard@);
            let m = implied_limit();
            assert(n * m <= 24 * m && -n * m >= -24 * m) by (nonlinear_arith)
                requires
                    0 <= n <= 24,
                    m >= 0,
            ;
        }
        while at < self.heard.len()
            invariant
                at <= self.heard@.len(),
                self.valid(),
                pace == self.tempo.pace(),
                units == beat_units(self.tempo),
                n == self.heard@.len(),
                n <= 24,
                -24 * implied_limit() <= self.sum <= 24 * implied_limit(),
                off@.len() == at,
                forall|i: int|
                    0 <= i < at ==> #[trigger] off@[i] == n * implied(self.tempo, self.heard@[i])
                        - self.sum,
            decreases self.heard@.len() - at,
        {
            let heard = self.heard[at];
            proof {
                assert(bounded(self.heard@));
                assert(self.heard@[at as int] == heard);
                lemma_implied(self.tempo, heard);
            }
            let zero: i128 = heard.at as i128 * pace - units * heard.beat as i128;
            proof {
                let m = implied_limit();
                assert(-24 * m <= n * zero <= 24 * m) by (nonlinear_arith)
                    requires
                        0 <= n <= 24,
                        -m <= zero <= m,
                        m >= 0,
                ;
            }
            off.push(n * zero - self.sum);
            at = at + 1;
        }
        off
    }
}

/// Silence from the conductor is not silence from the duck: with nothing heard, the position
/// goes on at the score's tempo.
pub proof fn a_silent_conductor_does_not_stop_the_music(
    tempo: Tempo,
    heard: Seq<Heard>,
    now: int,
    later: int,
)
    ensures
        (later * tempo.pace() * heard.len() - implied_sum(tempo, heard)) - (now * tempo.pace()
            * heard.len() - implied_sum(tempo, heard)) == (later - now) * tempo.pace() * heard.len(),
{
    let p = tempo.pace() as int;
    let n = heard.len() as int;
    assert(later * p * n - now * p * n == (later - now) * p * n) by (nonlinear_arith);
}

/// A follower that is locked stays locked, and never averages over more than the window.
pub proof fn a_lock_is_kept(heard: Seq<Heard>, new: Heard)
    requires
        heard.len() <= WINDOW,
    ensures
        remembered(heard, new).len() <= WINDOW,
        remembered(heard, new).len() >= heard.len(),
        remembered(heard, new).last() == new,
{
}

/// A locked follower drops a beat exactly where it arrives more than [`OUTLIER_US`] from when it is
/// due, and is then what it was before. A beat is due when the follower's position is its number:
/// at `due / parts` microseconds.
pub proof fn a_beat_far_from_its_time_is_dropped(
    tempo: Tempo,
    heard: Seq<Heard>,
    beat: int,
    at: int,
    due: int,
    parts: int,
)
    requires
        tempo.valid(),
        heard.len() >= LOCK,
        parts > 0,
        due * tempo.pace() * heard.len() - parts * implied_sum(tempo, heard) == parts * (beat_units(
            tempo,
        ) * heard.len() * beat),
    ensures
        outlying(tempo, heard, beat, at) <==> (at * parts - due > OUTLIER_US * parts || due - at * parts
            > OUTLIER_US * parts),
{
    let n = heard.len() as int;
    let pace = tempo.pace() as int;
    let units = beat_units(tempo);
    let sum = implied_sum(tempo, heard);
    let each = pace * n;
    assert(each > 0) by (nonlinear_arith)
        requires
            pace > 0,
            n > 0,
            each == pace * n,
    ;
    let off = n * (at * pace - units * beat) - sum;
    let most = OUTLIER_US * pace * n;
    let number = units * n * beat;
    assert(n * (at * pace - units * beat) == at * each - number) by (nonlinear_arith)
        requires
            each == pace * n,
            number == units * n * beat,
    ;
    assert(due * pace * n == due * each) by (nonlinear_arith)
        requires
            each == pace * n,
    ;
    let seen = at * each;
    assert(parts * off == parts * seen - parts * number - parts * sum) by (nonlinear_arith)
        requires
            off == seen - number - sum,
    ;
    assert(parts * seen == (at * parts) * each) by (nonlinear_arith)
        requires
            seen == at * each,
    ;
    let moment = at * parts;
    assert((moment - due) * each == moment * each - due * each) by (nonlinear_arith);
    let limit = OUTLIER_US as int;
    assert(parts * most == (limit * parts) * each) by (nonlinear_arith)
        requires
            most == limit * pace * n,
            each == pace * n,
    ;
    let away = at * parts - due;
    let room = limit * parts;
    assert(off > most <==> parts * off > parts * most) by (nonlinear_arith)
        requires
            parts > 0,
    ;
    assert(off < -most <==> parts * off < -(parts * most)) by (nonlinear_arith)
        requires
            parts > 0,
    ;
    assert(away * each > room * each <==> away > room) by (nonlinear_arith)
        requires
            each > 0,
    ;
    assert(away * each < -(room * each) <==> away < -room) by (nonlinear_arith)
        requires
            each > 0,
    ;
}

/// A beat that arrives exactly where the average of a locked follower puts it is never dropped.
pub proof fn a_beat_on_the_phase_is_kept(tempo: Tempo, heard: Seq<Heard>, beat: int, at: int)
    requires
        heard.len() * (at * tempo.pace() - beat_units(tempo) * beat) == implied_sum(tempo, heard),
    ensures
        !outlying(tempo, heard, beat, at),
{
    let p = tempo.pace() as int;
    let n = heard.len() as int;
    assert(OUTLIER_US * p * n >= 0) by (nonlinear_arith)
        requires
            p >= 0,
            n >= 0,
            OUTLIER_US == 200_000,
    ;
}

/// The beat that has been reached is the whole number of beats that fit in the time since the start: a
/// beat turns over when its time is up, not before.
pub proof fn a_beat_turns_over_on_time(tempo: Tempo, elapsed: int, n: int)
    requires
        tempo.valid(),
        0 <= elapsed,
        0 <= n < u64::MAX,
    ensures
        beats_elapsed(tempo, elapsed) == n <==> n * (60_000_000 * tempo.per) <= elapsed * tempo.pace() < (n
            + 1) * (60_000_000 * tempo.per),
{
    let u = beat_units(tempo);
    let x = elapsed * tempo.pace();
    assert(x >= 0) by (nonlinear_arith)
        requires
            elapsed >= 0,
            tempo.pace() >= 0,
            x == elapsed * tempo.pace(),
    ;
    let q = x / u;
    assert(u > 0);
    assert(q * u <= x < (q + 1) * u) by {
        vstd::arithmetic::div_mod::lemma_fundamental_div_mod(x, u);
        assert(u * q + u == (q + 1) * u && u * q == q * u) by (nonlinear_arith);
    }
    if n * u <= x < (n + 1) * u {
        assert(q == n) by (nonlinear_arith)
            requires
                q * u <= x < (q + 1) * u,
                n * u <= x < (n + 1) * u,
                u > 0,
        ;
    }
}

/// Beats never run back, and at a tempo of so many beats a minute that many pass in a minute.
pub proof fn beats_go_on(tempo: Tempo, elapsed: int, later: int, bpm: int)
    requires
        tempo.valid(),
        0 <= elapsed <= later,
        0 < bpm <= u64::MAX,
    ensures
        beats_elapsed(tempo, elapsed) <= beats_elapsed(tempo, later),
        tempo.beats == bpm * tempo.per ==> beats_elapsed(tempo, 60_000_000) == bpm,
        beats_elapsed(tempo, 0) == 0,
{
    let u = beat_units(tempo);
    let p = tempo.pace() as int;
    assert(u > 0);
    assert(elapsed * p <= later * p) by (nonlinear_arith)
        requires
            elapsed <= later,
            p >= 0,
    ;
    vstd::arithmetic::div_mod::lemma_div_is_ordered(elapsed * p, later * p, u);
    if tempo.beats == bpm * tempo.per {
        let per = tempo.per as int;
        assert(bpm * per >= per) by (nonlinear_arith)
            requires
                bpm >= 1,
                per >= 0,
        ;
        assert(60_000_000 * (bpm * per) == u * bpm) by (nonlinear_arith)
            requires
                u == 60_000_000 * per,
        ;
        vstd::arithmetic::div_mod::lemma_div_multiples_vanish(bpm, u);
    }
    assert(0 * p == 0) by (nonlinear_arith);
    assert(0int / u == 0) by (nonlinear_arith)
        requires
            u > 0,
    ;
}

/// Two beats that arrive as far apart as their numbers say put beat zero at the same time.
pub proof fn steady_beats_agree(tempo: Tempo, first: Heard, second: Heard)
    requires
        (second.at - first.at) * tempo.pace() == (second.beat - first.beat) * (60_000_000 * tempo.per),
    ensures
        implied(tempo, first) == implied(tempo, second),
{
    let p = tempo.pace() as int;
    let u = beat_units(tempo);
    let (a, b) = (first.at as int, second.at as int);
    let (m, n) = (first.beat as int, second.beat as int);
    assert((b - a) * p == b * p - a * p) by (nonlinear_arith);
    assert((n - m) * u == u * n - u * m) by (nonlinear_arith);
}

/// Where every beat agrees on beat zero, so does their average.
pub proof fn the_average_of_steady_beats(tempo: Tempo, heard: Seq<Heard>, zero: int)
    requires
        forall|i: int| 0 <= i < heard.len() ==> implied(tempo, #[trigger] heard[i]) == zero,
    ensures
        implied_sum(tempo, heard) == heard.len() * zero,
    decreases heard.len(),
{
    if heard.len() > 0 {
        let rest = heard.drop_last();
        assert forall|i: int| 0 <= i < rest.len() implies implied(tempo, #[trigger] rest[i]) == zero by {
            assert(rest[i] == heard[i]);
        }
        the_average_of_steady_beats(tempo, rest, zero);
        assert(heard[heard.len() - 1] == heard.last());
        assert((rest.len() + 1) * zero == rest.len() * zero + zero) by (nonlinear_arith);
    } else {
        assert(0 * zero == 0) by (nonlinear_arith);
    }
}

/// The last twenty-four beats are remembered: a new one joins them, and once there are as many the
/// oldest is forgotten.
pub proof fn the_last_beats_are_remembered(heard: Seq<Heard>, new: Heard)
    requires
        heard.len() <= 24,
    ensures
        heard.len() < 24 ==> remembered(heard, new) == heard.push(new),
        heard.len() == 24 ==> remembered(heard, new) == heard.skip(1).push(new),
{
    if heard.len() == 24 {
        assert(heard.push(new).remove(0) =~= heard.skip(1).push(new));
    }
}

/// A follower that is not yet locked drops nothing: it takes four beats to know where the next is due.
/// Once locked it drops a beat that lies more than a fifth of a second from where all the others put
/// it, either way, and no other.
pub proof fn what_is_no_beat(tempo: Tempo, heard: Seq<Heard>, beat: int, at: int, zero: int)
    requires
        tempo.valid(),
        implied_sum(tempo, heard) == heard.len() * zero,
    ensures
        heard.len() < 4 ==> !outlying(tempo, heard, beat, at),
        heard.len() >= 4 ==> (outlying(tempo, heard, beat, at) <==> {
            let off = at * tempo.pace() - 60_000_000 * tempo.per * beat - zero;
            off > 200_000 * tempo.pace() || off < -200_000 * tempo.pace()
        }),
{
    let n = heard.len() as int;
    let p = tempo.pace() as int;
    let own = at * p - beat_units(tempo) * beat;
    let off = own - zero;
    assert(n * own - n * zero == n * off) by (nonlinear_arith)
        requires
            off == own - zero,
    ;
    assert(200_000 * p * n == n * (200_000 * p)) by (nonlinear_arith);
    if n >= 4 {
        assert(n * off > n * (200_000 * p) <==> off > 200_000 * p) by (nonlinear_arith)
            requires
                n > 0,
        ;
        assert(n * off < -(n * (200_000 * p)) <==> off < -200_000 * p) by (nonlinear_arith)
            requires
                n > 0,
        ;
    }
}

/// A first beat is taken as its byte says.
pub proof fn the_first_beat_is_its_byte(beat: u8)
    ensures
        unwrapped(None, beat) == beat,
{
}

/// The last beat heard is the one that counts for the next.
pub proof fn the_last_beat_counts(f: Follower)
    ensures
        f.heard().len() == 0 ==> f.last_beat() is None,
        f.heard().len() > 0 ==> f.last_beat() == Some(f.heard()[f.heard().len() - 1].beat as int),
{
}

/// A beat goes out when it turns over, and once: before the first one something is always due, what is due
/// is the beat that has been reached, never one that is behind, and right after it went out nothing is.
pub proof fn a_beat_goes_out_once(c: Conductor, after: Conductor, now: int, n: int)
    requires
        c.valid(),
        after.tempo() == c.tempo(),
        after.started() == c.started(),
        c.started() <= now,
        0 <= n < u64::MAX,
        n * (60_000_000 * c.tempo().per) <= (now - c.started()) * c.tempo().pace() < (n + 1) * (60_000_000
            * c.tempo().per),
    ensures
        c.emitted() is None ==> c.turned_over(now) == Some(n as u64),
        c.emitted() matches Some(last) ==> n > last ==> c.turned_over(now) == Some(n as u64),
        c.emitted() matches Some(last) ==> n <= last ==> c.turned_over(now) is None,
        c.turned_over(now) is Some && after.emitted() == c.turned_over(now) ==> after.turned_over(now) is None,
{
    a_beat_turns_over_on_time(c.tempo(), now - c.started(), n);
}

} // verus!
