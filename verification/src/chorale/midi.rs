//! Standard MIDI file in, chorale out, so a notation editor is the score editor.
//!
//! A Standard MIDI File is a length-prefixed chunk format with variable-length delta times, and
//! the subset a score needs is note-on, note-off, tempo and track name.
//!
//! ## How tracks become parts
//!
//! By **mean pitch**, not by track order: the lowest group of notes sings bass. Notation editors
//! write scores top staff first, and a file from elsewhere may have the parts in any order at
//! all. A track *name* that says "Soprano" is believed first, since a human wrote it down. A
//! single polyphonic track is split by pitch rank within each chord.
//!
//! ## What is deliberately dropped
//!
//! Velocity becomes the note's dynamic. Controllers, pitch bend and anything past the first
//! tempo are skipped; a tempo change is reported rather than hidden.

use crate::chorale::score::{
    countable, in_order, notes_make_a_score, tied, Note, Score, Tempo,
};
use crate::chorale::{Part, Vowel};
use crate::outside::{debug_text, decode_lossy, lossy_text, quoted};
use crate::scan::{
    ascii_lowered, chars_of, contains_text, decimal, find_text, lowered, push_decimal, push_text, strings, text_of,
    trim, trimmed,
};
use vstd::prelude::*;
use vstd::slice::slice_subrange;

verus! {

/// What went wrong reading the file.
#[derive(Debug, Clone, Copy, PartialEq, Eq, Structural)]
pub enum MidiError {
    /// Not a Standard MIDI File at all.
    NotMidi,
    /// Truncated, or a chunk length that runs off the end.
    Truncated { at: usize },
    /// SMPTE timecode division: the conversion to beats is different enough that guessing would
    /// be worse than saying so.
    SmpteTiming,
    /// No note-on events anywhere in the file.
    NoNotes,
}

impl MidiError {
    /// The error in words.
    pub open spec fn words(self) -> Seq<char> {
        match self {
            MidiError::NotMidi => "not a MIDI file (no MThd header)"@,
            MidiError::Truncated { at } => "the file ends mid-event, at byte "@ + decimal(at as nat),
            MidiError::SmpteTiming =>
                "SMPTE timecode division is not supported — export with metrical (ticks-per-beat) timing"@,
            MidiError::NoNotes => "there are no notes in this file"@,
        }
    }

    pub fn message(&self) -> (text: String)
        ensures
            text@ == self.words(),
    {
        match self {
            MidiError::NotMidi => "not a MIDI file (no MThd header)".to_owned(),
            MidiError::Truncated { at } => {
                let mut text = "the file ends mid-event, at byte ".to_owned();
                push_decimal(&mut text, *at as u64);
                text
            },
            MidiError::SmpteTiming =>
                "SMPTE timecode division is not supported — export with metrical (ticks-per-beat) timing".to_owned(),
            MidiError::NoNotes => "there are no notes in this file".to_owned(),
        }
    }
}

/// A big-endian 16-bit number.
pub open spec fn be16(bytes: Seq<u8>, at: int) -> nat {
    (bytes[at] as nat) * 256 + bytes[at + 1] as nat
}

/// A big-endian 32-bit number.
pub open spec fn be32(bytes: Seq<u8>, at: int) -> nat {
    be16(bytes, at) * 65536 + be16(bytes, at + 2)
}

/// A variable-length quantity: seven bits to the byte, high bit set while more follows, at most
/// `left` bytes. Gives the value and where it ends, or where reading it failed.
pub open spec fn quantity(bytes: Seq<u8>, at: int, left: nat, value: nat) -> Result<(nat, int), MidiError>
    decreases left,
{
    if left == 0 || at < 0 || at >= bytes.len() {
        Err(MidiError::Truncated { at: at as usize })
    } else {
        let now = value * 128 + (bytes[at] % 128) as nat;
        if bytes[at] < 128 {
            Ok((now, at + 1))
        } else {
            quantity(bytes, at + 1, (left - 1) as nat, now)
        }
    }
}

/// A cursor over the file, whose every read is bounds-checked: these are bytes from a file
/// somebody downloaded, and a panic on a truncated one would be a crash where an error belongs.
pub struct Reader<'a> {
    pub bytes: &'a [u8],
    pub at: usize,
}

impl<'a> Reader<'a> {
    pub open spec fn valid(self) -> bool {
        self.at <= self.bytes@.len()
    }

    pub fn new(bytes: &'a [u8]) -> (reader: Self)
        ensures
            reader.bytes@ == bytes@,
            reader.at == 0,
    {
        Reader { bytes, at: 0 }
    }

    pub fn remaining(&self) -> (n: usize)
        ensures
            n == (if self.at <= self.bytes@.len() {
                self.bytes@.len() - self.at
            } else {
                0
            }),
    {
        if self.at <= self.bytes.len() {
            self.bytes.len() - self.at
        } else {
            0
        }
    }

    /// The next `n` bytes. A read that runs off the end moves nothing.
    pub fn take(&mut self, n: usize) -> (taken: Result<&'a [u8], MidiError>)
        ensures
            final(self).bytes == old(self).bytes,
            match taken {
                Ok(slice) => {
                    &&& old(self).at + n <= old(self).bytes@.len()
                    &&& slice@ == old(self).bytes@.subrange(old(self).at as int, old(self).at + n)
                    &&& final(self).at == old(self).at + n
                },
                Err(e) => {
                    &&& old(self).at + n > old(self).bytes@.len()
                    &&& e == MidiError::Truncated { at: old(self).at }
                    &&& final(self).at == old(self).at
                },
            },
    {
        if self.at > self.bytes.len() || n > self.bytes.len() - self.at {
            return Err(MidiError::Truncated { at: self.at });
        }
        let slice = slice_subrange(self.bytes, self.at, self.at + n);
        self.at = self.at + n;
        Ok(slice)
    }

    pub fn skip(&mut self, n: usize) -> (done: Result<(), MidiError>)
        ensures
            final(self).bytes == old(self).bytes,
            match done {
                Ok(_) => old(self).at + n <= old(self).bytes@.len() && final(self).at == old(self).at
                    + n,
                Err(e) => old(self).at + n > old(self).bytes@.len() && e == (MidiError::Truncated {
                    at: old(self).at,
                }) && final(self).at == old(self).at,
            },
    {
        match self.take(n) {
            Ok(_) => Ok(()),
            Err(e) => Err(e),
        }
    }

    pub fn u8(&mut self) -> (byte: Result<u8, MidiError>)
        ensures
            final(self).bytes == old(self).bytes,
            match byte {
                Ok(b) => old(self).at < old(self).bytes@.len() && b
                    == old(self).bytes@[old(self).at as int] && final(self).at == old(self).at + 1,
                Err(e) => old(self).at >= old(self).bytes@.len() && e == (MidiError::Truncated {
                    at: old(self).at,
                }) && final(self).at == old(self).at,
            },
    {
        match self.take(1) {
            Ok(b) => Ok(b[0]),
            Err(e) => Err(e),
        }
    }

    pub fn u16(&mut self) -> (value: Result<u16, MidiError>)
        ensures
            final(self).bytes == old(self).bytes,
            match value {
                Ok(v) => old(self).at + 2 <= old(self).bytes@.len() && v == be16(
                    old(self).bytes@,
                    old(self).at as int,
                ) && final(self).at == old(self).at + 2,
                Err(e) => old(self).at + 2 > old(self).bytes@.len() && e == (MidiError::Truncated {
                    at: old(self).at,
                }) && final(self).at == old(self).at,
            },
    {
        match self.take(2) {
            Ok(b) => Ok(b[0] as u16 * 256 + b[1] as u16),
            Err(e) => Err(e),
        }
    }

    pub fn u32(&mut self) -> (value: Result<u32, MidiError>)
        ensures
            final(self).bytes == old(self).bytes,
            match value {
                Ok(v) => old(self).at + 4 <= old(self).bytes@.len() && v == be32(
                    old(self).bytes@,
                    old(self).at as int,
                ) && final(self).at == old(self).at + 4,
                Err(e) => old(self).at + 4 > old(self).bytes@.len() && e == (MidiError::Truncated {
                    at: old(self).at,
                }) && final(self).at == old(self).at,
            },
    {
        match self.take(4) {
            Ok(b) => {
                let high: u32 = b[0] as u32 * 256 + b[1] as u32;
                let low: u32 = b[2] as u32 * 256 + b[3] as u32;
                Ok(high * 65536 + low)
            },
            Err(e) => Err(e),
        }
    }

    /// A chunk's four-letter tag.
    pub fn tag(&mut self) -> (tag: Result<[u8; 4], MidiError>)
        ensures
            final(self).bytes == old(self).bytes,
            match tag {
                Ok(t) => old(self).at + 4 <= old(self).bytes@.len() && t@ == old(
                    self,
                ).bytes@.subrange(old(self).at as int, old(self).at + 4) && final(self).at == old(
                    self,
                ).at + 4,
                Err(e) => old(self).at + 4 > old(self).bytes@.len() && e == (MidiError::Truncated {
                    at: old(self).at,
                }) && final(self).at == old(self).at,
            },
    {
        match self.take(4) {
            Ok(b) => {
                let tag: [u8; 4] = [b[0], b[1], b[2], b[3]];
                assert(tag@ =~= b@);
                Ok(tag)
            },
            Err(e) => Err(e),
        }
    }

    /// A variable-length quantity. Four bytes is the maximum; more than that is a corrupt file,
    /// not a big number.
    pub fn varint(&mut self) -> (value: Result<u64, MidiError>)
        requires
            old(self).valid(),
        ensures
            final(self).bytes == old(self).bytes,
            final(self).valid(),
            final(self).at >= old(self).at,
            match quantity(old(self).bytes@, old(self).at as int, 4, 0) {
                Ok((v, end)) => value == Ok::<u64, MidiError>(v as u64) && v < 0x1000_0000
                    && final(self).at == end && end > old(self).at,
                Err(e) => value == Err::<u64, MidiError>(e),
            },
    {
        let mut value: u64 = 0;
        let mut left: u32 = 4;
        proof {
            assert(pow128(0) == 1);
        }
        while left > 0
            invariant
                left <= 4,
                self.bytes == old(self).bytes,
                self.valid(),
                self.at >= old(self).at,
                left < 4 ==> self.at > old(self).at,
                value < pow128((4 - left) as nat),
                quantity(old(self).bytes@, old(self).at as int, 4, 0) == quantity(
                    old(self).bytes@,
                    self.at as int,
                    left as nat,
                    value as nat,
                ),
            decreases left,
        {
            proof {
                reveal_with_fuel(pow128, 5);
            }
            let byte = match self.u8() {
                Ok(b) => b,
                Err(e) => {
                    return Err(e);
                },
            };
            value = value * 128 + (byte % 128) as u64;
            left = left - 1;
            if byte < 128 {
                return Ok(value);
            }
        }
        Err(MidiError::Truncated { at: self.at })
    }
}

/// 128 to the `n`.
pub open spec fn pow128(n: nat) -> nat
    decreases n,
{
    if n == 0 {
        1
    } else {
        128 * pow128((n - 1) as nat)
    }
}

/// A quantity written out: seven bits to the byte, most significant first.
pub open spec fn written(value: nat, more: bool) -> Seq<u8>
    decreases value,
{
    let low = (value % 128 + (if more {
        128nat
    } else {
        0
    })) as u8;
    if value < 128 {
        seq![low]
    } else {
        written(value / 128, true).push(low)
    }
}

proof fn lemma_written_prefix(value: nat, more: bool, n: nat)
    requires
        n >= 1,
        value < pow128(n),
    ensures
        1 <= written(value, more).len() <= n,
    decreases value,
{
    if value >= 128 {
        assert(n > 1) by {
            if n == 1 {
                assert(pow128(1) == 128) by {
                    reveal_with_fuel(pow128, 2);
                }
            }
        }
        assert(value / 128 < pow128((n - 1) as nat));
        lemma_written_prefix(value / 128, true, (n - 1) as nat);
    }
}

/// Reading a prefix of continued bytes only shifts the work to what follows.
proof fn lemma_read_prefix(value: nat, bytes: Seq<u8>, at: int, left: nat)
    requires
        0 <= at,
        written(value, true).len() <= left,
        at + written(value, true).len() <= bytes.len(),
        bytes.subrange(at, at + written(value, true).len()) == written(value, true),
    ensures
        quantity(bytes, at, left, 0) == quantity(
            bytes,
            at + written(value, true).len(),
            (left - written(value, true).len()) as nat,
            value,
        ),
    decreases value,
{
    let w = written(value, true);
    let last = bytes[at + w.len() - 1];
    assert(last == w[w.len() - 1]) by {
        assert(bytes.subrange(at, at + w.len())[w.len() - 1] == last);
    }
    if value < 128 {
        assert(w.len() == 1);
        assert(last % 128 == value);
    } else {
        let front = written(value / 128, true);
        assert(w == front.push(w.last()));
        assert(bytes.subrange(at, at + front.len()) =~= front) by {
            assert forall|i: int| 0 <= i < front.len() implies bytes.subrange(
                at,
                at + front.len(),
            )[i] == front[i] by {
                assert(bytes.subrange(at, at + w.len())[i] == w[i]);
            }
        }
        lemma_read_prefix(value / 128, bytes, at, left);
        assert(last == w.last());
        assert(last % 128 == value % 128);
        assert(last >= 128);
    }
}

/// What is written as a variable-length quantity is read back: the same value, from exactly the
/// bytes it was written in, wherever in the file they stand.
pub proof fn a_written_quantity_is_read_back(value: nat, bytes: Seq<u8>, at: int)
    requires
        value < 0x1000_0000,
        0 <= at,
        at + written(value, false).len() <= bytes.len(),
        bytes.subrange(at, at + written(value, false).len()) == written(value, false),
    ensures
        quantity(bytes, at, 4, 0) == Ok::<(nat, int), MidiError>(
            (value, at + written(value, false).len()),
        ),
{
    let w = written(value, false);
    assert(value < pow128(4)) by {
        reveal_with_fuel(pow128, 5);
    }
    lemma_written_prefix(value, false, 4);
    let last = bytes[at + w.len() - 1];
    assert(last == w[w.len() - 1]) by {
        assert(bytes.subrange(at, at + w.len())[w.len() - 1] == last);
    }
    if value < 128 {
        assert(last == value);
    } else {
        let front = written(value / 128, true);
        assert(w == front.push(w.last()));
        assert(bytes.subrange(at, at + front.len()) =~= front) by {
            assert forall|i: int| 0 <= i < front.len() implies bytes.subrange(
                at,
                at + front.len(),
            )[i] == front[i] by {
                assert(bytes.subrange(at, at + w.len())[i] == w[i]);
            }
        }
        lemma_read_prefix(value / 128, bytes, at, 4);
        assert(last == (value % 128) as u8);
    }
}

/// One note as the file describes it, before parts are assigned.
#[derive(Debug, Clone, Copy, PartialEq, Eq, Structural)]
pub struct Raw {
    pub group: usize,
    pub start_tick: u64,
    pub end_tick: u64,
    pub midi: u8,
    pub velocity: u8,
}

/// What one event of a track means to a score.
#[derive(Debug, Clone, Copy, PartialEq, Eq, Structural)]
pub enum Event {
    On { channel: u8, pitch: u8, velocity: u8 },
    Off { channel: u8, pitch: u8 },
    /// A track name: the file's bytes from one index to another.
    Label { from: usize, to: usize },
    /// Microseconds per quarter note.
    Tempo { micros: u32 },
    /// Anything else.
    Other,
}

/// One decoded event, and what reading goes on with.
#[derive(Debug, Clone, Copy, PartialEq, Eq, Structural)]
pub struct Decoded {
    pub delta: u64,
    pub event: Event,
    /// Where the next event starts.
    pub next: usize,
    /// The status byte that a following data byte runs on.
    pub status: u8,
}

/// What a meta event of a kind means, its data at `bytes[from..to]`.
pub open spec fn meta(bytes: Seq<u8>, kind: u8, from: int, to: int) -> Event {
    if kind == 0x03 {
        Event::Label { from: from as usize, to: to as usize }
    } else if kind == 0x51 && to - from == 3 {
        Event::Tempo {
            micros: ((bytes[from] as nat) * 65536 + be16(bytes, from + 1)) as u32,
        }
    } else {
        Event::Other
    }
}

/// The part of an event behind its status byte: what it means and where it ends.
pub open spec fn body_at(bytes: Seq<u8>, command: u8, at: int) -> Result<(Event, int), MidiError> {
    let kind = command / 16;
    if kind == 8 || kind == 9 {
        if at >= bytes.len() {
            Err(MidiError::Truncated { at: at as usize })
        } else if at + 1 >= bytes.len() {
            Err(MidiError::Truncated { at: (at + 1) as usize })
        } else {
            let channel = command % 16;
            let pitch = bytes[at] % 128;
            let velocity = bytes[at + 1] % 128;
            // A note-on with zero velocity is a note-off; every file in the world uses it.
            Ok(
                (
                    if kind == 9 && velocity > 0 {
                        Event::On { channel, pitch, velocity }
                    } else {
                        Event::Off { channel, pitch }
                    },
                    at + 2,
                ),
            )
        }
    } else if kind == 10 || kind == 11 || kind == 14 {
        if at + 2 > bytes.len() {
            Err(MidiError::Truncated { at: at as usize })
        } else {
            Ok((Event::Other, at + 2))
        }
    } else if kind == 12 || kind == 13 {
        if at + 1 > bytes.len() {
            Err(MidiError::Truncated { at: at as usize })
        } else {
            Ok((Event::Other, at + 1))
        }
    } else if command == 0xFF {
        if at >= bytes.len() {
            Err(MidiError::Truncated { at: at as usize })
        } else {
            match quantity(bytes, at + 1, 4, 0) {
                Err(e) => Err(e),
                Ok((length, from)) => if from + length > bytes.len() {
                    Err(MidiError::Truncated { at: from as usize })
                } else {
                    Ok((meta(bytes, bytes[at], from, from + length), from + length))
                },
            }
        }
    } else if command == 0xF0 || command == 0xF7 {
        match quantity(bytes, at, 4, 0) {
            Err(e) => Err(e),
            Ok((length, from)) => if from + length > bytes.len() {
                Err(MidiError::Truncated { at: from as usize })
            } else {
                Ok((Event::Other, from + length))
            },
        }
    } else {
        Ok((Event::Other, at))
    }
}

/// The event at `bytes[at..]`: a delta time, a status byte unless the previous one still
/// applies, and the data that the status calls for.
pub open spec fn event_at(bytes: Seq<u8>, at: int, status: u8) -> Result<Decoded, MidiError> {
    match quantity(bytes, at, 4, 0) {
        Err(e) => Err(e),
        Ok((delta, from)) => if from >= bytes.len() {
            Err(MidiError::Truncated { at: from as usize })
        } else {
            let running = bytes[from] < 128;
            let command = if running {
                status
            } else {
                bytes[from]
            };
            match body_at(
                bytes,
                command,
                if running {
                    from
                } else {
                    from + 1
                },
            ) {
                Err(e) => Err(e),
                Ok((event, next)) => Ok(
                    Decoded { delta: delta as u64, event, next: next as usize, status: command },
                ),
            }
        },
    }
}

proof fn lemma_quantity(bytes: Seq<u8>, at: int, left: nat, value: nat)
    requires
        0 <= at,
    ensures
        quantity(bytes, at, left, value) matches Ok((v, next)) ==> at < next <= bytes.len() && next
            <= at + left && v < (value + 1) * pow128(left),
    decreases left,
{
    if left > 0 && at < bytes.len() {
        let now = value * 128 + (bytes[at] % 128) as nat;
        lemma_quantity(bytes, at + 1, (left - 1) as nat, now);
        let p = pow128((left - 1) as nat);
        assert(pow128(left) == 128 * p);
        lemma_pow128(left);
        lemma_pow128((left - 1) as nat);
        assert((now + 1) * p <= (value + 1) * (128 * p)) by (nonlinear_arith)
            requires
                now + 1 <= (value + 1) * 128,
                p >= 1,
        ;
        assert(now < (value + 1) * (128 * p)) by (nonlinear_arith)
            requires
                now + 1 <= (value + 1) * 128,
                p >= 1,
        ;
    }
}

proof fn lemma_pow128(n: nat)
    ensures
        pow128(n) >= 1,
    decreases n,
{
    if n > 0 {
        lemma_pow128((n - 1) as nat);
    }
}

proof fn lemma_delta(bytes: Seq<u8>, at: int)
    requires
        0 <= at,
    ensures
        quantity(bytes, at, 4, 0) matches Ok((v, next)) ==> at < next <= bytes.len() && v < 0x1000_0000,
{
    lemma_quantity(bytes, at, 4, 0);
    assert(pow128(4) == 0x1000_0000) by {
        reveal_with_fuel(pow128, 5);
    }
}

proof fn lemma_event(bytes: Seq<u8>, at: int, status: u8)
    requires
        0 <= at,
        bytes.len() <= usize::MAX,
    ensures
        event_at(bytes, at, status) matches Ok(d) ==> {
            &&& at < d.next <= bytes.len()
            &&& d.delta < 0x1000_0000
            &&& d.event matches Event::On { channel, pitch, velocity } ==> channel < 16 && pitch < 128
                && 0 < velocity < 128
            &&& d.event matches Event::Off { channel, pitch } ==> channel < 16 && pitch < 128
            &&& d.event matches Event::Label { from, to } ==> from <= to <= bytes.len()
            &&& d.event matches Event::Tempo { micros } ==> micros < 0x100_0000
        },
{
    lemma_delta(bytes, at);
    match quantity(bytes, at, 4, 0) {
        Err(e) => {},
        Ok((delta, from)) => {
            lemma_delta(bytes, from);
            lemma_delta(bytes, from + 1);
            lemma_delta(bytes, from + 2);
        },
    }
}

fn read_body(reader: &mut Reader<'_>, command: u8) -> (read: Result<Event, MidiError>)
    requires
        old(reader).valid(),
    ensures
        final(reader).bytes == old(reader).bytes,
        final(reader).valid(),
        match body_at(old(reader).bytes@, command, old(reader).at as int) {
            Ok((event, next)) => read == Ok::<Event, MidiError>(event) && final(reader).at == next,
            Err(e) => read == Err::<Event, MidiError>(e),
        },
{
    let kind: u8 = command / 16;
    let ghost at = reader.at as int;
    if kind == 8 || kind == 9 {
        let channel: u8 = command % 16;
        let pitch: u8 = match reader.u8() {
            Ok(b) => b % 128,
            Err(e) => {
                return Err(e);
            },
        };
        let velocity: u8 = match reader.u8() {
            Ok(b) => b % 128,
            Err(e) => {
                return Err(e);
            },
        };
        if kind == 9 && velocity > 0 {
            Ok(Event::On { channel, pitch, velocity })
        } else {
            Ok(Event::Off { channel, pitch })
        }
    } else if kind == 10 || kind == 11 || kind == 14 {
        match reader.skip(2) {
            Ok(_) => Ok(Event::Other),
            Err(e) => Err(e),
        }
    } else if kind == 12 || kind == 13 {
        match reader.skip(1) {
            Ok(_) => Ok(Event::Other),
            Err(e) => Err(e),
        }
    } else if command == 0xFF {
        let meta_kind: u8 = match reader.u8() {
            Ok(b) => b,
            Err(e) => {
                return Err(e);
            },
        };
        let length: usize = match reader.varint() {
            Ok(v) => v as usize,
            Err(e) => {
                return Err(e);
            },
        };
        let from: usize = reader.at;
        let data = match reader.take(length) {
            Ok(slice) => slice,
            Err(e) => {
                return Err(e);
            },
        };
        if meta_kind == 0x03 {
            Ok(Event::Label { from, to: reader.at })
        } else if meta_kind == 0x51 && length == 3 {
            let micros: u32 = data[0] as u32 * 65536 + (data[1] as u32 * 256 + data[2] as u32);
            Ok(Event::Tempo { micros })
        } else {
            Ok(Event::Other)
        }
    } else if command == 0xF0 || command == 0xF7 {
        let length: usize = match reader.varint() {
            Ok(v) => v as usize,
            Err(e) => {
                return Err(e);
            },
        };
        match reader.skip(length) {
            Ok(_) => Ok(Event::Other),
            Err(e) => Err(e),
        }
    } else {
        Ok(Event::Other)
    }
}

fn read_event(reader: &mut Reader<'_>, status: u8) -> (read: Result<Decoded, MidiError>)
    requires
        old(reader).valid(),
    ensures
        final(reader).bytes == old(reader).bytes,
        final(reader).valid(),
        read == event_at(old(reader).bytes@, old(reader).at as int, status),
        read matches Ok(d) ==> final(reader).at == d.next,
{
    let ghost at = reader.at as int;
    let delta: u64 = match reader.varint() {
        Ok(v) => v,
        Err(e) => {
            return Err(e);
        },
    };
    let byte: u8 = match reader.u8() {
        Ok(b) => b,
        Err(e) => {
            return Err(e);
        },
    };
    let mut command: u8 = byte;
    if byte < 128 {
        // Running status: this byte is data, and the previous status still applies.
        reader.at = reader.at - 1;
        command = status;
    }
    let event = match read_body(reader, command) {
        Ok(event) => event,
        Err(e) => {
            return Err(e);
        },
    };
    Ok(Decoded { delta, event, next: reader.at, status: command })
}

/// What has been heard of a file so far.
#[verifier::ext_equal]
pub struct Heard {
    pub raws: Seq<Raw>,
    /// One group per track and channel, numbered as they are first heard: a file may put two
    /// voices on one track and different channels.
    pub groups: Seq<(usize, u8)>,
    /// The first tempo mark, in microseconds per quarter note.
    pub tempo: Option<u32>,
    /// Whether a later mark asked for another tempo.
    pub retimed: bool,
}

/// Where a group stands from an index on, or the number of groups where it is new.
pub open spec fn group_from(groups: Seq<(usize, u8)>, key: (usize, u8), from: int) -> int
    decreases groups.len() - from,
{
    if from >= groups.len() {
        groups.len() as int
    } else if groups[from] == key {
        from
    } else {
        group_from(groups, key, from + 1)
    }
}

/// What is heard once a note has sounded. A note that lasts no time is nothing.
pub open spec fn sounded(
    heard: Heard,
    track: usize,
    channel: u8,
    start: u64,
    end: u64,
    midi: u8,
    velocity: u8,
) -> Heard {
    if end <= start {
        heard
    } else {
        let key = (track, channel);
        let group = group_from(heard.groups, key, 0);
        Heard {
            raws: heard.raws.push(
                Raw { group: group as usize, start_tick: start, end_tick: end, midi, velocity },
            ),
            groups: if group < heard.groups.len() {
                heard.groups
            } else {
                heard.groups.push(key)
            },
            ..heard
        }
    }
}

/// A track being read.
#[verifier::ext_equal]
pub struct Playing {
    pub tick: u64,
    pub status: u8,
    /// When each sounding note began and how hard it was struck, one place per channel and
    /// pitch.
    pub open: Seq<Option<(u64, u8)>>,
    /// The track's names, in the order they are written, as bytes.
    pub labels: Seq<Seq<u8>>,
}

/// The place of a channel's pitch among the sounding notes.
pub open spec fn slot(channel: u8, pitch: u8) -> int {
    channel * 128 + pitch
}

/// What an event does to what has been heard. A second note-on for a pitch already sounding ends
/// the first, which is what a sane sequencer means by it.
pub open spec fn played(
    bytes: Seq<u8>,
    track: usize,
    heard: Heard,
    playing: Playing,
    event: Event,
) -> (Heard, Playing) {
    match event {
        Event::On { channel, pitch, velocity } => {
            let at = slot(channel, pitch);
            let heard = match playing.open[at] {
                Some((start, struck)) => sounded(
                    heard,
                    track,
                    channel,
                    start,
                    playing.tick,
                    pitch,
                    struck,
                ),
                None => heard,
            };
            (heard, Playing { open: playing.open.update(at, Some((playing.tick, velocity))), ..playing })
        },
        Event::Off { channel, pitch } => {
            let at = slot(channel, pitch);
            let heard = match playing.open[at] {
                Some((start, struck)) => sounded(
                    heard,
                    track,
                    channel,
                    start,
                    playing.tick,
                    pitch,
                    struck,
                ),
                None => heard,
            };
            (heard, Playing { open: playing.open.update(at, None), ..playing })
        },
        Event::Label { from, to } => (
            heard,
            Playing { labels: playing.labels.push(bytes.subrange(from as int, to as int)), ..playing },
        ),
        Event::Tempo { micros } => (
            match heard.tempo {
                None => Heard { tempo: Some(micros), ..heard },
                Some(first) => Heard {
                    retimed: heard.retimed || micros > first + 1 || first > micros + 1,
                    ..heard
                },
            },
            playing,
        ),
        Event::Other => (heard, playing),
    }
}

/// A track read from index `at` until its chunk is over.
pub open spec fn track_from(
    bytes: Seq<u8>,
    track: usize,
    at: int,
    end: int,
    heard: Heard,
    playing: Playing,
) -> Result<(Heard, Playing), MidiError>
    decreases bytes.len() - at,
    when 0 <= at && bytes.len() <= usize::MAX
    via track_advances
{
    if at >= end {
        Ok((heard, playing))
    } else {
        match event_at(bytes, at, playing.status) {
            Err(e) => Err(e),
            Ok(d) => {
                let now = Playing {
                    tick: (playing.tick + d.delta) as u64,
                    status: d.status,
                    ..playing
                };
                let (heard, playing) = played(bytes, track, heard, now, d.event);
                track_from(bytes, track, d.next as int, end, heard, playing)
            },
        }
    }
}

#[via_fn]
proof fn track_advances(
    bytes: Seq<u8>,
    track: usize,
    at: int,
    end: int,
    heard: Heard,
    playing: Playing,
) {
    lemma_event(bytes, at, playing.status);
}

/// Notes still sounding when a track is over end there rather than being lost.
pub open spec fn let_go(heard: Heard, track: usize, playing: Playing, from: int) -> Heard
    decreases playing.open.len() - from,
{
    if from >= playing.open.len() {
        heard
    } else {
        let now = match playing.open[from] {
            Some((start, struck)) => sounded(
                heard,
                track,
                (from / 128) as u8,
                start,
                playing.tick,
                (from % 128) as u8,
                struck,
            ),
            None => heard,
        };
        let_go(now, track, playing, from + 1)
    }
}

/// A track before its first event.
pub open spec fn quiet() -> Playing {
    Playing {
        tick: 0,
        status: 0,
        open: Seq::new(2048, |i: int| None),
        labels: Seq::empty(),
    }
}

/// Whether a track contributed a note.
pub open spec fn contributed(heard: Heard, track: usize) -> bool {
    exists|i: int|
        0 <= i < heard.raws.len() && heard.groups[(#[trigger] heard.raws[i]).group as int].0 == track
}

/// A file being read, chunk by chunk.
#[verifier::ext_equal]
pub struct Progress {
    pub heard: Heard,
    /// The number of tracks read.
    pub tracks: nat,
    /// For each track that had notes: its number, and the names written in it.
    pub named: Seq<(usize, Seq<Seq<u8>>)>,
}

/// What one track adds.
pub open spec fn track_added(p: Progress, heard: Heard, playing: Playing) -> Progress {
    let track = p.tracks as usize;
    let heard = let_go(heard, track, playing, 0);
    Progress {
        heard,
        tracks: p.tracks + 1,
        named: if contributed(heard, track) {
            p.named.push((track, playing.labels))
        } else {
            p.named
        },
    }
}

/// The chunks from index `at` on. A chunk that is no track is skipped: that is what the length
/// prefix is for.
pub open spec fn chunks_from(bytes: Seq<u8>, at: int, p: Progress) -> Result<Progress, MidiError>
    decreases bytes.len() - at,
    when 0 <= at
{
    if bytes.len() - at < 8 {
        Ok(p)
    } else {
        let length = be32(bytes, at + 4);
        let end = at + 8 + length;
        if end > bytes.len() {
            Err(MidiError::Truncated { at: (at + 8) as usize })
        } else if bytes.subrange(at, at + 4) != seq![0x4Du8, 0x54, 0x72, 0x6B] {
            chunks_from(bytes, end, p)
        } else {
            match track_from(bytes, p.tracks as usize, at + 8, end, p.heard, quiet()) {
                Err(e) => Err(e),
                Ok((heard, playing)) => chunks_from(bytes, end, track_added(p, heard, playing)),
            }
        }
    }
}

/// A file before its first chunk.
pub open spec fn untouched() -> Progress {
    Progress {
        heard: Heard {
            raws: Seq::empty(),
            groups: Seq::empty(),
            tempo: None,
            retimed: false,
        },
        tracks: 0,
        named: Seq::empty(),
    }
}

/// What a file that has been read amounts to: its ticks to the beat, and what was heard.
pub open spec fn finished(read: Result<Progress, MidiError>, division: nat) -> Result<
    (nat, Progress),
    MidiError,
> {
    match read {
        Err(e) => Err(e),
        Ok(p) => if p.heard.raws.len() == 0 {
            Err(MidiError::NoNotes)
        } else if division == 0 {
            Ok((1, p))
        } else {
            Ok((division, p))
        },
    }
}

/// What a file holds, before anyone decides who sings it: the ticks to the beat, and what was
/// heard.
pub open spec fn file_contents(bytes: Seq<u8>) -> Result<(nat, Progress), MidiError> {
    if bytes.len() < 14 || bytes.subrange(0, 4) != seq![0x4Du8, 0x54, 0x68, 0x64] {
        Err(MidiError::NotMidi)
    } else if be16(bytes, 12) >= 0x8000 {
        Err(MidiError::SmpteTiming)
    } else {
        let header = 8 + be32(bytes, 4);
        let start = if header < bytes.len() {
            header as int
        } else {
            bytes.len() as int
        };
        finished(chunks_from(bytes, start, untouched()), be16(bytes, 12))
    }
}

/// A track that had notes, with the names written in it, as bytes.
pub struct Labelled {
    pub track: usize,
    pub labels: Vec<Vec<u8>>,
}

/// What a list of byte strings holds.
pub open spec fn byte_strings(v: Seq<Vec<u8>>) -> Seq<Seq<u8>> {
    Seq::new(v.len(), |i: int| v[i]@)
}

/// What a list of labelled tracks holds.
pub open spec fn labelled(v: Seq<Labelled>) -> Seq<(usize, Seq<Seq<u8>>)> {
    Seq::new(v.len(), |i: int| (v[i].track, byte_strings(v[i].labels@)))
}

/// What was gathered from a file.
pub struct Gathered {
    pub ticks_per_beat: u64,
    pub raws: Vec<Raw>,
    pub groups: Vec<(usize, u8)>,
    pub tempo: Option<u32>,
    pub retimed: bool,
    pub named: Vec<Labelled>,
}

impl Gathered {
    pub open spec fn heard(self) -> Heard {
        Heard {
            raws: self.raws@,
            groups: self.groups@,
            tempo: self.tempo,
            retimed: self.retimed,
        }
    }

    /// Every note lasts some time, on the keyboard, in a group that exists.
    pub open spec fn valid(self) -> bool {
        heard_valid(self.heard())
    }
}

/// Every note lasts some time, on the keyboard, in a group that exists; every group has a note;
/// and a tempo mark is what three bytes can say.
pub open spec fn heard_valid(heard: Heard) -> bool {
    &&& forall|i: int|
        0 <= i < heard.raws.len() ==> {
            &&& (#[trigger] heard.raws[i]).start_tick < heard.raws[i].end_tick
            &&& heard.raws[i].group < heard.groups.len()
            &&& heard.raws[i].midi < 128
            &&& heard.raws[i].velocity < 128
        }
    &&& heard.groups.len() <= heard.raws.len()
    &&& heard.tempo matches Some(t) ==> t < 0x100_0000
}

/// The notes that are open are on the keyboard.
pub open spec fn playing_valid(playing: Playing) -> bool {
    &&& playing.open.len() == 2048
    &&& forall|i: int|
        0 <= i < 2048 ==> ((#[trigger] playing.open[i]) matches Some((start, struck)) ==> struck < 128)
}

/// How many notes are sounding among the first `n` places.
pub open spec fn sounding(open: Seq<Option<(u64, u8)>>, n: nat) -> nat
    decreases n,
{
    if n == 0 {
        0
    } else {
        sounding(open, (n - 1) as nat) + (if open[n - 1] is Some {
            1nat
        } else {
            0
        })
    }
}

proof fn lemma_sounding_update(open: Seq<Option<(u64, u8)>>, i: int, v: Option<(u64, u8)>, n: nat)
    requires
        0 <= i < open.len(),
        n <= open.len(),
    ensures
        i >= n ==> sounding(open.update(i, v), n) == sounding(open, n),
        i < n ==> sounding(open.update(i, v), n) + (if open[i] is Some {
            1nat
        } else {
            0
        }) == sounding(open, n) + (if v is Some {
            1nat
        } else {
            0
        }),
    decreases n,
{
    if n > 0 {
        lemma_sounding_update(open, i, v, (n - 1) as nat);
    }
}

/// Records a note, in the group of its track and channel.
pub fn push(
    gathered: &mut Gathered,
    track: usize,
    channel: u8,
    start_tick: u64,
    end_tick: u64,
    midi: u8,
    velocity: u8,
)
    requires
        old(gathered).valid(),
        midi < 128,
        velocity < 128,
    ensures
        final(gathered).heard() == sounded(
            old(gathered).heard(),
            track,
            channel,
            start_tick,
            end_tick,
            midi,
            velocity,
        ),
        final(gathered).valid(),
        final(gathered).named == old(gathered).named,
        final(gathered).ticks_per_beat == old(gathered).ticks_per_beat,
{
    if end_tick <= start_tick {
        return ;
    }
    let mut group: usize = 0;
    while group < gathered.groups.len() && !(gathered.groups[group].0 == track
        && gathered.groups[group].1 == channel)
        invariant
            *gathered == *old(gathered),
            group <= gathered.groups@.len(),
            group_from(gathered.groups@, (track, channel), 0) == group_from(
                gathered.groups@,
                (track, channel),
                group as int,
            ),
        decreases gathered.groups@.len() - group,
    {
        group = group + 1;
    }
    if group >= gathered.groups.len() {
        gathered.groups.push((track, channel));
    }
    gathered.raws.push(Raw { group, start_tick, end_tick, midi, velocity });
    proof {
        let now = gathered.heard();
        assert forall|i: int| 0 <= i < now.raws.len() implies {
            &&& (#[trigger] now.raws[i]).start_tick < now.raws[i].end_tick
            &&& now.raws[i].group < now.groups.len()
            &&& now.raws[i].midi < 128
            &&& now.raws[i].velocity < 128
        } by {
            if i < now.raws.len() - 1 {
                assert(now.raws[i] == old(gathered).heard().raws[i]);
            }
        }
    }
}

/// The exec side of a track being read.
struct Track {
    tick: u64,
    status: u8,
    open: Vec<Option<(u64, u8)>>,
    labels: Vec<Vec<u8>>,
}

impl Track {
    spec fn playing(self) -> Playing {
        Playing {
            tick: self.tick,
            status: self.status,
            open: self.open@,
            labels: byte_strings(self.labels@),
        }
    }
}

fn copy_bytes(bytes: &[u8], from: usize, to: usize) -> (copy: Vec<u8>)
    requires
        from <= to <= bytes@.len(),
    ensures
        copy@ == bytes@.subrange(from as int, to as int),
{
    let mut copy: Vec<u8> = Vec::new();
    let mut at: usize = from;
    while at < to
        invariant
            from <= at <= to <= bytes@.len(),
            copy@ == bytes@.subrange(from as int, at as int),
        decreases to - at,
    {
        copy.push(bytes[at]);
        at = at + 1;
        assert(copy@ =~= bytes@.subrange(from as int, at as int));
    }
    copy
}

fn play(bytes: &[u8], number: usize, gathered: &mut Gathered, track: &mut Track, event: Event)
    requires
        old(gathered).valid(),
        playing_valid(old(track).playing()),
        event matches Event::On { channel, pitch, velocity } ==> channel < 16 && pitch < 128 && velocity
            < 128,
        event matches Event::Off { channel, pitch } ==> channel < 16 && pitch < 128,
        event matches Event::Label { from, to } ==> from <= to <= bytes@.len(),
        event matches Event::Tempo { micros } ==> micros < 0x100_0000,
    ensures
        (final(gathered).heard(), final(track).playing()) == played(
            bytes@,
            number,
            old(gathered).heard(),
            old(track).playing(),
            event,
        ),
        final(gathered).valid(),
        playing_valid(final(track).playing()),
        final(gathered).raws@.len() + sounding(final(track).open@, 2048) <= old(
            gathered,
        ).raws@.len() + sounding(old(track).open@, 2048) + 1,
        final(track).tick == old(track).tick,
        final(gathered).named == old(gathered).named,
        final(gathered).ticks_per_beat == old(gathered).ticks_per_beat,
{
    match event {
        Event::On { channel, pitch, velocity } => {
            let at: usize = channel as usize * 128 + pitch as usize;
            let sounding = track.open[at];
            match sounding {
                Some((start, struck)) => {
                    push(gathered, number, channel, start, track.tick, pitch, struck);
                },
                None => {},
            }
            proof {
                lemma_sounding_update(track.open@, at as int, Some((track.tick, velocity)), 2048);
            }
            track.open.set(at, Some((track.tick, velocity)));
        },
        Event::Off { channel, pitch } => {
            let at: usize = channel as usize * 128 + pitch as usize;
            let sounding = track.open[at];
            match sounding {
                Some((start, struck)) => {
                    push(gathered, number, channel, start, track.tick, pitch, struck);
                },
                None => {},
            }
            proof {
                lemma_sounding_update(track.open@, at as int, None, 2048);
            }
            track.open.set(at, None);
        },
        Event::Label { from, to } => {
            let label = copy_bytes(bytes, from, to);
            let ghost text = label@;
            let ghost before = track.labels@;
            track.labels.push(label);
            proof {
                assert(byte_strings(track.labels@) =~= byte_strings(before).push(text));
            }
        },
        Event::Tempo { micros } => {
            match gathered.tempo {
                None => {
                    gathered.tempo = Some(micros);
                },
                Some(first) => {
                    if micros > first + 1 || first > micros + 1 {
                        gathered.retimed = true;
                    }
                },
            }
        },
        Event::Other => {},
    }
}

proof fn lemma_all_quiet(open: Seq<Option<(u64, u8)>>, n: nat)
    requires
        forall|i: int| 0 <= i < n ==> open[i] is None,
    ensures
        sounding(open, n) == 0,
    decreases n,
{
    if n > 0 {
        lemma_all_quiet(open, (n - 1) as nat);
    }
}

/// Reads the events of one track.
fn read_track(
    bytes: &[u8],
    number: usize,
    at: usize,
    end: usize,
    gathered: &mut Gathered,
) -> (read: Result<Track, MidiError>)
    requires
        at <= end <= bytes@.len() <= usize::MAX,
        end - at <= u32::MAX,
        old(gathered).valid(),
    ensures
        match track_from(bytes@, number, at as int, end as int, old(gathered).heard(), quiet()) {
            Err(e) => read is Err && read->Err_0 == e,
            Ok((heard, playing)) => {
                &&& read is Ok
                &&& final(gathered).heard() == heard
                &&& read->Ok_0.playing() == playing
            },
        },
        read is Ok ==> playing_valid(read->Ok_0.playing()) && final(gathered).raws@.len() + sounding(
            read->Ok_0.open@,
            2048,
        ) <= old(gathered).raws@.len() + (end - at),
        final(gathered).valid(),
        final(gathered).named == old(gathered).named,
        final(gathered).ticks_per_beat == old(gathered).ticks_per_beat,
{
    let mut open: Vec<Option<(u64, u8)>> = Vec::new();
    while open.len() < 2048
        invariant
            open@.len() <= 2048,
            open@ == Seq::new(open@.len(), |i: int| None::<(u64, u8)>),
        decreases 2048 - open@.len(),
    {
        open.push(None);
        assert(open@ =~= Seq::new(open@.len(), |i: int| None::<(u64, u8)>));
    }
    proof {
        lemma_all_quiet(open@, 2048);
    }
    let mut track = Track { tick: 0, status: 0, open, labels: Vec::new() };
    proof {
        assert(byte_strings(track.labels@) =~= Seq::<Seq<u8>>::empty());
        assert(track.playing() =~= quiet());
    }
    let mut reader = Reader { bytes, at };
    while reader.at < end
        invariant
            bytes@.len() <= usize::MAX,
            at <= reader.at,
            end <= bytes@.len(),
            end - at <= u32::MAX,
            reader.bytes == bytes,
            reader.valid(),
            gathered.valid(),
            playing_valid(track.playing()),
            gathered.named == old(gathered).named,
            gathered.ticks_per_beat == old(gathered).ticks_per_beat,
            track.tick <= (reader.at - at) * 0x1000_0000,
            at <= end,
            gathered.raws@.len() + sounding(track.open@, 2048) <= old(gathered).raws@.len() + (if reader.at
                < end {
                reader.at - at
            } else {
                end - at
            }),
            track_from(bytes@, number, at as int, end as int, old(gathered).heard(), quiet())
                == track_from(
                bytes@,
                number,
                reader.at as int,
                end as int,
                gathered.heard(),
                track.playing(),
            ),
        decreases bytes@.len() - reader.at,
    {
        let ghost from = reader.at as int;
        proof {
            lemma_event(bytes@, from, track.status);
        }
        let decoded = match read_event(&mut reader, track.status) {
            Ok(d) => d,
            Err(e) => {
                return Err(e);
            },
        };
        let ghost before = track.playing();
        track.tick = track.tick + decoded.delta;
        track.status = decoded.status;
        proof {
            assert(track.playing() =~= (Playing {
                tick: (before.tick + decoded.delta) as u64,
                status: decoded.status,
                ..before
            }));
        }
        play(bytes, number, gathered, &mut track, decoded.event);
    }
    Ok(track)
}

fn release(gathered: &mut Gathered, number: usize, track: &Track)
    requires
        old(gathered).valid(),
        playing_valid(track.playing()),
    ensures
        final(gathered).heard() == let_go(old(gathered).heard(), number, track.playing(), 0),
        final(gathered).raws@.len() <= old(gathered).raws@.len() + sounding(track.open@, 2048),
        final(gathered).valid(),
        final(gathered).named == old(gathered).named,
        final(gathered).ticks_per_beat == old(gathered).ticks_per_beat,
{
    let mut at: usize = 0;
    while at < track.open.len()
        invariant
            at <= track.open@.len(),
            track.open@.len() == 2048,
            playing_valid(track.playing()),
            gathered.valid(),
            gathered.raws@.len() <= old(gathered).raws@.len() + sounding(track.open@, at as nat),
            gathered.named == old(gathered).named,
            gathered.ticks_per_beat == old(gathered).ticks_per_beat,
            let_go(old(gathered).heard(), number, track.playing(), 0) == let_go(
                gathered.heard(),
                number,
                track.playing(),
                at as int,
            ),
        decreases track.open@.len() - at,
    {
        let sounding = track.open[at];
        proof {
            assert(track.playing().open[at as int] == track.open@[at as int]);
        }
        match sounding {
            Some((start, struck)) => {
                push(
                    gathered,
                    number,
                    (at / 128) as u8,
                    start,
                    track.tick,
                    (at % 128) as u8,
                    struck,
                );
            },
            None => {},
        }
        at = at + 1;
    }
}

fn had_notes(gathered: &Gathered, number: usize) -> (some: bool)
    requires
        gathered.valid(),
    ensures
        some == contributed(gathered.heard(), number),
{
    let mut at: usize = 0;
    while at < gathered.raws.len()
        invariant
            at <= gathered.raws@.len(),
            gathered.valid(),
            forall|i: int|
                0 <= i < at ==> gathered.heard().groups[(
                #[trigger] gathered.heard().raws[i]).group as int].0 != number,
        decreases gathered.raws@.len() - at,
    {
        proof {
            assert(gathered.heard().raws[at as int].group < gathered.heard().groups.len());
        }
        let group: usize = gathered.raws[at].group;
        if gathered.groups[group].0 == number {
            assert(gathered.heard().groups[gathered.heard().raws[at as int].group as int].0 == number);
            return true;
        }
        at = at + 1;
    }
    false
}

/// Reads a file's notes, tempo and track names, without deciding who sings what.
pub fn gather(bytes: &[u8]) -> (gathered: Result<Gathered, MidiError>)
    ensures
        match file_contents(bytes@) {
            Err(e) => gathered is Err && gathered->Err_0 == e,
            Ok((ticks, p)) => {
                &&& gathered is Ok
                &&& gathered->Ok_0.ticks_per_beat == ticks
                &&& gathered->Ok_0.heard() == p.heard
                &&& labelled(gathered->Ok_0.named@) == p.named
            },
        },
        gathered is Ok ==> gathered->Ok_0.valid() && 0 < gathered->Ok_0.raws@.len() <= bytes@.len()
            && 0 < gathered->Ok_0.ticks_per_beat < 0x8000 && forall|i: int|
            0 <= i < gathered->Ok_0.named@.len() ==> (#[trigger] gathered->Ok_0.named@[i]).track
                < usize::MAX,
{
    // Checked before anything else can fail: a file that is not MIDI at all should say so, not
    // report a truncation at byte zero.
    let size: usize = bytes.len();
    if size < 14 {
        return Err(MidiError::NotMidi);
    }
    let magic = copy_bytes(bytes, 0, 4);
    if !(magic[0] == 0x4D && magic[1] == 0x54 && magic[2] == 0x68 && magic[3] == 0x64) {
        proof {
            assert(bytes@.subrange(0, 4) != seq![0x4Du8, 0x54, 0x68, 0x64]);
        }
        return Err(MidiError::NotMidi);
    }
    proof {
        assert(magic@ =~= seq![0x4Du8, 0x54, 0x68, 0x64]);
    }
    let mut reader = Reader::new(bytes);
    let header: u64 = match reader.skip(4) {
        Ok(_) => match reader.u32() {
            Ok(length) => 8 + length as u64,
            Err(e) => {
                return Err(e);
            },
        },
        Err(e) => {
            return Err(e);
        },
    };
    let division: u16 = match reader.skip(4) {
        Ok(_) => match reader.u16() {
            Ok(d) => d,
            Err(e) => {
                return Err(e);
            },
        },
        Err(e) => {
            return Err(e);
        },
    };
    if division >= 0x8000 {
        return Err(MidiError::SmpteTiming);
    }
    let ticks_per_beat: u64 = if division == 0 {
        1
    } else {
        division as u64
    };
    reader.at = if header < bytes.len() as u64 {
        header as usize
    } else {
        bytes.len()
    };
    let mut gathered = Gathered {
        ticks_per_beat,
        raws: Vec::new(),
        groups: Vec::new(),
        tempo: None,
        retimed: false,
        named: Vec::new(),
    };
    let mut number: usize = 0;
    let ghost mut p = untouched();
    let ghost first = reader.at as int;
    proof {
        assert(gathered.heard() =~= p.heard);
        assert(labelled(gathered.named@) =~= p.named);
    }
    while reader.remaining() >= 8
        invariant
            bytes@.len() <= usize::MAX,
            reader.bytes == bytes,
            reader.valid(),
            0 <= first,
            file_contents(bytes@) == finished(
                chunks_from(bytes@, first, untouched()),
                division as nat,
            ),
            gathered.valid(),
            gathered.ticks_per_beat == ticks_per_beat,
            gathered.heard() == p.heard,
            labelled(gathered.named@) == p.named,
            number == p.tracks,
            number * 8 <= reader.at,
            gathered.raws@.len() <= reader.at,
            forall|i: int|
                0 <= i < gathered.named@.len() ==> (#[trigger] gathered.named@[i]).track < usize::MAX,
            chunks_from(bytes@, first, untouched()) == chunks_from(bytes@, reader.at as int, p),
        decreases bytes@.len() - reader.at,
    {
        let ghost at = reader.at as int;
        let tag: [u8; 4] = match reader.tag() {
            Ok(t) => t,
            Err(e) => {
                return Err(e);
            },
        };
        let length: u64 = match reader.u32() {
            Ok(v) => v as u64,
            Err(e) => {
                return Err(e);
            },
        };
        if length > (bytes.len() - reader.at) as u64 {
            return Err(MidiError::Truncated { at: reader.at });
        }
        let end: usize = reader.at + length as usize;
        if !(tag[0] == 0x4D && tag[1] == 0x54 && tag[2] == 0x72 && tag[3] == 0x6B) {
            proof {
                assert(bytes@.subrange(at, at + 4) == tag@);
                assert(tag@ != seq![0x4Du8, 0x54, 0x72, 0x6B]);
            }
            reader.at = end;
            continue ;
        }
        proof {
            assert(tag@ =~= seq![0x4Du8, 0x54, 0x72, 0x6B]);
        }
        let track = match read_track(bytes, number, reader.at, end, &mut gathered) {
            Ok(t) => t,
            Err(e) => {
                return Err(e);
            },
        };
        let ghost heard = gathered.heard();
        let ghost playing = track.playing();
        release(&mut gathered, number, &track);
        if had_notes(&gathered, number) {
            let ghost before = gathered.named@;
            let entry = Labelled { track: number, labels: track.labels };
            let ghost e = (entry.track, byte_strings(entry.labels@));
            gathered.named.push(entry);
            proof {
                assert(labelled(gathered.named@) =~= labelled(before).push(e));
            }
        }
        proof {
            let next = track_added(p, heard, playing);
            assert(gathered.heard() =~= next.heard);
            p = next;
        }
        number = number + 1;
        reader.at = end;
    }
    if gathered.raws.len() == 0 {
        return Err(MidiError::NoNotes);
    }
    Ok(gathered)
}

/// How many of the first `n` notes begin with note `i` and lie below it. Of two on one pitch the
/// earlier one counts as lower.
pub open spec fn below_in_chord(raws: Seq<Raw>, i: int, n: nat) -> nat
    decreases n,
{
    if n == 0 {
        0
    } else {
        let j = n - 1;
        let lower = raws[j].start_tick == raws[i].start_tick && (raws[j].midi < raws[i].midi || (
        raws[j].midi == raws[i].midi && j < i));
        below_in_chord(raws, i, (n - 1) as nat) + (if lower {
            1nat
        } else {
            0
        })
    }
}

/// The notes of one polyphonic group, split into voices by pitch rank within each chord.
pub open spec fn split(raws: Seq<Raw>) -> Seq<Raw> {
    Seq::new(
        raws.len(),
        |i: int|
            {
                let rank = below_in_chord(raws, i, raws.len());
                Raw {
                    group: if rank < 3 {
                        rank as usize
                    } else {
                        3
                    },
                    ..raws[i]
                }
            },
    )
}

/// Splits one polyphonic group into voices.
///
/// The lowest note sounding at a given onset is the bass line, the next is the tenor, and so on.
pub fn split_by_rank(raws: &[Raw]) -> (voices: Vec<Raw>)
    ensures
        voices@ == split(raws@),
{
    let mut voices: Vec<Raw> = Vec::new();
    let mut i: usize = 0;
    while i < raws.len()
        invariant
            i <= raws@.len(),
            voices@.len() == i,
            forall|k: int| 0 <= k < i ==> voices@[k] == split(raws@)[k],
        decreases raws@.len() - i,
    {
        let raw = raws[i];
        let mut rank: usize = 0;
        let mut j: usize = 0;
        while j < raws.len()
            invariant
                i < raws@.len(),
                raw == raws@[i as int],
                j <= raws@.len(),
                rank <= j,
                rank == below_in_chord(raws@, i as int, j as nat),
            decreases raws@.len() - j,
        {
            let other = raws[j];
            if other.start_tick == raw.start_tick && (other.midi < raw.midi || (other.midi == raw.midi
                && j < i)) {
                rank = rank + 1;
            }
            j = j + 1;
        }
        let group: usize = if rank < 3 {
            rank
        } else {
            3
        };
        voices.push(Raw { group, ..raw });
        i = i + 1;
    }
    proof {
        assert(voices@ =~= split(raws@));
    }
    voices
}

/// One past the highest group among the first `n` notes.
pub open spec fn group_count(raws: Seq<Raw>) -> nat
    decreases raws.len(),
{
    if raws.len() == 0 {
        1
    } else {
        let before = group_count(raws.drop_last());
        if raws.last().group >= before {
            raws.last().group as nat + 1
        } else {
            before
        }
    }
}

fn count_groups(raws: &[Raw]) -> (n: usize)
    requires
        forall|i: int| 0 <= i < raws@.len() ==> (#[trigger] raws@[i]).group < usize::MAX,
    ensures
        n == group_count(raws@),
{
    let mut n: usize = 1;
    let mut at: usize = 0;
    while at < raws.len()
        invariant
            at <= raws@.len(),
            forall|i: int| 0 <= i < raws@.len() ==> (#[trigger] raws@[i]).group < usize::MAX,
            n == group_count(raws@.take(at as int)),
        decreases raws@.len() - at,
    {
        proof {
            assert(raws@.take(at + 1).drop_last() =~= raws@.take(at as int));
            assert(raws@[at as int].group < usize::MAX);
        }
        let group: usize = raws[at].group;
        if group >= n {
            n = group + 1;
        }
        at = at + 1;
    }
    proof {
        assert(raws@.take(at as int) =~= raws@);
    }
    n
}

/// The pitches of a group added up.
pub open spec fn pitch_sum(raws: Seq<Raw>, group: usize) -> nat
    decreases raws.len(),
{
    if raws.len() == 0 {
        0
    } else {
        pitch_sum(raws.drop_last(), group) + (if raws.last().group == group {
            raws.last().midi as nat
        } else {
            0
        })
    }
}

/// How many notes a group has.
pub open spec fn note_count(raws: Seq<Raw>, group: usize) -> nat
    decreases raws.len(),
{
    if raws.len() == 0 {
        0
    } else {
        note_count(raws.drop_last(), group) + (if raws.last().group == group {
            1nat
        } else {
            0
        })
    }
}

/// Whether the mean pitch of group `a` is no higher than that of group `b`.
pub open spec fn not_above(raws: Seq<Raw>, a: usize, b: usize) -> bool {
    pitch_sum(raws, a) * note_count(raws, b) <= pitch_sum(raws, b) * note_count(raws, a)
}

/// Where a group belongs among groups ordered by mean pitch.
pub open spec fn pitch_place(raws: Seq<Raw>, order: Seq<usize>, group: usize) -> int
    decreases order.len(),
{
    if order.len() == 0 || not_above(raws, order.last(), group) {
        order.len() as int
    } else {
        pitch_place(raws, order.drop_last(), group)
    }
}

/// The groups below `n` that have notes, lowest mean pitch first; of two on one mean the lower
/// number first.
pub open spec fn by_pitch(raws: Seq<Raw>, n: nat) -> Seq<usize>
    decreases n,
{
    if n == 0 {
        Seq::empty()
    } else {
        let before = by_pitch(raws, (n - 1) as nat);
        let group = (n - 1) as usize;
        if note_count(raws, group) == 0 {
            before
        } else {
            before.insert(pitch_place(raws, before, group), group)
        }
    }
}

/// Adds up one group: its pitches, and its notes.
fn tally(raws: &[Raw], group: usize) -> (sums: (u128, u64))
    ensures
        sums.0 == pitch_sum(raws@, group),
        sums.1 == note_count(raws@, group),
        sums.0 <= 0xFF * sums.1,
{
    let mut sum: u128 = 0;
    let mut count: u64 = 0;
    let mut at: usize = 0;
    while at < raws.len()
        invariant
            at <= raws@.len(),
            sum == pitch_sum(raws@.take(at as int), group),
            count == note_count(raws@.take(at as int), group),
            sum <= 0xFF * count,
            count <= at,
        decreases raws@.len() - at,
    {
        proof {
            assert(raws@.take(at + 1).drop_last() =~= raws@.take(at as int));
        }
        let raw = raws[at];
        if raw.group == group {
            sum = sum + raw.midi as u128;
            count = count + 1;
        }
        at = at + 1;
    }
    proof {
        assert(raws@.take(at as int) =~= raws@);
    }
    (sum, count)
}

/// Of two fractions the lower one has the lower whole part, or the same one and a lower rest.
proof fn lemma_lower_fraction(s: int, n: int, t: int, m: int)
    requires
        0 <= s,
        0 < n,
        0 <= t,
        0 < m,
    ensures
        s / n < t / m ==> s * m <= t * n,
        s / n > t / m ==> s * m > t * n,
        s / n == t / m ==> (s * m <= t * n <==> (s % n) * m <= (t % m) * n),
{
    let (p, r) = (s / n, s % n);
    let (q, v) = (t / m, t % m);
    assert(s == n * p + r && 0 <= r < n && t == m * q + v && 0 <= v < m) by {
        vstd::arithmetic::div_mod::lemma_fundamental_div_mod(s, n);
        vstd::arithmetic::div_mod::lemma_fundamental_div_mod(t, m);
    }
    assert(s * m == n * m * p + r * m && t * n == n * m * q + v * n) by (nonlinear_arith)
        requires
            s == n * p + r,
            t == m * q + v,
    ;
    assert(0 <= r * m < n * m && 0 <= v * n < n * m) by (nonlinear_arith)
        requires
            0 <= r < n,
            0 <= v < m,
    ;
    if p < q {
        assert(n * m * p + n * m <= n * m * q) by (nonlinear_arith)
            requires
                p + 1 <= q,
                0 < n * m,
        ;
    } else if p > q {
        assert(n * m * q + n * m <= n * m * p) by (nonlinear_arith)
            requires
                q + 1 <= p,
                0 < n * m,
        ;
    }
}

/// Compares two groups by their mean pitch: by its whole part, and on a tie by the rest.
fn lower_or_level(raws: &[Raw], a: usize, b: usize) -> (yes: bool)
    ensures
        yes == not_above(raws@, a, b),
{
    let (s, n) = tally(raws, a);
    let (t, m) = tally(raws, b);
    if n == 0 || m == 0 {
        proof {
            assert(s * m <= t * n) by (nonlinear_arith)
                requires
                    n == 0 && s == 0 || m == 0 && t == 0,
            ;
        }
        return true;
    }
    let whole: (u128, u128) = (s / n as u128, t / m as u128);
    let rest: (u128, u128) = (s % n as u128, t % m as u128);
    proof {
        lemma_lower_fraction(s as int, n as int, t as int, m as int);
        assert(rest.0 * m <= u128::MAX && rest.1 * n <= u128::MAX) by (nonlinear_arith)
            requires
                rest.0 <= u64::MAX,
                rest.1 <= u64::MAX,
        ;
    }
    if whole.0 != whole.1 {
        whole.0 < whole.1
    } else {
        rest.0 * m as u128 <= rest.1 * n as u128
    }
}

/// Orders the groups that have notes by mean pitch, lowest first.
pub fn order_by_pitch(raws: &[Raw], groups: usize) -> (order: Vec<usize>)
    ensures
        order@ == by_pitch(raws@, groups as nat),
        order@.len() <= groups,
{
    let mut order: Vec<usize> = Vec::new();
    let mut group: usize = 0;
    while group < groups
        invariant
            group <= groups,
            order@ == by_pitch(raws@, group as nat),
            order@.len() <= group,
        decreases groups - group,
    {
        let sums = tally(raws, group);
        if sums.1 > 0 {
            let mut to: usize = order.len();
            proof {
                assert(order@.take(order@.len() as int) =~= order@);
            }
            while to > 0 && !lower_or_level(raws, order[to - 1], group)
                invariant
                    to <= order@.len(),
                    pitch_place(raws@, order@, group) == pitch_place(
                        raws@,
                        order@.take(to as int),
                        group,
                    ),
                decreases to,
            {
                proof {
                    assert(order@.take(to as int).last() == order@[to - 1]);
                    assert(order@.take(to as int).drop_last() =~= order@.take(to - 1));
                }
                to = to - 1;
            }
            proof {
                if to > 0 {
                    assert(order@.take(to as int).last() == order@[to - 1]);
                }
            }
            order.insert(to, group);
        }
        group = group + 1;
    }
    order
}

/// A part name a human might have typed on a staff.
pub open spec fn part_in(name: Seq<char>) -> Option<Part> {
    let lower = ascii_lowered(name);
    if contains_text(lower, "soprano"@) {
        Some(Part::Soprano)
    } else if contains_text(lower, "tenor"@) {
        Some(Part::Tenor)
    } else if contains_text(lower, "alto"@) {
        Some(Part::Alto)
    } else if contains_text(lower, "bass"@) {
        Some(Part::Bass)
    } else if contains_text(lower, "sop"@) {
        Some(Part::Soprano)
    } else {
        None
    }
}

pub fn part_named(name: &str) -> (part: Option<Part>)
    ensures
        part == part_in(name@),
{
    let chars = chars_of(name);
    let lower = lowered(chars.as_slice());
    let text = lower.as_slice();
    if find_text(text, "soprano", 0) < text.len() {
        Some(Part::Soprano)
    } else if find_text(text, "tenor", 0) < text.len() {
        Some(Part::Tenor)
    } else if find_text(text, "alto", 0) < text.len() {
        Some(Part::Alto)
    } else if find_text(text, "bass", 0) < text.len() {
        Some(Part::Bass)
    } else if find_text(text, "sop", 0) < text.len() {
        Some(Part::Soprano)
    } else {
        None
    }
}

/// How a group came by its part.
#[derive(Debug, Clone, Copy, PartialEq, Eq, Structural)]
pub enum Why {
    /// Its track's name said so.
    Named,
    /// By its place in the order of pitch.
    ByPitch,
    /// Nothing was left to give it.
    Rank,
}

/// A group of notes and the part it sings.
#[derive(Debug, Clone, Copy, PartialEq, Eq, Structural)]
pub struct Seat {
    pub group: usize,
    pub part: Part,
    pub why: Why,
}

/// The name of a track among those that are listed, from index `at` on: the tracks that had notes,
/// and what each is called.
pub open spec fn title_from(tracks: Seq<usize>, names: Seq<Seq<char>>, track: usize, at: int) -> Seq<char>
    decreases tracks.len() - at,
{
    if at >= tracks.len() || at >= names.len() {
        Seq::empty()
    } else if tracks[at] == track {
        names[at]
    } else {
        title_from(tracks, names, track, at + 1)
    }
}

/// What each group is called: by the name of the track it was played on.
pub open spec fn titles(groups: Seq<(usize, u8)>, tracks: Seq<usize>, names: Seq<Seq<char>>) -> Seq<
    Seq<char>,
> {
    Seq::new(groups.len(), |g: int| title_from(tracks, names, groups[g].0, 0))
}

/// The part that each of the first `n` groups claims by name, and which parts are then taken.
/// `names` says what each group is called. A part is claimed once: the lower group has it.
pub open spec fn claims(order: Seq<usize>, names: Seq<Seq<char>>, n: nat) -> (
    Seq<Option<Part>>,
    Set<Part>,
)
    decreases n,
{
    if n == 0 {
        (Seq::empty(), Set::empty())
    } else {
        let (before, taken) = claims(order, names, (n - 1) as nat);
        let group = order[n - 1];
        let named = if group < names.len() {
            part_in(names[group as int])
        } else {
            None
        };
        match named {
            Some(part) if !taken.contains(part) => (before.push(Some(part)), taken.insert(part)),
            _ => (before.push(None), taken),
        }
    }
}

/// The parts of an ensemble that nobody claimed, low to high.
pub open spec fn unclaimed(parts: Seq<Part>, taken: Set<Part>) -> Seq<Part>
    decreases parts.len(),
{
    if parts.len() == 0 {
        Seq::empty()
    } else {
        let before = unclaimed(parts.drop_last(), taken);
        if taken.contains(parts.last()) {
            before
        } else {
            before.push(parts.last())
        }
    }
}

/// How many of the first `n` groups claimed nothing.
pub open spec fn unnamed(claimed: Seq<Option<Part>>, n: nat) -> nat
    decreases n,
{
    if n == 0 {
        0
    } else {
        unnamed(claimed, (n - 1) as nat) + (if claimed[n - 1] is None {
            1nat
        } else {
            0
        })
    }
}

/// Who sings what: a claimed part first, and the parts nobody claimed in order of pitch.
pub open spec fn seats(order: Seq<usize>, names: Seq<Seq<char>>) -> Seq<Seat> {
    let (claimed, taken) = claims(order, names, order.len());
    let spare = unclaimed(Part::ensemble_parts(order.len()), taken);
    Seq::new(
        order.len(),
        |k: int|
            match claimed[k] {
                Some(part) => Seat { group: order[k], part, why: Why::Named },
                None => {
                    let turn = unnamed(claimed, k as nat);
                    if turn < spare.len() {
                        Seat { group: order[k], part: spare[turn as int], why: Why::ByPitch }
                    } else {
                        Seat { group: order[k], part: Part::Bass, why: Why::Rank }
                    }
                },
            },
    )
}

proof fn lemma_claims(order: Seq<usize>, names: Seq<Seq<char>>, n: nat)
    requires
        n <= order.len(),
    ensures
        claims(order, names, n).0.len() == n,
        claims(order, names, n).1.finite(),
        claims(order, names, n).1.len() + unnamed(claims(order, names, n).0, n) == n,
        forall|i: int|
            0 <= i < n ==> ((#[trigger] claims(order, names, n).0[i]) matches Some(part) ==> claims(
                order,
                names,
                n,
            ).1.contains(part)),
        forall|i: int, j: int|
            0 <= i < j < n && (#[trigger] claims(order, names, n).0[i]) is Some ==> claims(
                order,
                names,
                n,
            ).0[i] != (#[trigger] claims(order, names, n).0[j]),
    decreases n,
{
    if n > 0 {
        lemma_claims(order, names, (n - 1) as nat);
        let (before, taken) = claims(order, names, (n - 1) as nat);
        let (now, took) = claims(order, names, n);
        lemma_unnamed_prefix(before, now, (n - 1) as nat);
        assert forall|i: int| 0 <= i < n implies ((#[trigger] now[i]) matches Some(part)
            ==> took.contains(part)) by {
            if i < n - 1 {
                assert(now[i] == before[i]);
            }
        }
        assert forall|i: int, j: int| 0 <= i < j < n && (#[trigger] now[i]) is Some implies now[i] != (
        #[trigger] now[j]) by {
            assert(now[i] == before[i]);
            if j < n - 1 {
                assert(now[j] == before[j]);
            }
        }
    }
}

proof fn lemma_unnamed_prefix(a: Seq<Option<Part>>, b: Seq<Option<Part>>, n: nat)
    requires
        n <= a.len(),
        n <= b.len(),
        forall|i: int| 0 <= i < n ==> a[i] == b[i],
    ensures
        unnamed(a, n) == unnamed(b, n),
    decreases n,
{
    if n > 0 {
        lemma_unnamed_prefix(a, b, (n - 1) as nat);
    }
}

proof fn lemma_unnamed_grows(claimed: Seq<Option<Part>>, i: nat, j: nat)
    requires
        i <= j <= claimed.len(),
    ensures
        unnamed(claimed, i) <= unnamed(claimed, j),
        i < j && claimed[i as int] is None ==> unnamed(claimed, i) < unnamed(claimed, j),
    decreases j,
{
    if i < j {
        lemma_unnamed_grows(claimed, i, (j - 1) as nat);
    }
}

proof fn lemma_unclaimed(parts: Seq<Part>, taken: Set<Part>)
    requires
        taken.finite(),
        parts.no_duplicates(),
    ensures
        unclaimed(parts, taken).len() + taken.len() >= parts.len(),
        forall|i: int|
            0 <= i < unclaimed(parts, taken).len() ==> parts.contains(
                #[trigger] unclaimed(parts, taken)[i],
            ) && !taken.contains(unclaimed(parts, taken)[i]),
        unclaimed(parts, taken).no_duplicates(),
    decreases parts.len(),
{
    if parts.len() > 0 {
        let rest = parts.drop_last();
        let last = parts.last();
        assert(rest.no_duplicates());
        assert(!rest.contains(last));
        if taken.contains(last) {
            // Only what is claimed besides the last part can be missing from the rest.
            lemma_unclaimed(rest, taken.remove(last));
            lemma_unclaimed(rest, taken);
            lemma_unclaimed_same(rest, taken, last);
        } else {
            lemma_unclaimed(rest, taken);
        }
        let now = unclaimed(parts, taken);
        let before = unclaimed(rest, taken);
        assert forall|i: int| 0 <= i < now.len() implies parts.contains(#[trigger] now[i])
            && !taken.contains(now[i]) by {
            if i < before.len() {
                assert(now[i] == before[i]);
                let k = choose|k: int| 0 <= k < rest.len() && rest[k] == before[i];
                assert(parts[k] == before[i]);
            } else {
                assert(parts[parts.len() - 1] == last);
            }
        }
        assert forall|i: int, j: int| 0 <= i < j < now.len() implies now[i] != now[j] by {
            assert(now[i] == before[i]);
            assert(rest.contains(before[i]));
            if j < before.len() {
                assert(now[j] == before[j]);
            }
        }
    }
}

proof fn lemma_unclaimed_same(parts: Seq<Part>, taken: Set<Part>, other: Part)
    requires
        !parts.contains(other),
    ensures
        unclaimed(parts, taken) == unclaimed(parts, taken.remove(other)),
    decreases parts.len(),
{
    if parts.len() > 0 {
        assert(parts.last() != other) by {
            assert(parts[parts.len() - 1] == parts.last());
        }
        assert(!parts.drop_last().contains(other)) by {
            if parts.drop_last().contains(other) {
                let k = choose|k: int| 0 <= k < parts.drop_last().len() && parts.drop_last()[k] == other;
                assert(parts[k] == other);
            }
        }
        lemma_unclaimed_same(parts.drop_last(), taken, other);
    }
}

/// Up to four groups, every one gets a part of its own: no two sing the same part, and nobody is
/// left over.
pub proof fn no_two_groups_share_a_part(order: Seq<usize>, names: Seq<Seq<char>>)
    requires
        order.len() <= 4,
    ensures
        forall|i: int, j: int|
            0 <= i < j < order.len() ==> (#[trigger] seats(order, names)[i]).part != (
            #[trigger] seats(order, names)[j]).part,
        forall|k: int| 0 <= k < order.len() ==> (#[trigger] seats(order, names)[k]).why != Why::Rank,
{
    let n = order.len();
    let (claimed, taken) = claims(order, names, n);
    let parts = Part::ensemble_parts(n);
    let spare = unclaimed(parts, taken);
    let all = seats(order, names);
    lemma_claims(order, names, n);
    crate::chorale::ensembles_are_nested(n);
    lemma_unclaimed(parts, taken);
    assert(parts.len() == n);
    assert forall|k: int| 0 <= k < n && claimed[k] is None implies unnamed(claimed, k as nat)
        < spare.len() by {
        lemma_unnamed_grows(claimed, k as nat, n);
    }
    assert forall|i: int, j: int| 0 <= i < j < n implies (#[trigger] all[i]).part != (
    #[trigger] all[j]).part by {
        if claimed[i] is Some {
            assert(taken.contains(claimed[i]->0));
            if claimed[j] is Some {
                assert(claimed[i] != claimed[j]);
            } else {
                assert(!taken.contains(spare[unnamed(claimed, j as nat) as int]));
            }
        } else {
            if claimed[j] is Some {
                assert(taken.contains(claimed[j]->0));
                assert(!taken.contains(spare[unnamed(claimed, i as nat) as int]));
            } else {
                lemma_unnamed_grows(claimed, i as nat, j as nat);
                assert(spare[unnamed(claimed, i as nat) as int] != spare[unnamed(
                    claimed,
                    j as nat,
                ) as int]);
            }
        }
    }
}

/// Whether a group is called by the name of a part.
pub open spec fn called_for(names: Seq<Seq<char>>, group: usize, part: Part) -> bool {
    group < names.len() && part_in(names[group as int]) == Some(part)
}

proof fn lemma_taken_by_name(order: Seq<usize>, names: Seq<Seq<char>>, n: nat, part: Part)
    requires
        n <= order.len(),
        forall|j: int| 0 <= j < n ==> !called_for(names, #[trigger] order[j], part),
    ensures
        !claims(order, names, n).1.contains(part),
    decreases n,
{
    if n > 0 {
        lemma_taken_by_name(order, names, (n - 1) as nat, part);
        assert(!called_for(names, order[n - 1], part));
    }
}

proof fn lemma_claims_stay(order: Seq<usize>, names: Seq<Seq<char>>, m: nat, n: nat, k: int)
    requires
        0 <= k < m <= n <= order.len(),
    ensures
        claims(order, names, n).0[k] == claims(order, names, m).0[k],
    decreases n,
{
    if m < n {
        lemma_claims(order, names, (n - 1) as nat);
        lemma_claims_stay(order, names, m, (n - 1) as nat, k);
    }
}

/// A name is believed first, since a human wrote it down: of the groups called by the name of a
/// part, the lowest sings it, wherever its pitch would have put it.
pub proof fn a_name_is_believed(order: Seq<usize>, names: Seq<Seq<char>>, k: int, part: Part)
    requires
        0 <= k < order.len(),
        called_for(names, order[k], part),
        forall|j: int| 0 <= j < k ==> !called_for(names, #[trigger] order[j], part),
    ensures
        seats(order, names)[k] == (Seat { group: order[k], part, why: Why::Named }),
{
    lemma_taken_by_name(order, names, k as nat, part);
    lemma_claims(order, names, k as nat);
    lemma_claims_stay(order, names, (k + 1) as nat, order.len(), k);
}

/// A group is called by the name of the track it was played on, whichever of the groups it is.
pub proof fn a_group_is_called_by_its_track(
    groups: Seq<(usize, u8)>,
    tracks: Seq<usize>,
    names: Seq<Seq<char>>,
    g: int,
    k: int,
)
    requires
        0 <= g < groups.len(),
        0 <= k < tracks.len(),
        k < names.len(),
        tracks.no_duplicates(),
        tracks[k] == groups[g].0,
    ensures
        titles(groups, tracks, names)[g] == names[k],
{
    lemma_title(tracks, names, k, 0);
}

proof fn lemma_title(tracks: Seq<usize>, names: Seq<Seq<char>>, k: int, at: int)
    requires
        0 <= at <= k < tracks.len(),
        k < names.len(),
        tracks.no_duplicates(),
    ensures
        title_from(tracks, names, tracks[k], at) == names[k],
    decreases k - at,
{
    if at < k {
        assert(tracks[at] != tracks[k]);
        lemma_title(tracks, names, k, at + 1);
    }
}

fn claim(taken: &mut [bool; 4], part: Part) -> (won: bool)
    ensures
        won == !old(taken)@[part.rank() as int],
        final(taken)@ == old(taken)@.update(part.rank() as int, true),
{
    let at: usize = part.index();
    let won = !taken[at];
    taken[at] = true;
    proof {
        if !won {
            assert(taken@ =~= old(taken)@.update(part.rank() as int, true));
        }
    }
    won
}

/// Whether four flags say which parts are in a set.
spec fn flags(taken: Seq<bool>, set: Set<Part>) -> bool {
    &&& taken.len() == 4
    &&& forall|part: Part| #[trigger] set.contains(part) <==> taken[part.rank() as int]
}

/// Decides who sings what, each group under the name it is called by.
pub fn seat_groups(order: &[usize], names: &[String]) -> (all: Vec<Seat>)
    ensures
        all@ == seats(order@, strings(names@)),
{
    let mut claimed: Vec<Option<Part>> = Vec::new();
    let mut taken: [bool; 4] = [false, false, false, false];
    let ghost mut set = Set::<Part>::empty();
    let mut k: usize = 0;
    while k < order.len()
        invariant
            k <= order@.len(),
            (claimed@, set) == claims(order@, strings(names@), k as nat),
            claimed@.len() == k,
            flags(taken@, set),
        decreases order@.len() - k,
    {
        let group: usize = order[k];
        let mut named: Option<Part> = None;
        if group < names.len() {
            named = part_named(names[group].as_str());
            assert(strings(names@)[group as int] == names@[group as int]@);
        }
        match named {
            Some(part) => {
                let ghost before = taken@;
                if claim(&mut taken, part) {
                    claimed.push(Some(part));
                    proof {
                        set = set.insert(part);
                        assert forall|p: Part| #[trigger] set.contains(p) <==> taken@[p.rank() as int] by {
                            if p.rank() == part.rank() {
                                assert(p == part);
                            }
                        }
                    }
                } else {
                    claimed.push(None);
                    proof {
                        assert(taken@ =~= before);
                    }
                }
            },
            None => {
                claimed.push(None);
            },
        }
        k = k + 1;
    }
    let parts = Part::ensemble(order.len());
    let mut spare: Vec<Part> = Vec::new();
    let mut i: usize = 0;
    while i < parts.len()
        invariant
            i <= parts@.len(),
            flags(taken@, set),
            spare@ == unclaimed(parts@.take(i as int), set),
        decreases parts@.len() - i,
    {
        let part = parts[i];
        proof {
            assert(parts@.take(i + 1).drop_last() =~= parts@.take(i as int));
            assert(parts@.take(i + 1).last() == part);
            assert(set.contains(part) <==> taken@[part.rank() as int]);
        }
        if !taken[part.index()] {
            spare.push(part);
        }
        i = i + 1;
    }
    proof {
        assert(parts@.take(i as int) =~= parts@);
    }
    let mut all: Vec<Seat> = Vec::new();
    let mut turn: usize = 0;
    let mut k: usize = 0;
    while k < order.len()
        invariant
            k <= order@.len(),
            claimed@.len() == order@.len(),
            (claimed@, set) == claims(order@, strings(names@), order@.len()),
            spare@ == unclaimed(Part::ensemble_parts(order@.len()), set),
            turn <= k,
            turn == unnamed(claimed@, k as nat),
            all@.len() == k,
            forall|i: int| 0 <= i < k ==> all@[i] == seats(order@, strings(names@))[i],
        decreases order@.len() - k,
    {
        let group: usize = order[k];
        match claimed[k] {
            Some(part) => {
                all.push(Seat { group, part, why: Why::Named });
            },
            None => {
                if turn < spare.len() {
                    all.push(Seat { group, part: spare[turn], why: Why::ByPitch });
                } else {
                    all.push(Seat { group, part: Part::Bass, why: Why::Rank });
                }
                turn = turn + 1;
            },
        }
        k = k + 1;
    }
    proof {
        assert(all@ =~= seats(order@, strings(names@)));
    }
    all
}

/// A struck velocity as a dynamic, in hundredths: MIDI's nominal forte is a hundred.
pub open spec fn struck_level(velocity: u8) -> u8 {
    if velocity < 15 {
        15
    } else if velocity > 100 {
        100
    } else {
        velocity
    }
}

/// A note of the file, sung by a part.
pub open spec fn sung(raw: Raw, part: Part) -> Note {
    Note {
        part,
        start: raw.start_tick,
        length: (raw.end_tick - raw.start_tick) as u64,
        midi: raw.midi,
        level: struck_level(raw.velocity),
        vowel: Vowel::Ah,
    }
}

/// The notes of one group, sung by a part, in file order.
pub open spec fn sung_by(raws: Seq<Raw>, seat: Seat) -> Seq<Note>
    decreases raws.len(),
{
    if raws.len() == 0 {
        Seq::empty()
    } else {
        let before = sung_by(raws.drop_last(), seat);
        if raws.last().group == seat.group {
            before.push(sung(raws.last(), seat.part))
        } else {
            before
        }
    }
}

/// The notes of every seated group, seat by seat.
pub open spec fn all_sung(raws: Seq<Raw>, all: Seq<Seat>) -> Seq<Note>
    decreases all.len(),
{
    if all.len() == 0 {
        Seq::empty()
    } else {
        all_sung(raws, all.drop_last()) + sung_by(raws, all.last())
    }
}

/// Writes out the notes of every seated group.
pub fn sing_seats(raws: &[Raw], all: &[Seat]) -> (notes: Vec<Note>)
    requires
        forall|i: int| 0 <= i < raws@.len() ==> (#[trigger] raws@[i]).start_tick <= raws@[i].end_tick,
    ensures
        notes@ == all_sung(raws@, all@),
        countable(notes@),
{
    let mut notes: Vec<Note> = Vec::new();
    let mut k: usize = 0;
    while k < all.len()
        invariant
            k <= all@.len(),
            forall|i: int|
                0 <= i < raws@.len() ==> (#[trigger] raws@[i]).start_tick <= raws@[i].end_tick,
            notes@ == all_sung(raws@, all@.take(k as int)),
            countable(notes@),
        decreases all@.len() - k,
    {
        let seat = all[k];
        let ghost before = notes@;
        let mut at: usize = 0;
        proof {
            assert(before + sung_by(raws@.take(0), seat) =~= before);
        }
        while at < raws.len()
            invariant
                at <= raws@.len(),
                forall|i: int|
                    0 <= i < raws@.len() ==> (#[trigger] raws@[i]).start_tick <= raws@[i].end_tick,
                notes@ == before + sung_by(raws@.take(at as int), seat),
                countable(notes@),
            decreases raws@.len() - at,
        {
            let raw = raws[at];
            proof {
                assert(raws@.take(at + 1).drop_last() =~= raws@.take(at as int));
                assert(raws@.take(at + 1).last() == raw);
                assert(raws@[at as int].start_tick <= raws@[at as int].end_tick);
            }
            if raw.group == seat.group {
                let level: u8 = if raw.velocity < 15 {
                    15
                } else if raw.velocity > 100 {
                    100
                } else {
                    raw.velocity
                };
                let ghost previous = notes@;
                notes.push(
                    Note {
                        part: seat.part,
                        start: raw.start_tick,
                        length: raw.end_tick - raw.start_tick,
                        midi: raw.midi,
                        level,
                        vowel: Vowel::Ah,
                    },
                );
                proof {
                    assert forall|i: int| 0 <= i < notes@.len() implies (#[trigger] notes@[i]).ends()
                        <= u64::MAX by {
                        if i < previous.len() {
                            assert(notes@[i] == previous[i]);
                        }
                    }
                    assert(notes@ =~= before + sung_by(raws@.take(at + 1), seat));
                }
            }
            at = at + 1;
        }
        proof {
            assert(raws@.take(at as int) =~= raws@);
            assert(all@.take(k + 1).drop_last() =~= all@.take(k as int));
            assert(all@.take(k + 1).last() == seat);
        }
        k = k + 1;
    }
    proof {
        assert(all@.take(k as int) =~= all@);
    }
    notes
}

/// Why a seat was given, in words: `rank` counts from one.
pub open spec fn why_words(seat: Seat, rank: nat, names: Seq<Seq<char>>) -> Seq<char> {
    match seat.why {
        Why::Named => "named "@ + debug_text(names[seat.group as int]),
        Why::ByPitch => "rank "@ + decimal(rank) + " by pitch"@,
        Why::Rank => "rank "@ + decimal(rank),
    }
}

/// Where a line of the casting belongs: behind every line of the same part or a lower one.
pub open spec fn casting_place(casting: Seq<(Part, Seq<char>)>, part: Part) -> int
    decreases casting.len(),
{
    if casting.len() == 0 || casting.last().0.rank() <= part.rank() {
        casting.len() as int
    } else {
        casting_place(casting.drop_last(), part)
    }
}

/// How each part was decided, low to high.
pub open spec fn casting_of(all: Seq<Seat>, names: Seq<Seq<char>>) -> Seq<(Part, Seq<char>)>
    decreases all.len(),
{
    if all.len() == 0 {
        Seq::empty()
    } else {
        let before = casting_of(all.drop_last(), names);
        let seat = all.last();
        before.insert(
            casting_place(before, seat.part),
            (seat.part, why_words(seat, all.len(), names)),
        )
    }
}

/// What a casting list holds.
pub open spec fn castings(v: Seq<(Part, String)>) -> Seq<(Part, Seq<char>)> {
    Seq::new(v.len(), |i: int| (v[i].0, v[i].1@))
}

fn describe_seat(seat: Seat, rank: usize, names: &[String]) -> (why: String)
    requires
        seat.why == Why::Named ==> seat.group < names@.len(),
    ensures
        why@ == why_words(seat, rank as nat, strings(names@)),
{
    match seat.why {
        Why::Named => {
            let mut why = "named ".to_owned();
            let name = quoted(names[seat.group].as_str());
            push_text(&mut why, name.as_str());
            why
        },
        Why::ByPitch => {
            let mut why = "rank ".to_owned();
            push_decimal(&mut why, rank as u64);
            push_text(&mut why, " by pitch");
            why
        },
        Why::Rank => {
            let mut why = "rank ".to_owned();
            push_decimal(&mut why, rank as u64);
            why
        },
    }
}

fn cast_seats(all: &[Seat], names: &[String]) -> (casting: Vec<(Part, String)>)
    requires
        forall|k: int|
            0 <= k < all@.len() && (#[trigger] all@[k]).why == Why::Named ==> all@[k].group < names@.len(),
    ensures
        castings(casting@) == casting_of(all@, strings(names@)),
{
    let mut casting: Vec<(Part, String)> = Vec::new();
    let mut k: usize = 0;
    proof {
        assert(castings(casting@) =~= Seq::<(Part, Seq<char>)>::empty());
    }
    while k < all.len()
        invariant
            k <= all@.len(),
            forall|k: int|
                0 <= k < all@.len() && (#[trigger] all@[k]).why == Why::Named ==> all@[k].group
                    < names@.len(),
            castings(casting@) == casting_of(all@.take(k as int), strings(names@)),
        decreases all@.len() - k,
    {
        let seat = all[k];
        let why = describe_seat(seat, k + 1, names);
        let ghost before = castings(casting@);
        let mut to: usize = casting.len();
        proof {
            assert(before.take(before.len() as int) =~= before);
        }
        while to > 0 && casting[to - 1].0.index() > seat.part.index()
            invariant
                to <= casting@.len(),
                before == castings(casting@),
                casting_place(before, seat.part) == casting_place(before.take(to as int), seat.part),
            decreases to,
        {
            proof {
                assert(before.take(to as int).last() == before[to - 1]);
                assert(before.take(to as int).drop_last() =~= before.take(to - 1));
            }
            to = to - 1;
        }
        proof {
            if to > 0 {
                assert(before.take(to as int).last() == before[to - 1]);
            }
            assert(casting_place(before, seat.part) == to);
            assert(all@.take(k + 1).drop_last() =~= all@.take(k as int));
            assert(all@.take(k + 1).last() == seat);
        }
        let ghost line = (seat.part, why@);
        casting.insert(to, (seat.part, why));
        proof {
            assert(castings(casting@) =~= before.insert(to as int, line));
        }
        k = k + 1;
    }
    proof {
        assert(all@.take(k as int) =~= all@);
    }
    casting
}

/// The groups that are sung: the four lowest.
pub open spec fn sung_order(raws: Seq<Raw>) -> Seq<usize> {
    let order = by_pitch(raws, group_count(raws));
    if order.len() > 4 {
        order.take(4)
    } else {
        order
    }
}

/// The notes once a lone group has been split into voices.
pub open spec fn voiced(raws: Seq<Raw>) -> Seq<Raw> {
    if group_count(raws) == 1 {
        split(raws)
    } else {
        raws
    }
}

/// What is said of the voices that do not fit.
pub open spec fn left_out(raws: Seq<Raw>) -> Seq<Seq<char>> {
    let order = by_pitch(raws, group_count(raws));
    if order.len() > 4 {
        seq![
            decimal((order.len() - 4) as nat)
                + " voices past the first four (a duck chorale has four parts)"@,
        ]
    } else {
        Seq::empty()
    }
}

/// What assigning parts comes to.
pub struct Assigned {
    pub notes: Vec<Note>,
    pub casting: Vec<(Part, String)>,
    pub dropped: Vec<String>,
}

proof fn lemma_claims_named(order: Seq<usize>, names: Seq<Seq<char>>, n: nat, k: int)
    requires
        0 <= k < n <= order.len(),
        claims(order, names, n).0[k] is Some,
    ensures
        order[k] < names.len(),
    decreases n,
{
    lemma_claims(order, names, n);
    lemma_claims(order, names, (n - 1) as nat);
    if k < n - 1 {
        assert(claims(order, names, n).0[k] == claims(order, names, (n - 1) as nat).0[k]);
        lemma_claims_named(order, names, (n - 1) as nat, k);
    }
}

proof fn lemma_voiced(raws: Seq<Raw>)
    requires
        forall|i: int| 0 <= i < raws.len() ==> (#[trigger] raws[i]).group < usize::MAX,
        forall|i: int| 0 <= i < raws.len() ==> (#[trigger] raws[i]).start_tick <= raws[i].end_tick,
    ensures
        voiced(raws).len() == raws.len(),
        forall|i: int| 0 <= i < raws.len() ==> (#[trigger] voiced(raws)[i]).group < usize::MAX,
        forall|i: int|
            0 <= i < raws.len() ==> (#[trigger] voiced(raws)[i]).start_tick <= voiced(raws)[i].end_tick,
{
}

/// Turns raw note groups into four parts, by pitch and not by order. `names` says what each group
/// is called; where a lone group is split, its name stays with the lowest voice.
pub fn assign(raws: Vec<Raw>, names: &[String]) -> (assigned: Assigned)
    requires
        forall|i: int| 0 <= i < raws@.len() ==> (#[trigger] raws@[i]).group < usize::MAX,
        forall|i: int| 0 <= i < raws@.len() ==> (#[trigger] raws@[i]).start_tick <= raws@[i].end_tick,
    ensures
        ({
            let heard = voiced(raws@);
            let all = seats(sung_order(heard), strings(names@));
            &&& assigned.notes@ == all_sung(heard, all)
            &&& castings(assigned.casting@) == casting_of(all, strings(names@))
            &&& strings(assigned.dropped@) == left_out(heard)
        }),
        countable(assigned.notes@),
{
    let groups = count_groups(raws.as_slice());
    let ghost before = raws@;
    proof {
        lemma_voiced(before);
    }
    // One group with chords in it is a piano staff: split it by pitch rank per chord.
    let heard: Vec<Raw> = if groups == 1 {
        split_by_rank(raws.as_slice())
    } else {
        raws
    };
    assert(heard@ == voiced(before));
    assert forall|i: int| 0 <= i < heard@.len() implies (#[trigger] heard@[i]).group < usize::MAX
        && heard@[i].start_tick <= heard@[i].end_tick by {
        assert(voiced(before)[i].group < usize::MAX);
    }
    let groups = count_groups(heard.as_slice());
    let mut order = order_by_pitch(heard.as_slice(), groups);
    let mut dropped: Vec<String> = Vec::new();
    if order.len() > 4 {
        let mut note = String::new();
        push_decimal(&mut note, (order.len() - 4) as u64);
        push_text(&mut note, " voices past the first four (a duck chorale has four parts)");
        dropped.push(note);
        order.truncate(4);
    }
    proof {
        assert(strings(dropped@) =~= left_out(heard@));
        assert(order@ =~= sung_order(heard@));
    }
    let all = seat_groups(order.as_slice(), names);
    proof {
        assert forall|k: int| 0 <= k < all@.len() && (#[trigger] all@[k]).why == Why::Named implies all@[k].group
            < names@.len() by {
            if claims(order@, strings(names@), order@.len()).0[k] is Some {
                lemma_claims_named(order@, strings(names@), order@.len(), k);
            }
        }
    }
    let notes = sing_seats(heard.as_slice(), all.as_slice());
    let casting = cast_seats(all.as_slice(), names);
    Assigned { notes, casting, dropped }
}

/// A track's name: the first one written in it that says anything, or its number.
pub open spec fn name_of(texts: Seq<Seq<char>>, track: usize) -> Seq<char>
    decreases texts.len(),
{
    if texts.len() == 0 {
        "track "@ + decimal(track as nat + 1)
    } else if trimmed(texts[0]).len() > 0 {
        trimmed(texts[0])
    } else {
        name_of(texts.skip(1), track)
    }
}

/// Picks a track's name from the texts written in it.
pub fn track_name(texts: &[String], track: usize) -> (name: String)
    requires
        track < u64::MAX,
    ensures
        name@ == name_of(strings(texts@), track),
{
    let mut at: usize = 0;
    proof {
        assert(strings(texts@).skip(0) =~= strings(texts@));
    }
    while at < texts.len()
        invariant
            at <= texts@.len(),
            name_of(strings(texts@), track) == name_of(strings(texts@).skip(at as int), track),
        decreases texts@.len() - at,
    {
        let chars = chars_of(texts[at].as_str());
        let text = trim(chars.as_slice());
        proof {
            assert(strings(texts@).skip(at as int)[0] == texts@[at as int]@);
            assert(strings(texts@).skip(at as int).skip(1) =~= strings(texts@).skip(at + 1));
        }
        if text.len() > 0 {
            return text_of(text);
        }
        at = at + 1;
    }
    let mut name = "track ".to_owned();
    push_decimal(&mut name, track as u64 + 1);
    name
}

/// What each of a track's names says.
pub open spec fn decoded_all(labels: Seq<Seq<u8>>) -> Seq<Seq<char>> {
    Seq::new(labels.len(), |i: int| lossy_text(labels[i]))
}

/// The names of the tracks that had notes.
pub open spec fn names_of(named: Seq<(usize, Seq<Seq<u8>>)>) -> Seq<Seq<char>> {
    Seq::new(named.len(), |i: int| name_of(decoded_all(named[i].1), named[i].0))
}

/// The numbers of the tracks that had notes.
pub open spec fn tracks_of(named: Seq<(usize, Seq<Seq<u8>>)>) -> Seq<usize> {
    Seq::new(named.len(), |i: int| named[i].0)
}

/// Finds what each group is called.
fn title_groups(groups: &[(usize, u8)], named: &[Labelled], names: &[String]) -> (list: Vec<String>)
    ensures
        strings(list@) == titles(groups@, tracks_of(labelled(named@)), strings(names@)),
{
    let ghost tracks = tracks_of(labelled(named@));
    let mut list: Vec<String> = Vec::new();
    let mut g: usize = 0;
    while g < groups.len()
        invariant
            g <= groups@.len(),
            tracks == tracks_of(labelled(named@)),
            list@.len() == g,
            forall|i: int|
                0 <= i < g ==> (#[trigger] list@[i])@ == title_from(
                    tracks,
                    strings(names@),
                    groups@[i].0,
                    0,
                ),
        decreases groups@.len() - g,
    {
        let track: usize = groups[g].0;
        let mut at: usize = 0;
        while at < named.len() && at < names.len() && named[at].track != track
            invariant
                at <= named@.len(),
                tracks == tracks_of(labelled(named@)),
                title_from(tracks, strings(names@), track, 0) == title_from(
                    tracks,
                    strings(names@),
                    track,
                    at as int,
                ),
            decreases named@.len() - at,
        {
            at = at + 1;
        }
        if at < named.len() && at < names.len() {
            list.push(names[at].clone());
        } else {
            list.push(String::new());
        }
        g = g + 1;
    }
    proof {
        assert(strings(list@) =~= titles(groups@, tracks, strings(names@)));
    }
    list
}

fn decode_labels(labels: &Vec<Vec<u8>>) -> (texts: Vec<String>)
    ensures
        strings(texts@) == decoded_all(byte_strings(labels@)),
{
    let mut texts: Vec<String> = Vec::new();
    let mut at: usize = 0;
    while at < labels.len()
        invariant
            at <= labels@.len(),
            texts@.len() == at,
            forall|i: int| 0 <= i < at ==> (#[trigger] texts@[i])@ == lossy_text(labels@[i]@),
        decreases labels@.len() - at,
    {
        texts.push(decode_lossy(labels[at].as_slice()));
        at = at + 1;
    }
    proof {
        assert(strings(texts@) =~= decoded_all(byte_strings(labels@)));
    }
    texts
}

fn name_tracks(named: &Vec<Labelled>) -> (names: Vec<String>)
    requires
        forall|i: int| 0 <= i < named@.len() ==> (#[trigger] named@[i]).track < u64::MAX,
    ensures
        strings(names@) == names_of(labelled(named@)),
{
    let mut names: Vec<String> = Vec::new();
    let mut at: usize = 0;
    while at < named.len()
        invariant
            at <= named@.len(),
            forall|i: int| 0 <= i < named@.len() ==> (#[trigger] named@[i]).track < u64::MAX,
            names@.len() == at,
            forall|i: int|
                0 <= i < at ==> (#[trigger] names@[i])@ == name_of(
                    decoded_all(byte_strings(named@[i].labels@)),
                    named@[i].track,
                ),
        decreases named@.len() - at,
    {
        let texts = decode_labels(&named[at].labels);
        assert(named@[at as int].track < u64::MAX);
        let name = track_name(texts.as_slice(), named[at].track);
        names.push(name);
        at = at + 1;
    }
    proof {
        assert(strings(names@) =~= names_of(labelled(named@)));
    }
    names
}

/// What was in the file, besides the notes: reported so that an import is not silent about what
/// it dropped.
pub struct Import {
    pub score: Score,
    /// Track names, in file order, for the ones that had notes.
    pub tracks: Vec<String>,
    /// How each part was decided.
    pub casting: Vec<(Part, String)>,
    /// Things skipped that someone might have expected to survive.
    pub dropped: Vec<String>,
}

/// The tempo a file is sung at: its first mark, or MIDI's default of half a second to the beat.
pub open spec fn sung_tempo(heard: Heard) -> Tempo {
    Tempo {
        beats: 60_000_000,
        per: match heard.tempo {
            None => 500_000,
            Some(micros) => if micros == 0 {
                1
            } else {
                micros as u64
            },
        },
    }
}

/// What an import of these contents must say, the tracks that had notes having these names.
pub open spec fn imported(
    import: Import,
    ticks: nat,
    heard: Heard,
    tracks: Seq<usize>,
    names: Seq<Seq<char>>,
) -> bool {
    let raws = voiced(heard.raws);
    let called = titles(heard.groups, tracks, names);
    let all = seats(sung_order(raws), called);
    &&& import.score.name@ == "imported"@
    &&& import.score.tempo == sung_tempo(heard)
    &&& import.score.ticks_per_beat == ticks
    &&& import.score.notes@ == tied(in_order(all_sung(raws, all)), import.score.ticks_per_beat)
    &&& import.score.valid()
    &&& strings(import.tracks@) == names
    &&& castings(import.casting@) == casting_of(all, called)
    &&& strings(import.dropped@) == (if heard.retimed {
        seq!["a tempo change (the whole piece is sung at the first tempo)"@]
    } else {
        Seq::empty()
    }) + left_out(raws)
}

/// Makes a score of what was gathered. `names` says what the tracks that had notes are called, in
/// the order in which they are listed.
pub fn arrange(gathered: Gathered, names: Vec<String>) -> (import: Import)
    requires
        gathered.valid(),
        0 < gathered.ticks_per_beat < 0x8000,
    ensures
        imported(
            import,
            gathered.ticks_per_beat as nat,
            gathered.heard(),
            tracks_of(labelled(gathered.named@)),
            strings(names@),
        ),
{
    let ghost heard = gathered.heard();
    let per: u64 = match gathered.tempo {
        None => 500_000,
        Some(micros) => if micros == 0 {
            1
        } else {
            micros as u64
        },
    };
    let mut dropped: Vec<String> = Vec::new();
    if gathered.retimed {
        dropped.push("a tempo change (the whole piece is sung at the first tempo)".to_owned());
    }
    let groups: usize = gathered.groups.len();
    proof {
        assert forall|i: int| 0 <= i < gathered.raws@.len() implies (
        #[trigger] gathered.raws@[i]).group < usize::MAX && gathered.raws@[i].start_tick
            <= gathered.raws@[i].end_tick by {
            assert(heard.raws[i].group < heard.groups.len());
        }
    }
    let ticks: u64 = gathered.ticks_per_beat;
    let ghost told = strings(dropped@);
    let called = title_groups(gathered.groups.as_slice(), gathered.named.as_slice(), names.as_slice());
    let mut assigned = assign(gathered.raws, called.as_slice());
    let ghost more = strings(assigned.dropped@);
    dropped.append(&mut assigned.dropped);
    proof {
        assert(strings(dropped@) =~= told + more);
        assert(told =~= (if heard.retimed {
            seq!["a tempo change (the whole piece is sung at the first tempo)"@]
        } else {
            Seq::empty()
        }));
    }
    let score = Score::from_notes(
        "imported",
        Tempo { beats: 60_000_000, per },
        ticks,
        assigned.notes,
    );
    Import { score, tracks: names, casting: assigned.casting, dropped }
}

proof fn lemma_quantity_fails(bytes: Seq<u8>, at: int, left: nat, value: nat)
    ensures
        quantity(bytes, at, left, value) matches Err(e) ==> e is Truncated,
    decreases left,
{
    if left > 0 && 0 <= at < bytes.len() {
        let now = value * 128 + (bytes[at] % 128) as nat;
        lemma_quantity_fails(bytes, at + 1, (left - 1) as nat, now);
    }
}

proof fn lemma_event_fails(bytes: Seq<u8>, at: int, status: u8)
    ensures
        event_at(bytes, at, status) matches Err(e) ==> e is Truncated,
{
    lemma_quantity_fails(bytes, at, 4, 0);
    if let Ok((delta, from)) = quantity(bytes, at, 4, 0) {
        lemma_quantity_fails(bytes, from, 4, 0);
        lemma_quantity_fails(bytes, from + 1, 4, 0);
        lemma_quantity_fails(bytes, from + 2, 4, 0);
    }
}

proof fn lemma_track_fails(
    bytes: Seq<u8>,
    track: usize,
    at: int,
    end: int,
    heard: Heard,
    playing: Playing,
)
    requires
        0 <= at,
        bytes.len() <= usize::MAX,
    ensures
        track_from(bytes, track, at, end, heard, playing) matches Err(e) ==> e is Truncated,
    decreases bytes.len() - at,
{
    if at < end {
        lemma_event(bytes, at, playing.status);
        lemma_event_fails(bytes, at, playing.status);
        if let Ok(d) = event_at(bytes, at, playing.status) {
            let now = Playing {
                tick: (playing.tick + d.delta) as u64,
                status: d.status,
                ..playing
            };
            let (heard, playing) = played(bytes, track, heard, now, d.event);
            lemma_track_fails(bytes, track, d.next as int, end, heard, playing);
        }
    }
}

proof fn lemma_chunks_fail(bytes: Seq<u8>, at: int, p: Progress)
    requires
        0 <= at,
        bytes.len() <= usize::MAX,
    ensures
        chunks_from(bytes, at, p) matches Err(e) ==> e is Truncated,
    decreases bytes.len() - at,
{
    if bytes.len() - at >= 8 {
        let end = at + 8 + be32(bytes, at + 4);
        if end <= bytes.len() {
            if bytes.subrange(at, at + 4) != seq![0x4Du8, 0x54, 0x72, 0x6B] {
                lemma_chunks_fail(bytes, end, p);
            } else {
                lemma_track_fails(bytes, p.tracks as usize, at + 8, end, p.heard, quiet());
                if let Ok((heard, playing)) = track_from(
                    bytes,
                    p.tracks as usize,
                    at + 8,
                    end,
                    p.heard,
                    quiet(),
                ) {
                    lemma_chunks_fail(bytes, end, track_added(p, heard, playing));
                }
            }
        }
    }
}

/// Whether bytes are called a MIDI file is decided by their header alone: fourteen bytes that
/// begin with `MThd`. Whatever else is wrong with a file has another name.
pub proof fn the_header_makes_a_midi_file(bytes: Seq<u8>)
    requires
        bytes.len() <= usize::MAX,
    ensures
        file_contents(bytes) == Err::<(nat, Progress), MidiError>(MidiError::NotMidi) <==> (bytes.len()
            < 14 || bytes.subrange(0, 4) != seq![0x4Du8, 0x54, 0x68, 0x64]),
{
    if bytes.len() >= 14 {
        let header = 8 + be32(bytes, 4);
        let start = if header < bytes.len() {
            header as int
        } else {
            bytes.len() as int
        };
        lemma_chunks_fail(bytes, start, untouched());
    }
}

proof fn lemma_counted(raws: Seq<Raw>, i: int)
    requires
        0 <= i < raws.len(),
    ensures
        note_count(raws, raws[i].group) > 0,
        raws[i].group < group_count(raws),
    decreases raws.len(),
{
    if i < raws.len() - 1 {
        lemma_counted(raws.drop_last(), i);
        assert(raws.drop_last()[i] == raws[i]);
    }
}

proof fn lemma_pitch_place(raws: Seq<Raw>, order: Seq<usize>, group: usize)
    ensures
        0 <= pitch_place(raws, order, group) <= order.len(),
    decreases order.len(),
{
    if order.len() > 0 {
        lemma_pitch_place(raws, order.drop_last(), group);
    }
}

proof fn lemma_by_pitch(raws: Seq<Raw>, n: nat, group: usize)
    requires
        n <= usize::MAX,
        group < n,
        note_count(raws, group) > 0,
    ensures
        by_pitch(raws, n).len() > 0,
    decreases n,
{
    let before = by_pitch(raws, (n - 1) as nat);
    lemma_pitch_place(raws, before, (n - 1) as usize);
    if group < n - 1 {
        lemma_by_pitch(raws, (n - 1) as nat, group);
    }
}

proof fn lemma_by_pitch_sounds(raws: Seq<Raw>, n: nat, k: int)
    requires
        n <= usize::MAX,
        0 <= k < by_pitch(raws, n).len(),
    ensures
        note_count(raws, by_pitch(raws, n)[k]) > 0,
    decreases n,
{
    let before = by_pitch(raws, (n - 1) as nat);
    let group = (n - 1) as usize;
    let at = pitch_place(raws, before, group);
    lemma_pitch_place(raws, before, group);
    if note_count(raws, group) == 0 || k < at {
        lemma_by_pitch_sounds(raws, (n - 1) as nat, k);
    } else if k > at {
        lemma_by_pitch_sounds(raws, (n - 1) as nat, k - 1);
    }
}

proof fn lemma_group_count(raws: Seq<Raw>)
    requires
        forall|i: int| 0 <= i < raws.len() ==> (#[trigger] raws[i]).group < usize::MAX,
    ensures
        group_count(raws) <= usize::MAX,
    decreases raws.len(),
{
    if raws.len() > 0 {
        assert(raws[raws.len() - 1].group < usize::MAX);
        assert forall|i: int| 0 <= i < raws.drop_last().len() implies (
        #[trigger] raws.drop_last()[i]).group < usize::MAX by {
            assert(raws.drop_last()[i] == raws[i]);
        }
        lemma_group_count(raws.drop_last());
    }
}

proof fn lemma_sung_by(raws: Seq<Raw>, seat: Seat)
    requires
        note_count(raws, seat.group) > 0,
    ensures
        sung_by(raws, seat).len() > 0,
    decreases raws.len(),
{
    if raws.last().group != seat.group {
        lemma_sung_by(raws.drop_last(), seat);
    }
}

proof fn lemma_all_sung(raws: Seq<Raw>, all: Seq<Seat>)
    requires
        all.len() > 0,
        note_count(raws, all[0].group) > 0,
    ensures
        all_sung(raws, all).len() > 0,
    decreases all.len(),
{
    if all.len() == 1 {
        lemma_sung_by(raws, all[0]);
    } else {
        lemma_all_sung(raws, all.drop_last());
    }
}

/// Where something was heard, something is sung: at least the lowest voice has a note.
pub proof fn what_was_heard_is_sung(raws: Seq<Raw>, names: Seq<Seq<char>>)
    requires
        raws.len() > 0,
        forall|i: int| 0 <= i < raws.len() ==> (#[trigger] raws[i]).group < usize::MAX,
    ensures
        all_sung(voiced(raws), seats(sung_order(voiced(raws)), names)).len() > 0,
{
    let heard = voiced(raws);
    assert(heard.len() == raws.len());
    assert forall|i: int| 0 <= i < heard.len() implies (#[trigger] heard[i]).group < usize::MAX by {
        assert(raws[i].group < usize::MAX);
    }
    lemma_group_count(heard);
    let n = group_count(heard);
    lemma_counted(heard, 0);
    lemma_by_pitch(heard, n, heard[0].group);
    let order = sung_order(heard);
    lemma_by_pitch_sounds(heard, n, 0);
    assert(order[0] == by_pitch(heard, n)[0]);
    let all = seats(order, names);
    assert(all[0].group == order[0]);
    lemma_all_sung(heard, all);
}

/// Reads a Standard MIDI File.
pub fn parse(bytes: &[u8]) -> (import: Result<Import, MidiError>)
    ensures
        match file_contents(bytes@) {
            Err(e) => import is Err && import->Err_0 == e,
            Ok((ticks, p)) => import is Ok && imported(
                import->Ok_0,
                ticks,
                p.heard,
                tracks_of(p.named),
                names_of(p.named),
            ),
        },
        import matches Ok(i) ==> i.score.notes@.len() > 0,
        (import matches Err(e) && e is NotMidi) <==> (bytes@.len() < 14 || bytes@.subrange(0, 4)
            != seq![0x4Du8, 0x54, 0x68, 0x64]),
{
    let size: usize = bytes.len();
    proof {
        the_header_makes_a_midi_file(bytes@);
    }
    let gathered = match gather(bytes) {
        Ok(g) => g,
        Err(e) => {
            return Err(e);
        },
    };
    let groups: usize = gathered.groups.len();
    proof {
        let heard = gathered.heard();
        assert forall|i: int| 0 <= i < heard.raws.len() implies (#[trigger] heard.raws[i]).group
            < usize::MAX by {
            assert(heard.raws[i].group < heard.groups.len() == groups);
        }
    }
    let ghost raws = gathered.raws@;
    let names = name_tracks(&gathered.named);
    let ghost called = titles(
        gathered.groups@,
        tracks_of(labelled(gathered.named@)),
        strings(names@),
    );
    proof {
        what_was_heard_is_sung(raws, called);
    }
    let import = arrange(gathered, names);
    proof {
        notes_make_a_score(
            all_sung(voiced(raws), seats(sung_order(voiced(raws)), called)),
            import.score.ticks_per_beat,
        );
    }
    Ok(import)
}

/// A note-off ends its note, and so does a note-on that strikes with no force; a note-on that
/// strikes with some begins it. The channel is the low half of the status byte, and two data bytes
/// belong to each.
pub proof fn what_starts_and_ends_a_note(bytes: Seq<u8>, channel: u8, at: int)
    requires
        channel < 16,
        0 <= at,
        at + 2 <= bytes.len(),
        bytes[at] < 128,
        bytes[at + 1] < 128,
    ensures
        body_at(bytes, (0x80 + channel) as u8, at) == Ok::<(Event, int), MidiError>(
            (Event::Off { channel, pitch: bytes[at] }, at + 2),
        ),
        bytes[at + 1] == 0 ==> body_at(bytes, (0x90 + channel) as u8, at) == Ok::<
            (Event, int),
            MidiError,
        >((Event::Off { channel, pitch: bytes[at] }, at + 2)),
        bytes[at + 1] > 0 ==> body_at(bytes, (0x90 + channel) as u8, at) == Ok::<
            (Event, int),
            MidiError,
        >((Event::On { channel, pitch: bytes[at], velocity: bytes[at + 1] }, at + 2)),
{
}

/// Of the other channel messages, pressure on a key, controllers and the pitch wheel have two data
/// bytes, and a programme or pressure on the channel one. They mean nothing to a score, but the
/// next event is found behind them.
pub proof fn other_messages_are_passed_over(bytes: Seq<u8>, command: u8, at: int)
    requires
        0xA0 <= command < 0xF0,
        0 <= at,
    ensures
        ({
            let data: int = if 0xC0 <= command < 0xE0 {
                1
            } else {
                2
            };
            &&& at + data <= bytes.len() ==> body_at(bytes, command, at) == Ok::<(Event, int), MidiError>(
                (Event::Other, at + data),
            )
            &&& at + data > bytes.len() ==> body_at(bytes, command, at) is Err
        }),
{
}

/// A meta event of `length` bytes ends behind them. One of type 0x03 names the track, one of type 0x51
/// with three bytes sets the tempo, and any other says nothing to a score, like an exclusive message.
pub proof fn what_a_meta_event_says(bytes: Seq<u8>, at: int, length: nat, from: int)
    requires
        0 <= at < bytes.len() <= usize::MAX,
        quantity(bytes, at + 1, 4, 0) == Ok::<(nat, int), MidiError>((length, from)),
        from + length <= bytes.len(),
    ensures
        ({
            let read = body_at(bytes, 0xFF, at);
            &&& read is Ok
            &&& read->Ok_0.1 == from + length
            &&& bytes[at] == 0x03 ==> read->Ok_0.0 == (Event::Label {
                from: from as usize,
                to: (from + length) as usize,
            })
            &&& bytes[at] == 0x51 && length == 3 ==> (read->Ok_0.0 matches Event::Tempo { micros }
                && micros == bytes[from] * 0x1_0000 + bytes[from + 1] * 0x100 + bytes[from + 2])
            &&& bytes[at] != 0x03 && !(bytes[at] == 0x51 && length == 3) ==> read->Ok_0.0 == Event::Other
        }),
        body_at(bytes, 0xF0, at + 1) == Ok::<(Event, int), MidiError>((Event::Other, from + length)),
        body_at(bytes, 0xF7, at + 1) == Ok::<(Event, int), MidiError>((Event::Other, from + length)),
{
    lemma_delta(bytes, at + 1);
}

/// A status byte holds until the next one: an event that leaves it out is the same event as one
/// that repeats it, a byte shorter.
pub proof fn a_status_holds_until_the_next(
    bytes: Seq<u8>,
    at: int,
    delta: nat,
    from: int,
    status: u8,
    channel: u8,
)
    requires
        0 <= at,
        bytes.len() <= usize::MAX,
        quantity(bytes, at, 4, 0) == Ok::<(nat, int), MidiError>((delta, from)),
        channel < 16,
        from + 3 <= bytes.len(),
    ensures
        bytes[from] == 0x80 + channel && bytes[from + 1] < 128 ==> event_at(bytes, at, status) == Ok::<
            Decoded,
            MidiError,
        >(
            Decoded {
                delta: delta as u64,
                event: Event::Off { channel, pitch: bytes[from + 1] },
                next: (from + 3) as usize,
                status: bytes[from],
            },
        ),
        bytes[from] == 0x90 + channel && bytes[from + 1] < 128 && 0 < bytes[from + 2] < 128 ==> event_at(
            bytes,
            at,
            status,
        ) == Ok::<Decoded, MidiError>(
            Decoded {
                delta: delta as u64,
                event: Event::On { channel, pitch: bytes[from + 1], velocity: bytes[from + 2] },
                next: (from + 3) as usize,
                status: bytes[from],
            },
        ),
        bytes[from] < 128 && status == 0x80 + channel ==> event_at(bytes, at, status) == Ok::<
            Decoded,
            MidiError,
        >(
            Decoded {
                delta: delta as u64,
                event: Event::Off { channel, pitch: bytes[from] },
                next: (from + 2) as usize,
                status,
            },
        ),
        bytes[from] < 128 && status == 0x90 + channel && 0 < bytes[from + 1] < 128 ==> event_at(
            bytes,
            at,
            status,
        ) == Ok::<Decoded, MidiError>(
            Decoded {
                delta: delta as u64,
                event: Event::On { channel, pitch: bytes[from], velocity: bytes[from + 1] },
                next: (from + 2) as usize,
                status,
            },
        ),
{
    lemma_delta(bytes, at);
}

proof fn lemma_group_from(groups: Seq<(usize, u8)>, key: (usize, u8), from: int)
    requires
        0 <= from <= groups.len(),
    ensures
        from <= group_from(groups, key, from) <= groups.len(),
        group_from(groups, key, from) < groups.len() ==> groups[group_from(groups, key, from)] == key,
        forall|i: int| from <= i < group_from(groups, key, from) ==> #[trigger] groups[i] != key,
    decreases groups.len() - from,
{
    if from < groups.len() && groups[from] != key {
        lemma_group_from(groups, key, from + 1);
    }
}

/// Whether what is heard is what was heard before and one note more, on a track and a channel.
pub open spec fn one_more(
    before: Heard,
    after: Heard,
    track: usize,
    channel: u8,
    start: u64,
    end: u64,
    pitch: u8,
    struck: u8,
) -> bool {
    let note = after.raws[before.raws.len() as int];
    &&& after.raws == before.raws.push(note)
    &&& note.start_tick == start && note.end_tick == end && note.midi == pitch && note.velocity == struck
    &&& note.group < after.groups.len() && after.groups[note.group as int] == (track, channel)
    &&& after.groups == (if before.groups.contains((track, channel)) {
        before.groups
    } else {
        before.groups.push((track, channel))
    })
    &&& after.tempo == before.tempo && after.retimed == before.retimed
}

/// A note is heard once, from its start to its end, in the group of its track and channel; and one
/// that lasts no time is not heard at all.
pub proof fn a_note_is_heard_once(
    heard: Heard,
    track: usize,
    channel: u8,
    start: u64,
    end: u64,
    pitch: u8,
    struck: u8,
)
    requires
        heard.groups.len() < usize::MAX,
    ensures
        ({
            let after = sounded(heard, track, channel, start, end, pitch, struck);
            &&& start < end ==> one_more(heard, after, track, channel, start, end, pitch, struck)
            &&& start >= end ==> after == heard
        }),
{
    let key = (track, channel);
    lemma_group_from(heard.groups, key, 0);
    let group = group_from(heard.groups, key, 0);
    if group < heard.groups.len() {
        assert(heard.groups.contains(key));
    } else {
        assert(!heard.groups.contains(key));
    }
    if start < end {
        let after = sounded(heard, track, channel, start, end, pitch, struck);
        assert(after.raws =~= heard.raws.push(after.raws[heard.raws.len() as int]));
    }
}

/// No two notes of the keyboard share a place: a channel and a pitch have one of their own.
pub proof fn every_key_has_its_place(channel: u8, pitch: u8, other_channel: u8, other: u8)
    requires
        channel < 16,
        other_channel < 16,
        pitch < 128,
        other < 128,
    ensures
        0 <= slot(channel, pitch) < 2048,
        slot(channel, pitch) == slot(other_channel, other) <==> channel == other_channel && pitch == other,
        slot(channel, pitch) / 128 == channel,
        slot(channel, pitch) % 128 == pitch,
{
}

/// What a note event does. Striking a key opens its note at the present tick, releasing it closes
/// it; either way a note that was open on that key is heard up to now, and no other key is touched.
pub proof fn what_a_key_does(
    bytes: Seq<u8>,
    track: usize,
    heard: Heard,
    playing: Playing,
    channel: u8,
    pitch: u8,
    velocity: u8,
    k: int,
)
    requires
        heard.groups.len() < usize::MAX,
        playing.open.len() == 2048,
        channel < 16,
        pitch < 128,
        0 <= k < 2048,
    ensures
        ({
            let at = slot(channel, pitch);
            let (struck, on) = played(bytes, track, heard, playing, Event::On { channel, pitch, velocity });
            let (freed, off) = played(bytes, track, heard, playing, Event::Off { channel, pitch });
            &&& on.open.len() == 2048 && off.open.len() == 2048
            &&& k == at ==> on.open[k] == Some((playing.tick, velocity)) && off.open[k] is None
            &&& k != at ==> on.open[k] == playing.open[k] && off.open[k] == playing.open[k]
            &&& on.tick == playing.tick && off.tick == playing.tick
            &&& on.labels == playing.labels && off.labels == playing.labels
            &&& struck == freed
            &&& playing.open[at] is None ==> struck == heard
            &&& playing.open[at] matches Some((start, force)) ==> {
                &&& start < playing.tick ==> one_more(
                    heard,
                    freed,
                    track,
                    channel,
                    start,
                    playing.tick,
                    pitch,
                    force,
                )
                &&& start >= playing.tick ==> freed == heard
            }
        }),
{
    every_key_has_its_place(channel, pitch, channel, pitch);
    if let Some((start, force)) = playing.open[slot(channel, pitch)] {
        a_note_is_heard_once(heard, track, channel, start, playing.tick, pitch, force);
    }
}

/// A note is heard from the tick it is struck at to the tick it is let go at: wherever in a track a
/// note-on for a silent key stands, and a note-off for it some ticks behind, reading both adds that
/// one note, and leaves the key silent.
pub proof fn a_note_lasts_until_it_is_let_go(
    bytes: Seq<u8>,
    track: usize,
    at: int,
    end: int,
    heard: Heard,
    playing: Playing,
    channel: u8,
    before: nat,
    on: int,
    lasts: nat,
    off: int,
)
    requires
        bytes.len() <= usize::MAX,
        0 <= at < end <= bytes.len(),
        heard.groups.len() < usize::MAX,
        playing.open.len() == 2048,
        channel < 16,
        quantity(bytes, at, 4, 0) == Ok::<(nat, int), MidiError>((before, on)),
        on + 3 < end,
        bytes[on] == 0x90 + channel,
        bytes[on + 1] < 128,
        0 < bytes[on + 2] < 128,
        quantity(bytes, on + 3, 4, 0) == Ok::<(nat, int), MidiError>((lasts, off)),
        lasts > 0,
        off + 3 <= end,
        bytes[off] == 0x80 + channel,
        bytes[off + 1] == bytes[on + 1],
        playing.open[slot(channel, bytes[on + 1])] is None,
        playing.tick + before + lasts <= u64::MAX,
    ensures
        ({
            let start = (playing.tick + before) as u64;
            let stop = (playing.tick + before + lasts) as u64;
            exists|then_heard: Heard, then_playing: Playing|
                {
                    &&& one_more(
                        heard,
                        then_heard,
                        track,
                        channel,
                        start,
                        stop,
                        bytes[on + 1],
                        bytes[on + 2],
                    )
                    &&& then_playing.open == playing.open
                    &&& then_playing.tick == stop
                    &&& then_playing.labels == playing.labels
                    &&& track_from(bytes, track, at, end, heard, playing) == #[trigger] track_from(
                        bytes,
                        track,
                        off + 3,
                        end,
                        then_heard,
                        then_playing,
                    )
                }
        }),
{
    let pitch = bytes[on + 1];
    let velocity = bytes[on + 2];
    let start = (playing.tick + before) as u64;
    let stop = (playing.tick + before + lasts) as u64;
    lemma_delta(bytes, at);
    lemma_delta(bytes, on + 3);
    a_status_holds_until_the_next(bytes, at, before, on, playing.status, channel);
    let p1 = Playing { tick: start, status: bytes[on], ..playing };
    what_a_key_does(bytes, track, heard, p1, channel, pitch, velocity, slot(channel, pitch));
    let (h2, p2) = played(bytes, track, heard, p1, Event::On { channel, pitch, velocity });
    assert(track_from(bytes, track, at, end, heard, playing) == track_from(
        bytes,
        track,
        on + 3,
        end,
        h2,
        p2,
    ));
    a_status_holds_until_the_next(bytes, on + 3, lasts, off, p2.status, channel);
    let p3 = Playing { tick: stop, status: bytes[off], ..p2 };
    what_a_key_does(bytes, track, h2, p3, channel, pitch, velocity, slot(channel, pitch));
    let (h4, p4) = played(bytes, track, h2, p3, Event::Off { channel, pitch });
    assert(track_from(bytes, track, on + 3, end, h2, p2) == track_from(
        bytes,
        track,
        off + 3,
        end,
        h4,
        p4,
    ));
    assert(p4.open =~= playing.open);
}

/// A name is added to the track's names, the first tempo is kept, a later one that differs by more
/// than a microsecond is noted, and everything else changes nothing.
pub proof fn what_other_events_do(
    bytes: Seq<u8>,
    track: usize,
    heard: Heard,
    playing: Playing,
    from: usize,
    to: usize,
    micros: u32,
)
    ensures
        played(bytes, track, heard, playing, Event::Other) == (heard, playing),
        ({
            let (after, now) = played(bytes, track, heard, playing, Event::Label { from, to });
            &&& after == heard
            &&& now.labels == playing.labels.push(bytes.subrange(from as int, to as int))
            &&& now.open == playing.open && now.tick == playing.tick && now.status == playing.status
        }),
        ({
            let (after, now) = played(bytes, track, heard, playing, Event::Tempo { micros });
            &&& now == playing
            &&& after.raws == heard.raws && after.groups == heard.groups
            &&& heard.tempo is None ==> after.tempo == Some(micros) && after.retimed == heard.retimed
            &&& heard.tempo is Some ==> after.tempo == heard.tempo
            &&& heard.tempo is Some ==> (after.retimed <==> heard.retimed || !(-1 <= micros
                - heard.tempo->0 <= 1))
        }),
{
}

/// Whether a note on a track and a channel is among those heard.
pub open spec fn is_heard(
    heard: Heard,
    track: usize,
    channel: u8,
    start: u64,
    end: u64,
    pitch: u8,
    struck: u8,
) -> bool {
    exists|i: int|
        {
            &&& 0 <= i < heard.raws.len()
            &&& (#[trigger] heard.raws[i]).start_tick == start
            &&& heard.raws[i].end_tick == end
            &&& heard.raws[i].midi == pitch
            &&& heard.raws[i].velocity == struck
            &&& heard.raws[i].group < heard.groups.len()
            &&& heard.groups[heard.raws[i].group as int] == (track, channel)
        }
}

/// Notes that still sound when a track is over end there: every one that has lasted some time is
/// heard, to the track's last tick, and what was heard before stays.
pub proof fn no_note_is_lost(heard: Heard, track: usize, playing: Playing, from: int, k: int)
    requires
        0 <= from <= k < playing.open.len(),
        playing.open.len() <= 2048,
        heard.groups.len() + (playing.open.len() - from) < usize::MAX,
    ensures
        ({
            let after = let_go(heard, track, playing, from);
            &&& heard.raws.is_prefix_of(after.raws)
            &&& heard.groups.is_prefix_of(after.groups)
            &&& after.tempo == heard.tempo && after.retimed == heard.retimed
            &&& playing.open[k] matches Some((start, struck)) ==> start < playing.tick ==> is_heard(
                after,
                track,
                (k / 128) as u8,
                start,
                playing.tick,
                (k % 128) as u8,
                struck,
            )
        }),
    decreases playing.open.len() - from,
{
    let now = match playing.open[from] {
        Some((start, struck)) => sounded(
            heard,
            track,
            (from / 128) as u8,
            start,
            playing.tick,
            (from % 128) as u8,
            struck,
        ),
        None => heard,
    };
    let after = let_go(heard, track, playing, from);
    assert(after == let_go(now, track, playing, from + 1));
    lemma_group_from(heard.groups, (track, (from / 128) as u8), 0);
    if let Some((start, struck)) = playing.open[from] {
        a_note_is_heard_once(
            heard,
            track,
            (from / 128) as u8,
            start,
            playing.tick,
            (from % 128) as u8,
            struck,
        );
    }
    assert(heard.raws.is_prefix_of(now.raws));
    assert(heard.groups.is_prefix_of(now.groups));
    if from + 1 < playing.open.len() {
        no_note_is_lost(now, track, playing, from + 1, if k > from {
            k
        } else {
            from + 1
        });
        assert(now.raws.is_prefix_of(after.raws));
        assert(now.groups.is_prefix_of(after.groups));
        assert(heard.raws.is_prefix_of(after.raws)) by {
            assert forall|i: int| 0 <= i < heard.raws.len() implies heard.raws[i] == after.raws[i] by {
                assert(heard.raws[i] == now.raws[i]);
            }
        }
        assert(heard.groups.is_prefix_of(after.groups)) by {
            assert forall|i: int| 0 <= i < heard.groups.len() implies heard.groups[i] == after.groups[i] by {
                assert(heard.groups[i] == now.groups[i]);
            }
        }
    } else {
        assert(after == now);
    }
    if k == from {
        if let Some((start, struck)) = playing.open[from] {
            if start < playing.tick {
                let i = heard.raws.len() as int;
                assert(after.raws[i] == now.raws[i]);
                assert(after.groups[now.raws[i].group as int] == now.groups[now.raws[i].group as int]);
            }
        }
    }
}

/// A file is its chunks: a length of four bytes, most significant first, says where each ends. A
/// chunk that is no track is passed over whole, one that runs off the end is an error, and fewer than
/// eight bytes at the end say nothing.
pub proof fn chunks_follow_each_other(bytes: Seq<u8>, at: int, p: Progress)
    requires
        0 <= at,
        bytes.len() <= usize::MAX,
    ensures
        ({
            let end = at + 8 + bytes[at + 4] * 0x100_0000 + bytes[at + 5] * 0x1_0000 + bytes[at + 6] * 0x100
                + bytes[at + 7];
            let track = bytes[at] == 0x4D && bytes[at + 1] == 0x54 && bytes[at + 2] == 0x72 && bytes[at + 3]
                == 0x6B;
            &&& bytes.len() < at + 8 ==> chunks_from(bytes, at, p) == Ok::<Progress, MidiError>(p)
            &&& bytes.len() >= at + 8 && end > bytes.len() ==> chunks_from(bytes, at, p) == Err::<
                Progress,
                MidiError,
            >(MidiError::Truncated { at: (at + 8) as usize })
            &&& bytes.len() >= at + 8 && end <= bytes.len() && !track ==> chunks_from(bytes, at, p)
                == chunks_from(bytes, end, p)
            &&& bytes.len() >= at + 8 && end <= bytes.len() && track ==> match track_from(
                bytes,
                p.tracks as usize,
                at + 8,
                end,
                p.heard,
                quiet(),
            ) {
                Err(e) => chunks_from(bytes, at, p) == Err::<Progress, MidiError>(e),
                Ok((heard, playing)) => exists|q: Progress|
                    {
                        &&& q.tracks == p.tracks + 1
                        &&& q.heard == let_go(heard, p.tracks as usize, playing, 0)
                        &&& chunks_from(bytes, at, p) == #[trigger] chunks_from(bytes, end, q)
                    },
            }
        }),
{
    if bytes.len() >= at + 8 {
        let tag = bytes.subrange(at, at + 4);
        let name = seq![0x4Du8, 0x54, 0x72, 0x6B];
        assert(tag == name <==> bytes[at] == 0x4D && bytes[at + 1] == 0x54 && bytes[at + 2] == 0x72
            && bytes[at + 3] == 0x6B) by {
            if tag == name {
                assert(tag[0] == name[0] && tag[1] == name[1] && tag[2] == name[2] && tag[3] == name[3]);
            } else {
                assert(!(tag =~= name));
            }
        }
        let end = at + 8 + be32(bytes, at + 4);
        if end <= bytes.len() && tag == name {
            if let Ok((heard, playing)) = track_from(
                bytes,
                p.tracks as usize,
                at + 8,
                end,
                p.heard,
                quiet(),
            ) {
                let q = track_added(p, heard, playing);
                assert(chunks_from(bytes, at, p) == chunks_from(bytes, end, q));
            }
        }
    }
}

/// A track that was heard is listed under its number, with its names; one that was not is left out.
/// Each track starts silent, at its beginning.
pub proof fn tracks_that_sound_are_listed(p: Progress, heard: Heard, playing: Playing)
    requires
        p.tracks < usize::MAX,
    ensures
        ({
            let q = track_added(p, heard, playing);
            let sounds = exists|i: int|
                0 <= i < q.heard.raws.len() && q.heard.groups[(#[trigger] q.heard.raws[i]).group as int].0
                    == p.tracks;
            &&& q.tracks == p.tracks + 1
            &&& sounds ==> q.named == p.named.push((p.tracks as usize, playing.labels))
            &&& !sounds ==> q.named == p.named
        }),
        quiet().tick == 0,
        quiet().labels.len() == 0,
        quiet().open.len() == 2048,
        forall|k: int| 0 <= k < 2048 ==> (#[trigger] quiet().open[k]) is None,
{
}

/// What a file with a header comes to. The two bytes at its end are the ticks to the beat, where a
/// set high bit means time code, which is refused; none means one. The chunks follow the header,
/// however long it says it is, and a file in which nothing sounds is an error.
pub proof fn what_a_file_comes_to(bytes: Seq<u8>)
    requires
        14 <= bytes.len() <= usize::MAX,
        bytes.subrange(0, 4) == seq![0x4Du8, 0x54, 0x68, 0x64],
    ensures
        ({
            let division = bytes[12] * 0x100 + bytes[13];
            let header = 8 + bytes[4] * 0x100_0000 + bytes[5] * 0x1_0000 + bytes[6] * 0x100 + bytes[7];
            let start = if header < bytes.len() {
                header
            } else {
                bytes.len() as int
            };
            let contents = file_contents(bytes);
            &&& bytes[12] >= 128 ==> contents == Err::<(nat, Progress), MidiError>(MidiError::SmpteTiming)
            &&& bytes[12] < 128 ==> match chunks_from(bytes, start, untouched()) {
                Err(e) => contents == Err::<(nat, Progress), MidiError>(e),
                Ok(p) => {
                    &&& p.heard.raws.len() == 0 ==> contents == Err::<(nat, Progress), MidiError>(
                        MidiError::NoNotes,
                    )
                    &&& p.heard.raws.len() > 0 ==> {
                        &&& contents is Ok && contents->Ok_0.1 == p
                        &&& division > 0 ==> contents->Ok_0.0 == division
                        &&& division == 0 ==> contents->Ok_0.0 == 1
                    }
                },
            }
        }),
        untouched().heard.raws.len() == 0,
        untouched().heard.groups.len() == 0,
        untouched().heard.tempo is None,
        !untouched().heard.retimed,
        untouched().tracks == 0,
        untouched().named.len() == 0,
{
}

proof fn lemma_below(raws: Seq<Raw>, i: int, j: int, n: nat)
    requires
        0 <= i < raws.len(),
        0 <= j < raws.len(),
        n <= raws.len(),
        raws[i].start_tick == raws[j].start_tick,
        raws[i].midi < raws[j].midi || (raws[i].midi == raws[j].midi && i < j),
    ensures
        below_in_chord(raws, i, n) + (if i < n {
            1nat
        } else {
            0
        }) <= below_in_chord(raws, j, n),
    decreases n,
{
    if n > 0 {
        lemma_below(raws, i, j, (n - 1) as nat);
    }
}

proof fn lemma_nothing_below(raws: Seq<Raw>, i: int, n: nat)
    requires
        0 <= i < raws.len(),
        n <= raws.len(),
        forall|j: int|
            0 <= j < raws.len() && j != i && raws[j].start_tick == raws[i].start_tick ==> (
            #[trigger] raws[j]).midi > raws[i].midi,
    ensures
        below_in_chord(raws, i, n) == 0,
    decreases n,
{
    if n > 0 {
        lemma_nothing_below(raws, i, (n - 1) as nat);
        assert(raws[n - 1].start_tick == raws[n - 1].start_tick);
    }
}

/// A chord is split by pitch: the lowest note sings in the lowest voice, and of two notes that begin
/// together the higher one sings in a higher voice, or both sing in the fourth. The notes themselves
/// stay as they are.
pub proof fn a_chord_is_split_by_pitch(raws: Seq<Raw>, i: int, j: int)
    requires
        0 <= i < raws.len(),
        0 <= j < raws.len(),
    ensures
        split(raws).len() == raws.len(),
        split(raws)[i].group <= 3,
        split(raws)[i] == (Raw { group: split(raws)[i].group, ..raws[i] }),
        raws[i].start_tick == raws[j].start_tick && raws[i].midi < raws[j].midi ==> split(raws)[i].group
            < split(raws)[j].group || (split(raws)[i].group == 3 && split(raws)[j].group == 3),
        raws[i].start_tick == raws[j].start_tick && raws[i].midi == raws[j].midi && i < j ==> split(
            raws,
        )[i].group < split(raws)[j].group || (split(raws)[i].group == 3 && split(raws)[j].group == 3),
        (forall|k: int|
            0 <= k < raws.len() && k != i && raws[k].start_tick == raws[i].start_tick ==> (
            #[trigger] raws[k]).midi > raws[i].midi) ==> split(raws)[i].group == 0,
{
    if raws[i].start_tick == raws[j].start_tick && (raws[i].midi < raws[j].midi || (raws[i].midi
        == raws[j].midi && i < j)) {
        lemma_below(raws, i, j, raws.len());
    }
    if forall|k: int|
        0 <= k < raws.len() && k != i && raws[k].start_tick == raws[i].start_tick ==> (
        #[trigger] raws[k]).midi > raws[i].midi {
        lemma_nothing_below(raws, i, raws.len());
    }
}

/// Only a lone group is split.
pub proof fn only_a_lone_group_is_split(raws: Seq<Raw>)
    requires
        raws.len() > 0,
    ensures
        (forall|i: int| 0 <= i < raws.len() ==> (#[trigger] raws[i]).group == 0) ==> voiced(raws) == split(
            raws,
        ),
        (exists|i: int| 0 <= i < raws.len() && (#[trigger] raws[i]).group != 0) ==> voiced(raws) == raws,
{
    if forall|i: int| 0 <= i < raws.len() ==> (#[trigger] raws[i]).group == 0 {
        lemma_lone(raws);
    } else {
        let i = choose|i: int| 0 <= i < raws.len() && (#[trigger] raws[i]).group != 0;
        lemma_counted(raws, i);
    }
}

proof fn lemma_lone(raws: Seq<Raw>)
    requires
        forall|i: int| 0 <= i < raws.len() ==> (#[trigger] raws[i]).group == 0,
    ensures
        group_count(raws) == 1,
    decreases raws.len(),
{
    if raws.len() > 0 {
        assert(raws[raws.len() - 1].group == 0);
        assert forall|i: int| 0 <= i < raws.drop_last().len() implies (
        #[trigger] raws.drop_last()[i]).group == 0 by {
            assert(raws.drop_last()[i] == raws[i]);
        }
        lemma_lone(raws.drop_last());
    }
}

proof fn lemma_no_higher(raws: Seq<Raw>, group: usize, most: nat)
    requires
        forall|i: int|
            0 <= i < raws.len() && (#[trigger] raws[i]).group == group ==> raws[i].midi <= most,
    ensures
        pitch_sum(raws, group) <= most * note_count(raws, group),
    decreases raws.len(),
{
    if raws.len() > 0 {
        let rest = raws.drop_last();
        assert forall|i: int| 0 <= i < rest.len() && (#[trigger] rest[i]).group == group implies rest[i].midi
            <= most by {
            assert(rest[i] == raws[i]);
        }
        lemma_no_higher(rest, group, most);
        assert(raws[raws.len() - 1] == raws.last());
        let n = note_count(rest, group);
        assert(most * (n + 1) == most * n + most) by (nonlinear_arith);
    }
}

proof fn lemma_no_lower(raws: Seq<Raw>, group: usize, least: nat)
    requires
        forall|i: int|
            0 <= i < raws.len() && (#[trigger] raws[i]).group == group ==> raws[i].midi >= least,
    ensures
        pitch_sum(raws, group) >= least * note_count(raws, group),
    decreases raws.len(),
{
    if raws.len() > 0 {
        let rest = raws.drop_last();
        assert forall|i: int| 0 <= i < rest.len() && (#[trigger] rest[i]).group == group implies rest[i].midi
            >= least by {
            assert(rest[i] == raws[i]);
        }
        lemma_no_lower(rest, group, least);
        assert(raws[raws.len() - 1] == raws.last());
        let n = note_count(rest, group);
        assert(least * (n + 1) == least * n + least) by (nonlinear_arith);
    } else {
        assert(least * 0 == 0) by (nonlinear_arith);
    }
}

proof fn lemma_means_are_ordered(raws: Seq<Raw>, a: usize, b: usize, c: usize)
    requires
        note_count(raws, a) > 0,
        note_count(raws, b) > 0,
        note_count(raws, c) > 0,
    ensures
        not_above(raws, a, b) || not_above(raws, b, a),
        not_above(raws, a, b) && not_above(raws, b, c) ==> not_above(raws, a, c),
{
    let (s, n) = (pitch_sum(raws, a) as int, note_count(raws, a) as int);
    let (t, m) = (pitch_sum(raws, b) as int, note_count(raws, b) as int);
    let (u, k) = (pitch_sum(raws, c) as int, note_count(raws, c) as int);
    if s * m <= t * n && t * k <= u * m {
        assert(s * m * k <= t * n * k) by (nonlinear_arith)
            requires
                s * m <= t * n,
                k > 0,
        ;
        assert(t * k * n <= u * m * n) by (nonlinear_arith)
            requires
                t * k <= u * m,
                n > 0,
        ;
        assert(s * k <= u * n) by (nonlinear_arith)
            requires
                s * m * k <= t * n * k,
                t * k * n <= u * m * n,
                m > 0,
        ;
    }
}

proof fn lemma_place_by_pitch(raws: Seq<Raw>, order: Seq<usize>, group: usize, k: int)
    requires
        note_count(raws, group) > 0,
        forall|i: int| 0 <= i < order.len() ==> note_count(raws, #[trigger] order[i]) > 0,
        forall|i: int, j: int|
            0 <= i < j < order.len() ==> not_above(raws, #[trigger] order[i], #[trigger] order[j]),
        0 <= k < order.len(),
    ensures
        0 <= pitch_place(raws, order, group) <= order.len(),
        k < pitch_place(raws, order, group) ==> not_above(raws, order[k], group),
        k >= pitch_place(raws, order, group) ==> not_above(raws, group, order[k]),
    decreases order.len(),
{
    let last = order.len() - 1;
    lemma_pitch_place(raws, order, group);
    if not_above(raws, order.last(), group) {
        assert(order[last] == order.last());
        if k < last {
            lemma_means_are_ordered(raws, order[k], order[last], group);
        }
    } else {
        let rest = order.drop_last();
        lemma_pitch_place(raws, rest, group);
        lemma_means_are_ordered(raws, group, order[last], group);
        if k < last {
            assert(rest[k] == order[k]);
            assert forall|i: int| 0 <= i < rest.len() implies note_count(raws, #[trigger] rest[i]) > 0 by {
                assert(rest[i] == order[i]);
            }
            assert forall|i: int, j: int| 0 <= i < j < rest.len() implies not_above(
                raws,
                #[trigger] rest[i],
                #[trigger] rest[j],
            ) by {
                assert(rest[i] == order[i] && rest[j] == order[j]);
            }
            lemma_place_by_pitch(raws, rest, group, k);
        }
    }
}

proof fn lemma_in_order(raws: Seq<Raw>, n: nat)
    requires
        n <= usize::MAX,
    ensures
        forall|i: int, j: int|
            0 <= i < j < by_pitch(raws, n).len() ==> not_above(
                raws,
                #[trigger] by_pitch(raws, n)[i],
                #[trigger] by_pitch(raws, n)[j],
            ),
        forall|i: int|
            0 <= i < by_pitch(raws, n).len() ==> (#[trigger] by_pitch(raws, n)[i]) < n && note_count(
                raws,
                by_pitch(raws, n)[i],
            ) > 0,
        by_pitch(raws, n).no_duplicates(),
        by_pitch(raws, n).len() <= n,
        forall|g: usize| g < n && note_count(raws, g) > 0 ==> by_pitch(raws, n).contains(g),
    decreases n,
{
    if n > 0 {
        let before = by_pitch(raws, (n - 1) as nat);
        let group = (n - 1) as usize;
        lemma_in_order(raws, (n - 1) as nat);
        let after = by_pitch(raws, n);
        if note_count(raws, group) > 0 {
            let at = pitch_place(raws, before, group);
            lemma_pitch_place(raws, before, group);
            assert(after =~= before.insert(at, group));
            assert forall|i: int, j: int| 0 <= i < j < after.len() implies not_above(
                raws,
                #[trigger] after[i],
                #[trigger] after[j],
            ) by {
                if i < at && j == at {
                    lemma_place_by_pitch(raws, before, group, i);
                } else if i == at {
                    lemma_place_by_pitch(raws, before, group, j - 1);
                } else {
                    let a = if i < at {
                        i
                    } else {
                        i - 1
                    };
                    let b = if j < at {
                        j
                    } else {
                        j - 1
                    };
                    assert(after[i] == before[a] && after[j] == before[b]);
                }
            }
            assert forall|i: int| 0 <= i < after.len() implies (#[trigger] after[i]) < n && note_count(
                raws,
                after[i],
            ) > 0 by {
                if i != at {
                    assert(after[i] == before[if i < at {
                        i
                    } else {
                        i - 1
                    }]);
                }
            }
            assert forall|g: usize| g < n && note_count(raws, g) > 0 implies after.contains(g) by {
                if g == group {
                    assert(after[at] == g);
                } else {
                    assert(before.contains(g));
                    let k = choose|k: int| 0 <= k < before.len() && before[k] == g;
                    assert(after[if k < at {
                        k
                    } else {
                        k + 1
                    }] == g);
                }
            }
            assert(after.no_duplicates()) by {
                assert forall|i: int, j: int| 0 <= i < after.len() && 0 <= j < after.len() && i != j implies after[i]
                    != after[j] by {
                    let a = if i < at {
                        i
                    } else {
                        i - 1
                    };
                    let b = if j < at {
                        j
                    } else {
                        j - 1
                    };
                    if i != at {
                        assert(after[i] == before[a] && before[a] < n - 1);
                    }
                    if j != at {
                        assert(after[j] == before[b] && before[b] < n - 1);
                    }
                }
            }
        }
    }
}

/// Every group that has notes has one place in the order, no other has any, and whoever stands
/// earlier has no higher a mean pitch.
pub proof fn groups_stand_in_order_of_pitch(raws: Seq<Raw>, n: nat, g: usize, i: int, j: int)
    requires
        n <= usize::MAX,
        g < n,
        0 <= i < j < by_pitch(raws, n).len(),
    ensures
        by_pitch(raws, n).contains(g) <==> exists|k: int|
            0 <= k < raws.len() && (#[trigger] raws[k]).group == g,
        by_pitch(raws, n).no_duplicates(),
        pitch_sum(raws, by_pitch(raws, n)[i]) * note_count(raws, by_pitch(raws, n)[j]) <= pitch_sum(
            raws,
            by_pitch(raws, n)[j],
        ) * note_count(raws, by_pitch(raws, n)[i]),
{
    lemma_in_order(raws, n);
    lemma_has_notes(raws, g);
}

proof fn lemma_has_notes(raws: Seq<Raw>, g: usize)
    ensures
        note_count(raws, g) > 0 <==> exists|k: int| 0 <= k < raws.len() && (#[trigger] raws[k]).group == g,
    decreases raws.len(),
{
    if raws.len() > 0 {
        let rest = raws.drop_last();
        lemma_has_notes(rest, g);
        if exists|k: int| 0 <= k < rest.len() && (#[trigger] rest[k]).group == g {
            let k = choose|k: int| 0 <= k < rest.len() && (#[trigger] rest[k]).group == g;
            assert(raws[k].group == g);
        }
        if raws.last().group == g {
            assert(raws[raws.len() - 1].group == g);
        }
        if exists|k: int| 0 <= k < raws.len() && (#[trigger] raws[k]).group == g {
            let k = choose|k: int| 0 <= k < raws.len() && (#[trigger] raws[k]).group == g;
            if k < raws.len() - 1 {
                assert(rest[k].group == g);
            }
        }
    }
}

/// The lowest group of notes comes first: a group whose every note lies below another's every note
/// stands before it.
pub proof fn lower_voices_come_first(raws: Seq<Raw>, n: nat, i: int, j: int, between: u8)
    requires
        n <= usize::MAX,
        0 <= i < by_pitch(raws, n).len(),
        0 <= j < by_pitch(raws, n).len(),
        forall|k: int|
            0 <= k < raws.len() && (#[trigger] raws[k]).group == by_pitch(raws, n)[i] ==> raws[k].midi
                < between,
        forall|k: int|
            0 <= k < raws.len() && (#[trigger] raws[k]).group == by_pitch(raws, n)[j] ==> raws[k].midi
                >= between,
    ensures
        i < j,
{
    lemma_in_order(raws, n);
    let (a, b) = (by_pitch(raws, n)[i], by_pitch(raws, n)[j]);
    let (s, c) = (pitch_sum(raws, a), note_count(raws, a));
    let (t, d) = (pitch_sum(raws, b), note_count(raws, b));
    lemma_has_notes(raws, a);
    assert(between > 0);
    lemma_no_higher(raws, a, (between - 1) as nat);
    lemma_no_lower(raws, b, between as nat);
    assert(s * d < t * c) by (nonlinear_arith)
        requires
            s <= (between - 1) * c,
            t >= between * d,
            c > 0,
            d > 0,
            between > 0,
    ;
    if i > j {
        assert(not_above(raws, b, a));
    }
    if i == j {
        assert(s * d == t * c);
    }
}

/// The four lowest groups sing, in order of pitch, and where there are more that is said.
pub proof fn the_four_lowest_sing(raws: Seq<Raw>)
    ensures
        ({
            let order = by_pitch(raws, group_count(raws));
            &&& sung_order(raws).is_prefix_of(order)
            &&& order.len() <= 4 ==> sung_order(raws).len() == order.len() && left_out(raws).len() == 0
            &&& order.len() > 4 ==> sung_order(raws).len() == 4 && left_out(raws).len() == 1
            &&& order.len() > 4 ==> left_out(raws)[0] == decimal((order.len() - 4) as nat)
                + " voices past the first four (a duck chorale has four parts)"@
        }),
{
}

proof fn lemma_nobody_named(order: Seq<usize>, names: Seq<Seq<char>>, n: nat)
    requires
        n <= order.len(),
        forall|g: int| 0 <= g < names.len() ==> part_in(#[trigger] names[g]) is None,
    ensures
        claims(order, names, n).0.len() == n,
        claims(order, names, n).1 == Set::<Part>::empty(),
        forall|k: int| 0 <= k < n ==> (#[trigger] claims(order, names, n).0[k]) is None,
        forall|k: nat| k <= n ==> #[trigger] unnamed(claims(order, names, n).0, k) == k,
    decreases n,
{
    if n > 0 {
        lemma_nobody_named(order, names, (n - 1) as nat);
        let group = order[n - 1];
        if group < names.len() {
            assert(part_in(names[group as int]) is None);
        }
        let claimed = claims(order, names, n).0;
        assert forall|k: nat| k <= n implies #[trigger] unnamed(claimed, k) == k by {
            lemma_all_unnamed(claimed, k);
        }
    } else {
        assert(unnamed(claims(order, names, 0).0, 0) == 0);
    }
}

proof fn lemma_all_unnamed(claimed: Seq<Option<Part>>, n: nat)
    requires
        n <= claimed.len(),
        forall|k: int| 0 <= k < n ==> (#[trigger] claimed[k]) is None,
    ensures
        unnamed(claimed, n) == n,
    decreases n,
{
    if n > 0 {
        lemma_all_unnamed(claimed, (n - 1) as nat);
        assert(claimed[n - 1] is None);
    }
}

proof fn lemma_nothing_taken(parts: Seq<Part>)
    ensures
        unclaimed(parts, Set::empty()) == parts,
    decreases parts.len(),
{
    if parts.len() > 0 {
        lemma_nothing_taken(parts.drop_last());
        assert(parts.drop_last().push(parts.last()) =~= parts);
    } else {
        assert(parts =~= Seq::empty());
    }
}

/// Where no name says otherwise, the parts go by pitch: the lowest group sings the lowest part of an
/// ensemble of that size, the next the next, and so on up.
pub proof fn without_names_parts_go_by_pitch(order: Seq<usize>, names: Seq<Seq<char>>, k: int)
    requires
        0 <= k < order.len() <= 4,
        forall|g: int| 0 <= g < names.len() ==> part_in(#[trigger] names[g]) is None,
    ensures
        seats(order, names).len() == order.len(),
        seats(order, names)[k] == (Seat {
            group: order[k],
            part: Part::ensemble_parts(order.len())[k],
            why: Why::ByPitch,
        }),
{
    let n = order.len();
    lemma_nobody_named(order, names, n);
    lemma_nothing_taken(Part::ensemble_parts(n));
    let claimed = claims(order, names, n).0;
    assert(unnamed(claimed, k as nat) == k);
    assert(claimed[k] is None);
}

/// The name of a part anywhere in a track's name is that part, whatever its case. `soprano` counts
/// first, `sop` only where no other part is named.
pub proof fn what_names_a_part(name: Seq<char>)
    ensures
        ({
            let lower = ascii_lowered(name);
            let soprano = contains_text(lower, "soprano"@);
            let tenor = contains_text(lower, "tenor"@);
            let alto = contains_text(lower, "alto"@);
            let bass = contains_text(lower, "bass"@);
            let sop = contains_text(lower, "sop"@);
            &&& part_in(name) == Some(Part::Soprano) <==> soprano || (sop && !tenor && !alto && !bass)
            &&& part_in(name) == Some(Part::Tenor) <==> tenor && !soprano
            &&& part_in(name) == Some(Part::Alto) <==> alto && !soprano && !tenor
            &&& part_in(name) == Some(Part::Bass) <==> bass && !soprano && !tenor && !alto
        }),
{
}

/// The harder a note is struck the louder it is sung, from barely audible to full level; from fifteen
/// to a hundred the dynamic is the velocity itself.
pub proof fn harder_is_louder(velocity: u8, harder: u8)
    ensures
        15 <= struck_level(velocity) <= 100,
        velocity <= harder ==> struck_level(velocity) <= struck_level(harder),
        15 <= velocity <= 100 ==> struck_level(velocity) == velocity,
{
}

/// A note is sung when it was played and as long as it was played, at its pitch, on `ah`.
pub proof fn a_note_is_sung_as_it_was_played(raw: Raw, part: Part)
    requires
        raw.start_tick <= raw.end_tick,
    ensures
        sung(raw, part).part == part,
        sung(raw, part).start == raw.start_tick,
        sung(raw, part).start + sung(raw, part).length == raw.end_tick,
        sung(raw, part).midi == raw.midi,
        sung(raw, part).level == struck_level(raw.velocity),
        sung(raw, part).vowel == Vowel::Ah,
{
}

proof fn lemma_sung_by_all(raws: Seq<Raw>, seat: Seat)
    ensures
        sung_by(raws, seat).len() == note_count(raws, seat.group),
        forall|i: int|
            0 <= i < raws.len() && (#[trigger] raws[i]).group == seat.group ==> sung_by(raws, seat).contains(
                sung(raws[i], seat.part),
            ),
        forall|m: int|
            0 <= m < sung_by(raws, seat).len() ==> exists|i: int|
                0 <= i < raws.len() && (#[trigger] raws[i]).group == seat.group && (#[trigger] sung_by(
                    raws,
                    seat,
                )[m]) == sung(raws[i], seat.part),
    decreases raws.len(),
{
    if raws.len() > 0 {
        let rest = raws.drop_last();
        let before = sung_by(rest, seat);
        let after = sung_by(raws, seat);
        lemma_sung_by_all(rest, seat);
        assert forall|i: int| 0 <= i < raws.len() && (#[trigger] raws[i]).group == seat.group implies after.contains(
            sung(raws[i], seat.part),
        ) by {
            if i < rest.len() {
                assert(rest[i] == raws[i]);
                let m = choose|m: int| 0 <= m < before.len() && before[m] == sung(rest[i], seat.part);
                assert(after[m] == sung(raws[i], seat.part));
            } else {
                assert(after[before.len() as int] == sung(raws[i], seat.part));
            }
        }
        assert forall|m: int| 0 <= m < after.len() implies exists|i: int|
            0 <= i < raws.len() && (#[trigger] raws[i]).group == seat.group && (#[trigger] after[m]) == sung(
                raws[i],
                seat.part,
            ) by {
            if m < before.len() {
                assert(after[m] == before[m]);
                let i = choose|i: int|
                    0 <= i < rest.len() && (#[trigger] rest[i]).group == seat.group && before[m] == sung(
                        rest[i],
                        seat.part,
                    );
                assert(rest[i] == raws[i]);
            } else {
                assert(raws[raws.len() - 1] == raws.last());
            }
        }
    }
}

/// Whether a note is one of a seated group's, sung by that group's part.
pub open spec fn comes_from(note: Note, raws: Seq<Raw>, all: Seq<Seat>) -> bool {
    exists|i: int, k: int|
        0 <= i < raws.len() && 0 <= k < all.len() && #[trigger] raws[i].group == #[trigger] all[k].group
            && note == sung(raws[i], all[k].part)
}

/// Every note of a seated group is sung, by the part that the group has, and nothing is sung that was
/// not played.
pub proof fn all_that_was_played_is_sung(raws: Seq<Raw>, all: Seq<Seat>, i: int, k: int, m: int)
    requires
        0 <= i < raws.len(),
        0 <= k < all.len(),
    ensures
        raws[i].group == all[k].group ==> all_sung(raws, all).contains(sung(raws[i], all[k].part)),
        0 <= m < all_sung(raws, all).len() ==> comes_from(all_sung(raws, all)[m], raws, all),
    decreases all.len(),
{
    let rest = all.drop_last();
    let before = all_sung(raws, rest);
    let last = sung_by(raws, all.last());
    let after = all_sung(raws, all);
    assert(after == before + last);
    lemma_sung_by_all(raws, all.last());
    if raws[i].group == all[k].group {
        let note = sung(raws[i], all[k].part);
        if k == all.len() - 1 {
            assert(last.contains(note));
            let j = choose|j: int| 0 <= j < last.len() && last[j] == note;
            assert(after[before.len() + j] == note);
        } else {
            all_that_was_played_is_sung(raws, rest, i, k, m);
            assert(rest[k] == all[k]);
            let j = choose|j: int| 0 <= j < before.len() && before[j] == note;
            assert(after[j] == note);
        }
    }
    if 0 <= m < after.len() {
        if m < before.len() {
            assert(rest.len() > 0);
            all_that_was_played_is_sung(raws, rest, i, 0, m);
            assert(after[m] == before[m]);
            let (a, b) = choose|a: int, b: int|
                0 <= a < raws.len() && 0 <= b < rest.len() && #[trigger] raws[a].group
                    == #[trigger] rest[b].group && before[m] == sung(raws[a], rest[b].part);
            assert(rest[b] == all[b]);
            assert(raws[a].group == all[b].group);
        } else {
            let at = m - before.len();
            assert(after[m] == last[at]);
            let a = choose|a: int|
                0 <= a < raws.len() && (#[trigger] raws[a]).group == all.last().group && last[at] == sung(
                    raws[a],
                    all.last().part,
                );
            assert(raws[a].group == all[all.len() - 1].group);
        }
    }
}

/// A file without a mark is sung at a hundred and twenty beats a minute, and one with a mark at as many
/// microseconds to the beat as it says, never none.
pub proof fn the_tempo_a_file_is_sung_at(heard: Heard)
    ensures
        heard.tempo is None ==> sung_tempo(heard).beats == 120 * sung_tempo(heard).per,
        heard.tempo matches Some(micros) ==> micros > 0 ==> sung_tempo(heard).per == micros,
        sung_tempo(heard).beats == 60_000_000,
        sung_tempo(heard).per > 0,
{
}

/// A track is called by the first name in it that says anything, without the white space around it,
/// and where none does by its number, counted from one.
pub proof fn the_first_name_counts(texts: Seq<Seq<char>>, track: usize, k: int)
    requires
        0 <= k <= texts.len(),
        forall|i: int| 0 <= i < k ==> trimmed(#[trigger] texts[i]).len() == 0,
    ensures
        k < texts.len() && trimmed(texts[k]).len() > 0 ==> name_of(texts, track) == trimmed(texts[k]),
        k == texts.len() ==> name_of(texts, track) == "track "@ + decimal((track + 1) as nat),
    decreases texts.len(),
{
    if k > 0 {
        assert(trimmed(texts[0]).len() == 0);
        let rest = texts.skip(1);
        assert forall|i: int| 0 <= i < k - 1 implies trimmed(#[trigger] rest[i]).len() == 0 by {
            assert(rest[i] == texts[i + 1]);
        }
        the_first_name_counts(rest, track, k - 1);
        if k < texts.len() {
            assert(rest[k - 1] == texts[k]);
        }
    }
}

proof fn lemma_casting_place(casting: Seq<(Part, Seq<char>)>, part: Part, k: int)
    requires
        forall|i: int, j: int|
            0 <= i < j < casting.len() ==> (#[trigger] casting[i]).0.rank() <= (
            #[trigger] casting[j]).0.rank(),
    ensures
        0 <= casting_place(casting, part) <= casting.len(),
        0 <= k < casting_place(casting, part) ==> casting[k].0.rank() <= part.rank(),
        casting_place(casting, part) <= k < casting.len() ==> casting[k].0.rank() > part.rank(),
    decreases casting.len(),
{
    if casting.len() > 0 {
        let last = casting.len() - 1;
        if casting.last().0.rank() <= part.rank() {
            if 0 <= k < last {
                assert(casting[k].0.rank() <= casting[last].0.rank());
            }
        } else {
            let rest = casting.drop_last();
            assert forall|i: int, j: int| 0 <= i < j < rest.len() implies (#[trigger] rest[i]).0.rank() <= (
            #[trigger] rest[j]).0.rank() by {
                assert(rest[i] == casting[i] && rest[j] == casting[j]);
            }
            lemma_casting_place(rest, part, k);
            if 0 <= k < last {
                assert(rest[k] == casting[k]);
            }
        }
    }
}

/// The casting lists the parts low to high, and says of every seat who sings it and why.
pub proof fn the_casting_lists_every_seat(all: Seq<Seat>, names: Seq<Seq<char>>)
    ensures
        casting_of(all, names).len() == all.len(),
        forall|i: int, j: int|
            0 <= i < j < all.len() ==> (#[trigger] casting_of(all, names)[i]).0.rank() <= (
            #[trigger] casting_of(all, names)[j]).0.rank(),
        forall|k: int|
            0 <= k < all.len() ==> casting_of(all, names).contains(
                ((#[trigger] all[k]).part, why_words(all[k], (k + 1) as nat, names)),
            ),
    decreases all.len(),
{
    if all.len() > 0 {
        let rest = all.drop_last();
        let before = casting_of(rest, names);
        let after = casting_of(all, names);
        the_casting_lists_every_seat(rest, names);
        let part = all.last().part;
        let line = (part, why_words(all.last(), all.len(), names));
        let at = casting_place(before, part);
        lemma_casting_place(before, part, 0);
        assert(after == before.insert(at, line));
        assert forall|i: int, j: int| 0 <= i < j < all.len() implies (#[trigger] after[i]).0.rank() <= (
        #[trigger] after[j]).0.rank() by {
            let a = if i < at {
                i
            } else {
                i - 1
            };
            let b = if j < at {
                j
            } else {
                j - 1
            };
            lemma_casting_place(before, part, a);
            lemma_casting_place(before, part, b);
            if i != at && j != at {
                assert(after[i] == before[a] && after[j] == before[b]);
            }
        }
        assert forall|k: int| 0 <= k < all.len() implies after.contains(
            ((#[trigger] all[k]).part, why_words(all[k], (k + 1) as nat, names)),
        ) by {
            if k < rest.len() {
                assert(rest[k] == all[k]);
                let want = (rest[k].part, why_words(rest[k], (k + 1) as nat, names));
                assert(before.contains(want));
                let m = choose|m: int| 0 <= m < before.len() && before[m] == want;
                assert(after[if m < at {
                    m
                } else {
                    m + 1
                }] == want);
            } else {
                assert(after[at] == line);
            }
        }
    }
}

/// What an import comes to: the file's ticks and first tempo, the notes of the groups that sing, and a
/// word of a tempo change and of voices that do not fit, and of nothing else.
pub proof fn what_an_import_says(
    import: Import,
    ticks: nat,
    heard: Heard,
    tracks: Seq<usize>,
    names: Seq<Seq<char>>,
)
    requires
        imported(import, ticks, heard, tracks, names),
    ensures
        import.score.name@ == "imported"@,
        import.score.ticks_per_beat == ticks,
        import.score.tempo == sung_tempo(heard),
        strings(import.tracks@) == names,
        ({
            let raws = voiced(heard.raws);
            let said = strings(import.dropped@);
            let many = by_pitch(raws, group_count(raws)).len() > 4;
            &&& said.len() == (if heard.retimed {
                1nat
            } else {
                0
            }) + (if many {
                1nat
            } else {
                0
            })
            &&& heard.retimed ==> said[0]
                == "a tempo change (the whole piece is sung at the first tempo)"@
        }),
{
}

} // verus!
