//! The score: per-part notes, and the tempo to read them at.
//!
//! A hand-written piece comes in as [`Gesture`]s and a notation editor's export comes in as
//! MIDI; only one of those has gestures to recover, so the two converge on plain notes here,
//! and everything downstream reads one thing.
//!
//! Time is counted in ticks, a fixed whole number of them to the beat, so positions add up
//! exactly and a note that ends where the next begins really does.

use crate::chorale::{Part, Voicing, Vowel};
use vstd::prelude::*;

verus! {

/// One part's note: which voice, when it enters, how long it holds.
#[derive(Debug, Clone, Copy, PartialEq, Eq, Structural)]
pub struct Note {
    pub part: Part,
    /// In ticks from the start of the piece.
    pub start: u64,
    /// In ticks.
    pub length: u64,
    pub midi: u8,
    /// How loud, in hundredths: one value per note, since a note is the smallest thing anyone
    /// marks.
    pub level: u8,
    /// What is being sung on it.
    pub vowel: Vowel,
}

impl Note {
    /// The tick at which it is over.
    pub open spec fn ends(self) -> int {
        self.start + self.length
    }

    pub fn end(&self) -> (tick: u64)
        requires
            self.ends() <= u64::MAX,
        ensures
            tick == self.ends(),
    {
        self.start + self.length
    }
}

/// One note of a solo line.
#[derive(Debug, Clone, Copy, PartialEq, Eq, Structural)]
pub struct SoloNote {
    pub midi: u8,
    /// In ticks.
    pub length: u64,
    pub vowel: Vowel,
}

/// A gesture a score is written in. Lengths are in ticks.
pub enum Gesture {
    /// Everyone together, one duration. The homophonic tread.
    Chord { voicing: Voicing, length: u64, vowel: Vowel, level: u8 },
    /// Voices enter one at a time, `stagger` apart, and each holds to the end of the gesture,
    /// so the chord *assembles* and is then sustained whole.
    Build {
        voicing: Voicing,
        length: u64,
        stagger: u64,
        /// Enter from the top voice down instead of the bass up.
        from_top: bool,
        vowel: Vowel,
        level: u8,
    },
    /// One voice moves while the others hold a chord under it, for as long as the line lasts.
    /// Parts left `None` in `under` are silent for it.
    Solo { part: Part, notes: Vec<SoloNote>, under: Voicing, under_vowel: Vowel, level: u8 },
    /// Silence for everyone: a breath, and the thing that makes the chord after it land.
    Rest { length: u64 },
}

/// How long a solo line lasts.
pub open spec fn line_ticks(line: Seq<SoloNote>) -> nat
    decreases line.len(),
{
    if line.len() == 0 {
        0
    } else {
        line_ticks(line.drop_last()) + line.last().length as nat
    }
}

/// What a gesture says.
#[verifier::ext_equal]
pub enum Phrase {
    Chord { voicing: Seq<Option<u8>>, length: u64, vowel: Vowel, level: u8 },
    Build {
        voicing: Seq<Option<u8>>,
        length: u64,
        stagger: u64,
        from_top: bool,
        vowel: Vowel,
        level: u8,
    },
    Solo {
        part: Part,
        notes: Seq<SoloNote>,
        under: Seq<Option<u8>>,
        under_vowel: Vowel,
        level: u8,
    },
    Rest { length: u64 },
}

impl View for Gesture {
    type V = Phrase;

    open spec fn view(&self) -> Phrase {
        match *self {
            Gesture::Chord { voicing, length, vowel, level } => Phrase::Chord {
                voicing: voicing@,
                length,
                vowel,
                level,
            },
            Gesture::Build { voicing, length, stagger, from_top, vowel, level } => Phrase::Build {
                voicing: voicing@,
                length,
                stagger,
                from_top,
                vowel,
                level,
            },
            Gesture::Solo { part, notes, under, under_vowel, level } => Phrase::Solo {
                part,
                notes: notes@,
                under: under@,
                under_vowel,
                level,
            },
            Gesture::Rest { length } => Phrase::Rest { length },
        }
    }
}

/// What a run of gestures says.
pub open spec fn phrases(gestures: Seq<Gesture>) -> Seq<Phrase> {
    Seq::new(gestures.len(), |i: int| gestures[i]@)
}

impl Phrase {
    /// How many ticks it occupies.
    pub open spec fn ticks(self) -> nat {
        match self {
            Phrase::Chord { length, .. } => length as nat,
            Phrase::Build { length, .. } => length as nat,
            Phrase::Solo { notes, .. } => line_ticks(notes),
            Phrase::Rest { length } => length as nat,
        }
    }

    /// Whether it can be sung at all: nothing in it lasts no time.
    pub open spec fn singable(self) -> bool {
        match self {
            Phrase::Chord { length, .. } => length > 0,
            Phrase::Build { length, .. } => length > 0,
            Phrase::Solo { notes, .. } => notes.len() > 0 && forall|i: int|
                0 <= i < notes.len() ==> (#[trigger] notes[i]).length > 0,
            Phrase::Rest { length } => length > 0,
        }
    }
}

impl Gesture {
    /// How many ticks this gesture occupies; nothing where that cannot be counted.
    pub fn beats(&self) -> (ticks: Option<u64>)
        ensures
            ticks is Some <==> self@.ticks() <= u64::MAX,
            ticks is Some ==> ticks->0 == self@.ticks(),
    {
        match self {
            Gesture::Chord { length, .. } => Some(*length),
            Gesture::Build { length, .. } => Some(*length),
            Gesture::Rest { length } => Some(*length),
            Gesture::Solo { notes, .. } => {
                let mut sum: u64 = 0;
                let mut at: usize = 0;
                while at < notes.len()
                    invariant
                        at <= notes@.len(),
                        self@.ticks() == line_ticks(notes@),
                        sum == line_ticks(notes@.take(at as int)),
                    decreases notes@.len() - at,
                {
                    proof {
                        let next = notes@.take(at + 1);
                        assert(next.drop_last() =~= notes@.take(at as int));
                        lemma_line_grows(notes@, at + 1);
                    }
                    let length: u64 = notes[at].length;
                    if length > u64::MAX - sum {
                        return None;
                    }
                    sum = sum + length;
                    at = at + 1;
                }
                proof {
                    assert(notes@.take(at as int) =~= notes@);
                }
                Some(sum)
            },
        }
    }
}

proof fn lemma_line_grows(line: Seq<SoloNote>, k: int)
    requires
        0 <= k <= line.len(),
    ensures
        line_ticks(line.take(k)) <= line_ticks(line),
    decreases line.len() - k,
{
    if k < line.len() {
        lemma_line_grows(line, k + 1);
        assert(line.take(k + 1).drop_last() =~= line.take(k));
    } else {
        assert(line.take(k) =~= line);
    }
}

/// How long a run of gestures lasts.
pub open spec fn total_ticks(gestures: Seq<Phrase>) -> nat
    decreases gestures.len(),
{
    if gestures.len() == 0 {
        0
    } else {
        total_ticks(gestures.drop_last()) + gestures.last().ticks()
    }
}

/// One voice of a chord.
pub open spec fn voice(rank: int, at: int, length: int, midi: u8, vowel: Vowel, level: u8) -> Note {
    Note { part: Part::ranked(rank), start: at as u64, length: length as u64, midi, level, vowel }
}

/// The notes of a held chord, for the lowest `voices` voices, leaving out the part `except`.
pub open spec fn held_chord(
    voicing: Seq<Option<u8>>,
    at: int,
    length: int,
    vowel: Vowel,
    level: u8,
    except: Option<Part>,
    voices: nat,
) -> Seq<Note>
    decreases voices,
{
    if voices == 0 {
        Seq::empty()
    } else {
        let below = held_chord(voicing, at, length, vowel, level, except, (voices - 1) as nat);
        match voicing[voices - 1] {
            Some(midi) if except != Some(Part::ranked(voices - 1)) => below.push(
                voice(voices - 1, at, length, midi, vowel, level),
            ),
            _ => below,
        }
    }
}

/// Which voice enters at a step of a build.
pub open spec fn entering(step: int, from_top: bool) -> int {
    if from_top {
        3 - step
    } else {
        step
    }
}

/// The notes of the first `steps` entries of a build, and how many voices have had their turn.
/// A voice whose turn comes after the gesture is over does not get in.
pub open spec fn build_entries(
    voicing: Seq<Option<u8>>,
    at: int,
    length: int,
    stagger: int,
    from_top: bool,
    vowel: Vowel,
    level: u8,
    steps: nat,
) -> (Seq<Note>, nat)
    decreases steps,
{
    if steps == 0 {
        (Seq::empty(), 0)
    } else {
        let (notes, seats) = build_entries(
            voicing,
            at,
            length,
            stagger,
            from_top,
            vowel,
            level,
            (steps - 1) as nat,
        );
        let rank = entering(steps - 1, from_top);
        let offset = seats * stagger;
        match voicing[rank] {
            None => (notes, seats),
            Some(midi) => if offset < length {
                (notes.push(voice(rank, at + offset, length - offset, midi, vowel, level)), seats + 1)
            } else {
                (notes, seats + 1)
            },
        }
    }
}

/// The notes of a solo line.
pub open spec fn solo_line(line: Seq<SoloNote>, part: Part, at: int, level: u8) -> Seq<Note>
    decreases line.len(),
{
    if line.len() == 0 {
        Seq::empty()
    } else {
        let before = line.drop_last();
        let note = line.last();
        solo_line(before, part, at, level).push(
            Note {
                part,
                start: (at + line_ticks(before)) as u64,
                length: note.length,
                midi: note.midi,
                level,
                vowel: note.vowel,
            },
        )
    }
}

/// The notes a gesture that starts at tick `at` compiles to.
pub open spec fn gesture_notes(gesture: Phrase, at: int) -> Seq<Note> {
    match gesture {
        Phrase::Chord { voicing, length, vowel, level } => held_chord(
            voicing,
            at,
            length as int,
            vowel,
            level,
            None,
            4,
        ),
        Phrase::Build { voicing, length, stagger, from_top, vowel, level } => build_entries(
            voicing,
            at,
            length as int,
            stagger as int,
            from_top,
            vowel,
            level,
            4,
        ).0,
        Phrase::Solo { part, notes, under, under_vowel, level } => held_chord(
            under,
            at,
            line_ticks(notes) as int,
            under_vowel,
            level,
            Some(part),
            4,
        ) + solo_line(notes, part, at, level),
        Phrase::Rest { .. } => Seq::empty(),
    }
}

/// The notes of a run of gestures, in the order they are written.
pub open spec fn compiled(gestures: Seq<Phrase>) -> Seq<Note>
    decreases gestures.len(),
{
    if gestures.len() == 0 {
        Seq::empty()
    } else {
        let before = gestures.drop_last();
        compiled(before) + gesture_notes(gestures.last(), total_ticks(before) as int)
    }
}

/// Whether `a` may stand before `b` in a score: by part, then by start.
pub open spec fn precedes(a: Note, b: Note) -> bool {
    a.part.rank() < b.part.rank() || (a.part == b.part && a.start <= b.start)
}

fn may_precede(a: &Note, b: &Note) -> (before: bool)
    ensures
        before == precedes(*a, *b),
{
    a.part.index() < b.part.index() || (a.part == b.part && a.start <= b.start)
}

/// Where a note belongs among notes already in order: behind every note it need not precede.
pub open spec fn place(notes: Seq<Note>, note: Note) -> int
    decreases notes.len(),
{
    if notes.len() == 0 || precedes(notes.last(), note) {
        notes.len() as int
    } else {
        place(notes.drop_last(), note)
    }
}

/// The notes put in order one by one; notes that tie keep the order they came in.
pub open spec fn in_order(notes: Seq<Note>) -> Seq<Note>
    decreases notes.len(),
{
    if notes.len() == 0 {
        notes
    } else {
        let before = in_order(notes.drop_last());
        before.insert(place(before, notes.last()), notes.last())
    }
}

/// How far a note begins from where another ends.
pub open spec fn distance(previous: Note, note: Note) -> int {
    if note.start < previous.ends() {
        previous.ends() - note.start
    } else {
        note.start - previous.ends()
    }
}

/// Whether a note carries straight on from the one before it: the same voice on the same pitch
/// and vowel, without a gap. What is less than a millionth of a beat is no gap but rounding. The
/// dynamic plays no role: a mark over a sounding note is a crescendo, and re-attacking the note
/// would be the one thing a crescendo is not.
pub open spec fn carries_on(previous: Note, note: Note, per_beat: u64) -> bool {
    &&& previous.part == note.part
    &&& previous.midi == note.midi
    &&& previous.vowel == note.vowel
    &&& 1_000_000 * distance(previous, note) < per_beat
}

/// Two notes sung as one. It keeps the dynamic it began on.
pub open spec fn merged(previous: Note, note: Note) -> Note {
    Note { length: (previous.length + note.length) as u64, ..previous }
}

/// A note that is over by some tick at the latest.
pub open spec fn cut(note: Note, at: u64) -> Note {
    if note.ends() > at {
        Note { length: (at - note.start) as u64, ..note }
    } else {
        note
    }
}

/// A line with one more note. One voice sings one note at a time, so the note before it is cut
/// where it begins; of two notes that begin together on different pitches, the one that came first
/// stays. A note that carries on from the one before it is tied to it.
pub open spec fn joined(line: Seq<Note>, note: Note, per_beat: u64) -> Seq<Note> {
    if line.len() == 0 || line.last().part != note.part {
        line.push(note)
    } else {
        let last = cut(line.last(), note.start);
        if carries_on(last, note, per_beat) {
            line.drop_last().push(merged(last, note))
        } else if line.last().start == note.start && line.last().length > 0 {
            line
        } else {
            line.drop_last().push(last).push(note)
        }
    }
}

/// The notes with every overlap cut and every tie merged.
pub open spec fn tied(notes: Seq<Note>, per_beat: u64) -> Seq<Note>
    decreases notes.len(),
{
    if notes.len() == 0 {
        notes
    } else {
        joined(tied(notes.drop_last(), per_beat), notes.last(), per_beat)
    }
}

/// Whether each note is over before the next one of its part begins.
pub open spec fn apart(notes: Seq<Note>) -> bool {
    forall|i: int, j: int|
        0 <= i && j == i + 1 && j < notes.len() && notes[i].part == notes[j].part ==> (
        #[trigger] notes[i]).ends() <= (#[trigger] notes[j]).start
}

/// Whether no note carries on from its neighbour.
pub open spec fn distinct(notes: Seq<Note>, per_beat: u64) -> bool {
    forall|i: int, j: int|
        0 <= i && j == i + 1 && j < notes.len() ==> !carries_on(
            #[trigger] notes[i],
            #[trigger] notes[j],
            per_beat,
        )
}

/// Whether every note of a list ends where it can be counted.
pub open spec fn countable(notes: Seq<Note>) -> bool {
    forall|i: int| 0 <= i < notes.len() ==> (#[trigger] notes[i]).ends() <= u64::MAX
}

/// Whether a list is in score order.
pub open spec fn ordered(notes: Seq<Note>) -> bool {
    forall|i: int, j: int| 0 <= i <= j < notes.len() ==> precedes(notes[i], notes[j])
}

proof fn lemma_place(notes: Seq<Note>, note: Note)
    ensures
        0 <= place(notes, note) <= notes.len(),
        forall|i: int| place(notes, note) <= i < notes.len() ==> !precedes(notes[i], note),
        place(notes, note) > 0 ==> precedes(notes[place(notes, note) - 1], note),
    decreases notes.len(),
{
    if notes.len() > 0 && !precedes(notes.last(), note) {
        lemma_place(notes.drop_last(), note);
        assert forall|i: int| place(notes, note) <= i < notes.len() implies !precedes(
            notes[i],
            note,
        ) by {
            if i < notes.len() - 1 {
                assert(notes.drop_last()[i] == notes[i]);
            }
        }
    }
}

proof fn lemma_in_order(notes: Seq<Note>)
    ensures
        ordered(in_order(notes)),
        in_order(notes).len() == notes.len(),
        in_order(notes).to_multiset() == notes.to_multiset(),
        countable(notes) ==> countable(in_order(notes)),
    decreases notes.len(),
{
    broadcast use vstd::seq_lib::group_to_multiset_ensures;

    if notes.len() > 0 {
        let rest = notes.drop_last();
        let note = notes.last();
        lemma_in_order(rest);
        let before = in_order(rest);
        let at = place(before, note);
        lemma_place(before, note);
        let now = before.insert(at, note);
        assert(now =~= in_order(notes));
        assert forall|i: int, j: int| 0 <= i <= j < now.len() implies precedes(now[i], now[j]) by {
            if i < at {
                assert(now[i] == before[i]);
                assert(precedes(before[i], before[at - 1]));
                if j > at {
                    assert(now[j] == before[j - 1]);
                } else if j < at {
                    assert(now[j] == before[j]);
                }
            } else if i == at {
                if j > at {
                    assert(now[j] == before[j - 1]);
                }
            } else {
                assert(now[i] == before[i - 1]);
                assert(now[j] == before[j - 1]);
            }
        }
        assert(notes =~= rest.push(note));
        if countable(notes) {
            assert forall|i: int| 0 <= i < rest.len() implies (#[trigger] rest[i]).ends() <= u64::MAX by {
                assert(rest[i] == notes[i]);
            }
            assert forall|i: int| 0 <= i < now.len() implies (#[trigger] now[i]).ends() <= u64::MAX by {
                if i < at {
                    assert(now[i] == before[i]);
                } else if i > at {
                    assert(now[i] == before[i - 1]);
                }
            }
        }
    }
}

proof fn lemma_countable_prefix(notes: Seq<Note>)
    requires
        notes.len() > 0,
        ordered(notes),
        countable(notes),
    ensures
        ordered(notes.drop_last()),
        countable(notes.drop_last()),
        notes.last().ends() <= u64::MAX,
{
    let rest = notes.drop_last();
    assert forall|i: int| 0 <= i < rest.len() implies (#[trigger] rest[i]).ends() <= u64::MAX by {
        assert(rest[i] == notes[i]);
    }
    assert(notes[notes.len() - 1].ends() <= u64::MAX);
}

/// What cutting overlaps and merging ties leave of a list in order: a list in order, in which no
/// note reaches into the next of its part or carries on from its neighbour.
proof fn lemma_tied(notes: Seq<Note>, per_beat: u64)
    requires
        ordered(notes),
        countable(notes),
    ensures
        ordered(tied(notes, per_beat)),
        countable(tied(notes, per_beat)),
        apart(tied(notes, per_beat)),
        distinct(tied(notes, per_beat), per_beat),
        tied(notes, per_beat).len() <= notes.len(),
        notes.len() > 0 ==> {
            &&& tied(notes, per_beat).len() > 0
            &&& tied(notes, per_beat).last().part == notes.last().part
            &&& tied(notes, per_beat).last().start <= notes.last().start
        },
    decreases notes.len(),
{
    if notes.len() > 0 {
        let rest = notes.drop_last();
        let note = notes.last();
        lemma_countable_prefix(notes);
        lemma_tied(rest, per_beat);
        let before = tied(rest, per_beat);
        let now = tied(notes, per_beat);
        assert(now == joined(before, note, per_beat));
        if before.len() > 0 {
            let end = before.len() - 1;
            assert(precedes(notes[notes.len() - 2], note));
            assert(rest.last() == notes[notes.len() - 2]);
            assert(precedes(before.last(), note));
            assert(before[end].ends() <= u64::MAX);
            let last = cut(before.last(), note.start);
            assert forall|i: int, j: int| 0 <= i <= j < now.len() implies precedes(now[i], now[j]) by {
                let oi = if i < end {
                    i
                } else {
                    end as int
                };
                let oj = if j < end {
                    j
                } else {
                    end as int
                };
                assert(precedes(before[oi], before[oj]));
                assert(precedes(before[oi], before[end]));
            }
            assert forall|i: int| 0 <= i < now.len() implies (#[trigger] now[i]).ends() <= u64::MAX by {
                if i < end {
                    assert(now[i] == before[i]);
                }
            }
            assert forall|i: int, j: int|
                0 <= i && j == i + 1 && j < now.len() && now[i].part == now[j].part implies (
            #[trigger] now[i]).ends() <= (#[trigger] now[j]).start by {
                if i < end {
                    assert(now[i] == before[i]);
                    assert(before[i].part == before[j].part);
                    assert(before[i].ends() <= before[j].start);
                }
            }
            assert forall|i: int, j: int| 0 <= i && j == i + 1 && j < now.len() implies !carries_on(
                #[trigger] now[i],
                #[trigger] now[j],
                per_beat,
            ) by {
                if i < end {
                    assert(now[i] == before[i]);
                    assert(!carries_on(before[i], before[j], per_beat));
                }
            }
        }
    }
}

proof fn lemma_total_grows(gestures: Seq<Phrase>, k: int)
    requires
        0 <= k <= gestures.len(),
    ensures
        total_ticks(gestures.take(k)) <= total_ticks(gestures),
    decreases gestures.len() - k,
{
    if k < gestures.len() {
        lemma_total_grows(gestures, k + 1);
        assert(gestures.take(k + 1).drop_last() =~= gestures.take(k));
    } else {
        assert(gestures.take(k) =~= gestures);
    }
}

fn push_chord(
    notes: &mut Vec<Note>,
    voicing: &Voicing,
    at: u64,
    length: u64,
    vowel: Vowel,
    level: u8,
    except: Option<Part>,
)
    ensures
        final(notes)@ == old(notes)@ + held_chord(
            voicing@,
            at as int,
            length as int,
            vowel,
            level,
            except,
            4,
        ),
{
    let mut rank: usize = 0;
    proof {
        assert(notes@ =~= old(notes)@ + Seq::<Note>::empty());
    }
    while rank < 4
        invariant
            rank <= 4,
            notes@ == old(notes)@ + held_chord(
                voicing@,
                at as int,
                length as int,
                vowel,
                level,
                except,
                rank as nat,
            ),
        decreases 4 - rank,
    {
        let ghost before = notes@;
        let part = Part::at(rank);
        let left_out = match except {
            None => false,
            Some(p) => p == part,
        };
        match voicing[rank] {
            Some(midi) => {
                if !left_out {
                    notes.push(Note { part, start: at, length, midi, level, vowel });
                }
            },
            None => {},
        }
        rank = rank + 1;
        proof {
            assert(notes@ =~= old(notes)@ + held_chord(
                voicing@,
                at as int,
                length as int,
                vowel,
                level,
                except,
                rank as nat,
            ));
        }
    }
}

fn push_build(
    notes: &mut Vec<Note>,
    voicing: &Voicing,
    at: u64,
    length: u64,
    stagger: u64,
    from_top: bool,
    vowel: Vowel,
    level: u8,
)
    requires
        at + length <= u64::MAX,
    ensures
        final(notes)@ == old(notes)@ + build_entries(
            voicing@,
            at as int,
            length as int,
            stagger as int,
            from_top,
            vowel,
            level,
            4,
        ).0,
{
    let mut step: usize = 0;
    let mut seats: u128 = 0;
    proof {
        assert(notes@ =~= old(notes)@ + Seq::<Note>::empty());
    }
    while step < 4
        invariant
            step <= 4,
            at + length <= u64::MAX,
            seats <= step,
            (notes@, seats as nat) == (
                old(notes)@ + build_entries(
                    voicing@,
                    at as int,
                    length as int,
                    stagger as int,
                    from_top,
                    vowel,
                    level,
                    step as nat,
                ).0,
                build_entries(
                    voicing@,
                    at as int,
                    length as int,
                    stagger as int,
                    from_top,
                    vowel,
                    level,
                    step as nat,
                ).1,
            ),
        decreases 4 - step,
    {
        let rank: usize = if from_top {
            3 - step
        } else {
            step
        };
        match voicing[rank] {
            Some(midi) => {
                proof {
                    assert(seats * stagger <= 4 * u64::MAX) by (nonlinear_arith)
                        requires
                            seats <= 4,
                            stagger <= u64::MAX,
                    ;
                }
                let offset: u128 = seats * stagger as u128;
                if offset < length as u128 {
                    let offset: u64 = offset as u64;
                    notes.push(
                        Note {
                            part: Part::at(rank),
                            start: at + offset,
                            length: length - offset,
                            midi,
                            level,
                            vowel,
                        },
                    );
                }
                seats = seats + 1;
            },
            None => {},
        }
        step = step + 1;
        proof {
            assert(notes@ =~= old(notes)@ + build_entries(
                voicing@,
                at as int,
                length as int,
                stagger as int,
                from_top,
                vowel,
                level,
                step as nat,
            ).0);
        }
    }
}

fn push_line(notes: &mut Vec<Note>, line: &Vec<SoloNote>, part: Part, at: u64, level: u8)
    requires
        at + line_ticks(line@) <= u64::MAX,
    ensures
        final(notes)@ == old(notes)@ + solo_line(line@, part, at as int, level),
{
    let mut now: u64 = at;
    let mut k: usize = 0;
    proof {
        assert(notes@ =~= old(notes)@ + solo_line(line@.take(0), part, at as int, level));
    }
    while k < line.len()
        invariant
            k <= line@.len(),
            at + line_ticks(line@) <= u64::MAX,
            now == at + line_ticks(line@.take(k as int)),
            notes@ == old(notes)@ + solo_line(line@.take(k as int), part, at as int, level),
        decreases line@.len() - k,
    {
        let note = line[k];
        proof {
            assert(line@.take(k + 1).drop_last() =~= line@.take(k as int));
            assert(line@.take(k + 1).last() == note);
            lemma_line_grows(line@, k + 1);
        }
        notes.push(
            Note { part, start: now, length: note.length, midi: note.midi, level, vowel: note.vowel },
        );
        now = now + note.length;
        k = k + 1;
        proof {
            assert(notes@ =~= old(notes)@ + solo_line(line@.take(k as int), part, at as int, level));
        }
    }
    proof {
        assert(line@.take(k as int) =~= line@);
    }
}

/// One voice at a time: in the order they are written, each note of a part is over before the
/// part's next one begins.
pub open spec fn one_at_a_time(notes: Seq<Note>) -> bool {
    forall|i: int, j: int|
        0 <= i < j < notes.len() && notes[i].part == notes[j].part ==> (#[trigger] notes[i]).ends()
            <= (#[trigger] notes[j]).start
}

/// Whether a list of notes keeps between two ticks.
pub open spec fn within(notes: Seq<Note>, from: int, to: int) -> bool {
    forall|i: int|
        0 <= i < notes.len() ==> from <= (#[trigger] notes[i]).start && notes[i].ends() <= to
}

proof fn lemma_held_chord(
    voicing: Seq<Option<u8>>,
    at: int,
    length: int,
    vowel: Vowel,
    level: u8,
    except: Option<Part>,
    voices: nat,
)
    requires
        0 <= at,
        0 <= length,
        at + length <= u64::MAX,
        voices <= 4,
    ensures
        ({
            let notes = held_chord(voicing, at, length, vowel, level, except, voices);
            &&& within(notes, at, at + length)
            &&& one_at_a_time(notes)
            &&& forall|i: int|
                0 <= i < notes.len() ==> (#[trigger] notes[i]).part.rank() < voices && except != Some(
                    notes[i].part,
                ) && notes[i].length == length
        }),
    decreases voices,
{
    if voices > 0 {
        lemma_held_chord(voicing, at, length, vowel, level, except, (voices - 1) as nat);
    }
}

proof fn lemma_build(
    voicing: Seq<Option<u8>>,
    at: int,
    length: int,
    stagger: int,
    from_top: bool,
    vowel: Vowel,
    level: u8,
    steps: nat,
)
    requires
        0 <= at,
        0 <= length,
        0 <= stagger,
        at + length <= u64::MAX,
        steps <= 4,
    ensures
        ({
            let notes = build_entries(voicing, at, length, stagger, from_top, vowel, level, steps).0;
            &&& within(notes, at, at + length)
            &&& one_at_a_time(notes)
            &&& forall|i: int|
                0 <= i < notes.len() ==> {
                    &&& (#[trigger] notes[i]).length > 0
                    &&& notes[i].ends() == at + length
                    &&& if from_top {
                        notes[i].part.rank() > 3 - steps
                    } else {
                        notes[i].part.rank() < steps
                    }
                }
        }),
    decreases steps,
{
    if steps > 0 {
        lemma_build(voicing, at, length, stagger, from_top, vowel, level, (steps - 1) as nat);
        let (notes, seats) = build_entries(
            voicing,
            at,
            length,
            stagger,
            from_top,
            vowel,
            level,
            (steps - 1) as nat,
        );
        assert(seats * stagger >= 0) by (nonlinear_arith)
            requires
                seats >= 0,
                stagger >= 0,
        ;
    }
}

proof fn lemma_solo_line(line: Seq<SoloNote>, part: Part, at: int, level: u8)
    requires
        0 <= at,
        at + line_ticks(line) <= u64::MAX,
    ensures
        ({
            let notes = solo_line(line, part, at, level);
            &&& within(notes, at, at + line_ticks(line))
            &&& one_at_a_time(notes)
            &&& notes.len() == line.len()
            &&& forall|i: int|
                0 <= i < notes.len() ==> (#[trigger] notes[i]).part == part && notes[i].length
                    == line[i].length
        }),
    decreases line.len(),
{
    if line.len() > 0 {
        lemma_solo_line(line.drop_last(), part, at, level);
        let before = solo_line(line.drop_last(), part, at, level);
        let notes = solo_line(line, part, at, level);
        assert forall|i: int| 0 <= i < notes.len() implies (#[trigger] notes[i]).part == part
            && notes[i].length == line[i].length by {
            if i < before.len() {
                assert(notes[i] == before[i]);
                assert(line.drop_last()[i] == line[i]);
            }
        }
    }
}

proof fn lemma_gesture(gesture: Phrase, at: int)
    requires
        0 <= at,
        at + gesture.ticks() <= u64::MAX,
    ensures
        within(gesture_notes(gesture, at), at, at + gesture.ticks()),
        one_at_a_time(gesture_notes(gesture, at)),
        gesture.singable() ==> forall|i: int|
            0 <= i < gesture_notes(gesture, at).len() ==> (#[trigger] gesture_notes(
                gesture,
                at,
            )[i]).length > 0,
{
    match gesture {
        Phrase::Chord { voicing, length, vowel, level } => {
            lemma_held_chord(voicing, at, length as int, vowel, level, None, 4);
        },
        Phrase::Build { voicing, length, stagger, from_top, vowel, level } => {
            lemma_build(
                voicing,
                at,
                length as int,
                stagger as int,
                from_top,
                vowel,
                level,
                4,
            );
        },
        Phrase::Solo { part, notes, under, under_vowel, level } => {
            let total = line_ticks(notes) as int;
            lemma_held_chord(under, at, total, under_vowel, level, Some(part), 4);
            lemma_solo_line(notes, part, at, level);
            let chord = held_chord(under, at, total, under_vowel, level, Some(part), 4);
            let line = solo_line(notes, part, at, level);
            let all = gesture_notes(gesture, at);
            assert(all == chord + line);
            assert forall|i: int, j: int|
                0 <= i < j < all.len() && all[i].part == all[j].part implies (#[trigger] all[i]).ends()
                <= (#[trigger] all[j]).start by {
                if j < chord.len() {
                    assert(all[i] == chord[i] && all[j] == chord[j]);
                } else if i < chord.len() {
                    assert(all[i] == chord[i]);
                    assert(all[j] == line[j - chord.len()]);
                    assert(all[j].part == part);
                } else {
                    assert(all[i] == line[i - chord.len()] && all[j] == line[j - chord.len()]);
                }
            }
            assert forall|i: int| 0 <= i < all.len() implies at <= (#[trigger] all[i]).start
                && all[i].ends() <= at + gesture.ticks() by {
                if i < chord.len() {
                    assert(all[i] == chord[i]);
                } else {
                    assert(all[i] == line[i - chord.len()]);
                }
            }
            if gesture.singable() {
                assert forall|i: int| 0 <= i < all.len() implies (#[trigger] all[i]).length > 0 by {
                    if i < chord.len() {
                        assert(all[i] == chord[i]);
                        lemma_line_grows(notes, 1);
                        assert(notes.take(1).drop_last() =~= Seq::<SoloNote>::empty());
                        assert(notes.take(1).last() == notes[0]);
                    } else {
                        assert(all[i] == line[i - chord.len()]);
                        assert(notes[i - chord.len()].length > 0);
                    }
                }
            }
        },
        Phrase::Rest { length } => {},
    }
}

proof fn lemma_compiled(gestures: Seq<Phrase>)
    requires
        total_ticks(gestures) <= u64::MAX,
    ensures
        countable(compiled(gestures)),
        within(compiled(gestures), 0, total_ticks(gestures) as int),
        one_at_a_time(compiled(gestures)),
        (forall|k: int| 0 <= k < gestures.len() ==> (#[trigger] gestures[k]).singable()) ==> forall|i: int|
            0 <= i < compiled(gestures).len() ==> (#[trigger] compiled(gestures)[i]).length > 0,
    decreases gestures.len(),
{
    if gestures.len() > 0 {
        let before = gestures.drop_last();
        let at = total_ticks(before) as int;
        lemma_compiled(before);
        lemma_gesture(gestures.last(), at);
        let old_notes = compiled(before);
        let new_notes = gesture_notes(gestures.last(), at);
        let all = compiled(gestures);
        assert(all == old_notes + new_notes);
        assert forall|i: int| 0 <= i < all.len() implies 0 <= (#[trigger] all[i]).start && all[i].ends()
            <= total_ticks(gestures) by {
            if i < old_notes.len() {
                assert(all[i] == old_notes[i]);
            } else {
                assert(all[i] == new_notes[i - old_notes.len()]);
            }
        }
        assert forall|i: int, j: int|
            0 <= i < j < all.len() && all[i].part == all[j].part implies (#[trigger] all[i]).ends() <= (
        #[trigger] all[j]).start by {
            if j < old_notes.len() {
                assert(all[i] == old_notes[i] && all[j] == old_notes[j]);
            } else if i < old_notes.len() {
                assert(all[i] == old_notes[i] && all[j] == new_notes[j - old_notes.len()]);
            } else {
                assert(all[i] == new_notes[i - old_notes.len()] && all[j] == new_notes[j
                    - old_notes.len()]);
            }
        }
        if forall|k: int| 0 <= k < gestures.len() ==> (#[trigger] gestures[k]).singable() {
            assert(gestures[gestures.len() - 1].singable());
            assert forall|k: int| 0 <= k < before.len() implies (#[trigger] before[k]).singable() by {
                assert(before[k] == gestures[k]);
            }
            assert forall|i: int| 0 <= i < all.len() implies (#[trigger] all[i]).length > 0 by {
                if i < old_notes.len() {
                    assert(all[i] == old_notes[i]);
                } else {
                    assert(all[i] == new_notes[i - old_notes.len()]);
                }
            }
        }
    }
}

proof fn lemma_contained(notes: Seq<Note>, i: int) -> (k: int)
    requires
        0 <= i < in_order(notes).len(),
    ensures
        0 <= k < notes.len(),
        notes[k] == in_order(notes)[i],
{
    broadcast use vstd::seq_lib::group_to_multiset_ensures;

    lemma_in_order(notes);
    let note = in_order(notes)[i];
    assert(in_order(notes).contains(note));
    assert(in_order(notes).to_multiset().count(note) > 0);
    assert(notes.contains(note));
    choose|k: int| 0 <= k < notes.len() && notes[k] == note
}

proof fn lemma_order_keeps_apart(notes: Seq<Note>)
    requires
        one_at_a_time(notes),
    ensures
        one_at_a_time(in_order(notes)),
    decreases notes.len(),
{
    if notes.len() > 0 {
        let rest = notes.drop_last();
        let note = notes.last();
        assert forall|i: int, j: int|
            0 <= i < j < rest.len() && rest[i].part == rest[j].part implies (#[trigger] rest[i]).ends()
            <= (#[trigger] rest[j]).start by {
            assert(notes[i] == rest[i] && notes[j] == rest[j]);
        }
        lemma_order_keeps_apart(rest);
        lemma_in_order(rest);
        let before = in_order(rest);
        let at = place(before, note);
        lemma_place(before, note);
        let now = before.insert(at, note);
        assert(now =~= in_order(notes));
        assert forall|i: int| 0 <= i < before.len() && before[i].part == note.part implies (
        #[trigger] before[i]).ends() <= note.start && i < at by {
            let k = lemma_contained(rest, i);
            assert(notes[k] == rest[k]);
            assert(notes[notes.len() - 1] == note);
            assert(precedes(before[i], note));
        }
        assert forall|i: int, j: int|
            0 <= i < j < now.len() && now[i].part == now[j].part implies (#[trigger] now[i]).ends() <= (
        #[trigger] now[j]).start by {
            let oi = if i < at {
                i
            } else {
                i - 1
            };
            let oj = if j < at {
                j
            } else {
                j - 1
            };
            if i == at {
                assert(now[j] == before[oj]);
            } else if j == at {
                assert(now[i] == before[oi]);
            } else {
                assert(now[i] == before[oi] && now[j] == before[oj]);
            }
        }
    }
}

proof fn lemma_apart(notes: Seq<Note>)
    requires
        ordered(notes),
        apart(notes),
    ensures
        one_at_a_time(notes),
{
    assert forall|i: int, j: int| 0 <= i < j < notes.len() && notes[i].part == notes[j].part implies (
    #[trigger] notes[i]).ends() <= (#[trigger] notes[j]).start by {
        assert(precedes(notes[i], notes[i + 1]));
        assert(precedes(notes[i + 1], notes[j]));
        assert(notes[i].part.rank() <= notes[i + 1].part.rank() <= notes[j].part.rank());
        assert(notes[i].part == notes[i + 1].part);
    }
}

/// In a score made of gestures a part never overlaps itself: one voice, one note at a time, and
/// nothing sounds past the last gesture.
pub proof fn a_part_never_overlaps_itself(gestures: Seq<Phrase>, per_beat: u64)
    requires
        total_ticks(gestures) <= u64::MAX,
    ensures
        one_at_a_time(tied(in_order(compiled(gestures)), per_beat)),
        within(tied(in_order(compiled(gestures)), per_beat), 0, total_ticks(gestures) as int),
{
    lemma_compiled(gestures);
    lemma_in_order(compiled(gestures));
    let notes = in_order(compiled(gestures));
    lemma_tied(notes, per_beat);
    lemma_apart(tied(notes, per_beat));
    assert forall|i: int| 0 <= i < notes.len() implies 0 <= (#[trigger] notes[i]).start
        && notes[i].ends() <= total_ticks(gestures) by {
        let k = lemma_contained(compiled(gestures), i);
        assert(compiled(gestures)[k].ends() <= total_ticks(gestures));
    }
    lemma_ties_keep_within(notes, per_beat, total_ticks(gestures) as int);
}

/// A score is settled: its notes stand in order, no part overlaps itself, no note carries on from
/// its neighbour, and making a score of them again gives the same notes.
pub proof fn a_score_is_settled(notes: Seq<Note>, per_beat: u64)
    requires
        countable(notes),
    ensures
        ordered(tied(in_order(notes), per_beat)),
        one_at_a_time(tied(in_order(notes), per_beat)),
        distinct(tied(in_order(notes), per_beat), per_beat),
        tied(in_order(tied(in_order(notes), per_beat)), per_beat) == tied(in_order(notes), per_beat),
{
    lemma_in_order(notes);
    lemma_tied(in_order(notes), per_beat);
    let score = tied(in_order(notes), per_beat);
    lemma_apart(score);
    lemma_stays_in_order(score);
    lemma_stays_tied(score, per_beat);
}

proof fn lemma_stays_in_order(notes: Seq<Note>)
    requires
        ordered(notes),
    ensures
        in_order(notes) == notes,
    decreases notes.len(),
{
    if notes.len() > 0 {
        let rest = notes.drop_last();
        lemma_stays_in_order(rest);
        if rest.len() > 0 {
            assert(precedes(notes[notes.len() - 2], notes[notes.len() - 1]));
            assert(rest.last() == notes[notes.len() - 2]);
        }
        assert(place(rest, notes.last()) == rest.len());
        assert(in_order(notes) =~= notes);
    }
}

proof fn lemma_stays_tied(notes: Seq<Note>, per_beat: u64)
    requires
        apart(notes),
        distinct(notes, per_beat),
    ensures
        tied(notes, per_beat) == notes,
    decreases notes.len(),
{
    if notes.len() > 0 {
        let rest = notes.drop_last();
        let note = notes.last();
        assert forall|i: int, j: int|
            0 <= i && j == i + 1 && j < rest.len() && rest[i].part == rest[j].part implies (
        #[trigger] rest[i]).ends() <= (#[trigger] rest[j]).start by {
            assert(notes[i] == rest[i] && notes[j] == rest[j]);
        }
        assert forall|i: int, j: int| 0 <= i && j == i + 1 && j < rest.len() implies !carries_on(
            #[trigger] rest[i],
            #[trigger] rest[j],
            per_beat,
        ) by {
            assert(notes[i] == rest[i] && notes[j] == rest[j]);
        }
        lemma_stays_tied(rest, per_beat);
        if rest.len() > 0 {
            let end = notes.len() - 1;
            assert(notes[end - 1] == rest.last() && notes[end] == note);
            assert(!carries_on(notes[end - 1], notes[end], per_beat));
            if rest.last().part == note.part {
                assert(notes[end - 1].ends() <= notes[end].start);
                assert(rest.drop_last().push(rest.last()) =~= rest);
            }
        }
        assert(joined(rest, note, per_beat) =~= notes);
    }
}

/// A list with a note in it makes a score with a note in it.
pub proof fn notes_make_a_score(notes: Seq<Note>, per_beat: u64)
    requires
        notes.len() > 0,
    ensures
        0 < tied(in_order(notes), per_beat).len(),
{
    lemma_in_order(notes);
}

/// Whether two notes are the same but for how long they are held.
pub open spec fn alike(a: Note, b: Note) -> bool {
    a == (Note { length: a.length, ..b })
}

/// A score makes no note up: each one begins as some note of the list did, on its part, at its
/// time, with its pitch, its dynamic and its vowel.
pub proof fn a_score_makes_nothing_up(notes: Seq<Note>, per_beat: u64, i: int)
    requires
        countable(notes),
        0 <= i < tied(in_order(notes), per_beat).len(),
    ensures
        exists|k: int|
            0 <= k < notes.len() && alike(tied(in_order(notes), per_beat)[i], #[trigger] notes[k]),
{
    let k = lemma_tied_from(in_order(notes), per_beat, i);
    let m = lemma_contained(notes, k);
    assert(alike(tied(in_order(notes), per_beat)[i], notes[m]));
}

proof fn lemma_tied_from(notes: Seq<Note>, per_beat: u64, i: int) -> (k: int)
    requires
        0 <= i < tied(notes, per_beat).len(),
    ensures
        0 <= k < notes.len(),
        alike(tied(notes, per_beat)[i], notes[k]),
    decreases notes.len(),
{
    let rest = notes.drop_last();
    let note = notes.last();
    let before = tied(rest, per_beat);
    if i < before.len() {
        let k = lemma_tied_from(rest, per_beat, i);
        assert(alike(tied(notes, per_beat)[i], before[i]));
        assert(rest[k] == notes[k]);
        k
    } else {
        assert(tied(notes, per_beat)[i] == note);
        notes.len() - 1
    }
}

proof fn lemma_ties_keep_within(notes: Seq<Note>, per_beat: u64, to: int)
    requires
        ordered(notes),
        countable(notes),
        within(notes, 0, to),
    ensures
        within(tied(notes, per_beat), 0, to),
    decreases notes.len(),
{
    if notes.len() > 0 {
        let rest = notes.drop_last();
        lemma_countable_prefix(notes);
        assert forall|i: int| 0 <= i < rest.len() implies 0 <= (#[trigger] rest[i]).start
            && rest[i].ends() <= to by {
            assert(rest[i] == notes[i]);
        }
        lemma_ties_keep_within(rest, per_beat, to);
        lemma_joint(notes, per_beat);
        let before = tied(rest, per_beat);
        let now = tied(notes, per_beat);
        assert(notes[notes.len() - 1].ends() <= to);
        assert forall|i: int| 0 <= i < now.len() implies 0 <= (#[trigger] now[i]).start && now[i].ends()
            <= to by {
            if i < before.len() {
                assert(before[i].ends() <= to);
            }
        }
    }
}

/// What one more note does to a line: earlier notes stay, the last one may be cut or tied to it,
/// and the note itself, if it stands alone, stands as it is.
proof fn lemma_joint(notes: Seq<Note>, per_beat: u64)
    requires
        notes.len() > 0,
        ordered(notes),
        countable(notes),
    ensures
        ({
            let before = tied(notes.drop_last(), per_beat);
            let now = tied(notes, per_beat);
            let note = notes.last();
            let end = before.len() - 1;
            &&& before.len() <= now.len() <= before.len() + 1
            &&& forall|i: int| 0 <= i < end ==> (#[trigger] now[i]) == before[i]
            &&& now.len() > before.len() ==> now[end + 1] == note
            &&& end >= 0 ==> {
                let last = cut(before[end], note.start);
                &&& precedes(before[end], note)
                &&& before[end].ends() <= u64::MAX
                &&& before[end].part != note.part ==> now[end] == before[end]
                &&& before[end].part == note.part ==> {
                    ||| now[end] == last && now.len() > before.len() && (before[end].start < note.start
                        || before[end].length == 0)
                    ||| now[end] == before[end] && now.len() == before.len() && before[end].start
                        == note.start && before[end].length > 0
                    ||| now[end] == merged(last, note) && now.len() == before.len() && carries_on(
                        last,
                        note,
                        per_beat,
                    ) && now[end].length == last.length + note.length
                }
            }
        }),
{
    let rest = notes.drop_last();
    let note = notes.last();
    lemma_countable_prefix(notes);
    lemma_tied(rest, per_beat);
    let before = tied(rest, per_beat);
    if before.len() > 0 {
        assert(precedes(notes[notes.len() - 2], note));
        assert(rest.last() == notes[notes.len() - 2]);
        assert(precedes(before.last(), note));
        assert(before[before.len() - 1].ends() <= u64::MAX);
    }
}

/// Every note of a score made of singable gestures lasts some time.
pub proof fn every_note_is_held(gestures: Seq<Phrase>, per_beat: u64)
    requires
        total_ticks(gestures) <= u64::MAX,
        forall|k: int| 0 <= k < gestures.len() ==> (#[trigger] gestures[k]).singable(),
    ensures
        forall|i: int|
            0 <= i < tied(in_order(compiled(gestures)), per_beat).len() ==> (#[trigger] tied(
                in_order(compiled(gestures)),
                per_beat,
            )[i]).length > 0,
{
    lemma_compiled(gestures);
    lemma_in_order(compiled(gestures));
    let notes = in_order(compiled(gestures));
    assert forall|i: int| 0 <= i < notes.len() implies (#[trigger] notes[i]).length > 0 by {
        let k = lemma_contained(compiled(gestures), i);
        assert(compiled(gestures)[k].length > 0);
    }
    lemma_ties_keep_held(notes, per_beat);
}

proof fn lemma_ties_keep_held(notes: Seq<Note>, per_beat: u64)
    requires
        ordered(notes),
        countable(notes),
        forall|i: int| 0 <= i < notes.len() ==> (#[trigger] notes[i]).length > 0,
    ensures
        forall|i: int| 0 <= i < tied(notes, per_beat).len() ==> (#[trigger] tied(notes, per_beat)[i]).length > 0,
    decreases notes.len(),
{
    if notes.len() > 0 {
        let rest = notes.drop_last();
        lemma_countable_prefix(notes);
        assert forall|i: int| 0 <= i < rest.len() implies (#[trigger] rest[i]).length > 0 by {
            assert(rest[i] == notes[i]);
        }
        lemma_ties_keep_held(rest, per_beat);
        lemma_joint(notes, per_beat);
        let before = tied(rest, per_beat);
        let now = tied(notes, per_beat);
        assert(notes[notes.len() - 1].length > 0);
        assert forall|i: int| 0 <= i < now.len() implies (#[trigger] now[i]).length > 0 by {
            if i < before.len() {
                assert(before[i].length > 0);
            }
        }
    }
}

/// Whether nothing sounds between two ticks.
pub open spec fn silent(notes: Seq<Note>, from: int, to: int) -> bool {
    forall|i: int| 0 <= i < notes.len() ==> (#[trigger] notes[i]).ends() <= from || to <= notes[i].start
}

proof fn lemma_ties_keep_silence(notes: Seq<Note>, per_beat: u64, from: int, to: int)
    requires
        ordered(notes),
        countable(notes),
        silent(notes, from, to),
        from < to,
        1_000_000 * (to - from) >= per_beat,
    ensures
        silent(tied(notes, per_beat), from, to),
    decreases notes.len(),
{
    if notes.len() > 0 {
        let rest = notes.drop_last();
        lemma_countable_prefix(notes);
        assert forall|i: int| 0 <= i < rest.len() implies (#[trigger] rest[i]).ends() <= from || to
            <= rest[i].start by {
            assert(rest[i] == notes[i]);
        }
        lemma_ties_keep_silence(rest, per_beat, from, to);
        lemma_joint(notes, per_beat);
        let before = tied(rest, per_beat);
        let now = tied(notes, per_beat);
        assert(notes[notes.len() - 1].ends() <= from || to <= notes[notes.len() - 1].start);
        assert forall|i: int| 0 <= i < now.len() implies (#[trigger] now[i]).ends() <= from || to
            <= now[i].start by {
            if i < before.len() {
                assert(before[i].ends() <= from || to <= before[i].start);
            }
        }
    }
}

proof fn lemma_compiled_split(gestures: Seq<Phrase>, k: int)
    requires
        0 <= k < gestures.len(),
        gestures[k] is Rest,
        total_ticks(gestures) <= u64::MAX,
    ensures
        silent(
            compiled(gestures),
            total_ticks(gestures.take(k)) as int,
            (total_ticks(gestures.take(k)) + gestures[k].ticks()) as int,
        ),
        total_ticks(gestures.take(k)) + gestures[k].ticks() <= total_ticks(gestures),
    decreases gestures.len(),
{
    let before = gestures.drop_last();
    let from = total_ticks(gestures.take(k)) as int;
    let to = from + gestures[k].ticks();
    if k == gestures.len() - 1 {
        assert(gestures.take(k) =~= before);
        lemma_compiled(before);
        assert(compiled(gestures) =~= compiled(before));
    } else {
        assert(before.take(k) =~= gestures.take(k));
        assert(before[k] == gestures[k]);
        lemma_compiled_split(before, k);
        lemma_gesture(gestures.last(), total_ticks(before) as int);
        let old_notes = compiled(before);
        let new_notes = gesture_notes(gestures.last(), total_ticks(before) as int);
        let all = compiled(gestures);
        assert forall|i: int| 0 <= i < all.len() implies (#[trigger] all[i]).ends() <= from || to
            <= all[i].start by {
            if i < old_notes.len() {
                assert(all[i] == old_notes[i]);
            } else {
                assert(all[i] == new_notes[i - old_notes.len()]);
            }
        }
    }
}

/// A rest is a real gap: no note of the score sounds in it, so it breaks every tie. That holds of
/// a rest that is no shorter than a millionth of a beat, which is as near as two notes may come
/// before they count as one.
pub proof fn a_rest_is_a_real_gap(gestures: Seq<Phrase>, per_beat: u64, k: int)
    requires
        0 <= k < gestures.len(),
        gestures[k] is Rest,
        gestures[k].singable(),
        1_000_000 * gestures[k].ticks() >= per_beat,
        total_ticks(gestures) <= u64::MAX,
    ensures
        silent(
            tied(in_order(compiled(gestures)), per_beat),
            total_ticks(gestures.take(k)) as int,
            (total_ticks(gestures.take(k)) + gestures[k].ticks()) as int,
        ),
{
    let from = total_ticks(gestures.take(k)) as int;
    let to = from + gestures[k].ticks();
    lemma_compiled(gestures);
    lemma_compiled_split(gestures, k);
    lemma_in_order(compiled(gestures));
    let notes = in_order(compiled(gestures));
    assert forall|i: int| 0 <= i < notes.len() implies (#[trigger] notes[i]).ends() <= from || to
        <= notes[i].start by {
        let j = lemma_contained(compiled(gestures), i);
        assert(compiled(gestures)[j].ends() <= from || to <= compiled(gestures)[j].start);
    }
    lemma_ties_keep_silence(notes, per_beat, from, to);
}

/// Merging ties and putting notes in order lose no singing: where no part of the list overlaps
/// itself, each part is held as long as before. Where one does, it is held no longer.
pub proof fn ties_lose_nothing(notes: Seq<Note>, per_beat: u64, part: Part)
    requires
        countable(notes),
    ensures
        one_at_a_time(in_order(notes)) ==> part_ticks(tied(in_order(notes), per_beat), part)
            == part_ticks(notes, part),
        part_ticks(tied(in_order(notes), per_beat), part) <= part_ticks(notes, part),
{
    lemma_in_order(notes);
    lemma_order_keeps_ticks(notes, part);
    lemma_ties_keep_ticks(in_order(notes), per_beat, part);
}

/// Gestures lose no singing either.
pub proof fn gestures_lose_nothing(gestures: Seq<Phrase>, per_beat: u64, part: Part)
    requires
        total_ticks(gestures) <= u64::MAX,
    ensures
        part_ticks(tied(in_order(compiled(gestures)), per_beat), part) == part_ticks(
            compiled(gestures),
            part,
        ),
{
    lemma_compiled(gestures);
    lemma_order_keeps_apart(compiled(gestures));
    ties_lose_nothing(compiled(gestures), per_beat, part);
}

/// How long one part sings in all.
pub open spec fn part_ticks(notes: Seq<Note>, part: Part) -> int
    decreases notes.len(),
{
    if notes.len() == 0 {
        0
    } else {
        part_ticks(notes.drop_last(), part) + (if notes.last().part == part {
            notes.last().length as int
        } else {
            0
        })
    }
}

proof fn lemma_insert_ticks(notes: Seq<Note>, at: int, note: Note, part: Part)
    requires
        0 <= at <= notes.len(),
    ensures
        part_ticks(notes.insert(at, note), part) == part_ticks(notes, part) + (if note.part == part {
            note.length as int
        } else {
            0
        }),
    decreases notes.len(),
{
    let now = notes.insert(at, note);
    if at == notes.len() {
        assert(now.drop_last() =~= notes);
    } else {
        lemma_insert_ticks(notes.drop_last(), at, note, part);
        assert(now.drop_last() =~= notes.drop_last().insert(at, note));
        assert(now.last() == notes.last());
    }
}

proof fn lemma_order_keeps_ticks(notes: Seq<Note>, part: Part)
    ensures
        part_ticks(in_order(notes), part) == part_ticks(notes, part),
    decreases notes.len(),
{
    if notes.len() > 0 {
        let rest = notes.drop_last();
        lemma_order_keeps_ticks(rest, part);
        lemma_place(in_order(rest), notes.last());
        lemma_insert_ticks(in_order(rest), place(in_order(rest), notes.last()), notes.last(), part);
    }
}

proof fn lemma_ties_keep_ticks(notes: Seq<Note>, per_beat: u64, part: Part)
    requires
        ordered(notes),
        countable(notes),
    ensures
        part_ticks(tied(notes, per_beat), part) <= part_ticks(notes, part),
        one_at_a_time(notes) ==> {
            &&& part_ticks(tied(notes, per_beat), part) == part_ticks(notes, part)
            &&& notes.len() > 0 ==> tied(notes, per_beat).last().ends() <= notes.last().ends()
        },
    decreases notes.len(),
{
    if notes.len() > 0 {
        let rest = notes.drop_last();
        let note = notes.last();
        lemma_countable_prefix(notes);
        lemma_ties_keep_ticks(rest, per_beat, part);
        lemma_tied(rest, per_beat);
        lemma_joint(notes, per_beat);
        let before = tied(rest, per_beat);
        let now = tied(notes, per_beat);
        if one_at_a_time(notes) {
            assert forall|i: int, j: int| 0 <= i < j < rest.len() && rest[i].part == rest[j].part implies (
            #[trigger] rest[i]).ends() <= (#[trigger] rest[j]).start by {
                assert(notes[i] == rest[i] && notes[j] == rest[j]);
            }
            if before.len() > 0 {
                let end = notes.len() - 1;
                assert(notes[end - 1] == rest.last() && notes[end] == note);
                if rest.last().part == note.part {
                    assert(notes[end - 1].ends() <= notes[end].start);
                }
            }
        }
        reveal_with_fuel(part_ticks, 3);
        if before.len() > 0 {
            let end = before.len() - 1;
            if now.len() == before.len() {
                assert(now.drop_last() =~= before.drop_last());
                assert(now.last() == now[end]);
            } else {
                assert(now.drop_last().drop_last() =~= before.drop_last());
                assert(now.drop_last().last() == now[end]);
            }
        } else {
            assert(now.drop_last() =~= before);
        }
    }
}

/// A tempo, as a fraction: `beats / per` beats to the minute.
#[derive(Debug, Clone, Copy, PartialEq, Eq, Structural)]
pub struct Tempo {
    pub beats: u64,
    pub per: u64,
}

impl Tempo {
    /// Whether it is a tempo at all.
    pub open spec fn valid(self) -> bool {
        0 < self.per <= 0x1_0000_0000 && self.beats <= 0x1_0000_0000_0000
    }

    /// The numerator a position is reckoned with. Slower than a beat a minute is sung at one.
    pub open spec fn pace(self) -> nat {
        if self.beats < self.per {
            self.per as nat
        } else {
            self.beats as nat
        }
    }

    pub fn pace_of(&self) -> (beats: u64)
        ensures
            beats == self.pace(),
    {
        if self.beats < self.per {
            self.per
        } else {
            self.beats
        }
    }
}

/// A four-part score.
pub struct Score {
    pub name: String,
    pub tempo: Tempo,
    pub ticks_per_beat: u64,
    /// Sorted by part, then by start. No part overlaps itself.
    pub notes: Vec<Note>,
}

/// The latest end among the first `k` notes.
pub open spec fn latest_end(notes: Seq<Note>) -> int
    decreases notes.len(),
{
    if notes.len() == 0 {
        0
    } else {
        let before = latest_end(notes.drop_last());
        if notes.last().ends() > before {
            notes.last().ends()
        } else {
            before
        }
    }
}

/// One part's notes, in order.
pub open spec fn line_of(notes: Seq<Note>, part: Part) -> Seq<Note> {
    notes.filter(|n: Note| n.part == part)
}

/// The pitches of a line added up, each as many times as it is held ticks.
pub open spec fn weighted_pitch(line: Seq<Note>) -> nat
    decreases line.len(),
{
    if line.len() == 0 {
        0
    } else {
        weighted_pitch(line.drop_last()) + line.last().midi as nat * line.last().length as nat
    }
}

/// How many ticks a line is held in all.
pub open spec fn held_ticks(line: Seq<Note>) -> nat
    decreases line.len(),
{
    if line.len() == 0 {
        0
    } else {
        held_ticks(line.drop_last()) + line.last().length as nat
    }
}

impl Score {
    /// What every score keeps to.
    pub open spec fn valid(self) -> bool {
        &&& self.tempo.valid()
        &&& 0 < self.ticks_per_beat <= 0x1_0000_0000
        &&& countable(self.notes@)
        &&& ordered(self.notes@)
        &&& apart(self.notes@)
    }

    /// Compiles gestures into a score.
    ///
    /// Ties are merged: a voice holding the same pitch and vowel across a gesture boundary comes
    /// out as **one** note. A change of *vowel* re-articulates, and a [`Gesture::Rest`] breaks a
    /// tie by leaving a gap.
    pub fn from_gestures(
        name: &str,
        tempo: Tempo,
        ticks_per_beat: u64,
        gestures: &[Gesture],
    ) -> (score: Self)
        requires
            total_ticks(phrases(gestures@)) <= u64::MAX,
        ensures
            score.name@ == name@,
            score.tempo == tempo,
            score.ticks_per_beat == ticks_per_beat,
            score.notes@ == tied(in_order(compiled(phrases(gestures@))), ticks_per_beat),
            countable(score.notes@),
            ordered(score.notes@),
            apart(score.notes@),
            distinct(score.notes@, ticks_per_beat),
    {
        let mut notes: Vec<Note> = Vec::new();
        let mut now: u64 = 0;
        let mut at: usize = 0;
        while at < gestures.len()
            invariant
                at <= gestures@.len(),
                total_ticks(phrases(gestures@)) <= u64::MAX,
                now == total_ticks(phrases(gestures@).take(at as int)),
                notes@ == compiled(phrases(gestures@).take(at as int)),
            decreases gestures@.len() - at,
        {
            let gesture = &gestures[at];
            proof {
                let all = phrases(gestures@);
                let next = all.take(at + 1);
                assert(next.drop_last() =~= all.take(at as int));
                assert(next.last() == gesture@);
                lemma_total_grows(all, at + 1);
            }
            let ghost before = notes@;
            match gesture {
                Gesture::Chord { voicing, length, vowel, level } => {
                    push_chord(&mut notes, voicing, now, *length, *vowel, *level, None);
                },
                Gesture::Build { voicing, length, stagger, from_top, vowel, level } => {
                    push_build(
                        &mut notes,
                        voicing,
                        now,
                        *length,
                        *stagger,
                        *from_top,
                        *vowel,
                        *level,
                    );
                },
                Gesture::Solo { part, notes: line, under, under_vowel, level } => {
                    let total: u64 = match gesture.beats() {
                        Some(ticks) => ticks,
                        None => 0,
                    };
                    push_chord(&mut notes, under, now, total, *under_vowel, *level, Some(*part));
                    push_line(&mut notes, line, *part, now, *level);
                    proof {
                        assert(notes@ =~= before + gesture_notes(gesture@, now as int));
                    }
                },
                Gesture::Rest { length } => {
                    proof {
                        assert(notes@ =~= before + gesture_notes(gesture@, now as int));
                    }
                },
            }
            let ticks: u64 = match gesture.beats() {
                Some(ticks) => ticks,
                None => 0,
            };
            now = now + ticks;
            at = at + 1;
        }
        proof {
            assert(phrases(gestures@).take(at as int) =~= phrases(gestures@));
            lemma_compiled(phrases(gestures@));
        }
        Score::from_notes(name, tempo, ticks_per_beat, notes)
    }

    /// A score from a bare note list: the notes put in order, a note cut where the next one of its
    /// part begins, and ties merged. Of two notes of a part that begin together on different
    /// pitches, the one that came first is kept.
    pub fn from_notes(name: &str, tempo: Tempo, ticks_per_beat: u64, notes: Vec<Note>) -> (score: Self)
        requires
            countable(notes@),
        ensures
            score.name@ == name@,
            score.tempo == tempo,
            score.ticks_per_beat == ticks_per_beat,
            score.notes@ == tied(in_order(notes@), ticks_per_beat),
            countable(score.notes@),
            ordered(score.notes@),
            apart(score.notes@),
            distinct(score.notes@, ticks_per_beat),
    {
        let mut sorted: Vec<Note> = Vec::new();
        let mut at: usize = 0;
        while at < notes.len()
            invariant
                at <= notes@.len(),
                sorted@ == in_order(notes@.take(at as int)),
                sorted@.len() == at,
            decreases notes@.len() - at,
        {
            let note = notes[at];
            let mut to: usize = sorted.len();
            proof {
                assert(sorted@.take(sorted@.len() as int) =~= sorted@);
            }
            while to > 0 && !may_precede(&sorted[to - 1], &note)
                invariant
                    to <= sorted@.len(),
                    place(sorted@, note) == place(sorted@.take(to as int), note),
                decreases to,
            {
                proof {
                    assert(sorted@.take(to as int).last() == sorted@[to - 1]);
                    assert(sorted@.take(to as int).drop_last() =~= sorted@.take(to - 1));
                }
                to = to - 1;
            }
            proof {
                if to > 0 {
                    assert(sorted@.take(to as int).last() == sorted@[to - 1]);
                }
                assert(place(sorted@, note) == to);
                assert(notes@.take(at + 1).drop_last() =~= notes@.take(at as int));
                assert(notes@.take(at + 1).last() == note);
            }
            sorted.insert(to, note);
            at = at + 1;
        }
        proof {
            assert(notes@.take(at as int) =~= notes@);
            lemma_in_order(notes@);
            lemma_tied(in_order(notes@), ticks_per_beat);
        }
        let mut merged_notes: Vec<Note> = Vec::new();
        let mut k: usize = 0;
        while k < sorted.len()
            invariant
                k <= sorted@.len(),
                ordered(sorted@),
                countable(sorted@),
                merged_notes@ == tied(sorted@.take(k as int), ticks_per_beat),
            decreases sorted@.len() - k,
        {
            let note = sorted[k];
            let size = merged_notes.len();
            proof {
                let taken = sorted@.take(k as int);
                let more = sorted@.take(k + 1);
                assert(more.drop_last() =~= taken);
                assert(more.last() == note);
                assert forall|i: int| 0 <= i < more.len() implies (#[trigger] more[i]).ends() <= u64::MAX by {
                    assert(more[i] == sorted@[i]);
                }
                lemma_joint(more, ticks_per_beat);
            }
            let ghost before = merged_notes@;
            if size > 0 && merged_notes[size - 1].part == note.part {
                let held = merged_notes[size - 1];
                let last = if held.end() > note.start {
                    Note { length: note.start - held.start, ..held }
                } else {
                    held
                };
                let gap: u64 = note.start - last.end();
                if last.midi == note.midi && last.vowel == note.vowel && gap as u128 * 1_000_000
                    < ticks_per_beat as u128 {
                    merged_notes.set(size - 1, Note { length: last.length + note.length, ..last });
                    assert(merged_notes@ =~= before.drop_last().push(merged(last, note)));
                } else if held.start != note.start || held.length == 0 {
                    merged_notes.set(size - 1, last);
                    merged_notes.push(note);
                    assert(merged_notes@ =~= before.drop_last().push(last).push(note));
                }
            } else {
                merged_notes.push(note);
            }
            k = k + 1;
        }
        proof {
            assert(sorted@.take(k as int) =~= sorted@);
        }
        Score { name: name.to_owned(), tempo, ticks_per_beat, notes: merged_notes }
    }

    /// How long the piece runs, in ticks: to the end of the last note.
    pub fn duration_ticks(&self) -> (ticks: u64)
        requires
            countable(self.notes@),
        ensures
            ticks == latest_end(self.notes@),
    {
        let mut latest: u64 = 0;
        let mut at: usize = 0;
        while at < self.notes.len()
            invariant
                at <= self.notes@.len(),
                countable(self.notes@),
                latest == latest_end(self.notes@.take(at as int)),
            decreases self.notes@.len() - at,
        {
            proof {
                assert(self.notes@.take(at + 1).drop_last() =~= self.notes@.take(at as int));
                assert(self.notes@[at as int].ends() <= u64::MAX);
            }
            let end = self.notes[at].end();
            if end > latest {
                latest = end;
            }
            at = at + 1;
        }
        proof {
            assert(self.notes@.take(at as int) =~= self.notes@);
        }
        latest
    }

    /// How long the piece lasts at its tempo, in whole microseconds.
    pub open spec fn lasting_us(self) -> int {
        (latest_end(self.notes@) * 60_000_000 * self.tempo.per) / (self.ticks_per_beat
            * self.tempo.pace()) as int
    }

    /// How long the piece runs, in whole microseconds.
    pub fn duration_us(&self) -> (us: u128)
        requires
            self.valid(),
        ensures
            us == self.lasting_us(),
    {
        let ticks = self.duration_ticks();
        let pace = self.tempo.pace_of();
        let per = self.tempo.per;
        let resolution = self.ticks_per_beat;
        proof {
            assert(ticks * 60_000_000 * per <= u128::MAX) by (nonlinear_arith)
                requires
                    ticks <= u64::MAX,
                    per <= 0x1_0000_0000,
            ;
            assert(0 < resolution * pace <= u128::MAX) by (nonlinear_arith)
                requires
                    0 < resolution <= 0x1_0000_0000,
                    0 < pace <= u64::MAX,
            ;
            assert(ticks * 60_000_000 <= u128::MAX) by (nonlinear_arith)
                requires
                    ticks <= u64::MAX,
            ;
        }
        (ticks as u128 * 60_000_000 * per as u128) / (resolution as u128 * pace as u128)
    }

    /// One part's notes, in order.
    pub fn line(&self, part: Part) -> (line: Vec<Note>)
        ensures
            line@ == line_of(self.notes@, part),
    {
        let mut line: Vec<Note> = Vec::new();
        let mut at: usize = 0;
        let ghost sings = |n: Note| n.part == part;
        proof {
            reveal(Seq::filter);
            assert(self.notes@.take(0).filter(sings) =~= Seq::<Note>::empty());
        }
        while at < self.notes.len()
            invariant
                at <= self.notes@.len(),
                sings == (|n: Note| n.part == part),
                line@ == self.notes@.take(at as int).filter(sings),
            decreases self.notes@.len() - at,
        {
            let note = self.notes[at];
            proof {
                reveal(Seq::filter);
                let now = self.notes@.take(at + 1);
                assert(now.drop_last() =~= self.notes@.take(at as int));
                assert(now.last() == note);
            }
            if note.part == part {
                line.push(note);
            }
            at = at + 1;
        }
        proof {
            assert(self.notes@.take(at as int) =~= self.notes@);
        }
        line
    }

    /// The mean pitch of one part, each note weighted by how long it is held, as a fraction.
    /// Nothing for a part that holds nothing.
    pub fn mean_pitch(&self, part: Part) -> (mean: Option<(u128, u128)>)
        requires
            self.notes@.len() <= 0xFF_FFFF_FFFF_FFFF,
        ensures
            mean is None <==> held_ticks(line_of(self.notes@, part)) == 0,
            mean matches Some((sum, held)) ==> sum == weighted_pitch(line_of(self.notes@, part)) && held
                == held_ticks(line_of(self.notes@, part)),
    {
        let line = self.line(part);
        proof {
            lemma_filter_len(self.notes@, part);
        }
        let mut sum: u128 = 0;
        let mut held: u128 = 0;
        let mut at: usize = 0;
        while at < line.len()
            invariant
                at <= line@.len() <= 0xFF_FFFF_FFFF_FFFF,
                sum == weighted_pitch(line@.take(at as int)),
                held == held_ticks(line@.take(at as int)),
                sum <= at * 0xFF_FFFF_FFFF_FFFF_FFFF,
                held <= at * 0xFFFF_FFFF_FFFF_FFFF,
            decreases line@.len() - at,
        {
            let note = line[at];
            proof {
                assert(line@.take(at + 1).drop_last() =~= line@.take(at as int));
                assert(line@.take(at + 1).last() == note);
                assert(note.midi * note.length <= 0xFF_FFFF_FFFF_FFFF_FFFF) by (nonlinear_arith)
                    requires
                        note.midi <= 0xFF,
                        note.length <= 0xFFFF_FFFF_FFFF_FFFF,
                ;
            }
            sum = sum + note.midi as u128 * note.length as u128;
            held = held + note.length as u128;
            at = at + 1;
        }
        proof {
            assert(line@.take(at as int) =~= line@);
        }
        if held == 0 {
            None
        } else {
            Some((sum, held))
        }
    }

    /// Which parts actually sing in this score.
    pub fn parts(&self) -> (parts: Vec<Part>)
        ensures
            parts@ == singing(self.notes@, 4),
    {
        let mut parts: Vec<Part> = Vec::new();
        let mut rank: usize = 0;
        while rank < 4
            invariant
                rank <= 4,
                parts@ == singing(self.notes@, rank as nat),
            decreases 4 - rank,
        {
            let part = Part::at(rank);
            let line = self.line(part);
            if line.len() > 0 {
                parts.push(part);
            }
            rank = rank + 1;
        }
        parts
    }
}

proof fn lemma_filter_len(notes: Seq<Note>, part: Part)
    ensures
        line_of(notes, part).len() <= notes.len(),
    decreases notes.len(),
{
    reveal(Seq::filter);
    if notes.len() > 0 {
        lemma_filter_len(notes.drop_last(), part);
    }
}

/// The lowest `voices` parts that have a line.
pub open spec fn singing(notes: Seq<Note>, voices: nat) -> Seq<Part>
    decreases voices,
{
    if voices == 0 {
        Seq::empty()
    } else {
        let below = singing(notes, (voices - 1) as nat);
        if line_of(notes, Part::ranked(voices - 1)).len() > 0 {
            below.push(Part::ranked(voices - 1))
        } else {
            below
        }
    }
}

proof fn lemma_every_voice(
    voicing: Seq<Option<u8>>,
    at: int,
    length: int,
    vowel: Vowel,
    level: u8,
    except: Option<Part>,
    voices: nat,
    part: Part,
)
    requires
        voicing.len() == 4,
        voices <= 4,
        0 <= at <= u64::MAX,
        0 <= length <= u64::MAX,
    ensures
        ({
            let notes = held_chord(voicing, at, length, vowel, level, except, voices);
            &&& part.rank() < voices && except != Some(part) && voicing[part.rank() as int] is Some
                ==> notes.contains(
                Note {
                    part,
                    start: at as u64,
                    length: length as u64,
                    midi: voicing[part.rank() as int]->0,
                    level,
                    vowel,
                },
            )
            &&& forall|i: int|
                0 <= i < notes.len() ==> {
                    &&& (#[trigger] notes[i]).part.rank() < voices
                    &&& except != Some(notes[i].part)
                    &&& voicing[notes[i].part.rank() as int] == Some(notes[i].midi)
                    &&& notes[i].start == at && notes[i].length == length
                    &&& notes[i].level == level && notes[i].vowel == vowel
                }
        }),
    decreases voices,
{
    if voices > 0 {
        let below = held_chord(voicing, at, length, vowel, level, except, (voices - 1) as nat);
        let notes = held_chord(voicing, at, length, vowel, level, except, voices);
        lemma_every_voice(voicing, at, length, vowel, level, except, (voices - 1) as nat, part);
        if part.rank() < voices && except != Some(part) && voicing[part.rank() as int] is Some {
            if part.rank() == voices - 1 {
                assert(Part::ranked(voices - 1) == part);
                assert(notes[below.len() as int] == voice(
                    voices - 1,
                    at,
                    length,
                    voicing[voices - 1]->0,
                    vowel,
                    level,
                ));
            } else {
                let want = Note {
                    part,
                    start: at as u64,
                    length: length as u64,
                    midi: voicing[part.rank() as int]->0,
                    level,
                    vowel,
                };
                let i = choose|i: int| 0 <= i < below.len() && below[i] == want;
                assert(notes[i] == want);
            }
        }
    }
}

/// A chord is everyone together: each part that has a note in the voicing sings it, from the start of
/// the gesture to its end, and nobody else sings.
pub proof fn a_chord_is_sung_together(
    voicing: Seq<Option<u8>>,
    length: u64,
    vowel: Vowel,
    level: u8,
    at: u64,
    part: Part,
    i: int,
)
    requires
        voicing.len() == 4,
    ensures
        ({
            let notes = gesture_notes(Phrase::Chord { voicing, length, vowel, level }, at as int);
            &&& voicing[part.rank() as int] matches Some(midi) ==> notes.contains(
                Note { part, start: at, length, midi, level, vowel },
            )
            &&& 0 <= i < notes.len() ==> notes[i] == (Note {
                part: notes[i].part,
                start: at,
                length,
                midi: voicing[notes[i].part.rank() as int]->0,
                level,
                vowel,
            }) && voicing[notes[i].part.rank() as int] is Some
        }),
{
    lemma_every_voice(voicing, at as int, length as int, vowel, level, None, 4, part);
}

/// Whether a voice enters before another in a build.
pub open spec fn enters_before(a: int, b: int, from_top: bool) -> bool {
    if from_top {
        a > b
    } else {
        a < b
    }
}

/// Whether a voice that sings has had its turn before another's.
pub open spec fn ahead(voicing: Seq<Option<u8>>, a: int, b: int, from_top: bool) -> int {
    if voicing[a] is Some && enters_before(a, b, from_top) {
        1
    } else {
        0
    }
}

/// How many of the voices that enter in the first `steps` turns sing.
pub open spec fn entered(voicing: Seq<Option<u8>>, from_top: bool, steps: nat) -> nat
    decreases steps,
{
    if steps == 0 {
        0
    } else {
        entered(voicing, from_top, (steps - 1) as nat) + (if voicing[entering(steps - 1, from_top)] is Some {
            1nat
        } else {
            0
        })
    }
}

proof fn lemma_turn(voicing: Seq<Option<u8>>, r: int, from_top: bool)
    requires
        0 <= r < 4,
    ensures
        entered(voicing, from_top, entering(r, from_top) as nat) == ahead(voicing, 0, r, from_top) + ahead(
            voicing,
            1,
            r,
            from_top,
        ) + ahead(voicing, 2, r, from_top) + ahead(voicing, 3, r, from_top),
{
    reveal_with_fuel(entered, 5);
}

proof fn lemma_entries(
    voicing: Seq<Option<u8>>,
    at: int,
    length: int,
    stagger: int,
    from_top: bool,
    vowel: Vowel,
    level: u8,
    steps: nat,
    step: nat,
)
    requires
        voicing.len() == 4,
        0 <= at,
        0 <= length,
        0 <= stagger,
        at + length <= u64::MAX,
        steps <= 4,
        step < 4,
    ensures
        ({
            let (notes, seats) = build_entries(voicing, at, length, stagger, from_top, vowel, level, steps);
            let rank = entering(step as int, from_top);
            let late = entered(voicing, from_top, step) * stagger;
            &&& seats == entered(voicing, from_top, steps)
            &&& 0 <= late
            &&& step < steps && voicing[rank] is Some && late < length ==> notes.contains(
                voice(rank, at + late, length - late, voicing[rank]->0, vowel, level),
            )
            &&& forall|i: int|
                0 <= i < notes.len() && (#[trigger] notes[i]).part == Part::ranked(rank) ==> voicing[rank]
                    is Some && late < length && notes[i] == voice(
                    rank,
                    at + late,
                    length - late,
                    voicing[rank]->0,
                    vowel,
                    level,
                )
        }),
    decreases steps,
{
    let rank = entering(step as int, from_top);
    let turn = entered(voicing, from_top, step);
    let late = turn * stagger;
    assert(0 <= late) by (nonlinear_arith)
        requires
            turn >= 0,
            stagger >= 0,
            late == turn * stagger,
    ;
    if steps > 0 {
        let before = build_entries(
            voicing,
            at,
            length,
            stagger,
            from_top,
            vowel,
            level,
            (steps - 1) as nat,
        ).0;
        let notes = build_entries(voicing, at, length, stagger, from_top, vowel, level, steps).0;
        lemma_entries(voicing, at, length, stagger, from_top, vowel, level, (steps - 1) as nat, step);
        let want = voice(rank, at + late, length - late, voicing[rank]->0, vowel, level);
        if step < steps && voicing[rank] is Some && late < length {
            if step < steps - 1 {
                let i = choose|i: int| 0 <= i < before.len() && before[i] == want;
                assert(notes[i] == want);
            } else {
                assert(notes[before.len() as int] == want);
            }
        }
        assert forall|i: int| 0 <= i < notes.len() && (#[trigger] notes[i]).part == Part::ranked(rank) implies voicing[rank]
            is Some && late < length && notes[i] == want by {
            if i < before.len() {
                assert(notes[i] == before[i]);
            } else {
                assert(entering(steps - 1, from_top) == rank);
            }
        }
    }
}

/// In a build the voices that sing enter one by one, from the bottom or from the top, each a stagger
/// behind the one before it, and all hold to the end of the gesture. One whose turn would come when the
/// gesture is over does not sing.
pub proof fn a_build_assembles(
    voicing: Seq<Option<u8>>,
    length: u64,
    stagger: u64,
    from_top: bool,
    vowel: Vowel,
    level: u8,
    at: u64,
    part: Part,
)
    requires
        voicing.len() == 4,
        at + length <= u64::MAX,
    ensures
        ({
            let notes = gesture_notes(
                Phrase::Build { voicing, length, stagger, from_top, vowel, level },
                at as int,
            );
            let r = part.rank() as int;
            let turn = ahead(voicing, 0, r, from_top) + ahead(voicing, 1, r, from_top) + ahead(
                voicing,
                2,
                r,
                from_top,
            ) + ahead(voicing, 3, r, from_top);
            let late = turn * stagger;
            &&& voicing[r] matches Some(midi) ==> late < length ==> notes.contains(
                Note {
                    part,
                    start: (at + late) as u64,
                    length: (length - late) as u64,
                    midi,
                    level,
                    vowel,
                },
            )
            &&& forall|i: int|
                0 <= i < notes.len() && (#[trigger] notes[i]).part == part ==> voicing[r] == Some(
                    notes[i].midi,
                ) && late < length && notes[i].start == at + late && notes[i].ends() == at + length
                    && notes[i].level == level && notes[i].vowel == vowel
        }),
{
    let r = part.rank() as int;
    let step = entering(r, from_top);
    assert(entering(step, from_top) == r);
    assert(0 <= step < 4);
    lemma_entries(voicing, at as int, length as int, stagger as int, from_top, vowel, level, 4, step as nat);
    lemma_turn(voicing, r, from_top);
    assert(Part::ranked(r) == part);
}

/// A soloist's notes follow one another without a gap, from the start of the gesture on, each as long
/// as it is written.
pub proof fn a_line_is_sung_in_turn(line: Seq<SoloNote>, part: Part, at: int, level: u8, i: int)
    requires
        0 <= at,
        at + line_ticks(line) <= u64::MAX,
        0 <= i < line.len(),
    ensures
        solo_line(line, part, at, level).len() == line.len(),
        ({
            let note = solo_line(line, part, at, level)[i];
            &&& note.part == part
            &&& note.length == line[i].length
            &&& note.midi == line[i].midi
            &&& note.vowel == line[i].vowel
            &&& note.level == level
            &&& i == 0 ==> note.start == at
            &&& i + 1 < line.len() ==> solo_line(line, part, at, level)[i + 1].start == note.ends()
            &&& i + 1 == line.len() ==> note.ends() == at + line_ticks(line)
        }),
    decreases line.len(),
{
    let before = line.drop_last();
    lemma_line_notes(before, part, at, level);
    if i < before.len() {
        a_line_is_sung_in_turn(before, part, at, level, i);
        assert(before[i] == line[i]);
    }
}

proof fn lemma_line_notes(line: Seq<SoloNote>, part: Part, at: int, level: u8)
    ensures
        solo_line(line, part, at, level).len() == line.len(),
        forall|i: int| 0 <= i < line.len() ==> (#[trigger] solo_line(line, part, at, level)[i]).part == part,
    decreases line.len(),
{
    if line.len() > 0 {
        lemma_line_notes(line.drop_last(), part, at, level);
    }
}

/// While a soloist sings, the other parts hold their notes for the whole of the line, on their own
/// vowel, and the soloist sings nothing but the line.
pub proof fn a_solo_is_sung_over_a_chord(
    part: Part,
    notes: Seq<SoloNote>,
    under: Seq<Option<u8>>,
    under_vowel: Vowel,
    level: u8,
    at: u64,
    other: Part,
    i: int,
)
    requires
        under.len() == 4,
        at + line_ticks(notes) <= u64::MAX,
        other != part,
    ensures
        ({
            let all = gesture_notes(Phrase::Solo { part, notes, under, under_vowel, level }, at as int);
            &&& under[other.rank() as int] matches Some(midi) ==> all.contains(
                Note {
                    part: other,
                    start: at,
                    length: line_ticks(notes) as u64,
                    midi,
                    level,
                    vowel: under_vowel,
                },
            )
            &&& under[other.rank() as int] is None ==> forall|k: int|
                0 <= k < all.len() ==> (#[trigger] all[k]).part != other
            &&& 0 <= i < notes.len() ==> all[all.len() - notes.len() + i] == solo_line(
                notes,
                part,
                at as int,
                level,
            )[i]
            &&& forall|k: int|
                0 <= k < all.len() - notes.len() ==> (#[trigger] all[k]).part != part
        }),
{
    let length = line_ticks(notes) as int;
    lemma_every_voice(under, at as int, length, under_vowel, level, Some(part), 4, other);
    lemma_line_notes(notes, part, at as int, level);
    let held = held_chord(under, at as int, length, under_vowel, level, Some(part), 4);
    let line = solo_line(notes, part, at as int, level);
    let all = held + line;
    if let Some(midi) = under[other.rank() as int] {
        let want = Note {
            part: other,
            start: at,
            length: length as u64,
            midi,
            level,
            vowel: under_vowel,
        };
        let k = choose|k: int| 0 <= k < held.len() && held[k] == want;
        assert(all[k] == want);
    }
    assert forall|k: int| 0 <= k < all.len() implies (k < held.len() ==> (#[trigger] all[k]) == held[k]) && (
    k >= held.len() ==> all[k].part == part) by {
        if k >= held.len() {
            assert(all[k] == line[k - held.len()]);
        }
    }
}

/// Gestures follow one another: a piece lasts as long as its gestures together, and each begins where
/// those before it end.
pub proof fn gestures_follow_one_another(gestures: Seq<Phrase>, k: int)
    requires
        0 <= k < gestures.len(),
    ensures
        total_ticks(gestures.take(k + 1)) == total_ticks(gestures.take(k)) + gestures[k].ticks(),
        total_ticks(gestures.take(0)) == 0,
        total_ticks(gestures) >= gestures[k].ticks(),
        forall|i: int|
            0 <= i < gesture_notes(gestures[k], total_ticks(gestures.take(k)) as int).len() ==> compiled(
                gestures,
            ).contains(#[trigger] gesture_notes(gestures[k], total_ticks(gestures.take(k)) as int)[i]),
    decreases gestures.len(),
{
    assert(gestures.take(k + 1).drop_last() =~= gestures.take(k));
    assert(gestures.take(k + 1).last() == gestures[k]);
    let before = gestures.drop_last();
    let own = gesture_notes(gestures[k], total_ticks(gestures.take(k)) as int);
    let last = gesture_notes(gestures.last(), total_ticks(before) as int);
    if k == gestures.len() - 1 {
        assert(gestures.take(k) =~= before);
        assert forall|i: int| 0 <= i < own.len() implies compiled(gestures).contains(
            #[trigger] own[i],
        ) by {
            assert(compiled(gestures)[compiled(before).len() + i] == own[i]);
        }
    } else {
        assert(before.take(k) =~= gestures.take(k));
        assert(before[k] == gestures[k]);
        gestures_follow_one_another(before, k);
        assert forall|i: int| 0 <= i < own.len() implies compiled(gestures).contains(
            #[trigger] own[i],
        ) by {
            assert(compiled(before).contains(own[i]));
            let m = choose|m: int| 0 <= m < compiled(before).len() && compiled(before)[m] == own[i];
            assert(compiled(gestures)[m] == own[i]);
        }
    }
}

/// How long each gesture lasts: as written, and a solo as long as its notes together.
pub proof fn how_long_a_gesture_lasts(gesture: Phrase)
    ensures
        gesture matches Phrase::Chord { length, .. } ==> gesture.ticks() == length,
        gesture matches Phrase::Build { length, .. } ==> gesture.ticks() == length,
        gesture matches Phrase::Rest { length } ==> gesture.ticks() == length && gesture_notes(
            gesture,
            0,
        ).len() == 0,
        gesture matches Phrase::Solo { notes, .. } ==> (notes.len() == 0 ==> gesture.ticks() == 0) && (
        notes.len() > 0 ==> gesture.ticks() == line_ticks(notes.drop_last()) + notes.last().length),
{
}

/// Where one note of a part ends and the next begins: on the same pitch and vowel they are one note,
/// which keeps its first dynamic; a change of pitch or of vowel is sung anew.
pub proof fn a_tie_is_one_note(line: Seq<Note>, note: Note, per_beat: u64)
    requires
        line.len() > 0,
        line.last().part == note.part,
        line.last().ends() == note.start,
        line.last().length > 0,
        note.ends() <= u64::MAX,
        per_beat > 0,
    ensures
        line.last().midi == note.midi && line.last().vowel == note.vowel ==> joined(line, note, per_beat)
            == line.drop_last().push(
            Note { length: (line.last().length + note.length) as u64, ..line.last() },
        ),
        line.last().midi != note.midi || line.last().vowel != note.vowel ==> joined(line, note, per_beat)
            == line.push(note),
{
    assert(line.drop_last().push(line.last()) =~= line);
}

/// One voice sings one note at a time: a note that still sounds where the next of its part begins is
/// cut there, and a note of another part touches nothing.
pub proof fn the_next_note_cuts_the_last(line: Seq<Note>, note: Note, per_beat: u64)
    requires
        line.len() > 0,
        line.last().ends() <= u64::MAX,
    ensures
        line.last().part != note.part ==> joined(line, note, per_beat) == line.push(note),
        line.last().part == note.part && line.last().midi != note.midi && line.last().start < note.start
            < line.last().ends() ==> joined(line, note, per_beat) == line.drop_last().push(
            Note { length: (note.start - line.last().start) as u64, ..line.last() },
        ).push(note),
        line.last().part == note.part && line.last().midi != note.midi && line.last().start == note.start
            && line.last().length > 0 ==> joined(line, note, per_beat) == line,
        line.last().part == note.part && note.start > line.last().ends() && (note.start
            - line.last().ends()) * 1_000_000 >= per_beat ==> joined(line, note, per_beat) == line.push(
            note,
        ),
{
    assert(line.drop_last().push(line.last()) =~= line);
}

/// Putting notes in order neither adds nor drops any: they come part by part, and within a part in
/// order of time.
pub proof fn order_keeps_the_notes(notes: Seq<Note>, i: int, j: int)
    ensures
        in_order(notes).len() == notes.len(),
        in_order(notes).to_multiset() == notes.to_multiset(),
        0 <= i < j < notes.len() ==> in_order(notes)[i].part.rank() <= in_order(notes)[j].part.rank(),
        0 <= i < j < notes.len() && in_order(notes)[i].part == in_order(notes)[j].part ==> in_order(
            notes,
        )[i].start <= in_order(notes)[j].start,
{
    lemma_in_order(notes);
    if 0 <= i < j < notes.len() {
        assert(precedes(in_order(notes)[i], in_order(notes)[j]));
    }
}

/// A piece runs to the end of its last note: no note ends later, and one ends there.
pub proof fn a_piece_runs_to_its_last_note(notes: Seq<Note>, i: int)
    requires
        0 <= i < notes.len(),
    ensures
        notes[i].ends() <= latest_end(notes),
        exists|k: int| 0 <= k < notes.len() && (#[trigger] notes[k]).ends() == latest_end(notes),
    decreases notes.len(),
{
    let rest = notes.drop_last();
    if rest.len() > 0 {
        let j = if i < rest.len() {
            i
        } else {
            0
        };
        a_piece_runs_to_its_last_note(rest, j);
        assert(rest[j] == notes[j]);
        let k = choose|k: int| 0 <= k < rest.len() && (#[trigger] rest[k]).ends() == latest_end(rest);
        assert(rest[k] == notes[k]);
    } else {
        assert(latest_end(rest) == 0);
    }
    assert(notes[notes.len() - 1] == notes.last());
}

/// At a tempo of so many beats a minute, a piece of so many beats lasts so many minutes: sixty million
/// microseconds to each.
pub proof fn how_long_a_piece_lasts(score: Score, beats: nat, bpm: nat)
    requires
        score.valid(),
        bpm > 0,
        score.tempo.beats == bpm * score.tempo.per,
        latest_end(score.notes@) == beats * score.ticks_per_beat,
    ensures
        score.lasting_us() == (beats * 60_000_000) / bpm,
{
    let per = score.tempo.per as int;
    let t = score.ticks_per_beat as int;
    let b = bpm as int;
    let n = beats as int;
    assert(score.tempo.pace() == b * per) by {
        assert(b * per >= per) by (nonlinear_arith)
            requires
                b >= 1,
                per >= 0,
        ;
    }
    let k = t * per;
    assert(k > 0) by (nonlinear_arith)
        requires
            t > 0,
            per > 0,
            k == t * per,
    ;
    assert((n * t) * 60_000_000 * per == (n * 60_000_000) * k) by (nonlinear_arith)
        requires
            k == t * per,
    ;
    assert(t * (b * per) == k * b) by (nonlinear_arith)
        requires
            k == t * per,
    ;
    vstd::arithmetic::div_mod::lemma_div_denominator((n * 60_000_000) * k, k, b);
    vstd::arithmetic::div_mod::lemma_div_multiples_vanish(n * 60_000_000, k);
    assert(k * (n * 60_000_000) == (n * 60_000_000) * k) by (nonlinear_arith);
}

/// A tempo slower than a beat a minute is sung at one.
pub proof fn no_tempo_stands_still(tempo: Tempo)
    ensures
        tempo.beats >= tempo.per ==> tempo.pace() == tempo.beats,
        tempo.beats < tempo.per ==> tempo.pace() == tempo.per,
{
}

/// A part's mean pitch lies among its pitches: no lower than the lowest, no higher than the highest.
pub proof fn the_mean_lies_among_the_pitches(line: Seq<Note>, low: u8, high: u8)
    requires
        forall|i: int| 0 <= i < line.len() ==> low <= (#[trigger] line[i]).midi <= high,
    ensures
        low * held_ticks(line) <= weighted_pitch(line) <= high * held_ticks(line),
    decreases line.len(),
{
    if line.len() > 0 {
        let rest = line.drop_last();
        assert forall|i: int| 0 <= i < rest.len() implies low <= (#[trigger] rest[i]).midi <= high by {
            assert(rest[i] == line[i]);
        }
        the_mean_lies_among_the_pitches(rest, low, high);
        assert(line[line.len() - 1] == line.last());
        let (m, l) = (line.last().midi as int, line.last().length as int);
        let h = held_ticks(rest) as int;
        let (lo, hi) = (low as int, high as int);
        assert(lo * (h + l) == lo * h + lo * l) by (nonlinear_arith);
        assert(hi * (h + l) == hi * h + hi * l) by (nonlinear_arith);
        assert(lo * l <= m * l <= hi * l) by (nonlinear_arith)
            requires
                lo <= m <= hi,
                l >= 0,
        ;
    } else {
        assert(low * 0 == 0 && high * 0 == 0) by (nonlinear_arith);
    }
}

proof fn lemma_has_line(notes: Seq<Note>, part: Part)
    ensures
        line_of(notes, part).len() > 0 <==> exists|i: int|
            0 <= i < notes.len() && (#[trigger] notes[i]).part == part,
    decreases notes.len(),
{
    reveal(Seq::filter);
    if notes.len() > 0 {
        let rest = notes.drop_last();
        lemma_has_line(rest, part);
        if exists|i: int| 0 <= i < rest.len() && (#[trigger] rest[i]).part == part {
            let i = choose|i: int| 0 <= i < rest.len() && (#[trigger] rest[i]).part == part;
            assert(notes[i].part == part);
        }
        if notes.last().part == part {
            assert(notes[notes.len() - 1].part == part);
        }
        if exists|i: int| 0 <= i < notes.len() && (#[trigger] notes[i]).part == part {
            let i = choose|i: int| 0 <= i < notes.len() && (#[trigger] notes[i]).part == part;
            if i < rest.len() {
                assert(rest[i].part == part);
            }
        }
    }
}

/// A part sings in a score where it has a note, and only there.
pub proof fn who_has_a_note_sings(notes: Seq<Note>, part: Part)
    ensures
        singing(notes, 4).contains(part) <==> exists|i: int|
            0 <= i < notes.len() && (#[trigger] notes[i]).part == part,
{
    reveal_with_fuel(singing, 5);
    lemma_has_line(notes, Part::Bass);
    lemma_has_line(notes, Part::Tenor);
    lemma_has_line(notes, Part::Alto);
    lemma_has_line(notes, Part::Soprano);
    let one = singing(notes, 1);
    let two = singing(notes, 2);
    let three = singing(notes, 3);
    let all = singing(notes, 4);
    if line_of(notes, part).len() > 0 {
        let r = part.rank() as int;
        assert(Part::ranked(r) == part);
        let k = singing(notes, r as nat).len() as int;
        if r == 0 {
            assert(one[k] == part && two[k] == part && three[k] == part && all[k] == part);
        } else if r == 1 {
            assert(two[k] == part && three[k] == part && all[k] == part);
        } else if r == 2 {
            assert(three[k] == part && all[k] == part);
        } else {
            assert(all[k] == part);
        }
    }
    assert(Part::ranked(0) == Part::Bass && Part::ranked(1) == Part::Tenor && Part::ranked(2) == Part::Alto
        && Part::ranked(3) == Part::Soprano);
}

} // verus!
